//! The attribute that turns the methods of an impl block into methods of a
//! server: what they take as arguments they read out of a request's parameters.
//!
//! Parts of Rust code that nothing looks into are held as the text of their
//! tokens.
use convert_case::Casing;
use vstd::prelude::*;
use vstd::string::*;

verus! {

/// The arguments of a segment of a path.
pub enum PathArguments {
    Empty,
    /// `<..>`, with the brackets.
    AngleBracketed(String),
    /// `(..) -> ..`, with the brackets.
    Parenthesized(String),
}

impl PathArguments {
    /// The arguments' tokens.
    pub open spec fn text(self) -> Seq<char> {
        match self {
            PathArguments::Empty => Seq::empty(),
            PathArguments::AngleBracketed(text) => text@,
            PathArguments::Parenthesized(text) => text@,
        }
    }
}

/// A segment of a path.
pub struct PathSegment {
    pub ident: String,
    pub arguments: PathArguments,
}

/// A path.
pub struct Path {
    pub leading_colon: bool,
    pub segments: Vec<PathSegment>,
}

/// The trait that an impl block is for: `!`, if it is there, and the trait's path.
pub struct TraitRef {
    pub negative: bool,
    pub path: Path,
}

/// An argument in a function's header.
pub enum FnArg {
    /// Some form of `self`.
    Receiver(String),
    /// A pattern and its type.
    Typed { pat: String, ty: String },
}

/// A function's header.
pub struct Signature {
    /// What stands before `fn`.
    pub qualifiers: String,
    pub ident: String,
    pub generics: String,
    pub inputs: Vec<FnArg>,
    /// `-> ..`, or nothing.
    pub output: String,
    pub where_clause: String,
}

/// A function's body.
pub struct Block {
    pub stmts: Vec<String>,
}

/// A function in an impl block.
pub struct ImplItemFn<P> {
    /// What belongs to the function besides, such as attributes and visibility.
    pub prefix: P,
    pub sig: Signature,
    pub block: Block,
}

/// An item in an impl block.
pub enum ImplItem<P> {
    Fn(ImplItemFn<P>),
    /// A constant, a type or a macro call.
    Other(String),
}

/// An impl block.
pub struct ItemImpl<P> {
    /// What stands before the trait: attributes, `impl` and generics.
    pub prefix: String,
    pub trait_: Option<TraitRef>,
    pub self_ty: String,
    pub where_clause: String,
    pub items: Vec<ImplItem<P>>,
}

impl Clone for FnArg {
    fn clone(&self) -> (r: Self)
        ensures
            r == *self,
    {
        match self {
            FnArg::Receiver(text) => FnArg::Receiver(text.clone()),
            FnArg::Typed { pat, ty } => FnArg::Typed { pat: pat.clone(), ty: ty.clone() },
        }
    }
}

impl Signature {
    /// A method: it takes `self`, which comes first and only there.
    pub open spec fn is_method(self) -> bool {
        &&& self.inputs@.len() > 0
        &&& self.inputs@[0] is Receiver
        &&& forall|i: int| 1 <= i < self.inputs@.len() ==> (#[trigger] self.inputs@[i]) is Typed
    }
}

/// The functions among the first `n` items.
pub open spec fn functions<P>(items: Seq<ImplItem<P>>, n: int) -> Seq<ImplItemFn<P>>
    decreases n,
{
    if n <= 0 {
        Seq::empty()
    } else {
        match items[n - 1] {
            ImplItem::Fn(f) => functions(items, n - 1).push(f),
            ImplItem::Other(_) => functions(items, n - 1),
        }
    }
}

/// The trait's generic arguments, with the brackets; nothing where it has none.
pub open spec fn trait_generics(trait_: TraitRef) -> Seq<char> {
    match trait_.path.segments@.last().arguments {
        PathArguments::AngleBracketed(text) => text@,
        _ => Seq::empty(),
    }
}

/// The type that holds the parameters or the results of a method.
pub open spec fn message_type(
    namespace: Seq<char>,
    method: Seq<char>,
    suffix: Seq<char>,
    generics: Seq<char>,
) -> Seq<char> {
    namespace + "::"@ + pascal_case(method) + suffix + generics
}

/// Whether an argument is a pattern with a type.
pub open spec fn is_typed(arg: FnArg, pattern: Seq<char>, type_text: Seq<char>) -> bool {
    arg matches FnArg::Typed { pat, ty } && pat@ == pattern && ty@ == type_text
}

/// Whether `new` is the header that `old_sig` becomes.
pub open spec fn is_server_signature(
    new: Signature,
    old_sig: Signature,
    namespace: Seq<char>,
    generics: Seq<char>,
) -> bool {
    &&& new.qualifiers == old_sig.qualifiers
    &&& new.ident == old_sig.ident
    &&& new.generics == old_sig.generics
    &&& new.where_clause == old_sig.where_clause
    &&& new.output@ == "-> Result<(), capnp::Error>"@
    &&& new.inputs@.len() == 3
    &&& new.inputs@[0] == old_sig.inputs@[0]
    &&& is_typed(
        new.inputs@[1],
        "params"@,
        message_type(namespace, old_sig.ident@, "Params"@, generics),
    )
    &&& is_typed(
        new.inputs@[2],
        "mut results"@,
        message_type(namespace, old_sig.ident@, "Results"@, generics),
    )
}

/// The patterns of the first `n` arguments, separated by commas.
pub open spec fn patterns(args: Seq<FnArg>, n: int) -> Seq<char>
    decreases n,
{
    if n <= 0 {
        Seq::empty()
    } else if n == 1 {
        args[0]->Typed_pat@
    } else {
        patterns(args, n - 1) + ", "@ + args[n - 1]->Typed_pat@
    }
}

/// The statement that takes the arguments out of the parameters.
pub open spec fn let_statement(args: Seq<FnArg>) -> Seq<char> {
    "::capnp_macros::capnp_let!({"@ + patterns(args, args.len() as int) + "} = rparams);"@
}

/// Whether `new` is the body that `old_block` becomes: the same statements, after
/// two that take the arguments out of the parameters.
pub open spec fn is_server_block(new: Block, old_block: Block, args: Seq<FnArg>) -> bool {
    &&& new.stmts@.len() == old_block.stmts@.len() + 2
    &&& new.stmts@[0]@ == "let rparams = params.get()?;"@
    &&& new.stmts@[1]@ == let_statement(args)
    &&& new.stmts@.skip(2) == old_block.stmts@
}

/// Whether `new` is the method that `method` becomes.
pub open spec fn is_server_method<P>(
    new: ImplItemFn<P>,
    method: ImplItemFn<P>,
    namespace: Seq<char>,
    generics: Seq<char>,
) -> bool {
    &&& new.prefix == method.prefix
    &&& is_server_signature(new.sig, method.sig, namespace, generics)
    &&& is_server_block(new.block, method.block, method.sig.inputs@.skip(1))
}

/// Turns an impl block of a trait into one of a server: each function becomes a
/// method of the server, and what is no function is left out.
pub fn process_capnproto_rpc<P>(namespace: &str, item: ItemImpl<P>) -> (r: ItemImpl<P>)
    requires
        item.trait_ matches Some(t) && t.path.segments@.len() > 0,
        forall|i: int|
            0 <= i < item.items@.len() ==> ((#[trigger] item.items@[i]) matches ImplItem::Fn(f)
                ==> f.sig.is_method()),
    ensures
        r.prefix == item.prefix,
        r.trait_ == item.trait_,
        r.self_ty == item.self_ty,
        r.where_clause == item.where_clause,
        ({
            let methods = functions(item.items@, item.items@.len() as int);
            let generics = trait_generics(item.trait_->0);
            &&& r.items@.len() == methods.len()
            &&& forall|i: int|
                0 <= i < methods.len() ==> ((#[trigger] r.items@[i]) matches ImplItem::Fn(f)
                    && is_server_method(f, methods[i], namespace@, generics))
        }),
{
    let ghost all = item.items@;
    let ItemImpl { prefix, trait_, self_ty, where_clause, items } = item;
    let generics = extract_generics_from_trait(&trait_);
    let ghost text = generics.text();
    let mut rest = reversed(items);
    let mut new_items: Vec<ImplItem<P>> = Vec::new();
    let ghost mut n: int = 0;
    while rest.len() > 0
        invariant
            0 <= n <= all.len(),
            rest@ == all.skip(n).reverse(),
            text == generics.text(),
            forall|i: int|
                0 <= i < all.len() ==> ((#[trigger] all[i]) matches ImplItem::Fn(f)
                    ==> f.sig.is_method()),
            new_items@.len() == functions(all, n).len(),
            forall|i: int|
                0 <= i < new_items@.len() ==> ((#[trigger] new_items@[i]) matches ImplItem::Fn(f)
                    && is_server_method(f, functions(all, n)[i], namespace@, text)),
        decreases rest@.len(),
    {
        proof {
            assert(rest@.last() == all[n]);
            assert(rest@.drop_last() =~= all.skip(n + 1).reverse());
            n = n + 1;
        }
        if let Some(ImplItem::Fn(method)) = rest.pop() {
            new_items.push(ImplItem::Fn(process_fn_item(namespace, method, &generics)));
        }
    }
    ItemImpl { prefix, trait_, self_ty, where_clause, items: new_items }
}

/// The items in the opposite order.
fn reversed<T>(items: Vec<T>) -> (r: Vec<T>)
    ensures
        r@ == items@.reverse(),
{
    let ghost all = items@;
    let mut items = items;
    let mut r: Vec<T> = Vec::new();
    while items.len() > 0
        invariant
            items@.len() <= all.len(),
            items@ == all.take(items@.len() as int),
            r@ == all.skip(items@.len() as int).reverse(),
        decreases items@.len(),
    {
        let ghost k = items@.len() as int;
        if let Some(item) = items.pop() {
            assert(items@ =~= all.take(k - 1));
            r.push(item);
            assert(r@ =~= all.skip(k - 1).reverse());
        }
    }
    assert(all.skip(0) =~= all);
    r
}

/// The generic arguments of an impl block's trait, if it has any.
pub fn extract_generics_from_trait(trait_: &Option<TraitRef>) -> (r: PathArguments)
    requires
        *trait_ matches Some(t) && t.path.segments@.len() > 0,
    ensures
        r is Parenthesized == false,
        r is AngleBracketed <==> trait_->0.path.segments@.last().arguments is AngleBracketed,
        r.text() == trait_generics(trait_->0),
{
    match trait_ {
        Some(TraitRef { path, .. }) => {
            let last = path.segments.len() - 1;
            match &path.segments[last].arguments {
                PathArguments::AngleBracketed(text) => PathArguments::AngleBracketed(text.clone()),
                _ => PathArguments::Empty,
            }
        },
        None => PathArguments::Empty,
    }
}

/// The method of a server that a method becomes.
pub fn process_fn_item<P>(namespace: &str, item: ImplItemFn<P>, generics: &PathArguments) -> (r:
    ImplItemFn<P>)
    requires
        item.sig.is_method(),
    ensures
        is_server_method(r, item, namespace@, generics.text()),
{
    let ImplItemFn { prefix, sig, block } = item;
    let mut args: Vec<FnArg> = Vec::new();
    let mut i: usize = 1;
    while i < sig.inputs.len()
        invariant
            1 <= i <= sig.inputs@.len(),
            args@ == sig.inputs@.subrange(1, i as int),
        decreases sig.inputs@.len() - i,
    {
        args.push(sig.inputs[i].clone());
        assert(args@ =~= sig.inputs@.subrange(1, i + 1));
        i += 1;
    }
    assert(args@ =~= sig.inputs@.skip(1));
    let block = process_block(block, args);
    let sig = process_signature(namespace, sig, generics);
    ImplItemFn { prefix, sig, block }
}

/// A text in Pascal case.
pub uninterp spec fn pascal_case(text: Seq<char>) -> Seq<char>;

/// `convert_case::Casing::to_case` with `Case::Pascal`: the text in Pascal case.
#[verifier::external_body]
fn to_pascal_case(text: &str) -> (r: String)
    ensures
        r@ == pascal_case(text@),
{
    text.to_case(convert_case::Case::Pascal)
}

/// The type that holds the parameters or the results of a method.
fn message_type_text(namespace: &str, method: &str, suffix: &str, generics: &PathArguments) -> (r:
    String)
    ensures
        r@ == message_type(namespace@, method@, suffix@, generics.text()),
{
    let mut text = namespace.to_owned();
    text.append("::");
    text.append(to_pascal_case(method).as_str());
    text.append(suffix);
    match generics {
        PathArguments::Empty => {
            assert(text@ =~= text@ + generics.text());
        },
        PathArguments::AngleBracketed(args) => text.append(args.as_str()),
        PathArguments::Parenthesized(args) => text.append(args.as_str()),
    }
    text
}

/// The header that a method's header becomes.
pub fn process_signature(namespace: &str, sig: Signature, generics: &PathArguments) -> (r:
    Signature)
    requires
        sig.inputs@.len() > 0,
        sig.inputs@[0] is Receiver,
    ensures
        is_server_signature(r, sig, namespace@, generics.text()),
{
    let Signature { qualifiers, ident, generics: own_generics, inputs: args, where_clause, .. } =
        sig;
    let mut inputs: Vec<FnArg> = Vec::new();
    inputs.push(args[0].clone());
    inputs.push(
        FnArg::Typed {
            pat: "params".to_owned(),
            ty: message_type_text(namespace, ident.as_str(), "Params", generics),
        },
    );
    inputs.push(
        FnArg::Typed {
            pat: "mut results".to_owned(),
            ty: message_type_text(namespace, ident.as_str(), "Results", generics),
        },
    );
    Signature {
        qualifiers,
        ident,
        generics: own_generics,
        inputs,
        output: "-> Result<(), capnp::Error>".to_owned(),
        where_clause,
    }
}

/// The body that a method's body becomes, given the method's arguments after
/// `self`.
pub fn process_block(block: Block, args: Vec<FnArg>) -> (r: Block)
    requires
        forall|i: int| 0 <= i < args@.len() ==> (#[trigger] args@[i]) is Typed,
    ensures
        is_server_block(r, block, args@),
{
    let mut text = "::capnp_macros::capnp_let!({".to_owned();
    let ghost open = text@;
    let mut i: usize = 0;
    assert(text@ =~= open + patterns(args@, 0));
    while i < args.len()
        invariant
            0 <= i <= args@.len(),
            forall|j: int| 0 <= j < args@.len() ==> (#[trigger] args@[j]) is Typed,
            text@ == open + patterns(args@, i as int),
        decreases args@.len() - i,
    {
        let ghost before = patterns(args@, i as int);
        if i > 0 {
            text.append(", ");
            assert(text@ =~= open + (before + ", "@));
        }
        if let FnArg::Typed { pat, .. } = &args[i] {
            text.append(pat.as_str());
            assert(text@ =~= open + patterns(args@, i + 1));
        }
        i += 1;
    }
    text.append("} = rparams);");
    assert(text@ =~= let_statement(args@));
    let Block { mut stmts } = block;
    let ghost kept = stmts@;
    stmts.insert(0, "let rparams = params.get()?;".to_owned());
    stmts.insert(1, text);
    assert(stmts@.skip(2) =~= kept);
    Block { stmts }
}

/// The text of arguments is what they hold.
pub proof fn law_argument_text(text: String)
    ensures
        PathArguments::Empty.text().len() == 0,
        PathArguments::AngleBracketed(text).text() == text@,
        PathArguments::Parenthesized(text).text() == text@,
{
}

/// However many segments a trait's path has: its generic arguments are those of the
/// last segment, where that has some in angle brackets, and none otherwise.
pub proof fn law_generics_are_those_of_the_trait(trait_: TraitRef)
    requires
        trait_.path.segments@.len() > 0,
    ensures
        ({
            let last = trait_.path.segments@[trait_.path.segments@.len() - 1];
            match last.arguments {
                PathArguments::AngleBracketed(text) => trait_generics(trait_) == text@,
                PathArguments::Parenthesized(_) => trait_generics(trait_).len() == 0,
                PathArguments::Empty => trait_generics(trait_).len() == 0,
            }
        }),
{
}

/// What comes first in a trait's path has no say in its generic arguments.
pub proof fn law_generics_ignore_the_path(a: TraitRef, b: TraitRef)
    requires
        a.path.segments@.len() > 0,
        b.path.segments@.len() > 0,
        a.path.segments@.last().arguments == b.path.segments@.last().arguments,
    ensures
        trait_generics(a) == trait_generics(b),
{
}

/// Every function whose first argument is `self`, and no other, is a method.
pub proof fn law_methods(sig: Signature)
    ensures
        sig.is_method() <==> {
            &&& sig.inputs@.len() > 0
            &&& sig.inputs@[0] is Receiver
            &&& forall|i: int| 1 <= i < sig.inputs@.len() ==> !(#[trigger] sig.inputs@[i] is Receiver)
        },
{
    if sig.inputs@.len() > 0 && sig.inputs@[0] is Receiver && forall|i: int|
        1 <= i < sig.inputs@.len() ==> !(#[trigger] sig.inputs@[i] is Receiver) {
        assert forall|i: int| 1 <= i < sig.inputs@.len() implies (#[trigger] sig.inputs@[i]) is Typed by {
            assert(!(sig.inputs@[i] is Receiver));
        }
    }
    if sig.is_method() {
        assert forall|i: int| 1 <= i < sig.inputs@.len() implies !(#[trigger] sig.inputs@[i] is Receiver) by {
            assert(sig.inputs@[i] is Typed);
        }
    }
}

/// A method of a server takes `self` as the method did, then its parameters and its
/// results, whose types are named after the method, in the interface's namespace, and
/// end with the trait's generic arguments. Everything else about it stays, but for
/// what it returns.
pub proof fn law_server_signature(
    new: Signature,
    method: Signature,
    namespace: Seq<char>,
    generics: Seq<char>,
)
    requires
        is_server_signature(new, method, namespace, generics),
    ensures
        new.qualifiers@ == method.qualifiers@,
        new.ident@ == method.ident@,
        new.generics@ == method.generics@,
        new.where_clause@ == method.where_clause@,
        new.output@ == "-> Result<(), capnp::Error>"@,
        new.inputs@.len() == 3,
        new.inputs@[0] == method.inputs@[0],
        new.inputs@[1] matches FnArg::Typed { pat, ty } && pat@ == "params"@ && ty@ == namespace
            + "::"@ + pascal_case(method.ident@) + "Params"@ + generics,
        new.inputs@[2] matches FnArg::Typed { pat, ty } && pat@ == "mut results"@ && ty@ == namespace
            + "::"@ + pascal_case(method.ident@) + "Results"@ + generics,
{
}

/// The types of a method's parameters and results end with the generic arguments,
/// and so do not depend on anything else when those change.
pub proof fn law_message_types_end_with_generics(
    namespace: Seq<char>,
    method: Seq<char>,
    suffix: Seq<char>,
    generics: Seq<char>,
)
    ensures
        message_type(namespace, method, suffix, generics) == message_type(
            namespace,
            method,
            suffix,
            Seq::empty(),
        ) + generics,
        namespace.is_prefix_of(message_type(namespace, method, suffix, generics)),
{
    let bare = message_type(namespace, method, suffix, Seq::empty());
    let whole = message_type(namespace, method, suffix, generics);
    assert(bare =~= namespace + "::"@ + pascal_case(method) + suffix);
    assert(whole =~= bare + generics);
    assert(whole.subrange(0, namespace.len() as int) =~= namespace);
}

/// A method of a server first takes its arguments out of the parameters, and then
/// does what the method did.
pub proof fn law_server_block(new: Block, old_block: Block, args: Seq<FnArg>)
    requires
        is_server_block(new, old_block, args),
    ensures
        new.stmts@.len() == old_block.stmts@.len() + 2,
        new.stmts@[0]@ == "let rparams = params.get()?;"@,
        new.stmts@[1]@ == "::capnp_macros::capnp_let!({"@ + patterns(args, args.len() as int)
            + "} = rparams);"@,
        forall|i: int|
            0 <= i < old_block.stmts@.len() ==> #[trigger] old_block.stmts@[i] == new.stmts@[i + 2],
{
    assert forall|i: int| 0 <= i < old_block.stmts@.len() implies #[trigger] old_block.stmts@[i]
        == new.stmts@[i + 2] by {
        assert(new.stmts@.skip(2)[i] == new.stmts@[i + 2]);
    }
}

/// What belongs to a method besides its header and body stays, and the arguments
/// behind `self` are those that are taken out of the parameters.
pub proof fn law_server_method<P>(
    new: ImplItemFn<P>,
    method: ImplItemFn<P>,
    namespace: Seq<char>,
    generics: Seq<char>,
)
    requires
        is_server_method(new, method, namespace, generics),
        method.sig.inputs@.len() > 0,
    ensures
        new.prefix == method.prefix,
        is_server_signature(new.sig, method.sig, namespace, generics),
        is_server_block(
            new.block,
            method.block,
            method.sig.inputs@.subrange(1, method.sig.inputs@.len() as int),
        ),
{
    assert(method.sig.inputs@.skip(1) =~= method.sig.inputs@.subrange(
        1,
        method.sig.inputs@.len() as int,
    ));
}

/// The patterns of arguments: none of none, of one its own, and of two lists those of
/// the first, a comma, and those of the second.
pub proof fn law_patterns(first: Seq<FnArg>, second: Seq<FnArg>, pat: String, ty: String)
    ensures
        patterns(Seq::empty(), 0).len() == 0,
        patterns(seq![FnArg::Typed { pat, ty }], 1) == pat@,
        first.len() > 0 && second.len() > 0 ==> patterns(
            first + second,
            (first + second).len() as int,
        ) == patterns(first, first.len() as int) + ", "@ + patterns(second, second.len() as int),
    decreases second.len(),
{
    if first.len() > 0 && second.len() > 0 {
        lemma_patterns(first, second, second.len() as int);
    }
}

proof fn lemma_patterns_of_prefix(first: Seq<FnArg>, second: Seq<FnArg>, n: int)
    requires
        0 <= n <= first.len(),
    ensures
        patterns(first + second, n) == patterns(first, n),
    decreases n,
{
    if n > 0 {
        lemma_patterns_of_prefix(first, second, n - 1);
        assert((first + second)[n - 1] == first[n - 1]);
    }
}

proof fn lemma_patterns(first: Seq<FnArg>, second: Seq<FnArg>, n: int)
    requires
        first.len() > 0,
        0 < n <= second.len(),
    ensures
        patterns(first + second, first.len() + n) == patterns(first, first.len() as int) + ", "@
            + patterns(second, n),
    decreases n,
{
    let all = first + second;
    assert(all[first.len() + n - 1] == second[n - 1]);
    if n == 1 {
        lemma_patterns_of_prefix(first, second, first.len() as int);
    } else {
        lemma_patterns(first, second, n - 1);
        assert(patterns(first, first.len() as int) + ", "@ + patterns(second, n - 1) + ", "@
            + second[n - 1]->Typed_pat@ =~= patterns(first, first.len() as int) + ", "@ + patterns(
            second,
            n,
        ));
    }
}

/// The functions among items: one that is a function counts, one that is not does
/// not, and the functions of two lists are those of the first, then those of the
/// second.
pub proof fn law_functions<P>(
    first: Seq<ImplItem<P>>,
    second: Seq<ImplItem<P>>,
    f: ImplItemFn<P>,
    other: String,
)
    ensures
        functions(seq![ImplItem::Fn(f)], 1) == seq![f],
        functions(seq![ImplItem::<P>::Other(other)], 1).len() == 0,
        functions(first + second, (first + second).len() as int) == functions(
            first,
            first.len() as int,
        ) + functions(second, second.len() as int),
{
    reveal_with_fuel(functions, 2);
    assert(functions(seq![ImplItem::Fn(f)], 1) =~= seq![f]);
    lemma_functions(first, second, (first + second).len() as int);
}

proof fn lemma_functions<P>(first: Seq<ImplItem<P>>, second: Seq<ImplItem<P>>, n: int)
    requires
        0 <= n <= first.len() + second.len(),
    ensures
        n <= first.len() ==> functions(first + second, n) == functions(first, n),
        n >= first.len() ==> functions(first + second, n) == functions(first, first.len() as int)
            + functions(second, n - first.len()),
    decreases n,
{
    let all = first + second;
    if n > 0 {
        lemma_functions(first, second, n - 1);
        if n <= first.len() {
            assert(all[n - 1] == first[n - 1]);
        } else {
            assert(all[n - 1] == second[n - 1 - first.len()]);
        }
    }
    if n >= first.len() {
        assert(functions(all, n) =~= functions(first, first.len() as int) + functions(
            second,
            n - first.len(),
        ));
    }
}

} // verus!
