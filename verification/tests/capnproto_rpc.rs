use capnp::capnproto_rpc::{
    extract_generics_from_trait, process_block, process_capnproto_rpc, process_fn_item,
    process_signature, Block, FnArg, ImplItem, ImplItemFn, ItemImpl, Path, PathArguments,
    PathSegment, Signature, TraitRef,
};

fn receiver() -> FnArg {
    FnArg::Receiver("&self".to_string())
}

fn typed(pat: &str, ty: &str) -> FnArg {
    FnArg::Typed { pat: pat.to_string(), ty: ty.to_string() }
}

fn signature(ident: &str, inputs: Vec<FnArg>, output: &str) -> Signature {
    Signature {
        qualifiers: "async".to_string(),
        ident: ident.to_string(),
        generics: String::new(),
        inputs,
        output: output.to_string(),
        where_clause: String::new(),
    }
}

fn method(ident: &str, inputs: Vec<FnArg>, output: &str) -> ImplItemFn<String> {
    ImplItemFn {
        prefix: String::new(),
        sig: signature(ident, inputs, output),
        block: Block { stmts: vec!["Ok(())".to_string()] },
    }
}

fn server_trait(arguments: PathArguments) -> TraitRef {
    TraitRef {
        negative: false,
        path: Path {
            leading_colon: false,
            segments: vec![
                PathSegment {
                    ident: "generic_interface".to_string(),
                    arguments: PathArguments::Empty,
                },
                PathSegment { ident: "Server".to_string(), arguments },
            ],
        },
    }
}

fn argument(arg: &FnArg) -> (String, String) {
    match arg {
        FnArg::Receiver(text) => (text.clone(), String::new()),
        FnArg::Typed { pat, ty } => (pat.clone(), ty.clone()),
    }
}

#[test]
fn decorator_generic_test() {
    let item = ItemImpl {
        prefix: "impl".to_string(),
        trait_: Some(server_trait(PathArguments::AngleBracketed("<T0>".to_string()))),
        self_ty: "GenericInterfaceImpl<T0>".to_string(),
        where_clause: String::new(),
        items: vec![
            ImplItem::Fn(method(
                "generic_set_value",
                vec![receiver(), typed("value", "GenericInterfaceImpl<T0>")],
                "-> Result<(), capnp::Error>",
            )),
            ImplItem::Other("const X: u8 = 0;".to_string()),
            ImplItem::Fn(method("generic_get_value", vec![receiver()], "")),
        ],
    };
    let r = process_capnproto_rpc("generic_interface", item);
    assert_eq!(r.prefix, "impl");
    assert_eq!(r.self_ty, "GenericInterfaceImpl<T0>");
    assert_eq!(r.where_clause, "");
    assert_eq!(r.trait_.unwrap().path.segments.len(), 2);
    assert_eq!(r.items.len(), 2);
    let methods: Vec<&ImplItemFn<String>> = r
        .items
        .iter()
        .map(|item| match item {
            ImplItem::Fn(f) => f,
            ImplItem::Other(_) => panic!("no function"),
        })
        .collect();
    assert_eq!(methods[0].sig.ident, "generic_set_value");
    assert_eq!(methods[0].sig.qualifiers, "async");
    assert_eq!(methods[0].sig.output, "-> Result<(), capnp::Error>");
    assert_eq!(
        methods[0].sig.inputs.iter().map(argument).collect::<Vec<_>>(),
        vec![
            ("&self".to_string(), "".to_string()),
            (
                "params".to_string(),
                "generic_interface::GenericSetValueParams<T0>".to_string()
            ),
            (
                "mut results".to_string(),
                "generic_interface::GenericSetValueResults<T0>".to_string()
            ),
        ]
    );
    assert_eq!(
        methods[0].block.stmts,
        vec![
            "let rparams = params.get()?;",
            "::capnp_macros::capnp_let!({value} = rparams);",
            "Ok(())",
        ]
    );
    assert_eq!(methods[1].sig.ident, "generic_get_value");
    assert_eq!(methods[1].sig.output, "-> Result<(), capnp::Error>");
    assert_eq!(
        methods[1].block.stmts,
        vec![
            "let rparams = params.get()?;",
            "::capnp_macros::capnp_let!({} = rparams);",
            "Ok(())",
        ]
    );
    // What comes out is Rust code.
    for m in &methods {
        for stmt in &m.block.stmts[..2] {
            syn::parse_str::<syn::Stmt>(stmt).unwrap();
        }
        for input in &m.sig.inputs[1..] {
            let (pat, ty) = argument(input);
            syn::parse_str::<syn::FnArg>(&format!("{}: {}", pat, ty)).unwrap();
        }
        syn::parse_str::<syn::ReturnType>(&m.sig.output).unwrap();
    }
}

#[test]
fn only_angle_brackets_are_generics() {
    let angle = PathArguments::AngleBracketed("<A, B>".to_string());
    match extract_generics_from_trait(&Some(server_trait(angle))) {
        PathArguments::AngleBracketed(text) => assert_eq!(text, "<A, B>"),
        _ => panic!("no generics"),
    }
    let round = PathArguments::Parenthesized("(A) -> B".to_string());
    assert!(matches!(
        extract_generics_from_trait(&Some(server_trait(round))),
        PathArguments::Empty
    ));
    assert!(matches!(
        extract_generics_from_trait(&Some(server_trait(PathArguments::Empty))),
        PathArguments::Empty
    ));
}

#[test]
fn arguments_are_taken_out_in_order() {
    let block = Block { stmts: vec!["a();".to_string(), "b()".to_string()] };
    let r = process_block(block, vec![typed("x", "u8"), typed("y", "u16"), typed("z", "u32")]);
    assert_eq!(
        r.stmts,
        vec![
            "let rparams = params.get()?;",
            "::capnp_macros::capnp_let!({x, y, z} = rparams);",
            "a();",
            "b()",
        ]
    );
}

#[test]
fn header_keeps_what_is_not_replaced() {
    let mut sig = signature("do_it", vec![receiver(), typed("x", "u8")], "-> u8");
    sig.generics = "<'a>".to_string();
    sig.where_clause = "where Self: Sized".to_string();
    let r = process_signature("ns", sig, &PathArguments::Empty);
    assert_eq!(r.qualifiers, "async");
    assert_eq!(r.generics, "<'a>");
    assert_eq!(r.where_clause, "where Self: Sized");
    assert_eq!(r.output, "-> Result<(), capnp::Error>");
    assert_eq!(argument(&r.inputs[0]).0, "&self");
    assert_eq!(argument(&r.inputs[1]).1, "ns::DoItParams");
    assert_eq!(argument(&r.inputs[2]).1, "ns::DoItResults");
}

#[test]
fn prefix_of_a_function_stays() {
    let mut f = method("foo", vec![receiver()], "");
    f.prefix = "#[inline] pub".to_string();
    let r = process_fn_item("ns", f, &PathArguments::AngleBracketed("<T>".to_string()));
    assert_eq!(r.prefix, "#[inline] pub");
    assert_eq!(argument(&r.sig.inputs[1]).1, "ns::FooParams<T>");
}
