//! Glob expressions: which ones are taken, and what they say.
use crate::import::texts;
use crate::strings::{chars_of, digits_value};
use vstd::prelude::*;

verus! {

/// How often a character occurs.
pub open spec fn occurrences(s: Seq<char>, c: char) -> nat
    decreases s.len(),
{
    if s.len() == 0 {
        0
    } else if s.last() == c {
        occurrences(s.drop_last(), c) + 1
    } else {
        occurrences(s.drop_last(), c)
    }
}

/// Whether a character is a decimal digit.
pub open spec fn is_digit(c: char) -> bool {
    '0' <= c <= '9'
}

/// Whether the character at `i` stands behind a backslash, which takes its meaning
/// from it.
pub open spec fn is_escaped(s: Seq<char>, i: int) -> bool {
    i >= 1 && s[i - 1] == '\\'
}

/// Whether a character class is open behind the first `n` characters.
pub open spec fn in_class(s: Seq<char>, n: int) -> bool
    decreases n,
{
    if n <= 0 {
        false
    } else if is_escaped(s, n - 1) {
        in_class(s, n - 1)
    } else if in_class(s, n - 1) {
        s[n - 1] != ']'
    } else {
        s[n - 1] == '['
    }
}

/// Whether the character at `i` may have a meaning of its own.
pub open spec fn is_sign(s: Seq<char>, i: int) -> bool {
    !in_class(s, i) && !is_escaped(s, i)
}

/// How many repetitions that begin among the first `n` characters are still open,
/// and how many alternatives, if those count.
pub open spec fn nesting(s: Seq<char>, alternatives: bool, n: int) -> int
    decreases n,
{
    if n <= 0 {
        0
    } else {
        let before = nesting(s, alternatives, n - 1);
        let c = s[n - 1];
        if !is_sign(s, n - 1) {
            before
        } else if c == '<' || (alternatives && c == '{') {
            before + 1
        } else if c == '>' || (alternatives && c == '}') {
            before - 1
        } else {
            before
        }
    }
}

/// Whether nothing is nested deeper than `limit`.
pub open spec fn is_shallow(s: Seq<char>, alternatives: bool, limit: int) -> bool {
    forall|n: int| 0 <= n <= s.len() ==> #[trigger] nesting(s, alternatives, n) <= limit
}

/// Where the digits that begin at `i` end.
pub open spec fn number_end(s: Seq<char>, i: int) -> int
    decreases s.len() - i,
{
    if 0 <= i < s.len() && is_digit(s[i]) {
        number_end(s, i + 1)
    } else {
        i
    }
}

/// The number that the digits from `i` to `end` are.
pub open spec fn number(s: Seq<char>, i: int, end: int) -> nat
    decreases end - i,
{
    if end <= i {
        0
    } else {
        number(s, i, end - 1) * 10 + ((s[end - 1] as u32) - 48) as nat
    }
}

/// The larger of two numbers.
pub open spec fn larger(a: nat, b: nat) -> nat {
    if a >= b {
        a
    } else {
        b
    }
}

/// The largest number among the bounds that a colon at `i` begins, or 1 if they
/// hold none.
pub open spec fn bound(s: Seq<char>, i: int) -> nat {
    let end = number_end(s, i + 1);
    let lower = number(s, i + 1, end);
    let upper = if 0 <= end < s.len() && s[end] == ',' {
        number(s, end + 1, number_end(s, end + 1))
    } else {
        0
    };
    larger(1, larger(lower, upper))
}

/// What the character at `i` weighs: a wildcard or a character class more than
/// another character.
pub open spec fn weight_of(s: Seq<char>, i: int) -> nat {
    if is_sign(s, i) && (s[i] == '*' || s[i] == '?' || s[i] == '$' || s[i] == '[') {
        4
    } else {
        1
    }
}

/// The repetitions that are open behind the first `n` characters, the innermost
/// last, below them the expression itself: what each weighs so far. What is repeated
/// weighs as much as all of its copies, once the bounds are known.
pub open spec fn levels(s: Seq<char>, n: int) -> Seq<nat>
    decreases n,
{
    if n <= 0 {
        seq![0]
    } else {
        let before = levels(s, n - 1);
        let below = before.drop_last();
        let c = s[n - 1];
        if is_sign(s, n - 1) && c == '<' {
            below.push(before.last() + 1).push(0)
        } else if is_sign(s, n - 1) && c == '>' && before.len() > 1 {
            below.drop_last().push(below.last() + before.last() + 1)
        } else if is_sign(s, n - 1) && c == ':' {
            below.push(before.last() * bound(s, n - 1) + 1)
        } else {
            below.push(before.last() + weight_of(s, n - 1))
        }
    }
}

/// What some levels weigh together.
pub open spec fn total(levels: Seq<nat>) -> nat
    decreases levels.len(),
{
    if levels.len() == 0 {
        0
    } else {
        total(levels.drop_last()) + levels.last()
    }
}

/// The most that an expression may weigh.
pub const WEIGHT_LIMIT: usize = 16383;

/// What an expression weighs, once its repetitions are written out.
pub open spec fn weight(s: Seq<char>) -> nat {
    total(levels(s, s.len() as int))
}

/// Whether an expression is one that can be examined: it is not empty, and of
/// bounded weight and nesting.
pub open spec fn is_tame(expression: Seq<char>) -> bool {
    &&& expression.len() > 0
    &&& weight(expression) <= WEIGHT_LIMIT
    &&& is_shallow(expression, true, 60)
    &&& is_shallow(expression, false, 12)
}

/// How often a character occurs.
pub(crate) fn count(chars: &Vec<char>, c: char) -> (r: usize)
    ensures
        r == occurrences(chars@, c),
{
    let mut n: usize = 0;
    let mut i: usize = 0;
    while i < chars.len()
        invariant
            0 <= i <= chars@.len(),
            n == occurrences(chars@.take(i as int), c),
            n <= i,
        decreases chars@.len() - i,
    {
        assert(chars@.take(i + 1).drop_last() =~= chars@.take(i as int));
        if chars[i] == c {
            n += 1;
        }
        i += 1;
    }
    assert(chars@.take(i as int) =~= chars@);
    n
}

/// Whether each character may have a meaning of its own.
fn signs(chars: &Vec<char>) -> (r: Vec<bool>)
    ensures
        r@.len() == chars@.len(),
        forall|i: int| 0 <= i < chars@.len() ==> #[trigger] r@[i] == is_sign(chars@, i),
{
    let mut r: Vec<bool> = Vec::new();
    let mut class = false;
    let mut i: usize = 0;
    while i < chars.len()
        invariant
            0 <= i <= chars@.len(),
            class == in_class(chars@, i as int),
            r@.len() == i,
            forall|j: int| 0 <= j < i ==> #[trigger] r@[j] == is_sign(chars@, j),
        decreases chars@.len() - i,
    {
        let escaped = i >= 1 && chars[i - 1] == '\\';
        r.push(!class && !escaped);
        if !escaped {
            class = if class {
                chars[i] != ']'
            } else {
                chars[i] == '['
            };
        }
        i += 1;
    }
    r
}

/// Whether nothing is nested deeper than `limit`.
fn check_shallow(chars: &Vec<char>, signs: &Vec<bool>, alternatives: bool, limit: u32) -> (r: bool)
    requires
        chars@.len() <= WEIGHT_LIMIT,
        signs@.len() == chars@.len(),
        forall|i: int| 0 <= i < chars@.len() ==> #[trigger] signs@[i] == is_sign(chars@, i),
    ensures
        r == is_shallow(chars@, alternatives, limit as int),
{
    let most: i64 = limit as i64;
    let mut depth: i64 = 0;
    let mut i: usize = 0;
    while i < chars.len()
        invariant
            chars@.len() <= WEIGHT_LIMIT,
            signs@.len() == chars@.len(),
            forall|j: int| 0 <= j < chars@.len() ==> #[trigger] signs@[j] == is_sign(chars@, j),
            0 <= i <= chars@.len(),
            most == limit,
            depth == nesting(chars@, alternatives, i as int),
            -i <= depth <= i,
            forall|n: int| 0 <= n <= i ==> #[trigger] nesting(chars@, alternatives, n) <= limit,
        decreases chars@.len() - i,
    {
        let c = chars[i];
        if signs[i] {
            if c == '<' || (alternatives && c == '{') {
                depth = depth + 1;
            } else if c == '>' || (alternatives && c == '}') {
                depth = depth - 1;
            }
        }
        assert(depth == nesting(chars@, alternatives, i + 1));
        if depth > most {
            return false;
        }
        i += 1;
    }
    true
}

/// The most that a number is read as.
const NUMBER_LIMIT: usize = 20000;

/// A number, or the most that one is read as.
spec fn capped(n: nat) -> nat {
    if n < NUMBER_LIMIT {
        n
    } else {
        NUMBER_LIMIT as nat
    }
}

/// The digits from `i` on: the number that they are, as far as one is read, and
/// where they end.
fn read_number(chars: &Vec<char>, i: usize) -> (r: (usize, usize))
    requires
        i <= chars@.len(),
    ensures
        i <= r.1 <= chars@.len(),
        r.1 == number_end(chars@, i as int),
        r.0 == capped(number(chars@, i as int, r.1 as int)),
{
    let mut value: usize = 0;
    let mut j: usize = i;
    while j < chars.len() && '0' <= chars[j] && chars[j] <= '9'
        invariant
            i <= j <= chars@.len(),
            number_end(chars@, i as int) == number_end(chars@, j as int),
            value == capped(number(chars@, i as int, j as int)),
        decreases chars@.len() - j,
    {
        let digit: usize = (chars[j] as u32 - 48) as usize;
        let next: usize = value * 10 + digit;
        value = if next < NUMBER_LIMIT {
            next
        } else {
            NUMBER_LIMIT
        };
        j += 1;
    }
    (value, j)
}

/// The largest number among the bounds that a colon at `i` begins, as far as one is
/// read.
fn read_bound(chars: &Vec<char>, i: usize) -> (r: usize)
    requires
        i < chars@.len(),
    ensures
        r == capped(bound(chars@, i as int)),
        1 <= r <= NUMBER_LIMIT,
{
    let n: usize = chars.len();
    let (lower, end) = read_number(chars, i + 1);
    let upper: usize = if end < n && chars[end] == ',' {
        read_number(chars, end + 1).0
    } else {
        0
    };
    let most: usize = if lower >= upper {
        lower
    } else {
        upper
    };
    if most >= 1 {
        most
    } else {
        1
    }
}

/// There is always a level.
proof fn lemma_levels(s: Seq<char>, n: int)
    ensures
        levels(s, n).len() > 0,
    decreases n,
{
    if n > 0 {
        lemma_levels(s, n - 1);
    }
}

/// What one more character adds to the weight.
proof fn lemma_total_step(s: Seq<char>, n: int)
    requires
        n >= 0,
    ensures
        ({
            let before = levels(s, n);
            let top = before.last();
            total(levels(s, n + 1)) == if is_sign(s, n) && s[n] == '<' {
                total(before) + 1
            } else if is_sign(s, n) && s[n] == '>' && before.len() > 1 {
                total(before) + 1
            } else if is_sign(s, n) && s[n] == ':' {
                (total(before) - top + top * bound(s, n) + 1) as nat
            } else {
                total(before) + weight_of(s, n)
            }
        }),
        total(levels(s, n)) < total(levels(s, n + 1)),
        levels(s, n).last() <= total(levels(s, n)),
{
    lemma_levels(s, n);
    let before = levels(s, n);
    let after = levels(s, n + 1);
    let below = before.drop_last();
    let top = before.last();
    let by = bound(s, n);
    assert(top * by >= top) by (nonlinear_arith)
        requires
            by >= 1,
    ;
    assert(total(before) == total(below) + top);
    assert(total(after) == total(after.drop_last()) + after.last());
    if is_sign(s, n) && s[n] == '<' {
        assert(after.drop_last() =~= below.push(top + 1));
        assert(after.drop_last().drop_last() =~= below);
    } else if is_sign(s, n) && s[n] == '>' && before.len() > 1 {
        assert(after.drop_last() =~= below.drop_last());
        assert(total(below) == total(below.drop_last()) + below.last());
    } else {
        assert(after.drop_last() =~= below);
    }
}

/// More characters never weigh less.
proof fn lemma_total_grows(s: Seq<char>, i: int, n: int)
    requires
        0 <= i <= n,
    ensures
        total(levels(s, i)) + (n - i) <= total(levels(s, n)),
    decreases n - i,
{
    if i < n {
        lemma_total_grows(s, i, n - 1);
        lemma_total_step(s, n - 1);
    }
}

/// Whether an expression weighs no more than it may.
fn check_weight(chars: &Vec<char>, signs: &Vec<bool>) -> (r: bool)
    requires
        chars@.len() <= WEIGHT_LIMIT,
        signs@.len() == chars@.len(),
        forall|i: int| 0 <= i < chars@.len() ==> #[trigger] signs@[i] == is_sign(chars@, i),
    ensures
        r == (weight(chars@) <= WEIGHT_LIMIT),
{
    let n: usize = chars.len();
    // The levels below the innermost one.
    let mut below: Vec<usize> = Vec::new();
    let mut top: usize = 0;
    let mut sum: usize = 0;
    let mut i: usize = 0;
    proof {
        assert(levels(chars@, 0).drop_last() =~= Seq::<nat>::empty());
        assert(total(levels(chars@, 0).drop_last()) == 0);
    }
    while i < n
        invariant
            n == chars@.len(),
            n <= WEIGHT_LIMIT,
            signs@.len() == n,
            forall|j: int| 0 <= j < n ==> #[trigger] signs@[j] == is_sign(chars@, j),
            0 <= i <= n,
            levels(chars@, i as int).len() == below@.len() + 1,
            forall|j: int|
                0 <= j < below@.len() ==> #[trigger] below@[j] == levels(chars@, i as int)[j],
            top == levels(chars@, i as int).last(),
            sum == total(levels(chars@, i as int)),
            sum <= WEIGHT_LIMIT,
        decreases n - i,
    {
        let c = chars[i];
        let ghost before = levels(chars@, i as int);
        let ghost after = levels(chars@, i + 1);
        proof {
            lemma_levels(chars@, i as int);
            lemma_total_step(chars@, i as int);
            lemma_total_grows(chars@, i + 1, n as int);
        }
        if signs[i] && c == '<' {
            below.push(top + 1);
            top = 0;
            sum = sum + 1;
        } else if signs[i] && c == '>' && below.len() > 0 {
            if let Some(outer) = below.pop() {
                assert(outer == before.drop_last().last());
                assert(outer + top <= sum) by {
                    let under = before.drop_last();
                    assert(total(before) == total(under) + top);
                    assert(total(under) == total(under.drop_last()) + under.last());
                }
                top = outer + top + 1;
                sum = sum + 1;
            }
        } else if signs[i] && c == ':' {
            let by: usize = read_bound(chars, i);
            let ghost exact = bound(chars@, i as int);
            let ghost t = top as nat;
            assert(top * by <= 16383 * 20000) by (nonlinear_arith)
                requires
                    top <= 16383,
                    by <= 20000,
            ;
            let inner: usize = top * by;
            if inner > WEIGHT_LIMIT {
                assert(t * exact >= t * by) by (nonlinear_arith)
                    requires
                        exact >= by,
                ;
                return false;
            }
            assert(t * exact == t * by) by {
                if t >= 1 {
                    assert(t * by >= by) by (nonlinear_arith)
                        requires
                            t >= 1,
                    ;
                    assert(exact == by);
                } else {
                    assert(0 * exact == 0 && 0 * by == 0) by (nonlinear_arith);
                }
            }
            sum = sum - top + inner + 1;
            top = inner + 1;
        } else {
            let by: usize = if signs[i] && (c == '*' || c == '?' || c == '$' || c == '[') {
                4
            } else {
                1
            };
            top = top + by;
            sum = sum + by;
        }
        assert(sum == total(after));
        if sum > WEIGHT_LIMIT {
            return false;
        }
        i += 1;
    }
    true
}

/// Whether an expression is one that can be examined.
pub fn check_tame(expression: &str) -> (r: bool)
    ensures
        r == is_tame(expression@),
{
    let chars = chars_of(expression);
    proof {
        lemma_total_grows(chars@, 0, chars@.len() as int);
    }
    if chars.len() == 0 || chars.len() > WEIGHT_LIMIT {
        return false;
    }
    let signs = signs(&chars);
    check_weight(&chars, &signs) && check_shallow(&chars, &signs, true, 60) && check_shallow(
        &chars,
        &signs,
        false,
        12,
    )
}

/// Whether a text is a glob expression.
pub uninterp spec fn is_glob(expression: Seq<char>) -> bool;

/// The parts of a text between slashes.
pub open spec fn parts(s: Seq<char>) -> Seq<Seq<char>>
    decreases s.len(),
{
    if s.len() == 0 {
        seq![Seq::empty()]
    } else {
        let before = parts(s.drop_last());
        if s.last() == '/' {
            before.push(Seq::empty())
        } else {
            before.drop_last().push(before.last().push(s.last()))
        }
    }
}

/// Whether a character begins something other than a name.
pub open spec fn is_special(c: char) -> bool {
    c == '*' || c == '?' || c == '$' || is_group(c)
}

/// Whether a character begins a flag, a class, an alternative, a repetition or an
/// escape.
pub open spec fn is_group(c: char) -> bool {
    c == '(' || c == '[' || c == '{' || c == '<' || c == '\\'
}

/// Whether a text is a name and nothing else.
pub open spec fn is_name(s: Seq<char>) -> bool {
    forall|i: int| 0 <= i < s.len() ==> !is_special(#[trigger] s[i])
}

/// The names among the first `n` parts of a path, up to the first part that is no
/// name. A dot is left out, unless the path begins with it.
pub open spec fn leading_names(parts: Seq<Seq<char>>, n: int) -> Seq<Seq<char>>
    decreases n,
{
    if n <= 0 {
        Seq::empty()
    } else {
        let part = parts[n - 1];
        let names = leading_names(parts, n - 1);
        if exists|i: int| 0 <= i < n && !is_name(#[trigger] parts[i]) {
            names
        } else if part.len() == 0 || (n > 1 && part == seq!['.']) {
            names
        } else {
            names.push(part)
        }
    }
}

/// The names that an expression begins with.
pub open spec fn leading_path(expression: Seq<char>) -> Seq<Seq<char>> {
    leading_names(parts(expression), parts(expression).len() as int)
}

/// Whether an expression is made of names, separators and wildcards alone.
pub open spec fn is_plain(expression: Seq<char>) -> bool {
    forall|i: int| 0 <= i < expression.len() ==> !is_group(#[trigger] expression[i])
}

/// Whether names are those along the directory that an expression begins with: the
/// names that the expression itself begins with, and, where it is not plain, perhaps
/// more.
pub open spec fn is_prefix_for(names: Seq<Seq<char>>, expression: Seq<char>) -> bool {
    &&& leading_path(expression).is_prefix_of(names)
    &&& is_plain(expression) ==> names == leading_path(expression)
}

/// `wax::Glob::new` and `wax::Glob::partition`: the names along the directory
/// that a relative glob expression begins with, or the error's message where the
/// text is no glob expression. No tame expression is near the size at which one is
/// refused for its size. How far the directory goes beyond the names that the
/// expression begins with is left open: for flags, classes and alternatives it
/// matters whether the file system tells upper from lower case.
#[verifier::external_body]
pub(crate) fn partition_glob(expression: &str) -> (r: Result<Vec<String>, String>)
    requires
        is_tame(expression@),
        expression@[0] != '/',
    ensures
        r is Ok <==> is_glob(expression@),
        r matches Ok(v) ==> is_prefix_for(texts(v@), expression@),
{
    match wax::Glob::new(expression) {
        Ok(glob) => {
            let prefix = glob.partition().0;
            Ok(prefix.iter().map(|name| name.to_string_lossy().into_owned()).collect())
        },
        Err(e) => Err(e.to_string()),
    }
}

/// The parts of a text never hold a slash, and a text with a slash behind it and
/// another text has the parts of both.
pub proof fn law_parts(first: Seq<char>, second: Seq<char>)
    ensures
        parts(first).len() > 0,
        (forall|i: int| 0 <= i < second.len() ==> #[trigger] second[i] != '/') ==> parts(second)
            == seq![second],
        parts(first + seq!['/'] + second) == parts(first) + parts(second),
    decreases first.len() + second.len(),
{
    lemma_parts(first);
    if second.len() == 0 {
        let s = first + seq!['/'] + second;
        assert(s.drop_last() =~= first);
        assert(s.last() == '/');
        assert(second =~= Seq::<char>::empty());
        assert(parts(second) =~= seq![second]);
        assert(parts(s) =~= parts(first) + parts(second));
    } else {
        let s = first + seq!['/'] + second;
        assert(s.drop_last() =~= first + seq!['/'] + second.drop_last());
        assert(s.last() == second.last());
        law_parts(first, second.drop_last());
        lemma_parts(second.drop_last());
        let before = parts(first) + parts(second.drop_last());
        assert(before.last() == parts(second.drop_last()).last());
        assert(before.drop_last() =~= parts(first) + parts(second.drop_last()).drop_last());
        assert(parts(s) =~= parts(first) + parts(second));
        if forall|i: int| 0 <= i < second.len() ==> #[trigger] second[i] != '/' {
            assert forall|i: int| 0 <= i < second.drop_last().len() implies #[trigger] second.drop_last()[i]
                != '/' by {
                assert(second[i] != '/');
            }
            assert(parts(second.drop_last()) == seq![second.drop_last()]);
            assert(second.last() == second[second.len() - 1]);
            assert(second.drop_last().push(second.last()) =~= second);
            assert(parts(second) =~= seq![second]);
        }
    }
}

proof fn lemma_parts(s: Seq<char>)
    ensures
        parts(s).len() > 0,
    decreases s.len(),
{
    if s.len() > 0 {
        lemma_parts(s.drop_last());
    }
}

/// Whether a text is a name with no slash in it.
pub open spec fn is_component(name: Seq<char>) -> bool {
    &&& name.len() > 0
    &&& forall|i: int|
        0 <= i < name.len() ==> {
            let c = #[trigger] name[i];
            &&& c != '/' && c != '*' && c != '?' && c != '$' && c != '(' && c != '['
            &&& c != '{' && c != '<' && c != '\\'
        }
}

/// Whether a text is made of names and slashes.
pub open spec fn is_path(path: Seq<char>) -> bool {
    forall|i: int|
        0 <= i < path.len() ==> {
            let c = #[trigger] path[i];
            &&& c != '*' && c != '?' && c != '$' && c != '(' && c != '['
            &&& c != '{' && c != '<' && c != '\\'
        }
}

/// A name leads into the directory of that name.
pub proof fn law_names_lead(name: Seq<char>)
    requires
        is_component(name),
    ensures
        leading_path(name) == seq![name],
{
    law_parts(Seq::empty(), name);
    assert(parts(name) == seq![name]);
    assert(parts(name)[0] == name);
    assert(is_name(name));
    reveal_with_fuel(leading_names, 2);
    assert(leading_path(name) =~= seq![name]);
}

/// A name behind a path leads one directory further; a dot leads nowhere else.
pub proof fn law_names_lead_on(path: Seq<char>, name: Seq<char>)
    requires
        is_path(path),
        is_component(name),
    ensures
        name != seq!['.'] ==> leading_path(path + seq!['/'] + name) == leading_path(path).push(name),
        name == seq!['.'] ==> leading_path(path + seq!['/'] + name) == leading_path(path),
{
    law_parts(path, name);
    let all = parts(path + seq!['/'] + name);
    let n = parts(path).len() as int;
    assert(all == parts(path).push(name)) by {
        assert(parts(name) == seq![name]);
        assert(parts(path) + seq![name] =~= parts(path).push(name));
    }
    lemma_same_names(parts(path), all, n);
    lemma_path_parts(path);
    assert(is_name(name));
    assert forall|i: int| 0 <= i < n + 1 implies is_name(#[trigger] all[i]) by {
        if i < n {
            assert(all[i] == parts(path)[i]);
        }
    }
    assert(all[n] == name);
}

/// Something that is no name ends the directory that an expression begins with.
pub proof fn law_other_parts_end_the_directory(path: Seq<char>, part: Seq<char>, rest: Seq<char>)
    requires
        exists|i: int|
            0 <= i < part.len() && {
                let c = #[trigger] part[i];
                c == '*' || c == '?' || c == '$' || c == '(' || c == '[' || c == '{' || c == '<' || c
                    == '\\'
            },
        forall|i: int| 0 <= i < part.len() ==> #[trigger] part[i] != '/',
        rest.len() > 0 ==> rest[0] == '/',
    ensures
        leading_path(path + seq!['/'] + part + rest) == leading_path(path),
        leading_path(part + rest).len() == 0,
{
    let i = choose|i: int|
        0 <= i < part.len() && {
            let c = #[trigger] part[i];
            c == '*' || c == '?' || c == '$' || c == '(' || c == '[' || c == '{' || c == '<' || c
                == '\\'
        };
    assert(is_special(part[i]));
    assert(!is_name(part));
    law_parts(path, part);
    law_parts(Seq::empty(), part);
    let head = path + seq!['/'] + part;
    let n = parts(path).len() as int;
    assert(parts(head) =~= parts(path).push(part));
    assert(parts(head)[n] == part);
    lemma_same_names(parts(path), parts(head), n);
    if rest.len() == 0 {
        assert(head + rest =~= head);
        assert(part + rest =~= part);
        lemma_names_end(parts(head), n, n + 1);
        lemma_names_end(parts(part), 0, 1);
    } else {
        let tail = rest.drop_first();
        assert(rest =~= seq!['/'] + tail);
        assert(head + rest =~= head + seq!['/'] + tail);
        assert(part + rest =~= part + seq!['/'] + tail);
        law_parts(head, tail);
        law_parts(part, tail);
        let all = parts(head + rest);
        let m = all.len() as int;
        assert(all == parts(head) + parts(tail));
        assert(all[n] == part);
        lemma_same_names(parts(path), all, n);
        lemma_names_end(all, n, m);
        let short = parts(part + rest);
        assert(short[0] == part);
        lemma_names_end(short, 0, short.len() as int);
    }
}

proof fn lemma_path_parts(path: Seq<char>)
    requires
        is_path(path),
    ensures
        forall|i: int| 0 <= i < parts(path).len() ==> is_name(#[trigger] parts(path)[i]),
    decreases path.len(),
{
    if path.len() > 0 {
        assert(is_path(path.drop_last())) by {
            assert forall|i: int| 0 <= i < path.drop_last().len() implies {
                let c = #[trigger] path.drop_last()[i];
                &&& c != '*' && c != '?' && c != '$' && c != '(' && c != '['
                &&& c != '{' && c != '<' && c != '\\'
            } by {
                assert(path[i] == path.drop_last()[i]);
            }
        }
        lemma_path_parts(path.drop_last());
        lemma_parts(path.drop_last());
        let before = parts(path.drop_last());
        assert(path.last() == path[path.len() - 1]);
        assert(!is_special(path.last()));
        assert(is_name(before[before.len() - 1]));
    }
}

/// The names among the first parts depend on those parts alone.
proof fn lemma_same_names(a: Seq<Seq<char>>, b: Seq<Seq<char>>, n: int)
    requires
        0 <= n <= a.len(),
        n <= b.len(),
        forall|i: int| 0 <= i < n ==> #[trigger] a[i] == b[i],
    ensures
        leading_names(a, n) == leading_names(b, n),
    decreases n,
{
    if n > 0 {
        lemma_same_names(a, b, n - 1);
        assert(a[n - 1] == b[n - 1]);
        if exists|i: int| 0 <= i < n && !is_name(#[trigger] a[i]) {
            let i = choose|i: int| 0 <= i < n && !is_name(#[trigger] a[i]);
            assert(!is_name(b[i]));
        }
        if exists|i: int| 0 <= i < n && !is_name(#[trigger] b[i]) {
            let i = choose|i: int| 0 <= i < n && !is_name(#[trigger] b[i]);
            assert(a[i] == b[i]);
        }
    }
}

/// From a part that is no name on, no more names count.
proof fn lemma_names_end(parts: Seq<Seq<char>>, k: int, n: int)
    requires
        0 <= k < n <= parts.len(),
        !is_name(parts[k]),
    ensures
        leading_names(parts, n) == leading_names(parts, k),
    decreases n,
{
    if n > k + 1 {
        lemma_names_end(parts, k, n - 1);
    }
}

/// The names along the directory that an expression begins with begin with the names
/// that the expression itself begins with, and are no others where it is made of
/// names, slashes and wildcards alone.
pub proof fn law_directories_follow_names(names: Seq<Seq<char>>, expression: Seq<char>)
    requires
        is_prefix_for(names, expression),
    ensures
        leading_path(expression).len() <= names.len(),
        forall|i: int|
            0 <= i < leading_path(expression).len() ==> #[trigger] leading_path(expression)[i]
                == names[i],
        (forall|i: int|
            0 <= i < expression.len() ==> {
                let c = #[trigger] expression[i];
                c != '(' && c != '[' && c != '{' && c != '<' && c != '\\'
            }) ==> names == leading_path(expression),
{
    let path = leading_path(expression);
    assert forall|i: int| 0 <= i < path.len() implies #[trigger] path[i] == names[i] by {
        assert(names.subrange(0, path.len() as int)[i] == names[i]);
    }
}

/// An expression without bounds on repetitions can be examined, if it is not empty, no
/// longer than 4095 characters, and has no more than 12 repetitions, and no more than
/// 60 repetitions and alternatives; one of names and slashes, if it is no longer than
/// 16383.
pub proof fn law_simple_expressions_are_tame(expression: Seq<char>)
    requires
        forall|i: int| 0 <= i < expression.len() ==> #[trigger] expression[i] != ':',
    ensures
        0 < expression.len() <= 4095 && occurrences(expression, '<') <= 12 && occurrences(
            expression,
            '<',
        ) + occurrences(expression, '{') <= 60 ==> is_tame(expression),
        0 < expression.len() <= 16383 && is_path(expression) ==> is_tame(expression),
{
    let n = expression.len() as int;
    assert(expression.take(n) =~= expression);
    lemma_simple_weight(expression, n);
    if is_path(expression) {
        lemma_path_weight(expression, n);
    }
    assert forall|k: int| 0 <= k <= n implies #[trigger] nesting(expression, true, k)
        <= occurrences(expression, '<') + occurrences(expression, '{') by {
        lemma_nesting(expression, true, k);
        lemma_occurrences_grow(expression, '<', k, n);
        lemma_occurrences_grow(expression, '{', k, n);
    }
    assert forall|k: int| 0 <= k <= n implies #[trigger] nesting(expression, false, k)
        <= occurrences(expression, '<') by {
        lemma_nesting(expression, false, k);
        lemma_occurrences_grow(expression, '<', k, n);
    }
    if is_path(expression) {
        lemma_path_occurrences(expression);
    }
}

proof fn lemma_path_occurrences(s: Seq<char>)
    requires
        is_path(s),
    ensures
        occurrences(s, '<') == 0,
        occurrences(s, '{') == 0,
    decreases s.len(),
{
    if s.len() > 0 {
        assert forall|i: int| 0 <= i < s.drop_last().len() implies {
            let c = #[trigger] s.drop_last()[i];
            &&& c != '*' && c != '?' && c != '$' && c != '(' && c != '['
            &&& c != '{' && c != '<' && c != '\\'
        } by {
            assert(s[i] == s.drop_last()[i]);
        }
        lemma_path_occurrences(s.drop_last());
        assert(s.last() == s[s.len() - 1]);
    }
}

proof fn lemma_occurrences_grow(s: Seq<char>, c: char, k: int, n: int)
    requires
        0 <= k <= n <= s.len(),
    ensures
        occurrences(s.take(k), c) <= occurrences(s.take(n), c),
    decreases n,
{
    if k < n {
        lemma_occurrences_grow(s, c, k, n - 1);
        assert(s.take(n).drop_last() =~= s.take(n - 1));
    }
}

/// No more is open than was opened.
proof fn lemma_nesting(s: Seq<char>, alternatives: bool, n: int)
    requires
        0 <= n <= s.len(),
    ensures
        nesting(s, alternatives, n) <= occurrences(s.take(n), '<') + if alternatives {
            occurrences(s.take(n), '{')
        } else {
            0
        },
    decreases n,
{
    if n > 0 {
        lemma_nesting(s, alternatives, n - 1);
        assert(s.take(n).drop_last() =~= s.take(n - 1));
        assert(s.take(n).last() == s[n - 1]);
    }
}

proof fn lemma_simple_weight(s: Seq<char>, n: int)
    requires
        0 <= n <= s.len(),
        forall|i: int| 0 <= i < s.len() ==> #[trigger] s[i] != ':',
    ensures
        total(levels(s, n)) <= 4 * n,
    decreases n,
{
    if n == 0 {
        assert(levels(s, 0).drop_last() =~= Seq::<nat>::empty());
        assert(total(levels(s, 0).drop_last()) == 0);
    } else {
        lemma_simple_weight(s, n - 1);
        lemma_total_step(s, n - 1);
        assert(s[n - 1] != ':');
    }
}

proof fn lemma_path_weight(s: Seq<char>, n: int)
    requires
        0 <= n <= s.len(),
        is_path(s),
        forall|i: int| 0 <= i < s.len() ==> #[trigger] s[i] != ':',
    ensures
        total(levels(s, n)) == n,
    decreases n,
{
    if n == 0 {
        assert(levels(s, 0).drop_last() =~= Seq::<nat>::empty());
        assert(total(levels(s, 0).drop_last()) == 0);
    } else {
        lemma_path_weight(s, n - 1);
        lemma_total_step(s, n - 1);
        assert(s[n - 1] != ':' && s[n - 1] != '<');
    }
}

/// What can be examined is not empty, weighs no more than 16383, and so is no longer than
/// that.
pub proof fn law_tame_expressions_are_small(expression: Seq<char>)
    requires
        is_tame(expression),
    ensures
        0 < expression.len() <= 16383,
        weight(expression) <= 16383,
{
    lemma_total_grows(expression, 0, expression.len() as int);
}

/// Where the digits behind a colon end, and what they and the digits behind a comma stand
/// for: something is repeated as often as the larger bound says, and once at least.
pub proof fn law_bounds(before: Seq<char>, lower: Seq<char>, rest: Seq<char>)
    requires
        forall|i: int| 0 <= i < lower.len() ==> '0' <= #[trigger] lower[i] <= '9',
        rest.len() > 0 ==> !('0' <= rest[0] <= '9') && rest[0] != ',',
    ensures
        bound(before + seq![':'] + lower + rest, before.len() as int) == if digits_value(lower)
            >= 1 {
            digits_value(lower)
        } else {
            1nat
        },
{
    let s = before + seq![':'] + lower + rest;
    let start = before.len() + 1;
    lemma_number(s, lower, start as int);
}

/// The same where there is an upper bound.
pub proof fn law_upper_bounds(
    before: Seq<char>,
    lower: Seq<char>,
    upper: Seq<char>,
    rest: Seq<char>,
)
    requires
        forall|i: int| 0 <= i < lower.len() ==> '0' <= #[trigger] lower[i] <= '9',
        forall|i: int| 0 <= i < upper.len() ==> '0' <= #[trigger] upper[i] <= '9',
        rest.len() > 0 ==> !('0' <= rest[0] <= '9'),
    ensures
        ({
            let b = bound(
                before + seq![':'] + lower + seq![','] + upper + rest,
                before.len() as int,
            );
            &&& b >= 1
            &&& b >= digits_value(lower)
            &&& b >= digits_value(upper)
            &&& b == 1 || b == digits_value(lower) || b == digits_value(upper)
        }),
{
    let s = before + seq![':'] + lower + seq![','] + upper + rest;
    let start = before.len() + 1;
    let comma = start + lower.len();
    lemma_number(s, lower, start as int);
    assert(s[comma as int] == ',');
    lemma_number(s, upper, (comma + 1) as int);
}

/// Digits that stand in a text are read as the number that they stand for.
proof fn lemma_number(s: Seq<char>, digits: Seq<char>, start: int)
    requires
        0 <= start,
        start + digits.len() <= s.len(),
        forall|i: int| 0 <= i < digits.len() ==> '0' <= #[trigger] digits[i] <= '9',
        forall|i: int| 0 <= i < digits.len() ==> #[trigger] digits[i] == s[start + i],
        start + digits.len() < s.len() ==> !is_digit(s[start + digits.len()]),
    ensures
        number_end(s, start) == start + digits.len(),
        number(s, start, start + digits.len()) == digits_value(digits),
{
    lemma_number_end(s, digits, start, digits.len() as int);
    lemma_number_value(s, digits, start, digits.len() as int);
    assert(digits.take(digits.len() as int) =~= digits);
}

proof fn lemma_number_end(s: Seq<char>, digits: Seq<char>, start: int, n: int)
    requires
        0 <= start,
        0 <= n <= digits.len(),
        start + digits.len() <= s.len(),
        forall|i: int| 0 <= i < digits.len() ==> '0' <= #[trigger] digits[i] <= '9',
        forall|i: int| 0 <= i < digits.len() ==> #[trigger] digits[i] == s[start + i],
        start + digits.len() < s.len() ==> !is_digit(s[start + digits.len()]),
    ensures
        number_end(s, start + digits.len() - n) == start + digits.len(),
    decreases n,
{
    if n > 0 {
        lemma_number_end(s, digits, start, n - 1);
        assert(digits[digits.len() - n] == s[start + (digits.len() - n)]);
    }
}

proof fn lemma_number_value(s: Seq<char>, digits: Seq<char>, start: int, n: int)
    requires
        0 <= start,
        0 <= n <= digits.len(),
        start + digits.len() <= s.len(),
        forall|i: int| 0 <= i < digits.len() ==> #[trigger] digits[i] == s[start + i],
    ensures
        number(s, start, start + n) == digits_value(digits.take(n)),
    decreases n,
{
    if n > 0 {
        lemma_number_value(s, digits, start, n - 1);
        assert(digits.take(n).drop_last() =~= digits.take(n - 1));
        assert(digits[n - 1] == s[start + (n - 1)]);
    }
}

proof fn lemma_signs(s: Seq<char>, n: int)
    requires
        0 <= n <= s.len(),
        forall|i: int| 0 <= i < s.len() ==> #[trigger] s[i] != '[' && s[i] != '\\',
    ensures
        !in_class(s, n),
        is_sign(s, n),
    decreases n,
{
    if n > 0 {
        lemma_signs(s, n - 1);
        assert(s[n - 1] != '[' && s[n - 1] != '\\');
    }
}

/// What is repeated weighs as much as all of its copies: names between angle brackets, in
/// front of a number, weigh that many times what they weigh, and the signs around them
/// weigh once.
pub proof fn law_repetitions_weigh_their_copies(body: Seq<char>, digits: Seq<char>)
    requires
        forall|i: int|
            0 <= i < body.len() ==> {
                let c = #[trigger] body[i];
                ||| 'a' <= c <= 'z'
                ||| 'A' <= c <= 'Z'
                ||| c == '_'
                ||| c == '/'
            },
        digits.len() > 0,
        forall|i: int| 0 <= i < digits.len() ==> '0' <= #[trigger] digits[i] <= '9',
        digits_value(digits) >= 1,
    ensures
        weight(seq!['<'] + body + seq![':'] + digits + seq!['>']) == body.len() * digits_value(
            digits,
        ) + digits.len() + 3,
{
    let s = seq!['<'] + body + seq![':'] + digits + seq!['>'];
    let b = body.len() as int;
    let d = digits.len() as int;
    assert forall|i: int| 0 <= i < s.len() implies #[trigger] s[i] != '[' && s[i] != '\\' by {
        if 1 <= i <= b {
            assert(s[i] == body[i - 1]);
        } else if b + 2 <= i < b + 2 + d {
            assert(s[i] == digits[i - b - 2]);
        }
    }
    lemma_signs(s, 0);
    assert(s[0] == '<');
    reveal_with_fuel(levels, 2);
    assert(levels(s, 1) =~= seq![1nat, 0nat]);
    lemma_body_levels(s, body, 1, 0, b);
    lemma_signs(s, b + 1);
    assert(s[b + 1] == ':');
    let m = digits_value(digits);
    law_bounds(seq!['<'] + body, digits, seq!['>']);
    assert(s =~= (seq!['<'] + body) + seq![':'] + digits + seq!['>']);
    assert(bound(s, b + 1) == m);
    assert(levels(s, b + 2) =~= seq![1nat, (b as nat) * m + 1]);
    lemma_body_levels(s, digits, b + 2, (b as nat) * m + 1, d);
    lemma_signs(s, b + 2 + d);
    assert(s[b + 2 + d] == '>');
    let top = (b as nat) * m + 1 + d as nat;
    assert(levels(s, b + 2 + d) =~= seq![1nat, top]);
    assert(levels(s, b + 3 + d) =~= seq![(1 + top + 1) as nat]);
    assert(levels(s, b + 3 + d).drop_last() =~= Seq::<nat>::empty());
    assert(total(levels(s, b + 3 + d).drop_last()) == 0);
    assert(s.len() == b + 3 + d);
}

proof fn lemma_body_levels(s: Seq<char>, body: Seq<char>, start: int, w: nat, n: int)
    requires
        0 <= start,
        0 <= n <= body.len(),
        start + body.len() <= s.len(),
        forall|i: int| 0 <= i < s.len() ==> #[trigger] s[i] != '[' && s[i] != '\\',
        forall|i: int| 0 <= i < body.len() ==> #[trigger] body[i] == s[start + i],
        forall|i: int|
            0 <= i < body.len() ==> {
                let c = #[trigger] body[i];
                ||| 'a' <= c <= 'z'
                ||| 'A' <= c <= 'Z'
                ||| '0' <= c <= '9'
                ||| c == '_'
                ||| c == '/'
            },
        levels(s, start) == seq![1nat, w],
    ensures
        levels(s, start + n) == seq![1nat, (w + n) as nat],
    decreases n,
{
    if n > 0 {
        lemma_body_levels(s, body, start, w, n - 1);
        lemma_signs(s, start + n - 1);
        assert(body[n - 1] == s[start + (n - 1)]);
        assert(levels(s, start + n) =~= seq![1nat, (w + n) as nat]);
    }
}

/// An expression that weighs no more than 16383, and has no more than 12 repetitions, and
/// no more than 60 repetitions and alternatives, can be examined, if it is not empty.
pub proof fn law_light_expressions_are_tame(expression: Seq<char>)
    requires
        expression.len() > 0,
        weight(expression) <= 16383,
        occurrences(expression, '<') <= 12,
        occurrences(expression, '<') + occurrences(expression, '{') <= 60,
    ensures
        is_tame(expression),
{
    let n = expression.len() as int;
    assert(expression.take(n) =~= expression);
    assert forall|k: int| 0 <= k <= n implies #[trigger] nesting(expression, true, k) <= 60 by {
        lemma_nesting(expression, true, k);
        lemma_occurrences_grow(expression, '<', k, n);
        lemma_occurrences_grow(expression, '{', k, n);
    }
    assert forall|k: int| 0 <= k <= n implies #[trigger] nesting(expression, false, k) <= 12 by {
        lemma_nesting(expression, false, k);
        lemma_occurrences_grow(expression, '<', k, n);
    }
}

/// What begins with more than 60 alternatives in each other, or with more than 12
/// repetitions in each other, cannot be examined.
pub proof fn law_tame_expressions_are_shallow(k: nat, rest: Seq<char>)
    ensures
        is_tame(Seq::new(k, |i: int| '{') + rest) ==> k <= 60,
        is_tame(Seq::new(k, |i: int| '<') + rest) ==> k <= 12,
{
    let curly = Seq::new(k, |i: int| '{') + rest;
    let angle = Seq::new(k, |i: int| '<') + rest;
    lemma_opened(curly, '{', true, k as int);
    lemma_opened(angle, '<', false, k as int);
    assert(nesting(curly, true, k as int) == k);
    assert(nesting(angle, false, k as int) == k);
}

proof fn lemma_opened(s: Seq<char>, c: char, alternatives: bool, n: int)
    requires
        0 <= n <= s.len(),
        c == '<' || (alternatives && c == '{'),
        forall|i: int| 0 <= i < n ==> #[trigger] s[i] == c,
    ensures
        !in_class(s, n),
        nesting(s, alternatives, n) == n,
    decreases n,
{
    if n > 0 {
        lemma_opened(s, c, alternatives, n - 1);
        assert(s[n - 1] == c);
        if n > 1 {
            assert(s[n - 2] == c);
        }
    }
}

/// Wildcards weigh four times as much as characters of names.
pub proof fn law_wildcards_weigh_more(wildcards: Seq<char>)
    requires
        forall|i: int|
            0 <= i < wildcards.len() ==> {
                let c = #[trigger] wildcards[i];
                c == '*' || c == '?' || c == '$'
            },
    ensures
        weight(wildcards) == 4 * wildcards.len(),
{
    lemma_wildcards(wildcards, wildcards.len() as int);
}

proof fn lemma_wildcards(s: Seq<char>, n: int)
    requires
        0 <= n <= s.len(),
        forall|i: int|
            0 <= i < s.len() ==> {
                let c = #[trigger] s[i];
                c == '*' || c == '?' || c == '$'
            },
    ensures
        total(levels(s, n)) == 4 * n,
    decreases n,
{
    if n == 0 {
        assert(levels(s, 0).drop_last() =~= Seq::<nat>::empty());
        assert(total(levels(s, 0).drop_last()) == 0);
    } else {
        lemma_wildcards(s, n - 1);
        lemma_total_step(s, n - 1);
        assert forall|i: int| 0 <= i < s.len() implies #[trigger] s[i] != '[' && s[i] != '\\' by {}
        lemma_signs(s, n - 1);
        assert(s[n - 1] == '*' || s[n - 1] == '?' || s[n - 1] == '$');
    }
}

/// Brackets in a character class open nothing.
pub proof fn law_classes_hide_brackets(body: Seq<char>, n: int)
    requires
        forall|i: int| 0 <= i < body.len() ==> #[trigger] body[i] != ']' && body[i] != '\\',
        0 <= n <= body.len() + 2,
    ensures
        nesting(seq!['['] + body + seq![']'], true, n) == 0,
        nesting(seq!['['] + body + seq![']'], false, n) == 0,
{
    lemma_class(body, n);
}

proof fn lemma_class(body: Seq<char>, n: int)
    requires
        forall|i: int| 0 <= i < body.len() ==> #[trigger] body[i] != ']' && body[i] != '\\',
        0 <= n <= body.len() + 2,
    ensures
        ({
            let s = seq!['['] + body + seq![']'];
            &&& nesting(s, true, n) == 0
            &&& nesting(s, false, n) == 0
            &&& in_class(s, n) <==> 1 <= n <= body.len() + 1
        }),
    decreases n,
{
    let s = seq!['['] + body + seq![']'];
    if n > 0 {
        lemma_class(body, n - 1);
        if n == 1 {
            assert(s[0] == '[');
        } else {
            if n <= body.len() + 1 {
                assert(s[n - 1] == body[n - 2]);
            } else {
                assert(s[n - 1] == ']');
            }
            if n - 2 >= 1 {
                assert(s[n - 2] == body[n - 3]);
            } else {
                assert(s[n - 2] == '[');
            }
        }
    }
}

/// A bracket behind a backslash opens nothing.
pub proof fn law_escapes_hide_brackets(before: Seq<char>, bracket: char, alternatives: bool)
    ensures
        nesting(
            before + seq!['\\', bracket],
            alternatives,
            before.len() as int + 2,
        ) == nesting(before + seq!['\\', bracket], alternatives, before.len() as int),
{
    let s = before + seq!['\\', bracket];
    let n = before.len() as int;
    reveal_with_fuel(nesting, 3);
    assert(s[n] == '\\');
    assert(s[n + 1] == bracket);
    assert(is_escaped(s, n + 1));
}

} // verus!
