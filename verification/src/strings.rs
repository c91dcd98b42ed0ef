//! Small operations on strings.
use vstd::prelude::*;
use vstd::string::*;

verus! {

/// The characters of a string.
pub fn chars_of(s: &str) -> (r: Vec<char>)
    ensures
        r@ == s@,
{
    let mut r: Vec<char> = Vec::new();
    for c in it: s.chars()
        invariant
            r@ == it.seq().take(it.index()),
            it.seq() == s@,
    {
        r.push(c);
        assert(it.seq().take(it.index() + 1) =~= it.seq().take(it.index()).push(c));
    }
    assert(s@.take(s@.len() as int) =~= s@);
    r
}

/// Whether `s` begins with `prefix`.
pub fn starts_with(s: &str, prefix: &str) -> (r: bool)
    ensures
        r == prefix@.is_prefix_of(s@),
{
    let whole = chars_of(s);
    let part = chars_of(prefix);
    if part.len() > whole.len() {
        return false;
    }
    let mut i: usize = 0;
    while i < part.len()
        invariant
            0 <= i <= part@.len() <= whole@.len(),
            whole@ == s@,
            part@ == prefix@,
            forall|j: int| 0 <= j < i ==> part@[j] == whole@[j],
        decreases part@.len() - i,
    {
        if part[i] != whole[i] {
            assert(s@.subrange(0, prefix@.len() as int)[i as int] != prefix@[i as int]);
            return false;
        }
        i += 1;
    }
    assert(prefix@ =~= s@.subrange(0, prefix@.len() as int));
    true
}

/// Whether `s` ends with `suffix`.
pub fn ends_with(s: &str, suffix: &str) -> (r: bool)
    ensures
        r == suffix@.is_suffix_of(s@),
{
    let whole = chars_of(s);
    let part = chars_of(suffix);
    if part.len() > whole.len() {
        return false;
    }
    let start: usize = whole.len() - part.len();
    let mut i: usize = 0;
    while i < part.len()
        invariant
            0 <= i <= part@.len() <= whole@.len(),
            start == whole.len() - part.len(),
            whole@ == s@,
            part@ == suffix@,
            forall|j: int| 0 <= j < i ==> part@[j] == whole@[start + j],
        decreases part@.len() - i,
    {
        if part[i] != whole[start + i] {
            assert(s@.subrange(start as int, s@.len() as int)[i as int] != suffix@[i as int]);
            return false;
        }
        i += 1;
    }
    assert(suffix@ =~= s@.subrange(start as int, s@.len() as int));
    true
}

/// Whether `a` and `b` hold the same characters.
pub fn same(a: &str, b: &str) -> (r: bool)
    ensures
        r == (a@ == b@),
{
    let r = a.unicode_len() == b.unicode_len() && starts_with(a, b);
    proof {
        assert(a@.subrange(0, a@.len() as int) =~= a@);
    }
    r
}

/// How many times `c` stands at the beginning of `s`.
pub open spec fn leading(s: Seq<char>, c: char) -> nat
    decreases s.len(),
{
    if s.len() > 0 && s[0] == c {
        1 + leading(s.drop_first(), c)
    } else {
        0
    }
}

/// `s` without the `c` that stand at its beginning.
pub fn trim_start(s: &str, c: char) -> (r: &str)
    ensures
        r@ == s@.skip(leading(s@, c) as int),
{
    let whole = chars_of(s);
    let mut i: usize = 0;
    assert(s@.skip(0) =~= s@);
    while i < whole.len() && whole[i] == c
        invariant
            whole@ == s@,
            0 <= i <= whole@.len(),
            leading(s@, c) == i + leading(s@.skip(i as int), c),
        decreases whole@.len() - i,
    {
        assert(s@.skip(i as int).drop_first() =~= s@.skip(i + 1));
        i += 1;
    }
    assert(leading(s@.skip(i as int), c) == 0);
    assert(s@.skip(i as int) =~= s@.subrange(i as int, s@.len() as int));
    s.substring_char(i, whole.len())
}

/// Whether a character is white space: whether it has Unicode's property
/// `White_Space`.
pub open spec fn is_whitespace(c: char) -> bool {
    ||| '\u{9}' <= c <= '\u{d}'
    ||| c == '\u{20}'
    ||| c == '\u{85}'
    ||| c == '\u{a0}'
    ||| c == '\u{1680}'
    ||| '\u{2000}' <= c <= '\u{200a}'
    ||| c == '\u{2028}'
    ||| c == '\u{2029}'
    ||| c == '\u{202f}'
    ||| c == '\u{205f}'
    ||| c == '\u{3000}'
}

/// Whether a character is white space.
fn is_white(c: char) -> (r: bool)
    ensures
        r == is_whitespace(c),
{
    ('\u{9}' <= c && c <= '\u{d}') || c == '\u{20}' || c == '\u{85}' || c == '\u{a0}' || c
        == '\u{1680}' || ('\u{2000}' <= c && c <= '\u{200a}') || c == '\u{2028}' || c
        == '\u{2029}' || c == '\u{202f}' || c == '\u{205f}' || c == '\u{3000}'
}

/// Whether `inner` is what is left of `s` without the white space at both ends.
pub open spec fn is_trimmed(s: Seq<char>, inner: Seq<char>) -> bool {
    exists|i: int, j: int|
        {
            &&& 0 <= i <= j <= s.len()
            &&& inner == #[trigger] s.subrange(i, j)
            &&& forall|k: int| (0 <= k < i || j <= k < s.len()) ==> is_whitespace(#[trigger] s[k])
            &&& i < j ==> !is_whitespace(s[i]) && !is_whitespace(s[j - 1])
        }
}

/// `s` without the white space at both ends.
pub fn trim(s: &str) -> (r: &str)
    ensures
        is_trimmed(s@, r@),
{
    let whole = chars_of(s);
    let mut i: usize = 0;
    while i < whole.len() && is_white(whole[i])
        invariant
            whole@ == s@,
            0 <= i <= whole@.len(),
            forall|k: int| 0 <= k < i ==> is_whitespace(#[trigger] s@[k]),
        decreases whole@.len() - i,
    {
        i += 1;
    }
    let mut j: usize = whole.len();
    while i < j && is_white(whole[j - 1])
        invariant
            whole@ == s@,
            0 <= i <= j <= whole@.len(),
            forall|k: int| 0 <= k < i ==> is_whitespace(#[trigger] s@[k]),
            forall|k: int| j <= k < s@.len() ==> is_whitespace(#[trigger] s@[k]),
            i < whole@.len() ==> !is_whitespace(s@[i as int]),
        decreases j,
    {
        j -= 1;
    }
    s.substring_char(i, j)
}

/// `s` has only one such rest.
pub proof fn law_trimmed_is_unique(s: Seq<char>, a: Seq<char>, b: Seq<char>)
    requires
        is_trimmed(s, a),
        is_trimmed(s, b),
    ensures
        a == b,
{
    let (i, j) = choose|i: int, j: int|
        {
            &&& 0 <= i <= j <= s.len()
            &&& a == #[trigger] s.subrange(i, j)
            &&& forall|k: int| (0 <= k < i || j <= k < s.len()) ==> is_whitespace(#[trigger] s[k])
            &&& i < j ==> !is_whitespace(s[i]) && !is_whitespace(s[j - 1])
        };
    let (k, l) = choose|i: int, j: int|
        {
            &&& 0 <= i <= j <= s.len()
            &&& b == #[trigger] s.subrange(i, j)
            &&& forall|k: int| (0 <= k < i || j <= k < s.len()) ==> is_whitespace(#[trigger] s[k])
            &&& i < j ==> !is_whitespace(s[i]) && !is_whitespace(s[j - 1])
        };
    if i < j && k < l {
        assert(i == k && j == l);
    } else {
        assert(a =~= b);
    }
}

/// The character of a decimal digit.
pub open spec fn digit(d: int) -> char {
    if d == 0 {
        '0'
    } else if d == 1 {
        '1'
    } else if d == 2 {
        '2'
    } else if d == 3 {
        '3'
    } else if d == 4 {
        '4'
    } else if d == 5 {
        '5'
    } else if d == 6 {
        '6'
    } else if d == 7 {
        '7'
    } else if d == 8 {
        '8'
    } else {
        '9'
    }
}

/// The decimal digits of a number.
pub open spec fn decimal(n: nat) -> Seq<char>
    decreases n,
{
    if n < 10 {
        seq![digit(n as int)]
    } else {
        decimal(n / 10).push(digit((n % 10) as int))
    }
}

fn digit_str(d: u64) -> (r: &'static str)
    requires
        d < 10,
    ensures
        r@ == seq![digit(d as int)],
{
    let r = if d == 0 {
        "0"
    } else if d == 1 {
        "1"
    } else if d == 2 {
        "2"
    } else if d == 3 {
        "3"
    } else if d == 4 {
        "4"
    } else if d == 5 {
        "5"
    } else if d == 6 {
        "6"
    } else if d == 7 {
        "7"
    } else if d == 8 {
        "8"
    } else {
        "9"
    };
    proof {
        reveal_strlit("0");
        reveal_strlit("1");
        reveal_strlit("2");
        reveal_strlit("3");
        reveal_strlit("4");
        reveal_strlit("5");
        reveal_strlit("6");
        reveal_strlit("7");
        reveal_strlit("8");
        reveal_strlit("9");
        assert(r@ =~= seq![digit(d as int)]);
    }
    r
}

/// The decimal digits of a number.
pub fn to_decimal(n: u64) -> (r: String)
    ensures
        r@ == decimal(n as nat),
    decreases n,
{
    if n < 10 {
        digit_str(n).to_owned()
    } else {
        let mut r = to_decimal(n / 10);
        r.append(digit_str(n % 10));
        r
    }
}

/// What a character repeated and then a text that does not begin with it leads to:
/// the repetitions are counted, and the text is left.
pub proof fn law_leading(c: char, n: nat, rest: Seq<char>)
    requires
        rest.len() > 0 ==> rest[0] != c,
    ensures
        leading(Seq::new(n, |i: int| c) + rest, c) == n,
        (Seq::new(n, |i: int| c) + rest).skip(n as int) == rest,
    decreases n,
{
    let s = Seq::new(n, |i: int| c) + rest;
    assert(s.skip(n as int) =~= rest);
    if n > 0 {
        law_leading(c, (n - 1) as nat, rest);
        assert(s.drop_first() =~= Seq::new((n - 1) as nat, |i: int| c) + rest);
    } else {
        assert(s =~= rest);
    }
}

/// The number that decimal digits stand for.
pub open spec fn digits_value(s: Seq<char>) -> nat
    decreases s.len(),
{
    if s.len() == 0 {
        0
    } else {
        digits_value(s.drop_last()) * 10 + ((s.last() as u32) - 48) as nat
    }
}

/// The decimal digits of a number are digits, stand for that number, and do not
/// begin with a needless zero.
pub proof fn law_decimal(n: nat)
    ensures
        decimal(n).len() > 0,
        forall|i: int| 0 <= i < decimal(n).len() ==> '0' <= #[trigger] decimal(n)[i] <= '9',
        digits_value(decimal(n)) == n,
        decimal(n).len() > 1 ==> decimal(n)[0] != '0',
    decreases n,
{
    let s = decimal(n);
    if n < 10 {
        assert(s.drop_last() =~= Seq::<char>::empty());
        assert(digits_value(s.drop_last()) == 0);
    } else {
        law_decimal(n / 10);
        assert(s.drop_last() =~= decimal(n / 10));
        if decimal(n / 10).len() == 1 {
            assert(n / 10 < 10) by {
                if n / 10 >= 10 {
                    assert(decimal(n / 10).len() == decimal(n / 10 / 10).len() + 1);
                    law_decimal(n / 10 / 10);
                }
            }
            assert(n / 10 >= 1);
        }
    }
}

/// White space at both ends of a text that neither begins nor ends with any is
/// what trimming takes away.
pub proof fn law_trimming(before: Seq<char>, inner: Seq<char>, after: Seq<char>)
    requires
        forall|i: int| 0 <= i < before.len() ==> is_whitespace(#[trigger] before[i]),
        forall|i: int| 0 <= i < after.len() ==> is_whitespace(#[trigger] after[i]),
        inner.len() > 0,
        !is_whitespace(inner[0]),
        !is_whitespace(inner.last()),
    ensures
        is_trimmed(before + inner + after, inner),
{
    let s = before + inner + after;
    let i = before.len() as int;
    let j = i + inner.len();
    assert(inner =~= s.subrange(i, j));
    assert forall|k: int| (0 <= k < i || j <= k < s.len()) implies is_whitespace(
        #[trigger] s[k],
    ) by {
        if k >= j {
            assert(s[k] == after[k - j]);
        } else {
            assert(s[k] == before[k]);
        }
    }
    assert(s[i] == inner[0] && s[j - 1] == inner.last());
}

/// In ASCII, space and the controls from tabulator to carriage return are white
/// space, and no other character is; beyond it, neither letters nor digits are.
pub proof fn law_white_space(c: char)
    ensures
        c < '\u{80}' ==> (is_whitespace(c) <==> c == ' ' || '\t' <= c <= '\r'),
        c > '\u{3000}' ==> !is_whitespace(c),
        c == '\u{a0}' || c == '\u{3000}' ==> is_whitespace(c),
{
}

/// Of a text of white space alone, nothing is left.
pub proof fn law_blank_texts(s: Seq<char>)
    requires
        forall|i: int| 0 <= i < s.len() ==> is_whitespace(#[trigger] s[i]),
    ensures
        is_trimmed(s, Seq::empty()),
{
    assert(s.subrange(0, 0) =~= Seq::<char>::empty());
    assert forall|k: int| (0 <= k < 0 || 0 <= k < s.len()) implies is_whitespace(#[trigger] s[k]) by {}
}

} // verus!
