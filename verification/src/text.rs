//! Text as sequences of characters: trimming, unsigned decimal numbers and
//! the lexicographic order of strings.

use vstd::prelude::*;
use vstd::std_specs::iter::IteratorSpec;

verus! {

/// Taken on trust from the standard library's documentation of
/// `String::push`: the string afterwards is the string before with the
/// character appended at its end.
pub assume_specification[ String::push ](s: &mut String, ch: char)
    ensures
        final(s)@ == old(s)@.push(ch),
;

/// The code point of a character.
pub open spec fn code(c: char) -> int {
    c as int
}

/// Different characters have different code points, all below `0x110000`.
pub proof fn lemma_code(x: char, y: char)
    ensures
        0 <= code(x) <= 0x10ffff,
        x != y ==> code(x) != code(y),
{
}

/// The code point of `c`.
pub fn code_of(c: char) -> (n: u32)
    ensures
        n == code(c),
{
    c as u32
}

/// White space: the characters U+0009 to U+000D, U+0020, U+0085, U+00A0,
/// U+1680, U+2000 to U+200A, U+2028, U+2029, U+202F, U+205F and U+3000.
pub open spec fn is_whitespace(c: char) -> bool {
    let n = code(c);
    ||| 0x09 <= n <= 0x0d
    ||| n == 0x20
    ||| n == 0x85
    ||| n == 0xa0
    ||| n == 0x1680
    ||| 0x2000 <= n <= 0x200a
    ||| n == 0x2028
    ||| n == 0x2029
    ||| n == 0x202f
    ||| n == 0x205f
    ||| n == 0x3000
}

/// `s` without its leading white space.
pub open spec fn trim_start(s: Seq<char>) -> Seq<char>
    decreases s.len(),
{
    if s.len() > 0 && is_whitespace(s[0]) {
        trim_start(s.skip(1))
    } else {
        s
    }
}

/// `s` without its trailing white space.
pub open spec fn trim_end(s: Seq<char>) -> Seq<char>
    decreases s.len(),
{
    if s.len() > 0 && is_whitespace(s.last()) {
        trim_end(s.drop_last())
    } else {
        s
    }
}

/// `s` without its leading and trailing white space.
pub open spec fn trim(s: Seq<char>) -> Seq<char> {
    trim_end(trim_start(s))
}

/// One of the ten decimal digits `0` to `9`.
pub open spec fn is_digit(c: char) -> bool {
    0x30 <= code(c) <= 0x39
}

/// Every character of `s` is a decimal digit.
pub open spec fn all_digits(s: Seq<char>) -> bool {
    forall|i: int| 0 <= i < s.len() ==> is_digit(#[trigger] s[i])
}

/// The number that the decimal digits `s` write; leading zeros count for
/// nothing.
pub open spec fn decimal_value(s: Seq<char>) -> nat
    decreases s.len(),
{
    if s.len() == 0 {
        0
    } else {
        (decimal_value(s.drop_last()) * 10 + (code(s.last()) - 0x30)) as nat
    }
}

/// `s` without one leading `+`, if it has one.
pub open spec fn unsigned_digits(s: Seq<char>) -> Seq<char> {
    if s.len() > 0 && s[0] == '+' {
        s.skip(1)
    } else {
        s
    }
}

/// The number that `s` writes in decimal: an optional `+`, then one or more
/// digits and nothing else, with a value of at most `u32::MAX`.
pub open spec fn decimal_u32(s: Seq<char>) -> Option<u32> {
    let d = unsigned_digits(s);
    if d.len() > 0 && all_digits(d) && decimal_value(d) <= u32::MAX {
        Some(decimal_value(d) as u32)
    } else {
        None
    }
}

/// `a` comes before `b` in the lexicographic order by code point, the order
/// in which strings sort.
pub open spec fn lex_less(a: Seq<char>, b: Seq<char>) -> bool
    decreases a.len(),
{
    if b.len() == 0 {
        false
    } else if a.len() == 0 {
        true
    } else if a[0] != b[0] {
        code(a[0]) < code(b[0])
    } else {
        lex_less(a.skip(1), b.skip(1))
    }
}

/// Nothing comes before itself.
pub proof fn lemma_lex_irreflexive(a: Seq<char>)
    ensures
        !lex_less(a, a),
    decreases a.len(),
{
    if a.len() > 0 {
        lemma_lex_irreflexive(a.skip(1));
    }
}

/// The order is transitive.
pub proof fn lemma_lex_transitive(a: Seq<char>, b: Seq<char>, c: Seq<char>)
    requires
        lex_less(a, b),
        lex_less(b, c),
    ensures
        lex_less(a, c),
    decreases a.len(),
{
    if a.len() > 0 && a[0] == b[0] && b[0] == c[0] {
        lemma_lex_transitive(a.skip(1), b.skip(1), c.skip(1));
    }
}

/// Of two different strings one comes before the other.
pub proof fn lemma_lex_total(a: Seq<char>, b: Seq<char>)
    ensures
        a == b || lex_less(a, b) || lex_less(b, a),
    decreases a.len(),
{
    if a.len() > 0 && b.len() > 0 {
        if a[0] == b[0] {
            lemma_lex_total(a.skip(1), b.skip(1));
            if a.skip(1) == b.skip(1) {
                assert(a =~= seq![a[0]] + a.skip(1));
                assert(b =~= seq![b[0]] + b.skip(1));
            }
        } else {
            lemma_code(a[0], b[0]);
        }
    } else if a.len() == 0 && b.len() == 0 {
        assert(a =~= b);
    }
}

/// No two strings come before each other.
pub proof fn lemma_lex_asymmetric(a: Seq<char>, b: Seq<char>)
    requires
        lex_less(a, b),
    ensures
        !lex_less(b, a),
{
    if lex_less(b, a) {
        lemma_lex_transitive(a, b, a);
        lemma_lex_irreflexive(a);
    }
}

/// A number grows with every digit that is written behind it.
pub proof fn lemma_decimal_value_grows(s: Seq<char>, n: int)
    requires
        0 <= n <= s.len(),
        all_digits(s),
    ensures
        decimal_value(s.take(n)) <= decimal_value(s),
    decreases s.len() - n,
{
    if n < s.len() {
        lemma_decimal_value_grows(s, n + 1);
        assert(s.take(n + 1).drop_last() =~= s.take(n));
        assert(is_digit(s.take(n + 1).last()));
    } else {
        assert(s.take(n) =~= s);
    }
}

/// The characters of `s`, in order.
pub fn chars_of(s: &str) -> (r: Vec<char>)
    ensures
        r@ == s@,
{
    broadcast use vstd::string::group_string_axioms;

    let mut it = s.chars();
    let mut out: Vec<char> = Vec::new();
    loop
        invariant
            out@ + it.remaining() == s@,
        ensures
            out@ == s@,
        decreases s@.len() - out@.len(),
    {
        match it.next() {
            Some(c) => {
                proof {
                    assert(out@.push(c) + it.remaining() =~= s@);
                }
                out.push(c);
            },
            None => {
                assert(out@ + it.remaining() =~= out@);
                break ;
            },
        }
    }
    out
}

/// Whether `c` is white space.
pub fn char_is_whitespace(c: char) -> (r: bool)
    ensures
        r == is_whitespace(c),
{
    let n: u32 = code_of(c);
    (0x09 <= n && n <= 0x0d) || n == 0x20 || n == 0x85 || n == 0xa0 || n == 0x1680 || (0x2000 <= n
        && n <= 0x200a) || n == 0x2028 || n == 0x2029 || n == 0x202f || n == 0x205f || n == 0x3000
}

/// The characters of `s` between its leading and its trailing white space.
pub fn trimmed(s: &Vec<char>) -> (r: Vec<char>)
    ensures
        r@ == trim(s@),
{
    let mut start: usize = 0;
    proof {
        assert(s@.skip(0) =~= s@);
    }
    while start < s.len() && char_is_whitespace(s[start])
        invariant
            start <= s.len(),
            trim_start(s@) == trim_start(s@.skip(start as int)),
        decreases s.len() - start,
    {
        proof {
            assert(s@.skip(start as int).skip(1) =~= s@.skip(start + 1));
        }
        start += 1;
    }
    proof {
        assert(s@.skip(s.len() as int) =~= Seq::<char>::empty());
        assert(trim_start(s@) == s@.skip(start as int));
    }
    let mut end: usize = s.len();
    while end > start && char_is_whitespace(s[end - 1])
        invariant
            start <= end <= s.len(),
            trim(s@) == trim_end(s@.subrange(start as int, end as int)),
        decreases end,
    {
        proof {
            assert(s@.subrange(start as int, end as int).drop_last() =~= s@.subrange(
                start as int,
                end - 1,
            ));
        }
        end -= 1;
    }
    let mut out: Vec<char> = Vec::new();
    let mut i: usize = start;
    while i < end
        invariant
            start <= i <= end <= s.len(),
            out@ == s@.subrange(start as int, i as int),
        decreases end - i,
    {
        out.push(s[i]);
        i += 1;
    }
    out
}

/// Reads an unsigned decimal number: an optional `+`, then digits only. Text
/// with no digit, with any other character, or with a value above `u32::MAX`
/// gives `None`.
pub fn parse_u32(s: &Vec<char>) -> (r: Option<u32>)
    ensures
        r == decimal_u32(s@),
{
    let first: usize = if s.len() > 0 && s[0] == '+' {
        1
    } else {
        0
    };
    if first == s.len() {
        return None;
    }
    let ghost d = unsigned_digits(s@);
    proof {
        assert(s@.skip(0) =~= s@);
    }
    let mut acc: u32 = 0;
    let mut i: usize = first;
    while i < s.len()
        invariant
            first <= i <= s.len(),
            d == unsigned_digits(s@),
            d == s@.skip(first as int),
            all_digits(d.take(i - first)),
            acc == decimal_value(d.take(i - first)),
        decreases s.len() - i,
    {
        let n: u32 = code_of(s[i]);
        if n < 0x30 || n > 0x39 {
            proof {
                assert(!is_digit(d[i - first]));
            }
            return None;
        }
        let ghost next = d.take(i - first + 1);
        proof {
            assert(next.drop_last() =~= d.take(i - first));
            assert(next.last() == s@[i as int]);
            assert forall|k: int| 0 <= k < next.len() implies is_digit(#[trigger] next[k]) by {
                if k < i - first {
                    assert(next[k] == d.take(i - first)[k]);
                }
            }
        }
        let digit: u32 = n - 0x30;
        if acc > (u32::MAX - digit) / 10 {
            proof {
                assert(decimal_value(next) > u32::MAX);
                if all_digits(d) {
                    lemma_decimal_value_grows(d, i - first + 1);
                }
            }
            return None;
        }
        acc = acc * 10 + digit;
        i += 1;
    }
    proof {
        assert(d.take(i - first) =~= d);
    }
    Some(acc)
}

/// Whether `a` comes before `b` in the lexicographic order by code point.
pub fn str_less(a: &str, b: &str) -> (r: bool)
    ensures
        r == lex_less(a@, b@),
{
    broadcast use vstd::string::group_string_axioms;

    let mut ia = a.chars();
    let mut ib = b.chars();
    let ghost mut n: int = 0;
    proof {
        assert(a@.skip(0) =~= a@);
        assert(b@.skip(0) =~= b@);
    }
    loop
        invariant
            0 <= n,
            a@.skip(n) == ia.remaining(),
            b@.skip(n) == ib.remaining(),
            n <= a@.len(),
            n <= b@.len(),
            lex_less(a@, b@) == lex_less(a@.skip(n), b@.skip(n)),
        decreases a@.len() - n,
    {
        let ghost ra = ia.remaining();
        let ghost rb = ib.remaining();
        let ca = ia.next();
        let cb = ib.next();
        match cb {
            None => {
                return false;
            },
            Some(y) => {
                match ca {
                    None => {
                        return true;
                    },
                    Some(x) => {
                        if x != y {
                            proof {
                                lemma_code(x, y);
                            }
                            return code_of(x) < code_of(y);
                        }
                        proof {
                            assert(ra.skip(1) =~= a@.skip(n + 1));
                            assert(rb.skip(1) =~= b@.skip(n + 1));
                            n = n + 1;
                        }
                    },
                }
            },
        }
    }
}

} // verus!
