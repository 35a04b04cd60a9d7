//! Small verified string utilities: equality and prefix tests on string
//! slices, and decimal rendering and parsing for stash slot indices.

use vstd::prelude::*;

verus! {

/// Whether two string slices hold the same characters.
pub fn str_eq(a: &str, b: &str) -> (r: bool)
    ensures
        r == (a@ == b@),
{
    let x = a.to_owned();
    let y = b.to_owned();
    x == y
}

/// True when `p` is a prefix of `s`.
pub open spec fn is_prefix_of(p: Seq<char>, s: Seq<char>) -> bool {
    p.len() <= s.len() && s.subrange(0, p.len() as int) == p
}

/// Whether `p` is a prefix of `s`.
pub fn str_starts_with(s: &str, p: &str) -> (r: bool)
    ensures
        r == is_prefix_of(p@, s@),
{
    let ns = s.unicode_len();
    let np = p.unicode_len();
    if np > ns {
        return false;
    }
    let head = s.substring_char(0, np);
    str_eq(head, p)
}

/// Strict lexicographic order on character sequences, by code point: the
/// empty sequence comes first, then by first differing character.
#[verifier::opaque]
pub open spec fn lex_lt(a: Seq<char>, b: Seq<char>) -> bool
    decreases a.len(),
{
    if b.len() == 0 {
        false
    } else if a.len() == 0 {
        true
    } else if (a[0] as int) < (b[0] as int) {
        true
    } else if a[0] == b[0] {
        lex_lt(a.drop_first(), b.drop_first())
    } else {
        false
    }
}

/// Two distinct sequences are ordered one way or the other.
pub proof fn lemma_lex_total(a: Seq<char>, b: Seq<char>)
    ensures
        a == b || lex_lt(a, b) || lex_lt(b, a),
    decreases a.len(),
{
    reveal(lex_lt);
    if a.len() == 0 && b.len() == 0 {
        assert(a =~= b);
    } else if a.len() != 0 && b.len() != 0 && a[0] == b[0] {
        lemma_lex_total(a.drop_first(), b.drop_first());
        if a.drop_first() == b.drop_first() {
            assert(a =~= b) by {
                assert(a.drop_first().len() == a.len() - 1);
                assert(b.drop_first().len() == b.len() - 1);
                assert(a.len() == b.len());
                assert forall|i: int| 0 <= i < a.len() implies a[i] == b[i] by {
                    if i > 0 {
                        assert(a[i] == a.drop_first()[i - 1]);
                        assert(b[i] == b.drop_first()[i - 1]);
                    }
                }
            }
        }
    }
}

/// Nothing comes before itself in lexicographic order.
pub proof fn lemma_lex_irrefl(a: Seq<char>)
    ensures
        !lex_lt(a, a),
    decreases a.len(),
{
    reveal(lex_lt);
    if a.len() != 0 {
        lemma_lex_irrefl(a.drop_first());
    }
}

/// Lexicographic order is transitive.
pub proof fn lemma_lex_trans(a: Seq<char>, b: Seq<char>, c: Seq<char>)
    requires
        lex_lt(a, b),
        lex_lt(b, c),
    ensures
        lex_lt(a, c),
    decreases a.len(),
{
    reveal(lex_lt);
    if a.len() != 0 && b.len() != 0 && c.len() != 0 && a[0] == b[0] && b[0] == c[0] {
        lemma_lex_trans(a.drop_first(), b.drop_first(), c.drop_first());
    }
}

/// Whether one string comes strictly before another in lexicographic order.
pub fn str_lex_lt(a: &str, b: &str) -> (r: bool)
    ensures
        r == lex_lt(a@, b@),
    decreases a@.len(),
{
    proof {
        reveal(lex_lt);
    }
    let na = a.unicode_len();
    let nb = b.unicode_len();
    if nb == 0 {
        return false;
    }
    if na == 0 {
        return true;
    }
    let ca = a.get_char(0);
    let cb = b.get_char(0);
    proof {
        assert(((ca as u32) as int) == ca as int);
        assert(((cb as u32) as int) == cb as int);
    }
    if (ca as u32) < (cb as u32) {
        true
    } else if ca == cb {
        let a1 = a.substring_char(1, na);
        let b1 = b.substring_char(1, nb);
        proof {
            assert(a1@ =~= a@.drop_first());
            assert(b1@ =~= b@.drop_first());
        }
        str_lex_lt(a1, b1)
    } else {
        false
    }
}

/// The decimal digit character for a value below ten.
pub open spec fn digit_char(d: int) -> char {
    seq!['0', '1', '2', '3', '4', '5', '6', '7', '8', '9'][d % 10]
}

/// The decimal rendering of a natural number, most significant digit first,
/// without leading zeros.
pub open spec fn dec_spec(n: int) -> Seq<char>
    decreases n,
{
    if n < 10 {
        seq![digit_char(n)]
    } else {
        dec_spec(n / 10).push(digit_char(n % 10))
    }
}

/// The numeric value of a decimal digit character, if it is one.
pub open spec fn digit_val(c: char) -> Option<int> {
    if 48 <= c as u32 <= 57 {
        Some(c as u32 - 48)
    } else {
        None
    }
}

/// The value of a decimal numeral: `None` when the sequence is empty or holds
/// a character that is no decimal digit. Leading zeros are accepted.
pub open spec fn parse_dec_spec(s: Seq<char>) -> Option<int>
    decreases s.len(),
{
    if s.len() == 0 {
        None
    } else if s.len() == 1 {
        digit_val(s[0])
    } else {
        match (parse_dec_spec(s.drop_last()), digit_val(s.last())) {
            (Some(v), Some(d)) => Some(v * 10 + d),
            _ => None,
        }
    }
}

/// Renders a number in decimal.
pub fn u64_to_dec_string(n: u64) -> (r: String)
    ensures
        r@ == dec_spec(n as int),
    decreases n,
{
    let digits = "0123456789";
    proof {
        reveal_strlit("0123456789");
        assert(digits@ =~= seq!['0', '1', '2', '3', '4', '5', '6', '7', '8', '9']);
    }
    if n < 10 {
        let d = n as usize;
        let r = digits.substring_ascii(d, d + 1).to_owned();
        proof {
            assert(r@ =~= seq![digit_char(n as int)]);
        }
        r
    } else {
        let mut s = u64_to_dec_string(n / 10);
        let d = (n % 10) as usize;
        let ds = digits.substring_ascii(d, d + 1);
        proof {
            assert(ds@ =~= seq![digit_char(n as int % 10)]);
        }
        s.append(ds);
        proof {
            assert(s@ =~= dec_spec(n as int / 10).push(digit_char(n as int % 10)));
        }
        s
    }
}

/// Parses a decimal numeral. Returns `None` when the string is no numeral or
/// its value does not fit in a `u64`.
pub fn parse_dec(s: &str) -> (r: Option<u64>)
    ensures
        match r {
            Some(v) => parse_dec_spec(s@) == Some(v as int),
            None => match parse_dec_spec(s@) {
                Some(v) => v > u64::MAX,
                None => true,
            },
        },
{
    let n = s.unicode_len();
    if n == 0 {
        return None;
    }
    let mut acc: u64 = 0;
    let mut i: usize = 0;
    while i < n
        invariant
            n == s@.len(),
            n > 0,
            i <= n,
            i > 0 ==> parse_dec_spec(s@.subrange(0, i as int)) == Some(acc as int),
            i == 0 ==> acc == 0,
        decreases n - i,
    {
        let c = s.get_char(i);
        let cu = c as u32;
        proof {
            let pre = s@.subrange(0, i as int);
            let post = s@.subrange(0, i + 1 as int);
            assert(post.drop_last() =~= pre);
            assert(post.last() == s@[i as int]);
            assert(post[0] == s@[0]);
        }
        if cu < 48 || cu > 57 {
            proof {
                lemma_parse_dec_bad_digit(s@, i as int);
            }
            return None;
        }
        let d: u64 = (cu - 48) as u64;
        if acc > (u64::MAX - d) / 10 {
            proof {
                assert(acc * 10 + d > u64::MAX) by (nonlinear_arith)
                    requires
                        acc > (u64::MAX - d) / 10,
                        d < 10,
                ;
                assert(parse_dec_spec(s@.subrange(0, i + 1 as int)) == Some(acc * 10 + d as int));
                lemma_parse_dec_monotonic(s@, i + 1 as int, acc * 10 + d as int);
            }
            return None;
        }
        proof {
            assert(acc * 10 + d <= u64::MAX) by (nonlinear_arith)
                requires
                    acc <= (u64::MAX - d) / 10,
                    d < 10,
            ;
        }
        acc = acc * 10 + d;
        i = i + 1;
    }
    proof {
        assert(s@.subrange(0, n as int) =~= s@);
    }
    Some(acc)
}

/// A numeral with a non-digit character anywhere has no value.
proof fn lemma_parse_dec_bad_digit(s: Seq<char>, i: int)
    requires
        0 <= i < s.len(),
        digit_val(s[i]) is None,
    ensures
        parse_dec_spec(s) is None,
    decreases s.len(),
{
    if s.len() > 1 && i < s.len() - 1 {
        lemma_parse_dec_bad_digit(s.drop_last(), i);
    }
}

/// The value of a numeral only grows as digits are appended: once a prefix is
/// worth at least `v`, the whole numeral is.
proof fn lemma_parse_dec_monotonic(s: Seq<char>, i: int, v: int)
    requires
        0 < i <= s.len(),
        v >= 0,
        parse_dec_spec(s.subrange(0, i)) == Some(v),
    ensures
        match parse_dec_spec(s) {
            Some(w) => w >= v,
            None => true,
        },
    decreases s.len() - i,
{
    if i == s.len() {
        assert(s.subrange(0, i) =~= s);
    } else {
        let next = s.subrange(0, i + 1);
        assert(next.drop_last() =~= s.subrange(0, i));
        match digit_val(s[i]) {
            Some(d) => {
                assert(parse_dec_spec(next) == Some(v * 10 + d));
                assert(v * 10 + d >= v) by (nonlinear_arith)
                    requires
                        v >= 0,
                        d >= 0,
                ;
                lemma_parse_dec_monotonic(s, i + 1, v * 10 + d);
            },
            None => {
                lemma_parse_dec_bad_digit(s, i);
            },
        }
    }
}

} // verus!
