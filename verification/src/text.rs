//! Text helpers for the IRIs of the variation graph: decimal numerals, their
//! parsing, and the segments of a string between slashes.

use vstd::prelude::*;
use crate::utils::push_char;

verus! {

/// The character of a decimal digit.
pub open spec fn digit_char(d: int) -> char {
    (d + 48) as char
}

/// Whether a character is an ASCII decimal digit.
pub open spec fn is_digit(c: char) -> bool {
    '0' <= c && c <= '9'
}

/// The value of a decimal digit character.
pub open spec fn digit_value(c: char) -> int {
    c as int - 48
}

/// The decimal numeral of a natural number, without sign or leading zeros.
pub open spec fn decimal(n: nat) -> Seq<char>
    decreases n,
{
    if n < 10 {
        seq![digit_char(n as int)]
    } else {
        decimal(n / 10).push(digit_char((n % 10) as int))
    }
}

/// The value of a string of decimal digits.
pub open spec fn digits_value(s: Seq<char>) -> int
    decreases s.len(),
{
    if s.len() == 0 {
        0
    } else {
        digits_value(s.drop_last()) * 10 + digit_value(s.last())
    }
}

/// Whether every character is a decimal digit.
pub open spec fn all_digits(s: Seq<char>) -> bool {
    forall|i: int| 0 <= i < s.len() ==> is_digit(#[trigger] s[i])
}

/// What `<u64 as FromStr>::from_str` accepts: an optional `+`, then one or
/// more decimal digits whose value fits in a `u64`.
pub open spec fn parse_u64_spec(s: Seq<char>) -> Option<u64> {
    let d = if s.len() > 0 && s[0] == '+' { s.drop_first() } else { s };
    if d.len() > 0 && all_digits(d) && digits_value(d) <= u64::MAX {
        Some(digits_value(d) as u64)
    } else {
        None
    }
}

proof fn lemma_digit_char(d: int)
    requires
        0 <= d < 10,
    ensures
        is_digit(digit_char(d)),
        digit_value(digit_char(d)) == d,
{
}

/// A decimal numeral is made of digits, and reads back to its number.
pub proof fn lemma_decimal(n: nat)
    ensures
        decimal(n).len() > 0,
        all_digits(decimal(n)),
        digits_value(decimal(n)) == n,
    decreases n,
{
    if n < 10 {
        lemma_digit_char(n as int);
        assert(decimal(n).drop_last() =~= Seq::<char>::empty());
        assert(digits_value(Seq::<char>::empty()) == 0);
    } else {
        lemma_decimal(n / 10);
        lemma_digit_char((n % 10) as int);
        let d = decimal(n);
        assert(d.drop_last() =~= decimal(n / 10));
        assert(d.last() == digit_char((n % 10) as int));
        assert(n == (n / 10) * 10 + n % 10);
        assert forall|i: int| 0 <= i < d.len() implies is_digit(#[trigger] d[i]) by {
            if i < d.len() - 1 {
                assert(d[i] == decimal(n / 10)[i]);
            }
        }
    }
}

/// The digit character of a value below ten.
fn digit(d: u64) -> (c: char)
    requires
        d < 10,
    ensures
        c == digit_char(d as int),
{
    ((d as u8) + 48u8) as char
}

/// Appends the decimal numeral of `n`.
pub fn push_decimal(s: &mut String, n: u64)
    ensures
        final(s)@ == old(s)@ + decimal(n as nat),
    decreases n,
{
    if n >= 10 {
        push_decimal(s, n / 10);
    }
    push_char(s, digit(n % 10));
    proof {
        if n < 10 {
            assert(old(s)@ + decimal(n as nat) =~= old(s)@.push(digit_char(n as int)));
        } else {
            assert(old(s)@ + decimal(n as nat) =~= (old(s)@ + decimal((n / 10) as nat)).push(
                digit_char((n % 10) as int),
            ));
        }
    }
}

/// The value of an all-digit string is no less than that of any prefix.
pub proof fn lemma_digits_value_prefix(s: Seq<char>, k: int)
    requires
        0 <= k <= s.len(),
        all_digits(s),
    ensures
        0 <= digits_value(s.take(k)) <= digits_value(s),
    decreases s.len(),
{
    if k == s.len() {
        assert(s.take(k) =~= s);
        lemma_digits_value_nonneg(s);
    } else {
        let t = s.drop_last();
        assert(all_digits(t)) by {
            assert forall|i: int| 0 <= i < t.len() implies is_digit(#[trigger] t[i]) by {
                assert(t[i] == s[i]);
            }
        }
        lemma_digits_value_prefix(t, k);
        assert(t.take(k) =~= s.take(k));
        assert(is_digit(s[s.len() - 1]));
    }
}

proof fn lemma_digits_value_nonneg(s: Seq<char>)
    requires
        all_digits(s),
    ensures
        digits_value(s) >= 0,
    decreases s.len(),
{
    if s.len() > 0 {
        let t = s.drop_last();
        assert(all_digits(t)) by {
            assert forall|i: int| 0 <= i < t.len() implies is_digit(#[trigger] t[i]) by {
                assert(t[i] == s[i]);
            }
        }
        lemma_digits_value_nonneg(t);
        assert(is_digit(s[s.len() - 1]));
    }
}

/// `<u64 as FromStr>::from_str` on the characters `s`: the value of an
/// optional `+` and one or more decimal digits, or `None` where the text is no
/// such numeral or its value does not fit.
pub fn parse_u64(s: &Vec<char>) -> (r: Option<u64>)
    ensures
        r == parse_u64_spec(s@),
{
    let n = s.len();
    let mut start: usize = 0;
    if n > 0 && s[0] == '+' {
        start = 1;
    }
    let ghost d = if s@.len() > 0 && s@[0] == '+' { s@.drop_first() } else { s@ };
    assert(d =~= s@.subrange(start as int, n as int));
    if start >= n {
        return None;
    }
    let mut value: u64 = 0;
    let mut i: usize = start;
    while i < n
        invariant
            start <= i <= n,
            n == s@.len(),
            d =~= s@.subrange(start as int, n as int),
            d == (if s@.len() > 0 && s@[0] == '+' { s@.drop_first() } else { s@ }),
            all_digits(s@.subrange(start as int, i as int)),
            value == digits_value(s@.subrange(start as int, i as int)),
        decreases n - i,
    {
        let c = s[i];
        let prefix = Ghost(s@.subrange(start as int, i as int));
        let next = Ghost(s@.subrange(start as int, i + 1));
        assert(next@.drop_last() =~= prefix@);
        assert(next@.last() == c);
        if !('0' <= c && c <= '9') {
            assert(d[i - start] == c);
            assert(!all_digits(d));
            return None;
        }
        let dv: u64 = (c as u32 - 48) as u64;
        assert(dv == digit_value(c));
        if value > (u64::MAX - dv) / 10 {
            assert(value * 10 + dv > u64::MAX) by (nonlinear_arith)
                requires
                    value > (u64::MAX - dv) / 10,
                    dv <= 9,
            ;
            assert(all_digits(next@)) by {
                assert forall|j: int| 0 <= j < next@.len() implies is_digit(#[trigger] next@[j]) by {
                    if j < next@.len() - 1 {
                        assert(next@[j] == prefix@[j]);
                    }
                }
            }
            proof {
                if all_digits(d) {
                    lemma_digits_value_prefix(d, (i + 1 - start) as int);
                    assert(d.take((i + 1 - start) as int) =~= next@);
                }
            }
            return None;
        }
        assert(value * 10 + dv <= u64::MAX) by (nonlinear_arith)
            requires
                value <= (u64::MAX - dv) / 10,
                dv <= 9,
        ;
        value = value * 10 + dv;
        assert(all_digits(next@)) by {
            assert forall|j: int| 0 <= j < next@.len() implies is_digit(#[trigger] next@[j]) by {
                if j < next@.len() - 1 {
                    assert(next@[j] == prefix@[j]);
                }
            }
        }
        i = i + 1;
    }
    Some(value)
}

/// The segments of a string between slashes, from left to right; a string
/// without a slash is one segment.
pub open spec fn split_slash(s: Seq<char>) -> Seq<Seq<char>>
    decreases s.len(),
{
    if s.len() == 0 {
        seq![Seq::<char>::empty()]
    } else {
        let prev = split_slash(s.drop_last());
        if s.last() == '/' {
            prev.push(Seq::<char>::empty())
        } else {
            prev.update(prev.len() - 1, prev.last().push(s.last()))
        }
    }
}

/// There is always at least one segment.
pub proof fn lemma_split_slash_len(s: Seq<char>)
    ensures
        split_slash(s).len() >= 1,
    decreases s.len(),
{
    if s.len() > 0 {
        lemma_split_slash_len(s.drop_last());
    }
}

/// Appending text without a slash extends the last segment.
pub proof fn lemma_split_slash_append_plain(a: Seq<char>, b: Seq<char>)
    requires
        forall|i: int| 0 <= i < b.len() ==> b[i] != '/',
    ensures
        split_slash(a + b) == split_slash(a).update(
            split_slash(a).len() - 1,
            split_slash(a).last() + b,
        ),
    decreases b.len(),
{
    lemma_split_slash_len(a);
    if b.len() == 0 {
        assert(a + b =~= a);
        assert(split_slash(a).last() + b =~= split_slash(a).last());
        assert(split_slash(a).update(split_slash(a).len() - 1, split_slash(a).last())
            =~= split_slash(a));
    } else {
        let b1 = b.drop_last();
        lemma_split_slash_append_plain(a, b1);
        assert((a + b).drop_last() =~= a + b1);
        assert((a + b).last() == b.last());
        assert(b[b.len() - 1] != '/');
        let p = split_slash(a);
        assert(split_slash(a + b) =~= p.update(p.len() - 1, p.last() + b)) by {
            assert((p.last() + b1).push(b.last()) =~= p.last() + b);
        }
    }
}

/// Appending a slash starts a new, empty segment.
pub proof fn lemma_split_slash_append_slash(a: Seq<char>)
    ensures
        split_slash(a.push('/')) == split_slash(a).push(Seq::<char>::empty()),
{
    assert(a.push('/').drop_last() =~= a);
}

/// The segments of `a`, a slash, then `b` without slashes: those of `a` and
/// `b` itself.
pub proof fn lemma_split_slash_segment(a: Seq<char>, b: Seq<char>)
    requires
        forall|i: int| 0 <= i < b.len() ==> b[i] != '/',
    ensures
        split_slash(a.push('/') + b) == split_slash(a).push(b),
{
    lemma_split_slash_append_slash(a);
    lemma_split_slash_append_plain(a.push('/'), b);
    let p = split_slash(a).push(Seq::<char>::empty());
    assert(p.last() + b =~= b);
    assert(p.update(p.len() - 1, b) =~= split_slash(a).push(b));
}

/// A string of the given characters.
pub fn string_of(v: &Vec<char>) -> (r: String)
    ensures
        r@ == v@,
{
    let mut r = String::new();
    let mut i: usize = 0;
    while i < v.len()
        invariant
            i <= v@.len(),
            r@ == v@.take(i as int),
        decreases v.len() - i,
    {
        push_char(&mut r, v[i]);
        assert(v@.take(i + 1) =~= v@.take(i as int).push(v@[i as int]));
        i = i + 1;
    }
    assert(v@.take(v@.len() as int) =~= v@);
    r
}

/// Whether two strings hold the same characters.
pub fn str_eq(a: &str, b: &str) -> (r: bool)
    ensures
        r == (a@ == b@),
{
    let v = crate::utils::chars_of(a);
    crate::utils::chars_are(&v, b)
}

/// The views of a vector of character vectors.
pub open spec fn views(v: Seq<Vec<char>>) -> Seq<Seq<char>> {
    v.map_values(|x: Vec<char>| x@)
}

/// `str::split('/')` on the characters `s`, each segment as characters.
pub fn split_slash_chars(s: &Vec<char>) -> (r: Vec<Vec<char>>)
    ensures
        views(r@) == split_slash(s@),
{
    let mut parts: Vec<Vec<char>> = Vec::new();
    parts.push(Vec::new());
    let n = s.len();
    let mut i: usize = 0;
    assert(s@.take(0) =~= Seq::<char>::empty());
    assert(views(parts@) =~= split_slash(s@.take(0)));
    while i < n
        invariant
            i <= n,
            n == s@.len(),
            views(parts@) == split_slash(s@.take(i as int)),
            parts@.len() >= 1,
        decreases n - i,
    {
        let c = s[i];
        let ghost prev = views(parts@);
        assert(s@.take(i + 1).drop_last() =~= s@.take(i as int));
        assert(s@.take(i + 1).last() == c);
        if c == '/' {
            parts.push(Vec::new());
            assert(views(parts@) =~= prev.push(Seq::<char>::empty()));
        } else {
            let mut last = parts.pop().unwrap();
            assert(last@ == prev.last());
            last.push(c);
            parts.push(last);
            assert(views(parts@) =~= prev.update(prev.len() - 1, prev.last().push(c)));
        }
        i = i + 1;
    }
    assert(s@.take(n as int) =~= s@);
    parts
}

} // verus!
