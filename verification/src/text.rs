//! Text building: characters pushed onto `String`s and decimal renderings of
//! integers, each with the sequence of characters it produces.

use vstd::prelude::*;
use vstd::string::*;

verus! {

/// The character for a decimal digit `d` (0 through 9).
pub open spec fn digit_char(d: int) -> char {
    (d + 48) as char
}

/// The decimal rendering of a natural number, most significant digit first.
pub open spec fn nat_to_dec(n: nat) -> Seq<char>
    decreases n,
{
    if n < 10 {
        seq![digit_char(n as int)]
    } else {
        nat_to_dec(n / 10).push(digit_char((n % 10) as int))
    }
}

/// The decimal rendering of an integer, with a leading `-` when negative.
pub open spec fn int_to_dec(i: int) -> Seq<char> {
    if i < 0 {
        seq!['-'] + nat_to_dec((-i) as nat)
    } else {
        nat_to_dec(i as nat)
    }
}

/// Is `c` a decimal digit?
pub open spec fn is_digit(c: char) -> bool {
    '0' <= c && c <= '9'
}

/// The number a string of decimal digits spells, most significant first.
pub open spec fn dec_value(s: Seq<char>) -> int
    decreases s.len(),
{
    if s.len() == 0 {
        0
    } else {
        dec_value(s.drop_last()) * 10 + (s.last() as int - '0' as int)
    }
}

/// A natural number renders as decimal digits that spell it, with no
/// leading zero (only zero itself starts with `0`); an integer renders the
/// same, behind a `-` when negative.
pub proof fn lemma_decimal_spells_the_number(n: nat)
    ensures
        nat_to_dec(n).len() > 0,
        forall|i: int| 0 <= i < nat_to_dec(n).len() ==> is_digit(#[trigger] nat_to_dec(n)[i]),
        dec_value(nat_to_dec(n)) == n,
        n > 0 ==> nat_to_dec(n)[0] != '0',
    decreases n,
{
    if n >= 10 {
        let q = n / 10;
        let d = n % 10;
        lemma_decimal_spells_the_number(q);
        let s = nat_to_dec(n);
        assert(s.drop_last() =~= nat_to_dec(q));
        assert((d + 48) as char as int == d + 48);
        assert(q * 10 + d == n);
        assert(nat_to_dec(q)[0] == s[0]);
        assert(s.last() == digit_char(d as int));
        assert(dec_value(s) == dec_value(s.drop_last()) * 10 + (s.last() as int - '0' as int));
        assert(dec_value(s) == dec_value(nat_to_dec(q)) * 10 + d);
    } else {
        assert((n + 48) as char as int == n + 48);
        let s = nat_to_dec(n);
        assert(s.drop_last() =~= Seq::<char>::empty());
        assert(dec_value(s) == dec_value(s.drop_last()) * 10 + (s.last() as int - '0' as int));
    }
}

/// `String::push`: appends one character.
#[verifier::external_body]
pub fn push_char(s: &mut String, c: char)
    ensures
        final(s)@ == old(s)@.push(c),
{
    s.push(c);
}

/// `str::to_string`: an owned copy of a string slice.
pub fn owned(s: &str) -> (r: String)
    ensures
        r@ == s@,
{
    String::from_str(s)
}

/// Appends the characters of `t` to `s`.
pub fn push_str(s: &mut String, t: &str)
    ensures
        final(s)@ == old(s)@ + t@,
{
    s.append(t);
}

/// Appends the decimal rendering of `n`.
pub fn push_u64(s: &mut String, n: u64)
    ensures
        final(s)@ == old(s)@ + nat_to_dec(n as nat),
    decreases n,
{
    if n >= 10 {
        push_u64(s, n / 10);
    }
    let d: u8 = (n % 10) as u8;
    let c: char = (d + 48u8) as char;
    push_char(s, c);
    proof {
        assert(c == digit_char((n % 10) as int));
        if n >= 10 {
            assert(nat_to_dec(n as nat) == nat_to_dec((n / 10) as nat).push(digit_char((n % 10) as int)));
        } else {
            assert(nat_to_dec(n as nat) == seq![digit_char(n as int)]);
        }
        assert(final(s)@ =~= old(s)@ + nat_to_dec(n as nat));
    }
}

/// Appends the decimal rendering of `n`, with a leading `-` when negative.
pub fn push_i64(s: &mut String, n: i64)
    ensures
        final(s)@ == old(s)@ + int_to_dec(n as int),
{
    if n < 0 {
        push_char(s, '-');
        let m: i128 = -(n as i128);
        let u: u64 = m as u64;
        push_u64(s, u);
        assert(final(s)@ =~= old(s)@ + int_to_dec(n as int));
    } else {
        push_u64(s, n as u64);
    }
}

/// The decimal rendering of `n` as a fresh string.
pub fn u64_to_string(n: u64) -> (r: String)
    ensures
        r@ == nat_to_dec(n as nat),
{
    let mut s = String::new();
    push_u64(&mut s, n);
    assert(s@ =~= nat_to_dec(n as nat));
    s
}

/// The decimal rendering of `n` (with sign) as a fresh string.
pub fn i64_to_string(n: i64) -> (r: String)
    ensures
        r@ == int_to_dec(n as int),
{
    let mut s = String::new();
    push_i64(&mut s, n);
    assert(s@ =~= int_to_dec(n as int));
    s
}

/// Character-wise equality of two string slices.
pub fn str_eq(a: &str, b: &str) -> (r: bool)
    ensures
        r == (a@ == b@),
{
    let x = String::from_str(a);
    let y = String::from_str(b);
    x == y
}

/// `parts` joined with `sep` between consecutive parts.
pub open spec fn join(parts: Seq<Seq<char>>, sep: Seq<char>) -> Seq<char>
    decreases parts.len(),
{
    if parts.len() == 0 {
        Seq::empty()
    } else if parts.len() == 1 {
        parts[0]
    } else {
        join(parts.drop_last(), sep) + sep + parts.last()
    }
}

/// The character sequences of a vector of strings.
pub open spec fn views(v: Seq<String>) -> Seq<Seq<char>> {
    v.map_values(|s: String| s@)
}

pub proof fn lemma_views_push(v: Seq<String>, x: String)
    ensures
        views(v.push(x)) == views(v).push(x@),
{
    assert(views(v.push(x)) =~= views(v).push(x@));
}

/// Appends one part to a vector of strings.
pub fn push_part(parts: &mut Vec<String>, s: String)
    ensures
        views(final(parts)@) == views(old(parts)@).push(s@),
        final(parts)@ == old(parts)@.push(s),
{
    proof { lemma_views_push(parts@, s); }
    parts.push(s);
}

/// Joins `parts` with `sep` between consecutive parts.
pub fn join_strings(parts: &Vec<String>, sep: &str) -> (r: String)
    ensures
        r@ == join(views(parts@), sep@),
{
    let mut s = String::new();
    let n = parts.len();
    let mut i: usize = 0;
    while i < n
        invariant
            n == parts.len(),
            i <= n,
            s@ == join(views(parts@.take(i as int)), sep@),
        decreases n - i,
    {
        let ghost prev = views(parts@.take(i as int));
        if i > 0 {
            push_str(&mut s, sep);
        }
        push_str(&mut s, parts[i].as_str());
        proof {
            let cur = views(parts@.take(i + 1));
            assert(cur.drop_last() =~= prev);
            assert(cur.last() == parts@[i as int]@);
            assert(cur.len() == i + 1);
            if i == 0 {
                assert(s@ =~= join(cur, sep@));
            } else {
                assert(s@ =~= join(cur, sep@));
            }
        }
        i = i + 1;
    }
    assert(parts@.take(n as int) =~= parts@);
    s
}

} // verus!
