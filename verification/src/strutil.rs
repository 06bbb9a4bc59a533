//! Small verified text utilities shared by the profile renderer and the
//! summary serializer: decimal numerals and character-vector assembly.

use vstd::prelude::*;

verus! {

/// Relies on `String`'s `FromIterator<char>` impl: collecting a
/// character sequence yields the string of exactly those characters,
/// in order.
#[verifier::external_body]
pub(crate) fn string_from_chars(v: &Vec<char>) -> (r: String)
    ensures
        r@ == v@,
{
    v.iter().collect()
}

/// The decimal digit character for a value below ten.
pub open spec fn spec_digit_char(d: int) -> char {
    if d == 0 {
        '0'
    } else if d == 1 {
        '1'
    } else if d == 2 {
        '2'
    } else if d == 3 {
        '3'
    } else if d == 4 {
        '4'
    } else if d == 5 {
        '5'
    } else if d == 6 {
        '6'
    } else if d == 7 {
        '7'
    } else if d == 8 {
        '8'
    } else {
        '9'
    }
}

/// The usual base-ten numeral of a natural number, most significant
/// digit first, with no leading zeros (and `0` written as one digit).
pub open spec fn spec_decimal(n: nat) -> Seq<char>
    decreases n,
{
    if n < 10 {
        seq![spec_digit_char(n as int)]
    } else {
        spec_decimal(n / 10).push(spec_digit_char((n % 10) as int))
    }
}

fn digit_char(d: u64) -> (c: char)
    requires
        d < 10,
    ensures
        c == spec_digit_char(d as int),
{
    if d == 0 {
        '0'
    } else if d == 1 {
        '1'
    } else if d == 2 {
        '2'
    } else if d == 3 {
        '3'
    } else if d == 4 {
        '4'
    } else if d == 5 {
        '5'
    } else if d == 6 {
        '6'
    } else if d == 7 {
        '7'
    } else if d == 8 {
        '8'
    } else {
        '9'
    }
}

/// The decimal digits of `n`, as characters, most significant first.
pub fn decimal_chars(n: u64) -> (r: Vec<char>)
    ensures
        r@ == spec_decimal(n as nat),
{
    let mut rev: Vec<char> = Vec::new();
    let mut m: u64 = n;
    while m >= 10
        invariant
            spec_decimal(n as nat) == spec_decimal(m as nat) + rev@.reverse(),
        decreases m,
    {
        let d = digit_char(m % 10);
        proof {
            assert((rev@.push(spec_digit_char((m % 10) as int))).reverse() =~= seq![
                spec_digit_char((m % 10) as int),
            ] + rev@.reverse());
            assert(spec_decimal((m / 10) as nat) + (seq![spec_digit_char((m % 10) as int)]
                + rev@.reverse()) =~= spec_decimal(m as nat) + rev@.reverse());
        }
        rev.push(d);
        m = m / 10;
    }
    let d = digit_char(m);
    proof {
        assert((rev@.push(spec_digit_char(m as int))).reverse() =~= seq![
            spec_digit_char(m as int),
        ] + rev@.reverse());
        assert(spec_decimal(m as nat) + rev@.reverse() =~= (rev@.push(
            spec_digit_char(m as int),
        )).reverse());
    }
    rev.push(d);
    let mut out: Vec<char> = Vec::new();
    let mut i: usize = 0;
    while i < rev.len()
        invariant
            i <= rev@.len(),
            out@.len() == i,
            forall|j: int| 0 <= j < i ==> out@[j] == rev@[rev@.len() - 1 - j],
        decreases rev@.len() - i,
    {
        out.push(rev[rev.len() - 1 - i]);
        i = i + 1;
    }
    proof {
        assert(out@ =~= rev@.reverse());
    }
    out
}

/// The base-ten numeral of `n` as a `String`.
pub fn u64_to_string(n: u64) -> (r: String)
    ensures
        r@ == spec_decimal(n as nat),
{
    let chars = decimal_chars(n);
    string_from_chars(&chars)
}

/// The numeral of `n`, left-padded with zeros to at least `width`
/// characters, as used for timestamp components.
pub open spec fn spec_padded_decimal(n: nat, width: nat) -> Seq<char> {
    let raw = spec_decimal(n);
    if raw.len() >= width {
        raw
    } else {
        Seq::new((width - raw.len()) as nat, |k: int| '0') + raw
    }
}

/// The decimal digits of `n`, zero-padded on the left to `width`.
pub fn padded_decimal_chars(n: u64, width: usize) -> (r: Vec<char>)
    requires
        width <= 32,
    ensures
        r@ == spec_padded_decimal(n as nat, width as nat),
{
    let raw = decimal_chars(n);
    if raw.len() >= width {
        raw
    } else {
        let pad = width - raw.len();
        let mut out: Vec<char> = Vec::new();
        let mut i: usize = 0;
        while i < pad
            invariant
                i <= pad,
                out@ =~= Seq::new(i as nat, |k: int| '0'),
            decreases pad - i,
        {
            out.push('0');
            i = i + 1;
        }
        let mut j: usize = 0;
        while j < raw.len()
            invariant
                j <= raw@.len(),
                out@ =~= Seq::new(pad as nat, |k: int| '0') + raw@.take(j as int),
            decreases raw@.len() - j,
        {
            out.push(raw[j]);
            proof {
                assert(raw@.take(j + 1) =~= raw@.take(j as int).push(raw@[j as int]));
            }
            j = j + 1;
        }
        proof {
            assert(raw@.take(raw@.len() as int) =~= raw@);
        }
        out
    }
}

} // verus!
