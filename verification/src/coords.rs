//! Reading a geolocation answer: a `lat,lon` pair of decimal degree
//! numerals becomes a pair of microdegree integers. The network fetch
//! lives outside this crate; every decision about the answer's text is
//! here, including the range checks that make the pair usable by the
//! distance computation.

use vstd::prelude::*;
use vstd::string::StrSliceExecFns;
use crate::geo::{LAT_LIMIT_UDEG, LON_LIMIT_UDEG};
use crate::prefs::{spec_all_digits, spec_digit_val, spec_digits_val};

verus! {

/// Ten to the `k`th, for the fractional places of a degree numeral.
pub open spec fn spec_pow10(k: int) -> int {
    if k <= 0 {
        1
    } else if k == 1 {
        10
    } else if k == 2 {
        100
    } else if k == 3 {
        1000
    } else if k == 4 {
        10000
    } else if k == 5 {
        100000
    } else {
        1000000
    }
}

/// The first index of `c`, if any.
pub open spec fn spec_find_char(s: Seq<char>, c: char) -> Option<int>
    decreases s.len(),
{
    if s.len() == 0 {
        None
    } else if s[0] == c {
        Some(0)
    } else {
        match spec_find_char(s.drop_first(), c) {
            Some(i) => Some(i + 1),
            None => None,
        }
    }
}

/// The microdegree value of a fraction's digits: the first six places
/// count, later places are cut off.
pub open spec fn spec_frac6(fs: Seq<char>) -> int {
    if fs.len() >= 6 {
        spec_digits_val(fs.take(6))
    } else {
        spec_digits_val(fs) * spec_pow10(6 - fs.len())
    }
}

/// The microdegrees a degree numeral denotes: an optional minus sign,
/// at least one integer digit, and an optional fraction after one
/// dot; anything else denotes nothing.
pub open spec fn spec_parse_udeg(s: Seq<char>) -> Option<int> {
    let negative = s.len() > 0 && s[0] == '-';
    let body = if negative {
        s.drop_first()
    } else {
        s
    };
    let int_part = match spec_find_char(body, '.') {
        Some(d) => body.take(d),
        None => body,
    };
    let frac_part = match spec_find_char(body, '.') {
        Some(d) => body.skip(d + 1),
        None => Seq::empty(),
    };
    if int_part.len() == 0 || !spec_all_digits(int_part) || !spec_all_digits(frac_part) {
        None
    } else {
        let v = spec_digits_val(int_part) * 1_000_000 + spec_frac6(frac_part);
        Some(
            if negative {
                -v
            } else {
                v
            },
        )
    }
}

/// The microdegree pair a `lat,lon` answer denotes: exactly one comma,
/// both sides degree numerals, the latitude within 90 degrees and the
/// longitude within 180; anything else denotes nothing.
pub open spec fn spec_parse_lat_lon(s: Seq<char>) -> Option<(int, int)> {
    match spec_find_char(s, ',') {
        Some(comma) => {
            let left = s.take(comma);
            let right = s.skip(comma + 1);
            if spec_find_char(right, ',') is Some {
                None
            } else {
                match (spec_parse_udeg(left), spec_parse_udeg(right)) {
                    (Some(lat), Some(lon)) => if -(LAT_LIMIT_UDEG as int) <= lat <= LAT_LIMIT_UDEG
                        as int && -(LON_LIMIT_UDEG as int) <= lon <= LON_LIMIT_UDEG as int {
                        Some((lat, lon))
                    } else {
                        None
                    },
                    _ => None,
                }
            }
        },
        None => None,
    }
}

/// Scan `[from, to)` of `s` for the first occurrence of `c`.
fn find_char_in(s: &str, from: usize, to: usize, c: char) -> (r: Option<usize>)
    requires
        from <= to <= s@.len(),
    ensures
        ({
            let sub = s@.subrange(from as int, to as int);
            match r {
                Some(i) => from <= i < to && spec_find_char(sub, c) == Some(i - from),
                None => spec_find_char(sub, c) is None,
            }
        }),
{
    let ghost sub = s@.subrange(from as int, to as int);
    proof {
        assert(sub.skip(0) =~= sub);
    }
    let mut i: usize = from;
    while i < to
        invariant
            from <= i <= to <= s@.len(),
            sub == s@.subrange(from as int, to as int),
            spec_find_char(sub, c) == (match spec_find_char(sub.skip(i - from), c) {
                Some(p) => Some(p + (i - from)),
                None => None,
            }),
        decreases to - i,
    {
        proof {
            assert(sub.skip(i - from)[0] == s@[i as int]);
        }
        if s.get_char(i) == c {
            return Some(i);
        }
        proof {
            assert(sub.skip(i - from).drop_first() =~= sub.skip(i + 1 - from));
        }
        i = i + 1;
    }
    proof {
        assert(sub.skip(to - from) =~= Seq::<char>::empty());
    }
    None
}

/// Read the degree numeral in `[from, to)` of `s` as microdegrees,
/// accepting it only when its magnitude is at most `limit`.
fn parse_udeg_range(s: &str, from: usize, to: usize, limit: i64) -> (r: Option<i64>)
    requires
        from <= to <= s@.len(),
        0 < limit <= 1_000_000_000,
    ensures
        ({
            let sub = s@.subrange(from as int, to as int);
            match r {
                Some(v) => spec_parse_udeg(sub) == Some(v as int) && -limit <= v <= limit,
                None => spec_parse_udeg(sub) is None || !(-(limit as int) <= spec_parse_udeg(
                    sub,
                )->0 <= limit as int),
            }
        }),
{
    let ghost sub = s@.subrange(from as int, to as int);
    let mut negative: bool = false;
    let mut start: usize = from;
    if from < to {
        if s.get_char(from) == '-' {
            negative = true;
            start = from + 1;
        }
    }
    let ghost body = if negative {
        sub.drop_first()
    } else {
        sub
    };
    proof {
        assert(body =~= s@.subrange(start as int, to as int));
    }
    // locate the dot inside the body
    let dot = find_char_in(s, start, to, '.');
    let int_end: usize = match dot {
        Some(d) => d,
        None => to,
    };
    proof {
        match dot {
            Some(d) => {
                assert(spec_find_char(body, '.') == Some(d - start));
                assert(body.take(d - start) =~= s@.subrange(start as int, d as int));
                assert(body.skip(d - start + 1) =~= s@.subrange(d + 1, to as int));
            },
            None => {
                assert(spec_find_char(body, '.') is None);
            },
        }
    }
    if int_end == start {
        // no integer digit at all
        proof {
            let ip = match spec_find_char(body, '.') {
                Some(d) => body.take(d),
                None => body,
            };
            assert(ip.len() == 0);
        }
        return None;
    }
    let ghost int_part = s@.subrange(start as int, int_end as int);
    // integer digits, saturating well above every in-range value
    let mut acc: u64 = 0;
    let mut i: usize = start;
    while i < int_end
        invariant
            from <= start <= i <= int_end <= to <= s@.len(),
            sub == s@.subrange(from as int, to as int),
            body == (if negative {
                sub.drop_first()
            } else {
                sub
            }),
            negative ==> sub.len() > 0 && sub[0] == '-',
            !negative ==> !(sub.len() > 0 && sub[0] == '-'),
            body == s@.subrange(start as int, to as int),
            int_part == (match spec_find_char(body, '.') {
                Some(d) => body.take(d),
                None => body,
            }),
            int_part == s@.subrange(start as int, int_end as int),
            spec_all_digits(int_part.take(i - start)),
            spec_digits_val(int_part.take(i - start)) <= 10_000 ==> acc == spec_digits_val(
                int_part.take(i - start),
            ),
            spec_digits_val(int_part.take(i - start)) > 10_000 ==> acc > 10_000,
            acc <= 100_009,
        decreases int_end - i,
    {
        let c = s.get_char(i);
        let u = c as u32;
        if !(48 <= u && u <= 57) {
            proof {
                assert(int_part[i - start] == s@[i as int]);
                assert(spec_digit_val(int_part[i - start]) == 10);
            }
            return None;
        }
        let d = (u - 48) as u64;
        proof {
            assert(int_part[i - start] == s@[i as int]);
            assert(int_part.take(i + 1 - start) =~= int_part.take(i - start).push(s@[i as int]));
            assert(int_part.take(i + 1 - start).drop_last() =~= int_part.take(i - start));
            assert(spec_digit_val(s@[i as int]) == d);
            assert forall|j: int| 0 <= j < i + 1 - start implies spec_digit_val(
                #[trigger] int_part.take(i + 1 - start)[j],
            ) < 10 by {
                if j < i - start {
                    assert(int_part.take(i + 1 - start)[j] == int_part.take(i - start)[j]);
                } else {
                    assert(int_part.take(i + 1 - start)[j] == s@[i as int]);
                }
            }
        }
        if acc <= 10_000 {
            acc = acc * 10 + d;
        }
        i = i + 1;
    }
    proof {
        assert(int_part.take(int_end - start) =~= int_part);
    }
    // fraction digits: the first six count, the rest must still be digits
    let frac_from: usize = match dot {
        Some(d) => d + 1,
        None => to,
    };
    let ghost frac_part = s@.subrange(frac_from as int, to as int);
    proof {
        match dot {
            Some(d) => {},
            None => {
                assert(frac_part =~= Seq::<char>::empty());
            },
        }
        assert(frac_part.take(0) =~= Seq::<char>::empty());
    }
    let mut f: u64 = 0;
    let mut places: usize = 0;
    let mut k: usize = frac_from;
    while k < to
        invariant
            from <= start <= int_end <= frac_from <= k <= to <= s@.len(),
            sub == s@.subrange(from as int, to as int),
            body == (if negative {
                sub.drop_first()
            } else {
                sub
            }),
            negative ==> sub.len() > 0 && sub[0] == '-',
            !negative ==> !(sub.len() > 0 && sub[0] == '-'),
            body == s@.subrange(start as int, to as int),
            int_part == (match spec_find_char(body, '.') {
                Some(d) => body.take(d),
                None => body,
            }),
            frac_part == (match spec_find_char(body, '.') {
                Some(d) => body.skip(d + 1),
                None => Seq::<char>::empty(),
            }),
            frac_part == s@.subrange(frac_from as int, to as int),
            places == if k - frac_from <= 6 {
                k - frac_from
            } else {
                6
            },
            spec_all_digits(frac_part.take(k - frac_from)),
            f == spec_digits_val(frac_part.take(k - frac_from).take(places as int)),
            f < spec_pow10(places as int),
        decreases to - k,
    {
        let c = s.get_char(k);
        let u = c as u32;
        if !(48 <= u && u <= 57) {
            proof {
                assert(frac_part[k - frac_from] == s@[k as int]);
                assert(spec_digit_val(frac_part[k - frac_from]) == 10);
            }
            return None;
        }
        let d = (u - 48) as u64;
        proof {
            assert(frac_part[k - frac_from] == s@[k as int]);
            assert(frac_part.take(k + 1 - frac_from) =~= frac_part.take(k - frac_from).push(
                s@[k as int],
            ));
            assert forall|j: int| 0 <= j < k + 1 - frac_from implies spec_digit_val(
                #[trigger] frac_part.take(k + 1 - frac_from)[j],
            ) < 10 by {
                if j < k - frac_from {
                    assert(frac_part.take(k + 1 - frac_from)[j] == frac_part.take(k - frac_from)[j]);
                } else {
                    assert(frac_part.take(k + 1 - frac_from)[j] == s@[k as int]);
                }
            }
        }
        if places < 6 {
            proof {
                assert(frac_part.take(k + 1 - frac_from).take(places + 1) =~= frac_part.take(
                    k - frac_from,
                ).take(places as int).push(s@[k as int]));
                assert(frac_part.take(k + 1 - frac_from).take(places + 1).drop_last()
                    =~= frac_part.take(k - frac_from).take(places as int));
                assert(spec_pow10(places + 1) == 10 * spec_pow10(places as int));
                assert(f * 10 + d < spec_pow10(places + 1)) by (nonlinear_arith)
                    requires
                        f < spec_pow10(places as int),
                        d <= 9,
                        spec_pow10(places + 1) == 10 * spec_pow10(places as int),
                ;
            }
            f = f * 10 + d;
            places = places + 1;
        } else {
            proof {
                assert(frac_part.take(k + 1 - frac_from).take(places as int) =~= frac_part.take(
                    k - frac_from,
                ).take(places as int));
            }
        }
        k = k + 1;
    }
    proof {
        assert(frac_part.take(to - frac_from) =~= frac_part);
    }
    proof {
        assert(f < spec_pow10(places as int));
        assert(f * spec_pow10(0) == f) by (nonlinear_arith);
    }
    let mut scale: usize = 0;
    let mut frac_val: u64 = f;
    while scale + places < 6
        invariant
            places <= 6,
            scale + places <= 6,
            frac_val == f * spec_pow10(scale as int),
            f < spec_pow10(places as int),
            frac_val < spec_pow10((scale + places) as int),
        decreases 6 - scale - places,
    {
        proof {
            assert(spec_pow10(scale + 1) == 10 * spec_pow10(scale as int));
            assert(spec_pow10(scale + places + 1) == 10 * spec_pow10((scale + places) as int));
            assert(frac_val * 10 == f * spec_pow10(scale + 1)) by (nonlinear_arith)
                requires
                    frac_val == f * spec_pow10(scale as int),
                    spec_pow10(scale + 1) == 10 * spec_pow10(scale as int),
            ;
            assert(frac_val * 10 < spec_pow10(scale + places + 1)) by (nonlinear_arith)
                requires
                    frac_val < spec_pow10((scale + places) as int),
                    spec_pow10(scale + places + 1) == 10 * spec_pow10((scale + places) as int),
            ;
            assert(frac_val * 10 <= 10_000_000) by (nonlinear_arith)
                requires
                    frac_val < 1_000_000,
            ;
            assert(frac_val < 1_000_000);
        }
        frac_val = frac_val * 10;
        scale = scale + 1;
    }
    proof {
        assert(frac_val < spec_pow10(6) || frac_val < spec_pow10((scale + places) as int));
        assert(frac_val < 1_000_000);
    }
    proof {
        if frac_part.len() >= 6 {
            assert(places == 6);
            assert(frac_part.take(6) =~= frac_part.take(frac_part.len() as int).take(6));
            assert(frac_val == spec_frac6(frac_part));
        } else {
            assert(places == frac_part.len());
            assert(frac_part.take(frac_part.len() as int).take(places as int) =~= frac_part);
            assert(frac_val == spec_frac6(frac_part));
        }
    }
    if acc > 10_000 {
        proof {
            assert(spec_digits_val(int_part) > 10_000);
            assert(spec_digits_val(int_part) * 1_000_000 > 10_000_000_000) by (nonlinear_arith)
                requires
                    spec_digits_val(int_part) > 10_000,
            ;
            assert(spec_frac6(frac_part) >= 0) by {
                lemma_digits_val_nonneg(frac_part.take(6));
                lemma_digits_val_nonneg(frac_part);
                assert(spec_digits_val(frac_part) * spec_pow10(6 - frac_part.len())
                    >= 0) by (nonlinear_arith)
                    requires
                        spec_digits_val(frac_part) >= 0,
                        spec_pow10(6 - frac_part.len()) >= 0,
                ;
            }
        }
        return None;
    }
    let udeg: u64 = acc * 1_000_000 + frac_val;
    proof {
        assert(udeg == spec_digits_val(int_part) * 1_000_000 + spec_frac6(frac_part));
    }
    let lim = limit as u64;
    if udeg > lim {
        return None;
    }
    if negative {
        Some(-(udeg as i64))
    } else {
        Some(udeg as i64)
    }
}

/// The value of a digit string is never negative.
proof fn lemma_digits_val_nonneg(s: Seq<char>)
    ensures
        spec_digits_val(s) >= 0,
    decreases s.len(),
{
    if s.len() > 0 {
        lemma_digits_val_nonneg(s.drop_last());
        assert(spec_digits_val(s.drop_last()) * 10 >= 0) by (nonlinear_arith)
            requires
                spec_digits_val(s.drop_last()) >= 0,
        ;
    }
}

/// Read a geolocation answer of the shape `lat,lon` into microdegree
/// coordinates, rejecting malformed text and out-of-range positions.
pub fn parse_lat_lon(s: &str) -> (r: Option<(i64, i64)>)
    ensures
        r is Some <==> spec_parse_lat_lon(s@) is Some,
        r is Some ==> ((r->0).0 as int, (r->0).1 as int) == spec_parse_lat_lon(s@)->0,
{
    let n = s.unicode_len();
    proof {
        assert(s@.subrange(0, n as int) =~= s@);
    }
    let comma = match find_char_in(s, 0, n, ',') {
        Some(c) => c,
        None => {
            return None;
        },
    };
    match find_char_in(s, comma + 1, n, ',') {
        Some(_) => {
            proof {
                assert(s@.skip(comma + 1) =~= s@.subrange(comma + 1, n as int));
            }
            return None;
        },
        None => {},
    }
    proof {
        assert(s@.take(comma as int) =~= s@.subrange(0, comma as int));
        assert(s@.skip(comma + 1) =~= s@.subrange(comma + 1, n as int));
    }
    let lat = match parse_udeg_range(s, 0, comma, LAT_LIMIT_UDEG) {
        Some(v) => v,
        None => {
            return None;
        },
    };
    let lon = match parse_udeg_range(s, comma + 1, n, LON_LIMIT_UDEG) {
        Some(v) => v,
        None => {
            return None;
        },
    };
    Some((lat, lon))
}

} // verus!
