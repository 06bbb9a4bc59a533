//! Collection of the user's preferences from raw prompt answers, and
//! the name of the timestamped output directory. The prompts
//! themselves live outside this crate; the decisions about their
//! answers are all here: which answers fall back to the defaults,
//! how a keepalive numeral is read, and when the collected
//! preferences are rejected.

use vstd::prelude::*;
use vstd::string::StrSliceExecFns;
use vstd::string::StringExecFns;
use crate::errors::ConfigError;
use crate::model::UserConfig;
use crate::strutil::{spec_padded_decimal, padded_decimal_chars, string_from_chars};

verus! {

/// ASCII whitespace, as trimmed from prompt answers.
pub open spec fn spec_ws(c: char) -> bool {
    c == ' ' || c == '\t' || c == '\n' || c == '\r'
}

/// The sequence without its leading whitespace.
pub open spec fn spec_trim_front(s: Seq<char>) -> Seq<char>
    decreases s.len(),
{
    if s.len() > 0 && spec_ws(s[0]) {
        spec_trim_front(s.drop_first())
    } else {
        s
    }
}

/// The sequence without its trailing whitespace.
pub open spec fn spec_trim_back(s: Seq<char>) -> Seq<char>
    decreases s.len(),
{
    if s.len() > 0 && spec_ws(s.last()) {
        spec_trim_back(s.drop_last())
    } else {
        s
    }
}

/// The sequence without leading and trailing whitespace.
pub open spec fn spec_trim(s: Seq<char>) -> Seq<char> {
    spec_trim_back(spec_trim_front(s))
}

/// A decimal digit's value, ten for any other character.
pub open spec fn spec_digit_val(c: char) -> int {
    if 48 <= c as u32 <= 57 {
        c as u32 - 48
    } else {
        10
    }
}

/// Whether every character is a decimal digit.
pub open spec fn spec_all_digits(s: Seq<char>) -> bool {
    forall|i: int| 0 <= i < s.len() ==> spec_digit_val(#[trigger] s[i]) < 10
}

/// The value of a digit string, most significant first.
pub open spec fn spec_digits_val(s: Seq<char>) -> int
    decreases s.len(),
{
    if s.len() == 0 {
        0
    } else {
        spec_digits_val(s.drop_last()) * 10 + spec_digit_val(s.last())
    }
}

/// The integer a trimmed prompt answer denotes: an optional sign
/// followed by at least one digit, within the 32-bit signed range;
/// anything else denotes nothing.
pub open spec fn spec_parse_i32(s: Seq<char>) -> Option<int> {
    let negative = s.len() > 0 && s[0] == '-';
    let body = if s.len() > 0 && (s[0] == '-' || s[0] == '+') {
        s.drop_first()
    } else {
        s
    };
    if body.len() == 0 || !spec_all_digits(body) {
        None
    } else {
        let v = if negative {
            -spec_digits_val(body)
        } else {
            spec_digits_val(body)
        };
        if i32::MIN <= v <= i32::MAX {
            Some(v)
        } else {
            None
        }
    }
}

/// Trim ASCII whitespace from both ends of a prompt answer.
pub fn trim_input(s: &str) -> (r: String)
    ensures
        r@ == spec_trim(s@),
{
    let n = s.unicode_len();
    proof {
        assert(s@.skip(0) =~= s@);
    }
    let mut start: usize = 0;
    while start < n && is_ws(s.get_char(start))
        invariant
            n == s@.len(),
            start <= n,
            spec_trim_front(s@) == spec_trim_front(s@.skip(start as int)),
            forall|j: int| 0 <= j < start ==> spec_ws(#[trigger] s@[j]),
        decreases n - start,
    {
        proof {
            assert(s@.skip(start as int)[0] == s@[start as int]);
            assert(s@.skip(start as int).drop_first() =~= s@.skip(start + 1));
        }
        start = start + 1;
    }
    proof {
        if start < n {
            assert(s@.skip(start as int)[0] == s@[start as int]);
        } else {
            assert(s@.skip(start as int) =~= Seq::<char>::empty());
        }
        assert(spec_trim_front(s@) == s@.skip(start as int));
    }
    proof {
        assert(s@.skip(start as int).take(n - start) =~= s@.skip(start as int));
    }
    let mut end: usize = n;
    while end > start && is_ws(s.get_char(end - 1))
        invariant
            n == s@.len(),
            start <= end <= n,
            spec_trim_front(s@) == s@.skip(start as int),
            start < n ==> !spec_ws(s@[start as int]),
            spec_trim_back(s@.skip(start as int)) == spec_trim_back(
                s@.skip(start as int).take(end - start),
            ),
        decreases end,
    {
        proof {
            let cur = s@.skip(start as int).take(end - start);
            assert(cur.last() == s@[end - 1]);
            assert(cur.drop_last() =~= s@.skip(start as int).take(end - 1 - start));
        }
        end = end - 1;
    }
    proof {
        let cur = s@.skip(start as int).take(end - start);
        if end > start {
            assert(cur.last() == s@[end - 1]);
            assert(!spec_ws(cur.last()));
        }
        assert(spec_trim_back(cur) == cur);
    }
    let mut out: Vec<char> = Vec::new();
    let mut i: usize = start;
    while i < end
        invariant
            start <= i <= end <= n,
            n == s@.len(),
            out@ =~= s@.skip(start as int).take(i - start),
        decreases end - i,
    {
        out.push(s.get_char(i));
        proof {
            assert(s@.skip(start as int).take(i + 1 - start) =~= s@.skip(start as int).take(
                i - start,
            ).push(s@[i as int]));
        }
        i = i + 1;
    }
    string_from_chars(&out)
}

fn is_ws(c: char) -> (r: bool)
    ensures
        r == spec_ws(c),
{
    c == ' ' || c == '\t' || c == '\n' || c == '\r'
}

/// Read a 32-bit integer from a trimmed prompt answer: an optional
/// sign followed by digits, within range; anything else reads as
/// nothing.
pub fn parse_i32(s: &str) -> (r: Option<i32>)
    ensures
        r is Some <==> spec_parse_i32(s@) is Some,
        r is Some ==> r->0 as int == spec_parse_i32(s@)->0,
{
    let n = s.unicode_len();
    let mut negative: bool = false;
    let mut start: usize = 0;
    if n > 0 {
        let c0 = s.get_char(0);
        if c0 == '-' {
            negative = true;
            start = 1;
        } else if c0 == '+' {
            start = 1;
        }
    }
    let ghost body = if start == 1 {
        s@.drop_first()
    } else {
        s@
    };
    if start >= n {
        proof {
            assert(body.len() == 0);
        }
        return None;
    }
    proof {
        assert(body.take(0) =~= Seq::<char>::empty());
        assert(spec_digits_val(Seq::<char>::empty()) == 0);
    }
    let mut acc: u64 = 0;
    let mut i: usize = start;
    while i < n
        invariant
            start <= i <= n,
            n == s@.len(),
            start == 0 || start == 1,
            start < n,
            body == (if start == 1 {
                s@.drop_first()
            } else {
                s@
            }),
            negative == (s@.len() > 0 && s@[0] == '-'),
            (start == 1) == (s@.len() > 0 && (s@[0] == '-' || s@[0] == '+')),
            spec_all_digits(body.take(i - start)),
            spec_digits_val(body.take(i - start)) <= 10_000_000_000 ==> acc == spec_digits_val(
                body.take(i - start),
            ),
            spec_digits_val(body.take(i - start)) > 10_000_000_000 ==> acc > 10_000_000_000,
            acc <= 110_000_000_009,
        decreases n - i,
    {
        let c = s.get_char(i);
        let u = c as u32;
        if !(48 <= u && u <= 57) {
            proof {
                assert(body[i - start] == s@[i as int]);
                assert(spec_digit_val(body[i - start]) == 10);
                assert(!spec_all_digits(body));
            }
            return None;
        }
        let d = (u - 48) as u64;
        proof {
            assert(body[i - start] == s@[i as int]);
            assert(body.take(i + 1 - start) =~= body.take(i - start).push(s@[i as int]));
            assert(body.take(i + 1 - start).drop_last() =~= body.take(i - start));
            assert(body.take(i + 1 - start).last() == s@[i as int]);
            assert(spec_digit_val(s@[i as int]) == d);
            assert(spec_digits_val(body.take(i + 1 - start)) == spec_digits_val(
                body.take(i - start),
            ) * 10 + d);
            assert forall|j: int| 0 <= j < i + 1 - start implies spec_digit_val(
                #[trigger] body.take(i + 1 - start)[j],
            ) < 10 by {
                if j < i - start {
                    assert(body.take(i + 1 - start)[j] == body.take(i - start)[j]);
                } else {
                    assert(body.take(i + 1 - start)[j] == s@[i as int]);
                }
            }
        }
        if acc <= 10_000_000_000 {
            acc = acc * 10 + d;
        }
        i = i + 1;
    }
    proof {
        assert(body.take(n - start) =~= body);
    }
    if acc > 2_147_483_648 {
        proof {
            assert(spec_digits_val(body) > 2_147_483_648);
        }
        return None;
    }
    if negative {
        let v64: i64 = -(acc as i64);
        Some(v64 as i32)
    } else {
        if acc > 2_147_483_647 {
            return None;
        }
        Some(acc as i32)
    }
}

/// Whether a prompt answer, trimmed, is an affirmative `y` in either
/// case.
pub open spec fn spec_is_yes(s: Seq<char>) -> bool {
    let t = spec_trim(s);
    t.len() == 1 && (t[0] == 'y' || t[0] == 'Y')
}

/// Whether the user answered yes to a yes/no prompt.
pub fn is_yes(input: &str) -> (r: bool)
    ensures
        r == spec_is_yes(input@),
{
    let t = trim_input(input);
    let ts = t.as_str();
    if ts.unicode_len() != 1 {
        return false;
    }
    let c = ts.get_char(0);
    c == 'y' || c == 'Y'
}

/// The DNS the preferences settle on: the entered string as given if
/// its trimmed form is non-empty, the default otherwise.
pub open spec fn spec_chosen_dns(dns_input: Option<Seq<char>>) -> Seq<char> {
    match dns_input {
        Some(s) => if spec_trim(s).len() > 0 {
            s
        } else {
            "103.86.96.100"@
        },
        None => "103.86.96.100"@,
    }
}

/// The keepalive the preferences settle on: the entered numeral if it
/// reads as an integer within `[15, 120]`, the default of 25
/// otherwise.
pub open spec fn spec_chosen_keepalive(keepalive_input: Option<Seq<char>>) -> int {
    match keepalive_input {
        Some(s) => match spec_parse_i32(spec_trim(s)) {
            Some(v) => if 15 <= v <= 120 {
                v
            } else {
                25
            },
            None => 25,
        },
        None => 25,
    }
}

/// The use-station-IP flag the preferences settle on.
pub open spec fn spec_chosen_use_ip(use_ip_input: Option<Seq<char>>) -> bool {
    match use_ip_input {
        Some(s) => spec_is_yes(s),
        None => false,
    }
}

/// The view of an optional prompt answer.
pub open spec fn spec_view_opt(o: Option<String>) -> Option<Seq<char>> {
    match o {
        Some(s) => Some(s@),
        None => None,
    }
}

/// Build the preferences from the three raw prompt answers (each
/// `None` when the prompt could not be read). Unusable answers fall
/// back to the defaults; the assembled preferences are then validated,
/// and rejected as a hard input error when the DNS string holds
/// anything besides digits and dots.
pub fn build_user_config(
    dns_input: Option<String>,
    use_ip_input: Option<String>,
    keepalive_input: Option<String>,
) -> (r: Result<UserConfig, ConfigError>)
    ensures
        ({
            let dns = spec_chosen_dns(spec_view_opt(dns_input));
            let use_ip = spec_chosen_use_ip(spec_view_opt(use_ip_input));
            let keepalive = spec_chosen_keepalive(spec_view_opt(keepalive_input));
            let valid = (forall|i: int|
                0 <= i < dns.len() ==> crate::model::spec_dns_char_ok(#[trigger] dns[i]));
            &&& (r matches Ok(c) ==> c.dns@ == dns && c.use_ip == use_ip && c.keepalive as int
                == keepalive && c.spec_valid())
            &&& (r is Ok <==> valid)
            &&& (r matches Err(e) ==> (e matches ConfigError::InputError(m) && m@
                == "Invalid configuration values"@))
        }),
{
    let mut config = UserConfig::default();
    match dns_input {
        Some(s) => {
            let t = trim_input(s.as_str());
            if !t.as_str().is_empty() {
                config.dns = s;
            }
        },
        None => {},
    }
    match use_ip_input {
        Some(s) => {
            config.use_ip = is_yes(s.as_str());
        },
        None => {},
    }
    match keepalive_input {
        Some(s) => {
            let t = trim_input(s.as_str());
            match parse_i32(t.as_str()) {
                Some(v) => {
                    if 15 <= v && v <= 120 {
                        config.keepalive = v;
                    }
                },
                None => {},
            }
        },
        None => {},
    }
    proof {
        assert(15 <= config.keepalive <= 120);
        assert(config.dns@ == spec_chosen_dns(spec_view_opt(dns_input)));
        assert(config.use_ip == spec_chosen_use_ip(spec_view_opt(use_ip_input)));
        assert(config.keepalive as int == spec_chosen_keepalive(spec_view_opt(keepalive_input)));
    }
    let ok = config.is_valid();
    proof {
        let dnsv = config.dns@;
        if !ok {
            assert(exists|i: int|
                0 <= i < dnsv.len() && !crate::model::spec_dns_char_ok(#[trigger] dnsv[i]));
            let i0 = choose|i: int|
                0 <= i < dnsv.len() && !crate::model::spec_dns_char_ok(#[trigger] dnsv[i]);
            assert(!crate::model::spec_dns_char_ok(dnsv[i0]));
            assert(!(forall|i: int|
                0 <= i < dnsv.len() ==> crate::model::spec_dns_char_ok(#[trigger] dnsv[i])));
        }
    }
    if !ok {
        let msg = String::from_str("Invalid configuration values");
        proof {
            assert(msg@ == "Invalid configuration values"@);
        }
        let e = ConfigError::InputError(msg);
        proof {
            assert(e matches ConfigError::InputError(m) && m@ == "Invalid configuration values"@);
        }
        return Err(e);
    }
    Ok(config)
}

/// The name of the run's output directory for a local timestamp:
/// `nordvpn_configs_` followed by `YYYYMMDD_HHMMSS`.
pub open spec fn spec_output_dir_name(
    year: nat,
    month: nat,
    day: nat,
    hour: nat,
    minute: nat,
    second: nat,
) -> Seq<char> {
    "nordvpn_configs_"@ + spec_padded_decimal(year, 4) + spec_padded_decimal(month, 2)
        + spec_padded_decimal(day, 2) + "_"@ + spec_padded_decimal(hour, 2) + spec_padded_decimal(
        minute,
        2,
    ) + spec_padded_decimal(second, 2)
}

/// Format the timestamped output directory name for the local time
/// the run started at.
pub fn output_dir_name(year: u64, month: u64, day: u64, hour: u64, minute: u64, second: u64) -> (r:
    String)
    requires
        year <= 9999,
        month <= 12,
        day <= 31,
        hour <= 23,
        minute <= 59,
        second <= 59,
    ensures
        r@ == spec_output_dir_name(
            year as nat,
            month as nat,
            day as nat,
            hour as nat,
            minute as nat,
            second as nat,
        ),
{
    let mut out = String::new();
    out.append("nordvpn_configs_");
    let y = padded_decimal_chars(year, 4);
    out.append(string_from_chars(&y).as_str());
    let mo = padded_decimal_chars(month, 2);
    out.append(string_from_chars(&mo).as_str());
    let d = padded_decimal_chars(day, 2);
    out.append(string_from_chars(&d).as_str());
    out.append("_");
    let h = padded_decimal_chars(hour, 2);
    out.append(string_from_chars(&h).as_str());
    let mi = padded_decimal_chars(minute, 2);
    out.append(string_from_chars(&mi).as_str());
    let sec = padded_decimal_chars(second, 2);
    out.append(string_from_chars(&sec).as_str());
    proof {
        assert(out@ =~= spec_output_dir_name(
            year as nat,
            month as nat,
            day as nat,
            hour as nat,
            minute as nat,
            second as nat,
        ));
    }
    out
}

} // verus!
