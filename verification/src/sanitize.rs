//! Path-component sanitization for profile file names: lower-case,
//! everything outside `a-z0-9` replaced by an underscore, runs of
//! underscores collapsed, and leading/trailing underscores trimmed.
//! The result is proved canonical (no doubled, leading or trailing
//! underscore) and sanitization is proved idempotent.

use vstd::prelude::*;
use vstd::string::StrSliceExecFns;

verus! {

/// A character the sanitizer keeps unchanged: an ASCII lower-case
/// letter or digit.
pub open spec fn spec_keepable(c: char) -> bool {
    (97 <= c as u32 <= 122) || (48 <= c as u32 <= 57)
}

/// A character of the sanitized alphabet `[a-z0-9_]`.
pub open spec fn spec_sanitized_char(c: char) -> bool {
    spec_keepable(c) || c == '_'
}

/// Per-character normalization: ASCII upper-case letters are lowered,
/// keepable characters stay, and every other character becomes `_`.
pub open spec fn spec_norm_char(c: char) -> char {
    if 65 <= c as u32 <= 90 {
        ((c as u32 + 32) as char)
    } else if spec_keepable(c) {
        c
    } else {
        '_'
    }
}

/// One step of the accumulating scrub: append the normalized character
/// unless it is an underscore that would start the output or double an
/// underscore already at the end.
pub open spec fn spec_scrub_step(acc: Seq<char>, c: char) -> Seq<char> {
    let nc = spec_norm_char(c);
    if nc == '_' && (acc.len() == 0 || acc.last() == '_') {
        acc
    } else {
        acc.push(nc)
    }
}

/// Normalize every character while dropping leading underscores and
/// collapsing each run of underscores to a single one.
pub open spec fn spec_scrub(s: Seq<char>) -> Seq<char>
    decreases s.len(),
{
    if s.len() == 0 {
        Seq::empty()
    } else {
        spec_scrub_step(spec_scrub(s.drop_last()), s.last())
    }
}

/// The full sanitizer: scrub, then trim the (at most one) trailing
/// underscore.
pub open spec fn spec_sanitize(s: Seq<char>) -> Seq<char> {
    let t = spec_scrub(s);
    if t.len() > 0 && t.last() == '_' {
        t.drop_last()
    } else {
        t
    }
}

/// A sequence in canonical sanitized form: only `[a-z0-9_]`, no
/// doubled underscore, and no underscore at either end.
pub open spec fn spec_canonical(s: Seq<char>) -> bool {
    &&& forall|i: int| 0 <= i < s.len() ==> spec_sanitized_char(#[trigger] s[i])
    &&& forall|i: int| 0 <= i < s.len() - 1 ==> !(#[trigger] s[i] == '_' && s[i + 1] == '_')
    &&& (s.len() > 0 ==> s[0] != '_')
    &&& (s.len() > 0 ==> s.last() != '_')
}

/// The scrub output uses the sanitized alphabet, never starts with an
/// underscore and never doubles one.
proof fn lemma_scrub_shape(s: Seq<char>)
    ensures
        forall|i: int|
            0 <= i < spec_scrub(s).len() ==> spec_sanitized_char(#[trigger] spec_scrub(s)[i]),
        forall|i: int|
            0 <= i < spec_scrub(s).len() - 1 ==> !(#[trigger] spec_scrub(s)[i] == '_'
                && spec_scrub(s)[i + 1] == '_'),
        spec_scrub(s).len() > 0 ==> spec_scrub(s)[0] != '_',
    decreases s.len(),
{
    if s.len() > 0 {
        lemma_scrub_shape(s.drop_last());
        let acc = spec_scrub(s.drop_last());
        let nc = spec_norm_char(s.last());
        assert(spec_sanitized_char(nc));
        if !(nc == '_' && (acc.len() == 0 || acc.last() == '_')) {
            assert(spec_scrub(s) == acc.push(nc));
            assert(forall|i: int| 0 <= i < acc.len() ==> #[trigger] spec_scrub(s)[i] == acc[i]);
        }
    }
}

/// Scrubbing a sequence that is already free of a leading underscore,
/// doubled underscores and non-sanitized characters leaves it as it is.
proof fn lemma_scrub_fixed(s: Seq<char>)
    requires
        forall|i: int| 0 <= i < s.len() ==> spec_sanitized_char(#[trigger] s[i]),
        forall|i: int| 0 <= i < s.len() - 1 ==> !(#[trigger] s[i] == '_' && s[i + 1] == '_'),
        s.len() > 0 ==> s[0] != '_',
    ensures
        spec_scrub(s) == s,
    decreases s.len(),
{
    if s.len() > 0 {
        let d = s.drop_last();
        assert(forall|i: int| 0 <= i < d.len() ==> #[trigger] d[i] == s[i]);
        lemma_scrub_fixed(d);
        let c = s.last();
        assert(spec_sanitized_char(c));
        assert(spec_norm_char(c) == c);
        if c == '_' {
            assert(s[0] != '_');
            assert(s.len() >= 2);
            assert(s[s.len() - 2] != '_');
            assert(d.last() == s[s.len() - 2]);
        }
        assert(spec_scrub(s) =~= s);
    }
}

/// The sanitized form is canonical: drawn from `[a-z0-9_]`, with no
/// doubled underscore and no underscore at either end.
pub proof fn lemma_sanitize_canonical(s: Seq<char>)
    ensures
        spec_canonical(spec_sanitize(s)),
{
    lemma_scrub_shape(s);
    let t = spec_scrub(s);
    let r = spec_sanitize(s);
    if t.len() > 0 && t.last() == '_' {
        assert(r == t.drop_last());
        assert(forall|i: int| 0 <= i < r.len() ==> #[trigger] r[i] == t[i]);
        if r.len() > 0 {
            assert(t[t.len() - 2] != '_') by {
                assert(!(t[t.len() - 2] == '_' && t[t.len() - 2 + 1] == '_'));
            }
        }
    }
}

/// Sanitization is idempotent: sanitizing an already sanitized value
/// changes nothing.
pub proof fn lemma_sanitize_idempotent(s: Seq<char>)
    ensures
        spec_sanitize(spec_sanitize(s)) == spec_sanitize(s),
{
    lemma_sanitize_canonical(s);
    let r = spec_sanitize(s);
    lemma_scrub_fixed(r);
    assert(spec_scrub(r) == r);
}

fn norm_char(c: char) -> (r: char)
    ensures
        r == spec_norm_char(c),
{
    let u = c as u32;
    if 65 <= u && u <= 90 {
        ((u + 32) as u8) as char
    } else if (97 <= u && u <= 122) || (48 <= u && u <= 57) {
        c
    } else {
        '_'
    }
}

/// Turn an arbitrary name into a safe path component: lower-cased,
/// every character outside `a-z0-9` replaced by `_`, runs of `_`
/// collapsed, and leading and trailing `_` removed.
pub fn sanitize_filename(input: &str) -> (r: String)
    ensures
        r@ == spec_sanitize(input@),
{
    let n = input.unicode_len();
    let mut out: Vec<char> = Vec::new();
    let mut i: usize = 0;
    while i < n
        invariant
            n == input@.len(),
            i <= n,
            out@ == spec_scrub(input@.take(i as int)),
        decreases n - i,
    {
        let c = input.get_char(i);
        let nc = norm_char(c);
        proof {
            assert(input@.take(i + 1).drop_last() =~= input@.take(i as int));
            assert(input@.take(i + 1).last() == input@[i as int]);
        }
        if nc == '_' {
            let keep = match out.last() {
                Option::Some(prev) => *prev != '_',
                Option::None => false,
            };
            if keep {
                out.push(nc);
            }
        } else {
            out.push(nc);
        }
        i = i + 1;
    }
    proof {
        assert(input@.take(n as int) =~= input@);
    }
    let trim = match out.last() {
        Option::Some(prev) => *prev == '_',
        Option::None => false,
    };
    if trim {
        let _ = out.pop();
    }
    crate::strutil::string_from_chars(&out)
}

} // verus!
