//! Runtime settings: each takes the value configured for it (`None` when
//! unset) and falls back to its default.

use vstd::prelude::*;

use crate::text::{chars_of, digit_value, is_digit, push_str};

verus! {

/// The configured value, else `default`.
pub open spec fn value_or(value: Option<&str>, default: Seq<char>) -> Seq<char> {
    match value {
        Some(v) => v@,
        None => default,
    }
}

/// The configured value of a setting, else its default.
pub fn env_or(value: Option<&str>, default: &str) -> (r: String)
    ensures
        r@ == value_or(value, default@),
{
    match value {
        Some(v) => v.to_string(),
        None => default.to_string(),
    }
}

/// Directory of `.deb` files this service publishes (default `packages`).
pub fn packages_dir(value: Option<&str>) -> (r: String)
    ensures
        r@ == value_or(value, "packages"@),
{
    env_or(value, "packages")
}

/// Directory of RAUC update bundles, one subdirectory per channel
/// (default `bundles`).
pub fn bundles_dir(value: Option<&str>) -> (r: String)
    ensures
        r@ == value_or(value, "bundles"@),
{
    env_or(value, "bundles")
}

/// Local cache directory for mirrored `.dbc` schemas (default `dbc`).
pub fn dbc_dir(value: Option<&str>) -> (r: String)
    ensures
        r@ == value_or(value, "dbc"@),
{
    env_or(value, "dbc")
}

/// Local cache directory for mirrored VSS files (default `vss`).
pub fn vss_dir(value: Option<&str>) -> (r: String)
    ensures
        r@ == value_or(value, "vss"@),
{
    env_or(value, "vss")
}

/// GitHub `owner/repo` holding the canonical `.dbc` schemas.
pub fn dbc_github_repo(value: Option<&str>) -> (r: String)
    ensures
        r@ == value_or(value, "sigmatactical-org/sigma-racer-wingman"@),
{
    env_or(value, "sigmatactical-org/sigma-racer-wingman")
}

/// Repo subdirectory the schemas are mirrored from.
pub fn dbc_github_path(value: Option<&str>) -> (r: String)
    ensures
        r@ == value_or(value, "schemas/can"@),
{
    env_or(value, "schemas/can")
}

/// Repo subdirectory holding the VSS signal tree.
pub fn vss_github_path(value: Option<&str>) -> (r: String)
    ensures
        r@ == value_or(value, "schemas/vss"@),
{
    env_or(value, "schemas/vss")
}

/// Git ref (branch, tag, or SHA) the schemas are mirrored from.
pub fn dbc_github_ref(value: Option<&str>) -> (r: String)
    ensures
        r@ == value_or(value, "main"@),
{
    env_or(value, "main")
}

/// The number written by the decimal digits `s`.
pub open spec fn digits_value(s: Seq<char>) -> nat
    decreases s.len(),
{
    if s.len() == 0 {
        0
    } else {
        digits_value(s.drop_last()) * 10 + (digit_value(s.last()) as nat)
    }
}

pub open spec fn all_digits(s: Seq<char>) -> bool {
    forall|i: int| 0 <= i < s.len() ==> #[trigger] is_digit(s[i])
}

/// The digits of an unsigned integer literal: one leading `+` is allowed.
pub open spec fn unsigned_digits(s: Seq<char>) -> Seq<char> {
    if s.len() > 0 && s[0] == '+' {
        s.drop_first()
    } else {
        s
    }
}

/// What `str::parse::<u64>` accepts: an optional `+`, then at least one
/// decimal digit, with a value that fits in 64 bits.
pub open spec fn parsed_u64(s: Seq<char>) -> Option<nat> {
    let d = unsigned_digits(s);
    if d.len() > 0 && all_digits(d) && digits_value(d) <= u64::MAX {
        Some(digits_value(d))
    } else {
        None
    }
}

proof fn lemma_digits_prefix(s: Seq<char>, k: int)
    requires
        0 <= k <= s.len(),
        all_digits(s),
    ensures
        digits_value(s.take(k)) <= digits_value(s),
    decreases s.len(),
{
    if k < s.len() {
        let t = s.drop_last();
        assert(s.take(k) =~= t.take(k));
        assert forall|i: int| 0 <= i < t.len() implies #[trigger] is_digit(t[i]) by {
            assert(is_digit(s[i]));
        }
        lemma_digits_prefix(t, k);
        assert(is_digit(s[s.len() - 1]));
    } else {
        assert(s.take(k) =~= s);
    }
}

/// `str::parse::<u64>`.
pub fn parse_u64(s: &str) -> (r: Option<u64>)
    ensures
        match r {
            Some(n) => parsed_u64(s@) == Some(n as nat),
            None => parsed_u64(s@) is None,
        },
{
    let cs = chars_of(s);
    let start: usize = if cs.len() > 0 && cs[0] == '+' {
        1
    } else {
        0
    };
    let ghost d = unsigned_digits(s@);
    proof {
        assert(d =~= cs@.skip(start as int));
    }
    if start == cs.len() {
        return None;
    }
    let mut acc: u64 = 0;
    let mut i: usize = start;
    while i < cs.len()
        invariant
            start <= i <= cs@.len(),
            cs@ == s@,
            d == cs@.skip(start as int),
            d == unsigned_digits(s@),
            all_digits(d.take(i - start)),
            acc == digits_value(d.take(i - start)),
        decreases cs@.len() - i,
    {
        let c = cs[i];
        proof {
            assert(d.take(i - start + 1).drop_last() =~= d.take(i - start));
            assert(d[i - start] == c);
        }
        if !('0' <= c && c <= '9') {
            proof {
                assert(!is_digit(d[i - start]));
            }
            return None;
        }
        let v: u64 = (c as u32 - '0' as u32) as u64;
        proof {
            assert forall|m: int| 0 <= m < i - start + 1 implies #[trigger] is_digit(
                d.take(i - start + 1)[m],
            ) by {
                if m < i - start {
                    assert(d.take(i - start + 1)[m] == d.take(i - start)[m]);
                }
            }
        }
        match acc.checked_mul(10) {
            Some(t) => match t.checked_add(v) {
                Some(n) => {
                    acc = n;
                },
                None => {
                    proof {
                        no_fit(d, i - start + 1);
                    }
                    return None;
                },
            },
            None => {
                proof {
                    no_fit(d, i - start + 1);
                }
                return None;
            },
        }
        i = i + 1;
    }
    proof {
        assert(d.take(i - start) =~= d);
    }
    Some(acc)
}

/// Once a prefix of the digits exceeds `u64::MAX`, the whole literal does
/// (or holds a non-digit).
proof fn no_fit(d: Seq<char>, k: int)
    requires
        0 < k <= d.len(),
        digits_value(d.take(k)) > u64::MAX,
        all_digits(d.take(k)),
    ensures
        parsed_u64_digits_none(d),
{
    if all_digits(d) {
        lemma_digits_prefix(d, k);
    }
}

spec fn parsed_u64_digits_none(d: Seq<char>) -> bool {
    !(d.len() > 0 && all_digits(d) && digits_value(d) <= u64::MAX)
}

/// Seconds between mirror passes: the configured number, else 300.
pub open spec fn sync_interval_secs(value: Option<&str>) -> nat {
    match value {
        Some(v) => match parsed_u64(v@) {
            Some(n) => n,
            None => 300,
        },
        None => 300,
    }
}

/// Pause between mirror passes, in seconds (default 300, also when the
/// configured value is not a number).
pub fn dbc_sync_interval(value: Option<&str>) -> (r: u64)
    ensures
        r == sync_interval_secs(value),
{
    match value {
        Some(v) => match parse_u64(v) {
            Some(n) => n,
            None => 300,
        },
        None => 300,
    }
}

/// `{repo}:{path}@{git_ref}`: the mirror source, for logs.
pub fn dbc_github_source(repo: &str, path: &str, git_ref: &str) -> (r: String)
    ensures
        r@ == repo@ + ":"@ + path@ + "@"@ + git_ref@,
{
    let mut out = repo.to_string();
    push_str(&mut out, ":");
    push_str(&mut out, path);
    push_str(&mut out, "@");
    push_str(&mut out, git_ref);
    out
}

} // verus!
