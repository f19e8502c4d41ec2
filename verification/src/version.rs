//! Debian version strings, parsed and ordered by the `debversion` crate.

use vstd::prelude::*;

verus! {

/// `debversion::Version`, a parsed Debian version, carried opaquely: the
/// library reads nothing inside it.
#[verifier::external_type_specification]
#[verifier::external_body]
pub struct ExDebianVersion(debversion::Version);

/// How two versions compare.
#[derive(Debug, Clone, Copy, PartialEq, Eq)]
pub enum VersionOrder {
    Less,
    Equal,
    Greater,
}

/// A character `debversion`'s version pattern allows:
/// `[A-Za-z0-9.+:~-]`.
pub open spec fn version_char(c: char) -> bool {
    ('A' <= c && c <= 'Z') || ('a' <= c && c <= 'z') || ('0' <= c && c <= '9') || c == '.' || c
        == '+' || c == ':' || c == '~' || c == '-'
}

/// How many ASCII digits `t` starts with, from `i` on.
pub open spec fn digit_run(t: Seq<char>, i: int) -> int
    decreases t.len() - i,
{
    if 0 <= i < t.len() && '0' <= t[i] && t[i] <= '9' {
        digit_run(t, i + 1)
    } else {
        i
    }
}

/// The value of the ASCII digits `t[0..n]`.
pub open spec fn digits_value(t: Seq<char>, n: int) -> int
    decreases n,
{
    if n <= 0 {
        0
    } else {
        digits_value(t, n - 1) * 10 + (t[n - 1] as int - '0' as int)
    }
}

/// Whether `debversion` accepts `text` as a Debian version (its `FromStr`
/// succeeds). Its pattern `^(?:(\d+):)?([A-Za-z0-9.+:~-]+?)(?:-([A-Za-z0-9+.~]+))?$`
/// matches exactly the non-empty texts of allowed characters; the epoch
/// group is taken when the text starts with a digit run, a `:` and more
/// text, and that epoch must then fit in a `u32`.
pub open spec fn debian_version_parses(text: Seq<char>) -> bool {
    let d = digit_run(text, 0);
    &&& text.len() > 0
    &&& forall|i: int| 0 <= i < text.len() ==> version_char(#[trigger] text[i])
    &&& !(d > 0 && d + 1 < text.len() && text[d] == ':' && digits_value(text, d) > u32::MAX)
}

/// The order `debversion` gives the versions parsed from `a` and `b`.
pub uninterp spec fn debian_version_order(a: Seq<char>, b: Seq<char>) -> VersionOrder;

/// A version string together with its parsed form. Only [`DebianVersion::parse`]
/// builds one, so `parsed` is always what `debversion` made of `text`.
pub struct DebianVersion {
    text: String,
    parsed: debversion::Version,
}

impl DebianVersion {
    pub closed spec fn text(&self) -> Seq<char> {
        self.text@
    }

    /// Calls `<debversion::Version as FromStr>::from_str`. Claims that it
    /// succeeds exactly on the texts [`debian_version_parses`] describes, and
    /// that the text is kept.
    #[verifier::external_body]
    pub(crate) fn parse(text: &str) -> (r: Option<DebianVersion>)
        ensures
            r is Some <==> debian_version_parses(text@),
            r matches Some(v) ==> v.text() == text@,
    {
        match text.parse::<debversion::Version>() {
            Ok(parsed) => Some(DebianVersion { text: text.to_string(), parsed }),
            Err(_) => None,
        }
    }

    /// Calls `<debversion::Version as Ord>::cmp`. Claims that the result is a
    /// function of the two version texts (a name for it); that a text
    /// compares equal to itself, which `cmp` gives by comparing the same
    /// epoch, upstream and revision parts; and that swapping the two swaps
    /// `Less` and `Greater`, as every step of `cmp` (the epoch's integer
    /// order, `non_digit_cmp`, the digit runs' integer order) compares its
    /// two sides alike. Transitivity, which the source also gives, needs a
    /// third version and is not stated.
    #[verifier::external_body]
    pub(crate) fn order(&self, other: &DebianVersion) -> (r: VersionOrder)
        ensures
            r == debian_version_order(self.text(), other.text()),
            self.text() == other.text() ==> r == VersionOrder::Equal,
            r == VersionOrder::Less <==> debian_version_order(other.text(), self.text())
                == VersionOrder::Greater,
            r == VersionOrder::Equal <==> debian_version_order(other.text(), self.text())
                == VersionOrder::Equal,
    {
        match self.parsed.cmp(&other.parsed) {
            std::cmp::Ordering::Less => VersionOrder::Less,
            std::cmp::Ordering::Equal => VersionOrder::Equal,
            std::cmp::Ordering::Greater => VersionOrder::Greater,
        }
    }
}

} // verus!
