//! Signed RAUC update bundles, one directory per OTA channel: which channel
//! and file names are served, and where a bundle lives.
//!
//! Bundles live at `<bundles_dir>/<channel>/bundle/<name>.raucb`, mirroring
//! the download URL (`/v1/channel/<channel>/bundle/<name>`).

use vstd::prelude::*;

use crate::listing::{is_safe_filename as safe_name, join_path, path_join, safe_filename};
use crate::text::chars_of;

verus! {

/// Soft cap for a single uploaded bundle (2 GiB).
pub const MAX_BUNDLE_BYTES: u64 = 2147483648;

/// A lowercase ASCII letter, an ASCII digit or `-`.
pub open spec fn channel_char(c: char) -> bool {
    ('a' <= c && c <= 'z') || ('0' <= c && c <= '9') || c == '-'
}

/// A plain lowercase channel name (`dev`, `stable`, ...): 1 to 32
/// characters, each a lowercase letter, a digit or `-`. (Those characters
/// are ASCII, so the count is also the name's length in bytes.)
pub open spec fn safe_channel(s: Seq<char>) -> bool {
    &&& s.len() > 0
    &&& s.len() <= 32
    &&& forall|i: int| 0 <= i < s.len() ==> #[trigger] channel_char(s[i])
}

/// Whether `channel` is a plain lowercase channel name.
pub fn is_safe_channel(channel: &str) -> (r: bool)
    ensures
        r == safe_channel(channel@),
{
    let cs = chars_of(channel);
    if cs.len() == 0 || cs.len() > 32 {
        return false;
    }
    let mut i: usize = 0;
    while i < cs.len()
        invariant
            i <= cs@.len(),
            cs@ == channel@,
            forall|m: int| 0 <= m < i ==> #[trigger] channel_char(cs@[m]),
        decreases cs@.len() - i,
    {
        let c = cs[i];
        if !(('a' <= c && c <= 'z') || ('0' <= c && c <= '9') || c == '-') {
            proof {
                assert(!channel_char(channel@[i as int]));
            }
            return false;
        }
        i = i + 1;
    }
    true
}

/// Whether `name` is a plain `.raucb` filename (no path traversal).
pub fn is_safe_filename(name: &str) -> (r: bool)
    ensures
        r == safe_filename(name@, ".raucb"@),
{
    safe_name(name, ".raucb")
}

/// `<bundles_dir>/<channel>/bundle/<name>`.
pub open spec fn bundle_path_of(bundles_dir: Seq<char>, channel: Seq<char>, name: Seq<char>) -> Seq<char> {
    path_join(path_join(path_join(bundles_dir, channel), "bundle"@), name)
}

/// Where the bundle `name` of `channel` is stored under `bundles_dir`;
/// `None` for an unsafe channel or file name. (The caller checks that the
/// file exists.)
pub fn bundle_path(bundles_dir: &str, channel: &str, name: &str) -> (r: Option<String>)
    ensures
        match r {
            Some(p) => safe_channel(channel@) && safe_filename(name@, ".raucb"@) && p@
                == bundle_path_of(bundles_dir@, channel@, name@),
            None => !(safe_channel(channel@) && safe_filename(name@, ".raucb"@)),
        },
{
    if !is_safe_channel(channel) || !is_safe_filename(name) {
        return None;
    }
    let dir = join_path(bundles_dir, channel);
    let dir = join_path(dir.as_str(), "bundle");
    Some(join_path(dir.as_str(), name))
}

/// A published bundle's path: the path [`bundle_path`] gives, when a regular
/// file stands there. `is_file` says whether one does; for an unsafe
/// channel or name there is no path to look at, and the answer is `None`
/// whatever `is_file` says.
pub fn published_bundle_path(bundles_dir: &str, channel: &str, name: &str, is_file: bool) -> (r:
    Option<String>)
    ensures
        r is Some <==> safe_channel(channel@) && safe_filename(name@, ".raucb"@) && is_file,
        r matches Some(p) ==> p@ == bundle_path_of(bundles_dir@, channel@, name@),
{
    match bundle_path(bundles_dir, channel, name) {
        Some(p) => if is_file {
            Some(p)
        } else {
            None
        },
        None => None,
    }
}

} // verus!
