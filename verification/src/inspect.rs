//! Reading the control metadata out of a `.deb` archive: which `ar` member
//! holds the control tarball, how it is compressed, which tar entry is the
//! control file, and what its text gives.

use vstd::prelude::*;

use crate::archive::{
    ar_entries_of, ar_members, ar_reads_safely, check_reads, tar_entry_text, tar_paths,
    tar_paths_of, tar_text_of,
};
use crate::control::{control_ok, control_spec, ControlView, DebControl};
use crate::text::{chars_of, ends_with, ends_with_text, push_str, starts_with, starts_with_text};

verus! {

/// Why a `.deb` could not be inspected.
#[derive(Debug)]
pub enum DebError {
    Io(String),
    /// Not a Debian package archive.
    Archive(String),
    /// The control file does not describe a package.
    Control(String),
}

/// A [`DebError`] as the contracts see it.
pub enum DebErrorView {
    Io(Seq<char>),
    Archive(Seq<char>),
    Control(Seq<char>),
}

impl View for DebError {
    type V = DebErrorView;

    open spec fn view(&self) -> DebErrorView {
        match self {
            DebError::Io(m) => DebErrorView::Io(m@),
            DebError::Archive(m) => DebErrorView::Archive(m@),
            DebError::Control(m) => DebErrorView::Control(m@),
        }
    }
}

impl DebError {
    /// The error's text, as the library reports it.
    pub fn message(&self) -> (r: String)
        ensures
            r@ == match self {
                DebError::Io(m) => "io error: "@ + m@,
                DebError::Archive(m) => "not a debian package archive: "@ + m@,
                DebError::Control(m) => "control parse error: "@ + m@,
            },
    {
        let (prefix, m) = match self {
            DebError::Io(m) => ("io error: ", m),
            DebError::Archive(m) => ("not a debian package archive: ", m),
            DebError::Control(m) => ("control parse error: ", m),
        };
        let mut out = prefix.to_string();
        push_str(&mut out, m.as_str());
        out
    }
}

// ---------------------------------------------------------------------------
// The rules

/// Bytes read as one character each. The names compared here are ASCII,
/// and an ASCII byte is the same character in a lossy UTF-8 decoding of
/// the bytes, so comparing these characters is comparing that decoding.
pub open spec fn byte_chars(b: Seq<u8>) -> Seq<char> {
    b.map_values(|x: u8| x as char)
}

/// The `ar` member holding the control tarball: `control.tar` with any
/// compression suffix.
pub open spec fn is_control_member(id: Seq<u8>) -> bool {
    starts_with(byte_chars(id), "control.tar"@)
}

/// How a control tarball is compressed, by its member name.
#[derive(Debug, PartialEq, Eq, Structural)]
pub enum Compression {
    Gzip,
    Xz,
    Zstd,
    Plain,
}

pub open spec fn compression_of(id: Seq<u8>) -> Compression {
    if ends_with(byte_chars(id), ".gz"@) {
        Compression::Gzip
    } else if ends_with(byte_chars(id), ".xz"@) {
        Compression::Xz
    } else if ends_with(byte_chars(id), ".zst"@) {
        Compression::Zstd
    } else {
        Compression::Plain
    }
}

/// A tar path whose last `/`-separated component is `control`.
pub open spec fn is_control_path(p: Seq<char>) -> bool {
    p == "control"@ || ends_with(p, "/control"@)
}

pub const MISSING_CONTROL_MEMBER: &'static str = "missing control.tar.* member";

pub const ZSTD_UNSUPPORTED: &'static str = "control.tar.zst is not supported yet";

pub const MISSING_CONTROL_FILE: &'static str = "control file not found in control.tar";


fn byte_chars_of(b: &[u8]) -> (r: Vec<char>)
    ensures
        r@ == byte_chars(b@),
{
    let mut out: Vec<char> = Vec::new();
    let mut i: usize = 0;
    while i < b.len()
        invariant
            i <= b@.len(),
            out@ == byte_chars(b@.take(i as int)),
        decreases b@.len() - i,
    {
        out.push(b[i] as char);
        proof {
            assert(byte_chars(b@.take(i + 1)) =~= byte_chars(b@.take(i as int)).push(b@[i as int] as char));
        }
        i = i + 1;
    }
    proof {
        assert(b@.take(b@.len() as int) =~= b@);
    }
    out
}

/// Whether the `ar` member `id` holds the control tarball.
pub fn is_control_member_id(id: &[u8]) -> (r: bool)
    ensures
        r == is_control_member(id@),
{
    let cs = byte_chars_of(id);
    let p = chars_of("control.tar");
    starts_with_text(cs.as_slice(), p.as_slice())
}

/// How the control tarball member `id` is compressed.
pub fn control_compression(id: &[u8]) -> (r: Compression)
    ensures
        r == compression_of(id@),
        ends_with(byte_chars(id@), ".gz"@) ==> r == Compression::Gzip,
        ends_with(byte_chars(id@), ".xz"@) ==> r == Compression::Xz,
        ends_with(byte_chars(id@), ".zst"@) ==> r == Compression::Zstd,
        !ends_with(byte_chars(id@), ".gz"@) && !ends_with(byte_chars(id@), ".xz"@) && !ends_with(
            byte_chars(id@),
            ".zst"@,
        ) ==> r == Compression::Plain,
{
    proof {
        lemma_compression_by_suffix(id@);
    }
    let cs = byte_chars_of(id);
    let gz = chars_of(".gz");
    let xz = chars_of(".xz");
    let zst = chars_of(".zst");
    if ends_with_text(cs.as_slice(), gz.as_slice()) {
        Compression::Gzip
    } else if ends_with_text(cs.as_slice(), xz.as_slice()) {
        Compression::Xz
    } else if ends_with_text(cs.as_slice(), zst.as_slice()) {
        Compression::Zstd
    } else {
        Compression::Plain
    }
}

/// Whether the tar entry at `p` is the control file.
pub fn is_control_file(p: &str) -> (r: bool)
    ensures
        r == is_control_path(p@),
{
    let cs = chars_of(p);
    let c = chars_of("control");
    let sc = chars_of("/control");
    let whole = cs.len() == c.len() && starts_with_text(cs.as_slice(), c.as_slice());
    proof {
        if cs@.len() == c@.len() {
            assert(cs@.subrange(0, c@.len() as int) =~= cs@);
        }
    }
    whole || ends_with_text(cs.as_slice(), sc.as_slice())
}

/// What to do with one `ar` member of a `.deb`, read in order.
#[derive(Debug)]
pub enum MemberStep {
    /// Not the control tarball: go on to the next member.
    Skip,
    /// The control tarball: read it, decompressed this way.
    Read(Compression),
    /// The control tarball, in a form that cannot be read.
    Fail(DebError),
}

/// The step for the member named `id`.
pub fn member_step(id: &[u8]) -> (r: MemberStep)
    ensures
        !is_control_member(id@) ==> r is Skip,
        is_control_member(id@) && compression_of(id@) != Compression::Zstd ==> (r matches MemberStep::Read(c) && c == compression_of(id@)),
        is_control_member(id@) && compression_of(id@) == Compression::Zstd ==> (r matches MemberStep::Fail(DebError::Archive(m)) && m@ == ZSTD_UNSUPPORTED@),
{
    if !is_control_member_id(id) {
        return MemberStep::Skip;
    }
    match control_compression(id) {
        Compression::Zstd => MemberStep::Fail(DebError::Archive(ZSTD_UNSUPPORTED.to_string())),
        c => MemberStep::Read(c),
    }
}

/// The package a control text describes, or the control error; `None`
/// exactly when the text has a dependency alternative whose last `)` comes
/// before its first `(`, which the control parser does not take.
pub fn control_result(text: &str) -> (r: Option<Result<DebControl, DebError>>)
    ensures
        r is None <==> !control_ok(text@),
        match r {
            Some(Ok(c)) => control_spec(text@) == Ok::<ControlView, Seq<char>>(c@),
            Some(Err(e)) => (e matches DebError::Control(m) && control_spec(text@) == Err::<ControlView, Seq<char>>(m@)),
            None => true,
        },
{
    match DebControl::parse_checked(text) {
        None => None,
        Some(Ok(c)) => Some(Ok(c)),
        Some(Err(m)) => Some(Err(DebError::Control(m))),
    }
}

// ---------------------------------------------------------------------------
// Reading a `.deb` from its bytes

/// The first `ar` member from `i` on that holds the control tarball.
pub open spec fn first_control_member(ms: Seq<(Seq<u8>, Seq<u8>)>, i: int) -> Option<int>
    decreases ms.len() - i,
{
    if i < 0 || i >= ms.len() {
        None
    } else if is_control_member(ms[i].0) {
        Some(i)
    } else {
        first_control_member(ms, i + 1)
    }
}

/// The first tar entry from `i` on that is the control file.
pub open spec fn first_control_path(ps: Seq<Seq<char>>, i: int) -> Option<int>
    decreases ps.len() - i,
{
    if i < 0 || i >= ps.len() {
        None
    } else if is_control_path(ps[i]) {
        Some(i)
    } else {
        first_control_path(ps, i + 1)
    }
}

/// The control file's text in the control tarball `data`: the first entry
/// whose path is the control file; an archive error when the tar stream
/// fails before one, or ends without one.
pub open spec fn control_member_text(c: Compression, data: Seq<u8>) -> Result<Seq<char>, DebErrorView> {
    let (ps, err) = tar_paths_of(c, data);
    match first_control_path(ps, 0) {
        Some(j) => tar_text_of(c, data, j),
        None => Err(
            DebErrorView::Archive(
                match err {
                    Some(e) => e,
                    None => MISSING_CONTROL_FILE@,
                },
            ),
        ),
    }
}

/// What inspecting the `.deb` `bytes` gives, reading members from the
/// `k`-th on (the earlier ones hold no control tarball): `None` when the
/// reader would panic or allocate past the archive before reaching the
/// control tarball; otherwise the control file's text, or why there is
/// none: the error the `ar` reader stops at, or a missing control member,
/// or a zstd control tarball.
pub open spec fn deb_inspection(bytes: Seq<u8>, k: int) -> Option<Result<Seq<char>, DebErrorView>>
    decreases bytes.len() / 60 + 2 - k,
{
    if k < 1 || k > bytes.len() / 60 + 1 {
        Some(Err(DebErrorView::Archive(MISSING_CONTROL_MEMBER@)))
    } else if !ar_reads_safely(bytes, k) {
        None
    } else {
        let (ms, err) = ar_entries_of(bytes, k);
        if ms.len() < k {
            Some(
                Err(
                    DebErrorView::Archive(
                        match err {
                            Some(e) => e,
                            None => MISSING_CONTROL_MEMBER@,
                        },
                    ),
                ),
            )
        } else if !is_control_member(ms[k - 1].0) {
            deb_inspection(bytes, k + 1)
        } else if compression_of(ms[k - 1].0) == Compression::Zstd {
            Some(Err(DebErrorView::Archive(ZSTD_UNSUPPORTED@)))
        } else {
            Some(control_member_text(compression_of(ms[k - 1].0), ms[k - 1].1))
        }
    }
}

pub open spec fn text_result_view(r: Result<String, DebError>) -> Result<Seq<char>, DebErrorView> {
    match r {
        Ok(t) => Ok(t@),
        Err(e) => Err(e@),
    }
}

/// The control file's text in the control tarball `data`.
pub fn read_control_member(c: &Compression, data: &[u8]) -> (r: Result<String, DebError>)
    requires
        *c != Compression::Zstd,
    ensures
        text_result_view(r) == control_member_text(*c, data@),
{
    let (paths, err) = tar_paths(c, data);
    let ghost ps = crate::archive::strings_view(paths@);
    let mut j: usize = 0;
    while j < paths.len()
        invariant
            j <= paths@.len() == ps.len(),
            *c != Compression::Zstd,
            ps == crate::archive::strings_view(paths@),
            (ps, crate::archive::opt_string_view(err)) == tar_paths_of(*c, data@),
            first_control_path(ps, j as int) == first_control_path(ps, 0),
        decreases paths@.len() - j,
    {
        assert(ps[j as int] == paths@[j as int]@);
        if is_control_file(paths[j].as_str()) {
            return tar_entry_text(c, data, j);
        }
        j = j + 1;
    }
    let m = match err {
        Some(e) => e,
        None => MISSING_CONTROL_FILE.to_string(),
    };
    Err(DebError::Archive(m))
}

/// Inspect `.deb` bytes in memory: the package the first control tarball's
/// control file describes, or why there is none. `None` when the `ar`
/// reader would panic (a GNU long name past its name table) or allocate
/// past the archive before reaching the control tarball, and when the
/// control text has an alternative the control parser does not take.
pub fn inspect_deb_bytes(bytes: &[u8]) -> (r: Option<Result<DebControl, DebError>>)
    ensures
        match deb_inspection(bytes@, 1) {
            None => r is None,
            Some(Err(e)) => r matches Some(Err(x)) && x@ == e,
            Some(Ok(t)) => {
                &&& (r is None <==> !control_ok(t))
                &&& (r matches Some(Ok(c)) ==> control_spec(t) == Ok::<ControlView, Seq<char>>(c@))
                &&& (r matches Some(Err(x)) ==> x matches DebError::Control(m) && control_spec(t)
                    == Err::<ControlView, Seq<char>>(m@))
            },
        },
{
    let bound = bytes.len() / 60 + 1;
    let mut k: usize = 1;
    while k <= bound
        invariant
            1 <= k <= bound + 1,
            bound == bytes@.len() / 60 + 1,
            deb_inspection(bytes@, k as int) == deb_inspection(bytes@, 1),
        decreases bound + 1 - k,
    {
        if !check_reads(bytes, k) {
            return None;
        }
        let (members, err) = ar_members(bytes, k);
        let ghost ms = crate::archive::members_view(members@);
        if members.len() < k {
            let m = match err {
                Some(e) => e,
                None => MISSING_CONTROL_MEMBER.to_string(),
            };
            return Some(Err(DebError::Archive(m)));
        }
        assert(ms[k - 1] == (members@[k - 1].identifier@, members@[k - 1].data@));
        match member_step(members[k - 1].identifier.as_slice()) {
            MemberStep::Skip => {},
            MemberStep::Fail(e) => {
                return Some(Err(e));
            },
            MemberStep::Read(c) => {
                return match read_control_member(&c, members[k - 1].data.as_slice()) {
                    Err(e) => Some(Err(e)),
                    Ok(t) => control_result(t.as_str()),
                };
            },
        }
        k = k + 1;
    }
    Some(Err(DebError::Archive(MISSING_CONTROL_MEMBER.to_string())))
}

/// A control tarball is decompressed by what its member name ends with:
/// `.gz` with gzip, `.xz` with xz, `.zst` is zstd, and any other name is a
/// plain tar.
pub proof fn lemma_compression_by_suffix(id: Seq<u8>)
    ensures
        ends_with(byte_chars(id), ".gz"@) ==> compression_of(id) == Compression::Gzip,
        ends_with(byte_chars(id), ".xz"@) ==> compression_of(id) == Compression::Xz,
        ends_with(byte_chars(id), ".zst"@) ==> compression_of(id) == Compression::Zstd,
        !ends_with(byte_chars(id), ".gz"@) && !ends_with(byte_chars(id), ".xz"@) && !ends_with(
            byte_chars(id),
            ".zst"@,
        ) ==> compression_of(id) == Compression::Plain,
{
    reveal_strlit(".gz");
    reveal_strlit(".xz");
    reveal_strlit(".zst");
    let s = byte_chars(id);
    let n = s.len() as int;
    if ends_with(s, ".xz"@) {
        assert(s.subrange(n - 3, n)[1] == 'x');
        assert(s[n - 2] == 'x');
        if ends_with(s, ".gz"@) {
            assert(s.subrange(n - 3, n)[1] == 'g');
        }
    }
    if ends_with(s, ".zst"@) {
        assert(s.subrange(n - 4, n)[3] == 't');
        assert(s[n - 1] == 't');
        if ends_with(s, ".gz"@) {
            assert(s.subrange(n - 3, n)[2] == 'z');
        }
        if ends_with(s, ".xz"@) {
            assert(s.subrange(n - 3, n)[2] == 'z');
        }
    }
}

} // verus!
