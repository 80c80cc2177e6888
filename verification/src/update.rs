//! Self-update from a GitHub release: picking the assets, reading the
//! release version, and checking the archive against its SHA-256 checksum.
use vstd::prelude::*;

use sha2::Digest;

use crate::codex::{join_path, path_join};
use crate::text::{
    chars_eq, chars_of, contains, contains_chars, copy_range, extend_chars, pieces,
    split_words, string_from_chars, views_of, words, Separator,
};

verus! {

/// One downloadable file of a release.
#[derive(Clone, Debug)]
pub struct Asset {
    pub name: String,
    pub browser_download_url: String,
}

/// A GitHub release: its tag and its assets.
#[derive(Clone, Debug)]
pub struct Release {
    pub tag_name: String,
    pub assets: Vec<Asset>,
}

/// Why an update cannot go on.
#[derive(Clone, Debug, PartialEq, Eq)]
pub enum UpdateError {
    MissingAsset(String),
    InvalidTag(String),
    MissingChecksum(String),
    ChecksumMismatch(String),
}

pub open spec fn update_error_text(e: UpdateError) -> Seq<char> {
    match e {
        UpdateError::MissingAsset(name) => "GitHub release is missing asset: "@ + name@,
        UpdateError::InvalidTag(tag) => "GitHub release tag is invalid: "@ + tag@,
        UpdateError::MissingChecksum(name) => "checksum file did not contain "@ + name@,
        UpdateError::ChecksumMismatch(name) => "checksum verification failed for "@ + name@,
    }
}

fn prefixed(prefix: &str, rest: &String) -> (res: String)
    ensures
        res@ == prefix@ + rest@,
{
    let mut out = chars_of(prefix);
    let tail = chars_of(rest.as_str());
    extend_chars(&mut out, tail.as_slice());
    string_from_chars(out.as_slice())
}

impl UpdateError {
    /// The human-readable message of this error.
    pub fn message(&self) -> (res: String)
        ensures
            res@ == update_error_text(*self),
    {
        match self {
            UpdateError::MissingAsset(name) => prefixed("GitHub release is missing asset: ", name),
            UpdateError::InvalidTag(tag) => prefixed("GitHub release tag is invalid: ", tag),
            UpdateError::MissingChecksum(name) => prefixed("checksum file did not contain ", name),
            UpdateError::ChecksumMismatch(name) => prefixed(
                "checksum verification failed for ",
                name,
            ),
        }
    }
}

/// The first asset called `name`.
pub fn find_asset<'a>(release: &'a Release, name: &str) -> (res: Result<&'a Asset, UpdateError>)
    ensures
        res matches Ok(a) ==> exists|i: int|
            0 <= i < release.assets@.len() && *a == release.assets@[i] && a.name@ == name@
                && forall|k: int| 0 <= k < i ==> (#[trigger] release.assets@[k]).name@ != name@,
        res matches Err(e) ==> e == UpdateError::MissingAsset(e->MissingAsset_0) && e->MissingAsset_0@
            == name@ && forall|k: int|
            0 <= k < release.assets@.len() ==> (#[trigger] release.assets@[k]).name@ != name@,
{
    let want = chars_of(name);
    let mut i: usize = 0;
    while i < release.assets.len()
        invariant
            i <= release.assets.len(),
            want@ == name@,
            forall|k: int| 0 <= k < i ==> (#[trigger] release.assets@[k]).name@ != name@,
        decreases release.assets.len() - i,
    {
        let have = chars_of(release.assets[i].name.as_str());
        if chars_eq(have.as_slice(), want.as_slice()) {
            return Ok(&release.assets[i]);
        }
        i = i + 1;
    }
    Err(UpdateError::MissingAsset(String::from_str(name)))
}

/// The release archive of a target: `.zip` for Windows, `.tar.xz` elsewhere.
pub open spec fn archive_file_name(target: Seq<char>) -> Seq<char> {
    "ai-monitor-"@ + target + (if contains(target, "windows"@) {
        ".zip"@
    } else {
        ".tar.xz"@
    })
}

pub fn archive_name(target: &str) -> (res: String)
    ensures
        res@ == archive_file_name(target@),
{
    let t = chars_of(target);
    let windows = chars_of("windows");
    let mut out = chars_of("ai-monitor-");
    extend_chars(&mut out, t.as_slice());
    let ext = if contains_chars(t.as_slice(), windows.as_slice()) {
        chars_of(".zip")
    } else {
        chars_of(".tar.xz")
    };
    extend_chars(&mut out, ext.as_slice());
    string_from_chars(out.as_slice())
}

/// The checksum asset of an archive.
pub fn checksum_name(archive: &str) -> (res: String)
    ensures
        res@ == archive@ + ".sha256"@,
{
    let mut out = chars_of(archive);
    let ext = chars_of(".sha256");
    extend_chars(&mut out, ext.as_slice());
    string_from_chars(out.as_slice())
}

/// The directory an archive unpacks into.
pub fn extract_root(destination: &str, target: &str) -> (res: String)
    ensures
        res@ == path_join(destination@, "ai-monitor-"@ + target@),
{
    let mut dir = chars_of("ai-monitor-");
    let t = chars_of(target);
    extend_chars(&mut dir, t.as_slice());
    let dir = string_from_chars(dir.as_slice());
    join_path(destination, dir.as_str())
}

/// The executable inside the unpacked archive.
pub fn binary_path(root: &str, windows: bool) -> (res: String)
    ensures
        res@ == path_join(
            root@,
            if windows {
                "ai-monitor.exe"@
            } else {
                "ai-monitor"@
            },
        ),
{
    if windows {
        join_path(root, "ai-monitor.exe")
    } else {
        join_path(root, "ai-monitor")
    }
}

// ---------------------------------------------------------------------------
// Release version
// ---------------------------------------------------------------------------

/// What `semver` parses a text into, by the version's parts: major, minor
/// and patch numbers, then the pre-release and build identifiers as text
/// (empty where absent); `None` where it refuses the text.
pub uninterp spec fn semver_parts(text: Seq<char>) -> Option<(u64, u64, u64, Seq<char>, Seq<char>)>;

/// `semver::Version::parse`, its error dropped and the version taken apart
/// into its numbers and the text of its identifiers.
#[verifier::external_body]
fn parse_version(text: &str) -> (res: Option<(u64, u64, u64, String, String)>)
    ensures
        match semver_parts(text@) {
            Some(p) => res matches Some(v) && v.0 == p.0 && v.1 == p.1 && v.2 == p.2 && v.3@ == p.3
                && v.4@ == p.4,
            None => res is None,
        },
{
    match semver::Version::parse(text) {
        Ok(v) => Some((v.major, v.minor, v.patch, v.pre.as_str().to_owned(), v.build.as_str().to_owned())),
        Err(_) => None,
    }
}

/// A release's version by its parts, as `semver` reads them.
#[derive(Clone, Debug, PartialEq, Eq)]
pub struct ReleaseVersion {
    pub major: u64,
    pub minor: u64,
    pub patch: u64,
    /// The pre-release identifiers, dot-separated; empty where there are none.
    pub pre: String,
    /// The build metadata, dot-separated; empty where there is none.
    pub build: String,
}

/// `s` without its leading `c` characters (`trim_start_matches(c)`).
pub open spec fn strip_leading(s: Seq<char>, c: char) -> Seq<char>
    decreases s.len(),
{
    if s.len() > 0 && s[0] == c {
        strip_leading(s.drop_first(), c)
    } else {
        s
    }
}

fn strip_leading_chars(s: &[char], c: char) -> (res: Vec<char>)
    ensures
        res@ == strip_leading(s@, c),
{
    let mut i: usize = 0;
    assert(s@.subrange(0, s@.len() as int) == s@);
    while i < s.len() && s[i] == c
        invariant
            i <= s.len(),
            strip_leading(s@, c) == strip_leading(s@.subrange(i as int, s@.len() as int), c),
        decreases s.len() - i,
    {
        assert(s@.subrange(i as int, s@.len() as int).drop_first() == s@.subrange(
            i + 1,
            s@.len() as int,
        ));
        i = i + 1;
    }
    copy_range(s, i, s.len())
}

/// The version of a release, from its tag without the leading `v`s.
pub fn release_version(release: &Release) -> (res: Result<ReleaseVersion, UpdateError>)
    ensures
        match semver_parts(strip_leading(release.tag_name@, 'v')) {
            Some(p) => res matches Ok(v) && v.major == p.0 && v.minor == p.1 && v.patch == p.2
                && v.pre@ == p.3 && v.build@ == p.4,
            None => res matches Err(UpdateError::InvalidTag(tag)) && tag@ == release.tag_name@,
        },
{
    let tag = chars_of(release.tag_name.as_str());
    let text = strip_leading_chars(tag.as_slice(), 'v');
    let text = string_from_chars(text.as_slice());
    match parse_version(text.as_str()) {
        Some((major, minor, patch, pre, build)) => Ok(ReleaseVersion { major, minor, patch, pre, build }),
        None => Err(UpdateError::InvalidTag(release.tag_name.clone())),
    }
}

// ---------------------------------------------------------------------------
// Checksums
// ---------------------------------------------------------------------------

/// The SHA-256 digest of the data.
pub uninterp spec fn sha256_digest(data: Seq<u8>) -> Seq<u8>;

/// `Sha256::digest`: the contract names the digest and states its length of
/// 32 bytes.
#[verifier::external_body]
fn sha256(data: &[u8]) -> (res: Vec<u8>)
    ensures
        res@ == sha256_digest(data@),
        res@.len() == 32,
{
    sha2::Sha256::digest(data).to_vec()
}

/// The text that lossy UTF-8 decoding makes of the bytes.
pub uninterp spec fn lossy_utf8(bytes: Seq<u8>) -> Seq<char>;

/// `String::from_utf8_lossy`: the contract names the decoded text, and says
/// that valid UTF-8 is decoded as it stands.
#[verifier::external_body]
pub(crate) fn decode_lossy(bytes: &[u8]) -> (res: String)
    ensures
        res@ == lossy_utf8(bytes@),
        vstd::utf8::valid_utf8(bytes@) ==> res@ == vstd::utf8::decode_utf8(bytes@),
{
    String::from_utf8_lossy(bytes).into_owned()
}

pub open spec fn hex_digit(d: u8) -> char {
    if d < 10 {
        (48 + d) as char
    } else {
        (87 + d) as char
    }
}

/// Lower-case hexadecimal, two digits per byte (`{:x}` of a digest).
pub open spec fn hex_lower(bytes: Seq<u8>) -> Seq<char>
    decreases bytes.len(),
{
    if bytes.len() == 0 {
        Seq::empty()
    } else {
        hex_lower(bytes.drop_last()) + seq![
            hex_digit(bytes.last() / 16),
            hex_digit(bytes.last() % 16),
        ]
    }
}

fn hex_digit_of(d: u8) -> (res: char)
    requires
        d < 16,
    ensures
        res == hex_digit(d),
{
    if d < 10 {
        (48 + d) as char
    } else {
        (87 + d) as char
    }
}

pub fn to_hex_lower(bytes: &[u8]) -> (res: Vec<char>)
    ensures
        res@ == hex_lower(bytes@),
{
    let mut out: Vec<char> = Vec::new();
    let mut i: usize = 0;
    assert(bytes@.take(0) == Seq::<u8>::empty());
    while i < bytes.len()
        invariant
            i <= bytes.len(),
            out@ == hex_lower(bytes@.take(i as int)),
        decreases bytes.len() - i,
    {
        let b = bytes[i];
        out.push(hex_digit_of(b / 16));
        out.push(hex_digit_of(b % 16));
        assert(bytes@.take(i + 1).drop_last() == bytes@.take(i as int));
        i = i + 1;
    }
    assert(bytes@.take(bytes.len() as int) == bytes@);
    out
}

/// `s` without one trailing `'\r'`.
pub open spec fn strip_cr(s: Seq<char>) -> Seq<char> {
    if s.len() > 0 && s.last() == '\r' {
        s.drop_last()
    } else {
        s
    }
}

/// `str::lines`: pieces between line feeds, each without one trailing
/// carriage return, and no last line where the text ends with a line feed.
/// A last line that no line feed ends keeps its carriage return.
pub open spec fn lines(text: Seq<char>) -> Seq<Seq<char>> {
    let p = pieces(text, Separator::Newline);
    let ended = p.drop_last().map_values(|l: Seq<char>| strip_cr(l));
    if p.last().len() == 0 {
        ended
    } else {
        ended.push(p.last())
    }
}

/// The hash a checksum line gives for `name`: the first field, where the
/// second field, without its leading `*`s, is empty or is `name`.
pub open spec fn line_hash(line: Seq<char>, name: Seq<char>) -> Option<Seq<char>> {
    let fields = words(line, Separator::Whitespace);
    if fields.len() == 0 {
        None
    } else {
        let file = if fields.len() > 1 {
            strip_leading(fields[1], '*')
        } else {
            Seq::empty()
        };
        if file.len() == 0 || file == name {
            Some(fields[0])
        } else {
            None
        }
    }
}

/// The hash of the first line that gives one.
pub open spec fn first_hash(ls: Seq<Seq<char>>, name: Seq<char>) -> Option<Seq<char>>
    decreases ls.len(),
{
    if ls.len() == 0 {
        None
    } else {
        match line_hash(ls[0], name) {
            Some(h) => Some(h),
            None => first_hash(ls.drop_first(), name),
        }
    }
}

/// What `verify_checksum` decides.
pub open spec fn checksum_verdict(archive: Seq<u8>, checksum: Seq<u8>, name: Seq<char>) -> Option<
    bool,
> {
    digest_verdict(sha256_digest(archive), lossy_utf8(checksum), name)
}

/// The verdict of a checksum file with text `text` on an archive whose
/// digest is `digest`: none where the text names no hash for `name`, else
/// whether the hash is the digest in lower-case hex.
pub open spec fn digest_verdict(digest: Seq<u8>, text: Seq<char>, name: Seq<char>) -> Option<
    bool,
> {
    match first_hash(lines(text), name) {
        None => None,
        Some(h) => Some(hex_lower(digest) == h),
    }
}

/// Two hex digits for each byte.
pub proof fn lemma_hex_lower_len(bytes: Seq<u8>)
    ensures
        hex_lower(bytes).len() == 2 * bytes.len(),
    decreases bytes.len(),
{
    if bytes.len() > 0 {
        lemma_hex_lower_len(bytes.drop_last());
    }
}

fn text_lines(text: &[char]) -> (res: Vec<Vec<char>>)
    ensures
        views_of(res@) == lines(text@),
{
    let ps = crate::text::split_pieces(text, Separator::Newline);
    let ghost pv = views_of(ps@);
    let mut out: Vec<Vec<char>> = Vec::new();
    let n = ps.len();
    let mut i: usize = 0;
    proof {
        crate::text::lemma_pieces_not_empty(text@, Separator::Newline);
    }
    while i + 1 < n
        invariant
            n == ps@.len(),
            n >= 1,
            i + 1 <= n,
            pv == views_of(ps@),
            views_of(out@) == pv.drop_last().take(i as int).map_values(
                |l: Seq<char>| strip_cr(l),
            ),
        decreases n - i,
    {
        let l = &ps[i];
        let stripped = if l.len() > 0 && l[l.len() - 1] == '\r' {
            copy_range(l.as_slice(), 0, l.len() - 1)
        } else {
            l.clone()
        };
        proof {
            if l@.len() > 0 && l@.last() == '\r' {
                assert(l@.subrange(0, l@.len() - 1) == l@.drop_last());
            }
        }
        let ghost before = views_of(out@);
        out.push(stripped);
        proof {
            assert(views_of(out@) == before.push(stripped@));
            assert(pv.drop_last().take(i + 1) == pv.drop_last().take(i as int).push(pv[i as int]));
        }
        i = i + 1;
    }
    proof {
        assert(pv.drop_last().take(i as int) == pv.drop_last());
    }
    let last = &ps[n - 1];
    if last.len() > 0 {
        let ghost before = views_of(out@);
        out.push(last.clone());
        proof {
            assert(views_of(out@) == before.push(last@));
        }
    }
    out
}

fn line_hash_of(line: &[char], name: &[char]) -> (res: Option<Vec<char>>)
    ensures
        match line_hash(line@, name@) {
            Some(h) => res matches Some(v) && v@ == h,
            None => res is None,
        },
{
    let fields = split_words(line, Separator::Whitespace);
    if fields.len() == 0 {
        return None;
    }
    let file = if fields.len() > 1 {
        strip_leading_chars(fields[1].as_slice(), '*')
    } else {
        Vec::new()
    };
    if file.len() == 0 || chars_eq(file.as_slice(), name) {
        Some(fields[0].clone())
    } else {
        None
    }
}

/// Checks an archive whose SHA-256 digest is `digest` against the text of
/// the checksum file: the first line whose file name is `name` (or that names
/// no file) gives the expected hash, which must equal the digest in
/// lower-case hex.
pub fn check_digest(digest: &[u8], text: &str, name: &str) -> (res: Result<(), UpdateError>)
    ensures
        match digest_verdict(digest@, text@, name@) {
            None => res matches Err(UpdateError::MissingChecksum(n)) && n@ == name@,
            Some(true) => res is Ok,
            Some(false) => res matches Err(UpdateError::ChecksumMismatch(n)) && n@ == name@,
        },
{
    let tc = chars_of(text);
    let ls = text_lines(tc.as_slice());
    let n = chars_of(name);
    let ghost lv = views_of(ls@);
    let mut expected: Option<Vec<char>> = None;
    let mut i: usize = 0;
    proof {
        assert(lv.skip(0) == lv);
    }
    while i < ls.len() && expected.is_none()
        invariant
            i <= ls.len(),
            lv == views_of(ls@),
            n@ == name@,
            lv == lines(tc@),
            tc@ == text@,
            match expected {
                None => first_hash(lv, name@) == first_hash(lv.skip(i as int), name@),
                Some(h) => first_hash(lv, name@) == Some(h@),
            },
        decreases ls.len() - i,
    {
        proof {
            assert(lv.skip(i as int)[0] == ls@[i as int]@);
            assert(lv.skip(i as int).drop_first() == lv.skip(i + 1));
        }
        expected = line_hash_of(ls[i].as_slice(), n.as_slice());
        i = i + 1;
    }
    proof {
        if expected is None {
            assert(lv.skip(i as int).len() == 0);
        }
    }
    let expected = match expected {
        None => return Err(UpdateError::MissingChecksum(String::from_str(name))),
        Some(h) => h,
    };
    let actual = to_hex_lower(digest);
    if chars_eq(actual.as_slice(), expected.as_slice()) {
        Ok(())
    } else {
        Err(UpdateError::ChecksumMismatch(String::from_str(name)))
    }
}

/// Checks the archive against the checksum file: the first line whose file
/// name is `name` (or that names no file) gives the expected hash, which must
/// equal the lower-case hex SHA-256 of the archive, 64 digits long.
pub fn verify_checksum(archive: &[u8], checksum: &[u8], name: &str) -> (res: Result<(), UpdateError>)
    ensures
        sha256_digest(archive@).len() == 32,
        hex_lower(sha256_digest(archive@)).len() == 64,
        match checksum_verdict(archive@, checksum@, name@) {
            None => res matches Err(UpdateError::MissingChecksum(n)) && n@ == name@,
            Some(true) => res is Ok,
            Some(false) => res matches Err(UpdateError::ChecksumMismatch(n)) && n@ == name@,
        },
{
    let text = decode_lossy(checksum);
    let digest = sha256(archive);
    proof {
        lemma_hex_lower_len(digest@);
    }
    check_digest(digest.as_slice(), text.as_str(), name)
}

/// A checksum file whose text is the one line `<hash> *<name>` names
/// `hash` for `name`: an archive with digest `digest` passes exactly when
/// the digest in lower-case hex is `hash`.
pub proof fn law_checksum_line(
    digest: Seq<u8>,
    text: Seq<char>,
    hash: Seq<char>,
    name: Seq<char>,
)
    requires
        hash.len() > 0,
        name.len() > 0,
        name[0] != '*',
        forall|i: int| 0 <= i < hash.len() ==> !crate::text::is_space(#[trigger] hash[i]),
        forall|i: int| 0 <= i < name.len() ==> !crate::text::is_space(#[trigger] name[i]),
        text == hash + seq![' ', '*'] + name + seq!['\n'],
    ensures
        digest_verdict(digest, text, name) == Some(hex_lower(digest) == hash),
{
    let starred = seq!['*'] + name;
    let line = hash + seq![' '] + starred;
    assert(line == hash + seq![' ', '*'] + name);
    assert forall|i: int| 0 <= i < starred.len() implies !crate::text::is_space(#[trigger] starred[i]) by {
        if i > 0 {
            assert(starred[i] == name[i - 1]);
        }
    }
    crate::text::lemma_two_pieces(hash, ' ', starred, Separator::Whitespace);
    let ws = pieces(line, Separator::Whitespace);
    assert(ws == seq![hash, starred]);
    assert(ws.drop_last() == seq![hash]);
    assert(seq![hash].drop_last() == Seq::<Seq<char>>::empty());
    assert(crate::text::non_empty(Seq::<Seq<char>>::empty()) == Seq::<Seq<char>>::empty());
    assert(crate::text::non_empty(seq![hash]) =~= seq![hash]);
    assert(seq![hash].push(starred) =~= seq![hash, starred]);
    assert(crate::text::non_empty(ws) =~= seq![hash, starred]);
    assert(words(line, Separator::Whitespace) == seq![hash, starred]);
    assert(starred.drop_first() =~= name);
    assert(starred[0] == '*');
    assert(strip_leading(name, '*') == name);
    assert(strip_leading(starred, '*') == strip_leading(starred.drop_first(), '*'));
    assert(strip_leading(starred, '*') == name);
    assert(line_hash(line, name) == Some(hash));
    assert forall|i: int| 0 <= i < line.len() implies !crate::text::is_separator(
        Separator::Newline,
        #[trigger] line[i],
    ) by {
        if i < hash.len() {
            assert(line[i] == hash[i]);
        } else if i > hash.len() {
            assert(line[i] == starred[i - hash.len() - 1]);
        }
    }
    crate::text::lemma_two_pieces(line, '\n', Seq::<char>::empty(), Separator::Newline);
    assert(line + seq!['\n'] + Seq::<char>::empty() == text);
    let p = pieces(text, Separator::Newline);
    assert(p == seq![line, Seq::<char>::empty()]);
    assert(line.last() == name.last());
    assert(!crate::text::is_space(name[name.len() - 1]));
    assert(strip_cr(line) == line);
    assert(p.drop_last().map_values(|l: Seq<char>| strip_cr(l)) == seq![line]);
    assert(lines(text) == seq![line]);
    assert(seq![line].drop_first() == Seq::<Seq<char>>::empty());
    assert(first_hash(seq![line], name) == Some(hash));
}

} // verus!
