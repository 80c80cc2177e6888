//! Codex profiles: isolated `CODEX_HOME` directories under one store root.
//!
//! The store decides which directories are profiles, which profile a command
//! uses, and what the configuration file must hold. Reading and writing the
//! file system, and running the Codex CLI, happen around these decisions.
use vstd::prelude::*;

use crate::text::{
    chars_of, chars_eq, copy_range, decimal, extend_chars, lemma_lex_total, lemma_lex_transitive,
    lex_less, lex_lt, string_from_chars, u64_to_string,
};

verus! {

/// `std::io::Error`, carried through as an opaque value.
#[verifier::external_type_specification]
#[verifier::external_body]
pub struct ExIoError(std::io::Error);

/// Errors of the profile store and of the Codex provider.
#[derive(Debug)]
pub enum Error {
    HomeUnavailable,
    InvalidProfileName,
    ProfileNotFound,
    NoDefaultProfile,
    InvalidConfig,
    Storage(std::io::Error),
    Launch(std::io::Error),
    AlreadyAuthenticated { profile: String },
    Timeout,
    Closed,
    Protocol,
    Rpc,
    PrivateCredits,
    PrivateCreditsRateLimited { retry_after_seconds: Option<u64> },
}

/// The text of `Some(n)` / `None` as `{:?}` prints an `Option<u64>`.
pub open spec fn debug_option_u64(value: Option<u64>) -> Seq<char> {
    match value {
        Some(n) => "Some("@ + decimal(n as nat) + ")"@,
        None => "None"@,
    }
}

/// The message each error displays.
pub open spec fn error_text(error: Error) -> Seq<char> {
    match error {
        Error::HomeUnavailable => "could not determine the profile storage directory"@,
        Error::InvalidProfileName =>
            "profile name may only contain letters, numbers, '-', '_', and '.'"@,
        Error::ProfileNotFound => "profile was not found"@,
        Error::NoDefaultProfile => "no default profile is configured"@,
        Error::InvalidConfig => "profile configuration is invalid"@,
        Error::Storage(_) => "profile storage operation failed"@,
        Error::Launch(_) => "could not start Codex"@,
        Error::AlreadyAuthenticated { profile } => "profile '"@ + profile@
            + "' is already authenticated; use --force to log in again"@,
        Error::Timeout => "Codex app-server request timed out"@,
        Error::Closed => "Codex app-server closed unexpectedly"@,
        Error::Protocol => "Codex app-server protocol error"@,
        Error::Rpc => "Codex app-server returned an error"@,
        Error::PrivateCredits => "private credit lookup failed"@,
        Error::PrivateCreditsRateLimited { retry_after_seconds } =>
            "private credit lookup was rate limited; retry after "@ + debug_option_u64(
                retry_after_seconds,
            ) + " seconds"@,
    }
}

fn concat3(a: &str, b: &[char], c: &str) -> (res: String)
    ensures
        res@ == a@ + b@ + c@,
{
    let mut out = chars_of(a);
    extend_chars(&mut out, b);
    let tail = chars_of(c);
    extend_chars(&mut out, tail.as_slice());
    string_from_chars(out.as_slice())
}

impl Error {
    /// The human-readable message of this error.
    pub fn message(&self) -> (res: String)
        ensures
            res@ == error_text(*self),
    {
        match self {
            Error::HomeUnavailable => String::from_str(
                "could not determine the profile storage directory",
            ),
            Error::InvalidProfileName => String::from_str(
                "profile name may only contain letters, numbers, '-', '_', and '.'",
            ),
            Error::ProfileNotFound => String::from_str("profile was not found"),
            Error::NoDefaultProfile => String::from_str("no default profile is configured"),
            Error::InvalidConfig => String::from_str("profile configuration is invalid"),
            Error::Storage(_) => String::from_str("profile storage operation failed"),
            Error::Launch(_) => String::from_str("could not start Codex"),
            Error::AlreadyAuthenticated { profile } => {
                let name = chars_of(profile.as_str());
                concat3(
                    "profile '",
                    name.as_slice(),
                    "' is already authenticated; use --force to log in again",
                )
            },
            Error::Timeout => String::from_str("Codex app-server request timed out"),
            Error::Closed => String::from_str("Codex app-server closed unexpectedly"),
            Error::Protocol => String::from_str("Codex app-server protocol error"),
            Error::Rpc => String::from_str("Codex app-server returned an error"),
            Error::PrivateCredits => String::from_str("private credit lookup failed"),
            Error::PrivateCreditsRateLimited { retry_after_seconds } => {
                let mut middle: Vec<char> = Vec::new();
                match retry_after_seconds {
                    Some(n) => {
                        let open = chars_of("Some(");
                        extend_chars(&mut middle, open.as_slice());
                        let digits = chars_of(u64_to_string(*n).as_str());
                        extend_chars(&mut middle, digits.as_slice());
                        let close = chars_of(")");
                        extend_chars(&mut middle, close.as_slice());
                    },
                    None => {
                        let none = chars_of("None");
                        extend_chars(&mut middle, none.as_slice());
                    },
                }
                concat3(
                    "private credit lookup was rate limited; retry after ",
                    middle.as_slice(),
                    " seconds",
                )
            },
        }
    }
}

/// How the private credit lookup ends for an HTTP status: too many
/// requests is `PrivateCreditsRateLimited` with the server's `Retry-After`
/// seconds, any other status outside 200..=299 is `PrivateCredits`, and a
/// success is no error.
pub open spec fn credit_lookup_failure(status: u16, retry_after_seconds: Option<u64>) -> Option<Error> {
    if status == 429 {
        Some(Error::PrivateCreditsRateLimited { retry_after_seconds })
    } else if 200 <= status <= 299 {
        None
    } else {
        Some(Error::PrivateCredits)
    }
}

pub fn private_credits_failure(status: u16, retry_after_seconds: Option<u64>) -> (res: Option<Error>)
    ensures
        res == credit_lookup_failure(status, retry_after_seconds),
{
    if status == 429 {
        Some(Error::PrivateCreditsRateLimited { retry_after_seconds })
    } else if 200 <= status && status <= 299 {
        None
    } else {
        Some(Error::PrivateCredits)
    }
}

// ---------------------------------------------------------------------------
// Paths
// ---------------------------------------------------------------------------

/// `Path::join` with `/` as the separator: an absolute `name` replaces the
/// base; otherwise one separator is put between them where the base does not
/// already end with one.
pub open spec fn path_join(base: Seq<char>, name: Seq<char>) -> Seq<char> {
    if name.len() > 0 && name[0] == '/' {
        name
    } else if base.len() == 0 {
        name
    } else if base.last() == '/' {
        base + name
    } else {
        base + seq!['/'] + name
    }
}

pub fn join_path(base: &str, name: &str) -> (res: String)
    ensures
        res@ == path_join(base@, name@),
{
    let b = chars_of(base);
    let n = chars_of(name);
    if n.len() > 0 && n[0] == '/' {
        return string_from_chars(n.as_slice());
    }
    if b.len() == 0 {
        return string_from_chars(n.as_slice());
    }
    let mut out = b.clone();
    if b[b.len() - 1] != '/' {
        out.push('/');
    }
    extend_chars(&mut out, n.as_slice());
    string_from_chars(out.as_slice())
}

// ---------------------------------------------------------------------------
// Profiles
// ---------------------------------------------------------------------------

/// One profile: its name, its `CODEX_HOME`, and whether it holds credentials.
#[derive(Clone, Debug, PartialEq, Eq)]
pub struct Profile {
    pub name: String,
    pub home: String,
    pub authenticated: bool,
}

impl Profile {
    /// The credentials file of this profile.
    pub fn auth_file(&self) -> (res: String)
        ensures
            res@ == path_join(self.home@, "auth.json"@),
    {
        join_path(self.home.as_str(), "auth.json")
    }

    /// A copy of this profile.
    pub fn duplicate(&self) -> (res: Profile)
        ensures
            res == *self,
    {
        Profile { name: self.name.clone(), home: self.home.clone(), authenticated: self.authenticated }
    }
}

/// A character allowed in a profile name.
pub open spec fn profile_name_char(c: char) -> bool {
    crate::text::is_ascii_alnum(c) || c == '-' || c == '_' || c == '.'
}

/// A profile name is non-empty, is neither `.` nor `..`, and holds only ASCII
/// letters, digits, `-`, `_` and `.`.
pub open spec fn valid_profile_name(name: Seq<char>) -> bool {
    &&& name.len() > 0
    &&& name != seq!['.']
    &&& name != seq!['.', '.']
    &&& forall|i: int| 0 <= i < name.len() ==> profile_name_char(#[trigger] name[i])
}

/// Accepts exactly the valid profile names.
pub fn validate_profile_name(name: &str) -> (res: Result<(), Error>)
    ensures
        res is Ok <==> valid_profile_name(name@),
        res is Ok <==> (name@.len() > 0 && name@ != seq!['.'] && name@ != seq!['.', '.'] && forall|i: int|
            0 <= i < name@.len() ==> {
                let c = #[trigger] name@[i];
                (48 <= c as u32 <= 57) || (65 <= c as u32 <= 90) || (97 <= c as u32 <= 122) || c
                    == '-' || c == '_' || c == '.'
            }),
        res matches Err(e) ==> e is InvalidProfileName,
{
    let cs = chars_of(name);
    if cs.len() == 0 {
        return Err(Error::InvalidProfileName);
    }
    let dot = ['.'];
    let dots = ['.', '.'];
    if chars_eq(cs.as_slice(), dot.as_slice()) || chars_eq(cs.as_slice(), dots.as_slice()) {
        assert(dot@ == seq!['.']);
        assert(dots@ == seq!['.', '.']);
        return Err(Error::InvalidProfileName);
    }
    assert(dot@ == seq!['.']);
    assert(dots@ == seq!['.', '.']);
    let mut i: usize = 0;
    while i < cs.len()
        invariant
            i <= cs.len(),
            cs@ == name@,
            forall|k: int| 0 <= k < i ==> profile_name_char(#[trigger] cs@[k]),
        decreases cs.len() - i,
    {
        let c = cs[i];
        let u = c as u32;
        let allowed = (48 <= u && u <= 57) || (65 <= u && u <= 90) || (97 <= u && u <= 122) || c
            == '-' || c == '_' || c == '.';
        if !allowed {
            assert(!profile_name_char(name@[i as int]));
            return Err(Error::InvalidProfileName);
        }
        i = i + 1;
    }
    proof {
        law_profile_name_chars(name@);
    }
    Ok(())
}

/// A name is a valid profile name exactly when it is not empty, is neither
/// `.` nor `..`, and every character is an ASCII letter of either case, an
/// ASCII digit, `-`, `_` or `.`.
pub proof fn law_profile_name_chars(name: Seq<char>)
    ensures
        valid_profile_name(name) <==> (name.len() > 0 && name != seq!['.'] && name != seq!['.', '.']
            && forall|i: int|
            0 <= i < name.len() ==> {
                let c = #[trigger] name[i];
                (48 <= c as u32 <= 57) || (65 <= c as u32 <= 90) || (97 <= c as u32 <= 122) || c
                    == '-' || c == '_' || c == '.'
            }),
{
}

/// A directory entry of the profiles directory, as read from disk.
pub struct ProfileEntry {
    /// The entry's file name, or `None` where it is not valid Unicode.
    pub name: Option<String>,
    pub is_dir: bool,
    /// Whether `auth.json` is a file inside the entry.
    pub has_auth: bool,
}

/// The on-disk configuration of the store.
#[derive(Clone, Debug, PartialEq, Eq)]
pub struct Config {
    pub schema_version: u32,
    pub default_profile: Option<String>,
}

/// The schema version that this store writes.
pub fn default_schema() -> (res: u32)
    ensures
        res == 3,
{
    3
}

impl Default for Config {
    fn default() -> (res: Self)
        ensures
            res.schema_version == 3,
            res.default_profile is None,
    {
        Config { schema_version: default_schema(), default_profile: None }
    }
}

fn clone_option_string(value: &Option<String>) -> (res: Option<String>)
    ensures
        res == *value,
{
    match value {
        Some(s) => Some(s.clone()),
        None => None,
    }
}

/// The configuration a store holds, given what is stored: `None` where no
/// configuration file exists, `Some(None)` where it does not parse.
pub open spec fn stored_config(stored: Option<Option<Config>>) -> Result<Config, Error> {
    match stored {
        None => Ok(Config { schema_version: 3, default_profile: None }),
        Some(None) => Err(Error::InvalidConfig),
        Some(Some(c)) => if c.schema_version == 2 || c.schema_version == 3 {
            Ok(c)
        } else {
            Err(Error::InvalidConfig)
        },
    }
}

/// The profile that a command selects: the named one, else the configured
/// default, else the only profile there is.
pub open spec fn selected_name(
    profiles: Seq<Profile>,
    default_name: Option<String>,
    name: Option<Seq<char>>,
) -> Option<Seq<char>> {
    match name {
        Some(n) => Some(n),
        None => match default_name {
            Some(d) => Some(d@),
            None => if profiles.len() == 1 {
                Some(profiles[0].name@)
            } else {
                None
            },
        },
    }
}

/// The first profile with the given name.
pub open spec fn first_named(profiles: Seq<Profile>, name: Seq<char>) -> Option<Profile>
    decreases profiles.len(),
{
    if profiles.len() == 0 {
        None
    } else if profiles[0].name@ == name {
        Some(profiles[0])
    } else {
        first_named(profiles.drop_first(), name)
    }
}

/// What `resolve` returns.
pub open spec fn resolution(
    profiles: Seq<Profile>,
    stored: Option<Option<Config>>,
    name: Option<Seq<char>>,
) -> Result<Profile, Error> {
    match stored_config(stored) {
        Err(e) => Err(e),
        Ok(config) => match selected_name(profiles, config.default_profile, name) {
            None => Err(Error::NoDefaultProfile),
            Some(selected) => match first_named(profiles, selected) {
                Some(p) => Ok(p),
                None => Err(Error::ProfileNotFound),
            },
        },
    }
}

/// `Some(s)` for `Some(&str)` by view.
pub open spec fn opt_view(name: Option<&str>) -> Option<Seq<char>> {
    match name {
        Some(n) => Some(n@),
        None => None,
    }
}

/// Insertion of `p` into a list sorted by name, after every profile whose
/// name is not greater.
pub open spec fn insert_by_name(sorted: Seq<Profile>, p: Profile) -> Seq<Profile>
    decreases sorted.len(),
{
    if sorted.len() == 0 {
        seq![p]
    } else if lex_lt(p.name@, sorted.last().name@) {
        insert_by_name(sorted.drop_last(), p).push(sorted.last())
    } else {
        sorted.push(p)
    }
}

/// Stable sort by name (`sort_by` on `name.cmp`).
pub open spec fn sort_by_name(profiles: Seq<Profile>) -> Seq<Profile>
    decreases profiles.len(),
{
    if profiles.len() == 0 {
        profiles
    } else {
        insert_by_name(sort_by_name(profiles.drop_last()), profiles.last())
    }
}

pub open spec fn sorted_by_name(profiles: Seq<Profile>) -> bool {
    forall|i: int, j: int|
        0 <= i < j < profiles.len() ==> !lex_lt(profiles[j].name@, profiles[i].name@)
}

/// The store root, the directory that holds `config.json` and `profiles/`.
#[derive(Clone, Debug)]
pub struct ProfileStore {
    root: String,
}

impl View for ProfileStore {
    type V = Seq<char>;

    closed spec fn view(&self) -> Seq<char> {
        self.root@
    }
}

/// The profiles directory of a store root.
pub open spec fn profiles_dir_of(root: Seq<char>) -> Seq<char> {
    path_join(root, "profiles"@)
}

/// Whether a directory entry is kept as a profile.
pub open spec fn kept_entry(e: ProfileEntry) -> bool {
    e.is_dir && match e.name {
        Some(name) => valid_profile_name(name@),
        None => false,
    }
}

/// `p` is the profile that entry `e` of the store at `root` stands for.
pub open spec fn profile_of_entry(root: Seq<char>, e: ProfileEntry, p: Profile) -> bool {
    &&& e.name == Some(p.name)
    &&& p.home@ == path_join(profiles_dir_of(root), p.name@)
    &&& p.authenticated == e.has_auth
}

/// `ps` holds, in listing order, one profile for each kept entry.
pub open spec fn listed_as(root: Seq<char>, entries: Seq<ProfileEntry>, ps: Seq<Profile>) -> bool
    decreases entries.len(),
{
    if entries.len() == 0 {
        ps.len() == 0
    } else if kept_entry(entries.last()) {
        &&& ps.len() > 0
        &&& listed_as(root, entries.drop_last(), ps.drop_last())
        &&& profile_of_entry(root, entries.last(), ps.last())
    } else {
        listed_as(root, entries.drop_last(), ps)
    }
}

pub proof fn lemma_insert_by_name_multiset(sorted: Seq<Profile>, p: Profile)
    ensures
        insert_by_name(sorted, p).to_multiset() =~= sorted.to_multiset().insert(p),
    decreases sorted.len(),
{
    broadcast use vstd::seq_lib::group_seq_properties;
    if sorted.len() > 0 && lex_lt(p.name@, sorted.last().name@) {
        lemma_insert_by_name_multiset(sorted.drop_last(), p);
        assert(sorted.drop_last().push(sorted.last()) == sorted);
    }
}

proof fn lemma_insert_by_name_sorted(sorted: Seq<Profile>, p: Profile)
    requires
        sorted_by_name(sorted),
    ensures
        sorted_by_name(insert_by_name(sorted, p)),
        insert_by_name(sorted, p).len() == sorted.len() + 1,
        forall|k: int|
            0 <= k < insert_by_name(sorted, p).len() ==> (#[trigger] insert_by_name(sorted, p)[k]
                == p || sorted.contains(insert_by_name(sorted, p)[k])),
    decreases sorted.len(),
{
    if sorted.len() > 0 {
        let last = sorted.last();
        if lex_lt(p.name@, last.name@) {
            let d = sorted.drop_last();
            lemma_insert_by_name_sorted(d, p);
            let r = insert_by_name(d, p);
            assert forall|k: int| 0 <= k < r.len() implies !lex_lt(
                last.name@,
                #[trigger] r[k].name@,
            ) by {
                if r[k] == p {
                    crate::text::lemma_lex_asymmetric(p.name@, last.name@);
                } else {
                    let m = choose|m: int| 0 <= m < d.len() && d[m] == r[k];
                    assert(sorted[m] == d[m]);
                }
            }
            assert forall|k: int| 0 <= k < r.push(last).len() implies (#[trigger] r.push(last)[k]
                == p || sorted.contains(r.push(last)[k])) by {
                if k < r.len() {
                    if r[k] != p {
                        let m = choose|m: int| 0 <= m < d.len() && d[m] == r[k];
                        assert(sorted[m] == d[m]);
                    }
                } else {
                    assert(sorted[sorted.len() - 1] == last);
                }
            }
        } else {
            assert forall|i: int| 0 <= i < sorted.len() implies !lex_lt(
                p.name@,
                #[trigger] sorted[i].name@,
            ) by {
                if i < sorted.len() - 1 {
                    assert(!lex_lt(last.name@, sorted[i].name@));
                    crate::text::lemma_lex_total(p.name@, last.name@);
                    crate::text::lemma_lex_total(sorted[i].name@, last.name@);
                    crate::text::lemma_lex_transitive(p.name@, sorted[i].name@, last.name@);
                    crate::text::lemma_lex_transitive(sorted[i].name@, last.name@, p.name@);
                    crate::text::lemma_lex_transitive(last.name@, p.name@, sorted[i].name@);
                    crate::text::lemma_lex_irreflexive(p.name@);
                    crate::text::lemma_lex_asymmetric(p.name@, sorted[i].name@);
                }
            }
            assert forall|k: int| 0 <= k < sorted.push(p).len() implies (
            #[trigger] sorted.push(p)[k] == p || sorted.contains(sorted.push(p)[k])) by {
                if k < sorted.len() {
                    assert(sorted.push(p)[k] == sorted[k]);
                }
            }
        }
    }
}

/// Sorting by name yields a list sorted by name with the same members.
pub proof fn lemma_sort_by_name(profiles: Seq<Profile>)
    ensures
        sorted_by_name(sort_by_name(profiles)),
        sort_by_name(profiles).to_multiset() =~= profiles.to_multiset(),
    decreases profiles.len(),
{
    broadcast use vstd::seq_lib::group_seq_properties;
    if profiles.len() > 0 {
        lemma_sort_by_name(profiles.drop_last());
        let s = sort_by_name(profiles.drop_last());
        lemma_insert_by_name_sorted(s, profiles.last());
        lemma_insert_by_name_multiset(s, profiles.last());
        assert(profiles.drop_last().push(profiles.last()) == profiles);
    }
}

/// Inserts `p` into `v`, which is sorted by name, after every profile whose
/// name is not greater.
fn insert_sorted_by_name(v: &mut Vec<Profile>, p: Profile)
    ensures
        final(v)@ == insert_by_name(old(v)@, p),
{
    let ghost initial = v@;
    let pname = chars_of(p.name.as_str());
    let mut j = v.len();
    assert(initial.subrange(0, j as int) == initial);
    assert(initial.subrange(j as int, initial.len() as int) == Seq::<Profile>::empty());
    while j > 0 && lex_less(pname.as_slice(), chars_of(v[j - 1].name.as_str()).as_slice())
        invariant
            j <= v.len(),
            v@ == initial,
            pname@ == p.name@,
            insert_by_name(initial, p) == insert_by_name(initial.subrange(0, j as int), p)
                + initial.subrange(j as int, initial.len() as int),
        decreases j,
    {
        proof {
            let pre = initial.subrange(0, j as int);
            assert(pre.drop_last() == initial.subrange(0, j - 1));
            assert(pre.last() == initial[j - 1]);
            assert(initial.subrange(j - 1, initial.len() as int) == seq![initial[j - 1]]
                + initial.subrange(j as int, initial.len() as int));
        }
        j = j - 1;
    }
    proof {
        let pre = initial.subrange(0, j as int);
        assert(insert_by_name(pre, p) == pre.push(p));
        assert(initial.insert(j as int, p) == pre.push(p) + initial.subrange(
            j as int,
            initial.len() as int,
        ));
    }
    v.insert(j, p);
}


/// A profile's home is the profiles directory, one separator, and the
/// profile's name: a valid name never escapes the profiles directory.
pub proof fn law_profile_home_stays_in_store(root: Seq<char>, name: Seq<char>)
    requires
        valid_profile_name(name),
    ensures
        path_join(profiles_dir_of(root), name) == profiles_dir_of(root) + seq!['/'] + name,
        forall|i: int| 0 <= i < name.len() ==> name[i] != '/',
{
    assert(!profile_name_char('/'));
    assert(!profile_name_char(name[0]) || name[0] != '/');
    let dir = profiles_dir_of(root);
    let lit = "profiles"@;
    reveal_strlit("profiles");
    assert(lit.len() == 8);
    assert(dir.last() == 's') by {
        if root.len() == 0 {
        } else if root.last() == '/' {
            assert((root + lit).last() == lit.last());
        } else {
            assert((root + seq!['/'] + lit).last() == lit.last());
        }
    }
}

/// Once `set_default` has made `name` the default, resolving with no name
/// gives what resolving `name` gave.
pub proof fn law_default_profile_resolves(
    profiles: Seq<Profile>,
    stored: Option<Option<Config>>,
    name: Seq<char>,
    written: Config,
)
    requires
        resolution(profiles, stored, Some(name)) is Ok,
        written.schema_version == 3,
        written.default_profile matches Some(d) && d@ == name,
    ensures
        resolution(profiles, Some(Some(written)), None) == resolution(profiles, stored, Some(name)),
{
}

/// No two entries carry the same name.
pub open spec fn distinct_entry_names(entries: Seq<ProfileEntry>) -> bool {
    forall|i: int, j: int|
        0 <= i < j < entries.len() && (#[trigger] entries[i]).name is Some && (
        #[trigger] entries[j]).name is Some ==> entries[i].name.unwrap()@ != entries[j].name.unwrap()@
}

/// Names strictly increase along `ps`.
pub open spec fn strictly_by_name(ps: Seq<Profile>) -> bool {
    forall|i: int, j: int| 0 <= i < j < ps.len() ==> lex_lt(ps[i].name@, ps[j].name@)
}

proof fn lemma_listed_names(root: Seq<char>, entries: Seq<ProfileEntry>, ps: Seq<Profile>)
    requires
        listed_as(root, entries, ps),
        distinct_entry_names(entries),
    ensures
        forall|k: int|
            0 <= k < ps.len() ==> exists|i: int|
                0 <= i < entries.len() && entries[i].name == Some((#[trigger] ps[k]).name),
        forall|a: int, b: int| 0 <= a < b < ps.len() ==> ps[a].name@ != ps[b].name@,
    decreases entries.len(),
{
    if entries.len() > 0 {
        let front = entries.drop_last();
        assert forall|i: int, j: int|
            0 <= i < j < front.len() && (#[trigger] front[i]).name is Some && (#[trigger] front[j]).name
                is Some implies front[i].name.unwrap()@ != front[j].name.unwrap()@ by {
            assert(front[i] == entries[i] && front[j] == entries[j]);
        }
        if kept_entry(entries.last()) {
            let rest = ps.drop_last();
            lemma_listed_names(root, front, rest);
            let e = entries.last();
            assert(entries[entries.len() - 1] == e);
            assert forall|k: int|
                0 <= k < ps.len() implies exists|i: int|
                    0 <= i < entries.len() && entries[i].name == Some((#[trigger] ps[k]).name) by {
                if k < rest.len() {
                    assert(ps[k] == rest[k]);
                    let i = choose|i: int| 0 <= i < front.len() && front[i].name == Some(rest[k].name);
                    assert(entries[i] == front[i]);
                } else {
                    assert(ps[k] == ps.last());
                }
            }
            assert forall|a: int, b: int| 0 <= a < b < ps.len() implies ps[a].name@ != ps[b].name@ by {
                if b < rest.len() {
                    assert(ps[a] == rest[a] && ps[b] == rest[b]);
                } else {
                    assert(ps[a] == rest[a]);
                    assert(ps[b] == ps.last());
                    let i = choose|i: int| 0 <= i < front.len() && front[i].name == Some(rest[a].name);
                    assert(entries[i] == front[i]);
                    assert(entries[i].name.unwrap()@ != entries[entries.len() - 1].name.unwrap()@);
                }
            }
        } else {
            lemma_listed_names(root, front, ps);
            assert forall|k: int|
                0 <= k < ps.len() implies exists|i: int|
                    0 <= i < entries.len() && entries[i].name == Some((#[trigger] ps[k]).name) by {
                let i = choose|i: int| 0 <= i < front.len() && front[i].name == Some(ps[k].name);
                assert(entries[i] == front[i]);
            }
        }
    }
}

proof fn lemma_insert_strictly(sorted: Seq<Profile>, p: Profile)
    requires
        strictly_by_name(sorted),
        forall|k: int| 0 <= k < sorted.len() ==> (#[trigger] sorted[k]).name@ != p.name@,
    ensures
        strictly_by_name(insert_by_name(sorted, p)),
    decreases sorted.len(),
{
    broadcast use vstd::seq_lib::group_seq_properties;
    if sorted.len() > 0 {
        let last = sorted.last();
        let d = sorted.drop_last();
        assert(sorted[sorted.len() - 1] == last);
        if lex_lt(p.name@, last.name@) {
            assert forall|a: int, b: int| 0 <= a < b < d.len() implies lex_lt(d[a].name@, d[b].name@) by {
                assert(d[a] == sorted[a] && d[b] == sorted[b]);
            }
            assert forall|k: int| 0 <= k < d.len() implies (#[trigger] d[k]).name@ != p.name@ by {
                assert(d[k] == sorted[k]);
            }
            lemma_insert_strictly(d, p);
            let r = insert_by_name(d, p);
            lemma_insert_by_name_multiset(d, p);
            assert forall|k: int| 0 <= k < r.len() implies lex_lt((#[trigger] r[k]).name@, last.name@) by {
                assert(r.to_multiset().count(r[k]) > 0);
                assert(d.to_multiset().insert(p).count(r[k]) > 0);
                if r[k] != p {
                    assert(d.to_multiset().count(r[k]) > 0);
                    assert(d.contains(r[k]));
                    let w = choose|w: int| 0 <= w < d.len() && d[w] == r[k];
                    assert(sorted[w] == d[w]);
                }
            }
            let out = r.push(last);
            assert forall|a: int, b: int| 0 <= a < b < out.len() implies lex_lt(out[a].name@, out[b].name@) by {
                if b < r.len() {
                    assert(out[a] == r[a] && out[b] == r[b]);
                } else {
                    assert(out[a] == r[a]);
                    assert(out[b] == last);
                }
            }
        } else {
            lemma_lex_total(p.name@, last.name@);
            assert(lex_lt(last.name@, p.name@));
            let out = sorted.push(p);
            assert forall|a: int, b: int| 0 <= a < b < out.len() implies lex_lt(out[a].name@, out[b].name@) by {
                if b < sorted.len() {
                    assert(out[a] == sorted[a] && out[b] == sorted[b]);
                } else {
                    assert(out[a] == sorted[a]);
                    if a < sorted.len() - 1 {
                        lemma_lex_transitive(sorted[a].name@, last.name@, p.name@);
                    }
                }
            }
        }
    }
}

proof fn lemma_sort_strictly(ps: Seq<Profile>)
    requires
        forall|a: int, b: int| 0 <= a < b < ps.len() ==> ps[a].name@ != ps[b].name@,
    ensures
        strictly_by_name(sort_by_name(ps)),
    decreases ps.len(),
{
    broadcast use vstd::seq_lib::group_seq_properties;
    if ps.len() > 0 {
        let front = ps.drop_last();
        let last = ps.last();
        assert forall|a: int, b: int| 0 <= a < b < front.len() implies front[a].name@ != front[b].name@ by {
            assert(front[a] == ps[a] && front[b] == ps[b]);
        }
        lemma_sort_strictly(front);
        let sf = sort_by_name(front);
        lemma_sort_by_name(front);
        assert forall|k: int| 0 <= k < sf.len() implies (#[trigger] sf[k]).name@ != last.name@ by {
            assert(sf.to_multiset().count(sf[k]) > 0);
            assert(front.to_multiset().count(sf[k]) > 0);
            assert(front.contains(sf[k]));
            let w = choose|w: int| 0 <= w < front.len() && front[w] == sf[k];
            assert(ps[w] == front[w]);
            assert(ps[ps.len() - 1] == last);
        }
        lemma_insert_strictly(sf, last);
    }
}

proof fn lemma_kept_listed(root: Seq<char>, entries: Seq<ProfileEntry>, ps: Seq<Profile>)
    requires
        listed_as(root, entries, ps),
    ensures
        forall|k: int|
            0 <= k < entries.len() && kept_entry(#[trigger] entries[k]) ==> exists|j: int|
                0 <= j < ps.len() && entries[k].name == Some(ps[j].name),
    decreases entries.len(),
{
    if entries.len() > 0 {
        let front = entries.drop_last();
        if kept_entry(entries.last()) {
            let rest = ps.drop_last();
            lemma_kept_listed(root, front, rest);
            assert forall|k: int| 0 <= k < entries.len() && kept_entry(#[trigger] entries[k]) implies exists|j: int|
                0 <= j < ps.len() && entries[k].name == Some(ps[j].name) by {
                if k < front.len() {
                    assert(entries[k] == front[k]);
                    let j = choose|j: int| 0 <= j < rest.len() && front[k].name == Some(rest[j].name);
                    assert(ps[j] == rest[j]);
                } else {
                    assert(entries[k] == entries.last());
                    assert(ps[ps.len() - 1] == ps.last());
                }
            }
        } else {
            lemma_kept_listed(root, front, ps);
            assert forall|k: int| 0 <= k < entries.len() && kept_entry(#[trigger] entries[k]) implies exists|j: int|
                0 <= j < ps.len() && entries[k].name == Some(ps[j].name) by {
                if k < front.len() {
                    assert(entries[k] == front[k]);
                } else {
                    assert(entries[k] == entries.last());
                }
            }
        }
    }
}

/// Every directory whose name is made of ASCII letters of either case,
/// digits, `-`, `_` and `.` (and is neither `.` nor `..`) is listed as a
/// profile of that name.
pub proof fn law_valid_directories_listed(root: Seq<char>, entries: Seq<ProfileEntry>, ps: Seq<Profile>)
    requires
        listed_as(root, entries, ps),
    ensures
        forall|k: int|
            0 <= k < entries.len() && (#[trigger] entries[k]).is_dir && entries[k].name is Some && ({
                let name = entries[k].name->0@;
                name.len() > 0 && name != seq!['.'] && name != seq!['.', '.'] && forall|i: int|
                    0 <= i < name.len() ==> {
                        let c = #[trigger] name[i];
                        (48 <= c as u32 <= 57) || (65 <= c as u32 <= 90) || (97 <= c as u32 <= 122)
                            || c == '-' || c == '_' || c == '.'
                    }
            }) ==> exists|j: int|
                0 <= j < sort_by_name(ps).len() && entries[k].name == Some(sort_by_name(ps)[j].name),
{
    broadcast use vstd::seq_lib::group_seq_properties;
    lemma_kept_listed(root, entries, ps);
    lemma_sort_by_name(ps);
    assert forall|k: int|
        0 <= k < entries.len() && (#[trigger] entries[k]).is_dir && entries[k].name is Some && ({
            let name = entries[k].name->0@;
            name.len() > 0 && name != seq!['.'] && name != seq!['.', '.'] && forall|i: int|
                0 <= i < name.len() ==> {
                    let c = #[trigger] name[i];
                    (48 <= c as u32 <= 57) || (65 <= c as u32 <= 90) || (97 <= c as u32 <= 122)
                        || c == '-' || c == '_' || c == '.'
                }
        }) implies exists|j: int|
            0 <= j < sort_by_name(ps).len() && entries[k].name == Some(sort_by_name(ps)[j].name) by {
        law_profile_name_chars(entries[k].name->0@);
        assert(kept_entry(entries[k]));
        let j = choose|j: int| 0 <= j < ps.len() && entries[k].name == Some(ps[j].name);
        let sorted = sort_by_name(ps);
        assert(ps.contains(ps[j]));
        assert(ps.to_multiset().count(ps[j]) > 0);
        assert(sorted.to_multiset().count(ps[j]) > 0);
        assert(sorted.contains(ps[j]));
        let t = choose|t: int| 0 <= t < sorted.len() && sorted[t] == ps[j];
        assert(entries[k].name == Some(sorted[t].name));
    }
}

/// Where the directory names are distinct, the listed profiles' names
/// strictly increase: each profile is listed once, in name order.
pub proof fn law_listed_names_increase(root: Seq<char>, entries: Seq<ProfileEntry>, ps: Seq<Profile>)
    requires
        listed_as(root, entries, ps),
        distinct_entry_names(entries),
    ensures
        strictly_by_name(sort_by_name(ps)),
{
    lemma_listed_names(root, entries, ps);
    lemma_sort_strictly(ps);
}

/// Without a name, a command uses the configured default profile; with no
/// default it uses the only profile there is, and with several (or none) it
/// fails with `NoDefaultProfile`. A store without a configuration file has
/// no default.
pub proof fn law_profile_without_name(profiles: Seq<Profile>, stored: Option<Option<Config>>)
    requires
        stored_config(stored) is Ok,
    ensures
        stored_config(stored)->Ok_0.default_profile matches Some(d) ==> resolution(
            profiles,
            stored,
            None,
        ) == match first_named(profiles, d@) {
            Some(p) => Ok::<Profile, Error>(p),
            None => Err::<Profile, Error>(Error::ProfileNotFound),
        },
        stored_config(stored)->Ok_0.default_profile is None && profiles.len() == 1 ==> resolution(
            profiles,
            stored,
            None,
        ) == Ok::<Profile, Error>(profiles[0]),
        stored_config(stored)->Ok_0.default_profile is None && profiles.len() != 1 ==> resolution(
            profiles,
            stored,
            None,
        ) == Err::<Profile, Error>(Error::NoDefaultProfile),
        stored is None ==> stored_config(stored)->Ok_0.default_profile is None,
{
}

/// The store root that the environment names: `AI_MONITOR_HOME`, else the
/// legacy `CHATGPT_STATUS_HOME`, else `.chatgpt-status` in the home
/// directory.
pub open spec fn store_root(
    primary: Option<Seq<char>>,
    legacy: Option<Seq<char>>,
    home: Option<Seq<char>>,
) -> Option<Seq<char>> {
    match primary {
        Some(p) => Some(p),
        None => match legacy {
            Some(l) => Some(l),
            None => match home {
                Some(h) => Some(path_join(h, ".chatgpt-status"@)),
                None => None,
            },
        },
    }
}

/// The Codex program: `AI_MONITOR_CODEX_BIN`, else the legacy
/// `CHATGPT_STATUS_CODEX_BIN`, else `codex` from the search path.
pub open spec fn codex_program(primary: Option<Seq<char>>, legacy: Option<Seq<char>>) -> Seq<char> {
    match primary {
        Some(p) => p,
        None => match legacy {
            Some(l) => l,
            None => "codex"@,
        },
    }
}

pub fn codex_binary(primary: Option<String>, legacy: Option<String>) -> (res: String)
    ensures
        res@ == codex_program(crate::paths::owned_view(primary), crate::paths::owned_view(legacy)),
{
    match primary {
        Some(p) => p,
        None => match legacy {
            Some(l) => l,
            None => String::from_str("codex"),
        },
    }
}

impl ProfileStore {
    /// The store that the environment's values name, given the two
    /// variables and the home directory; without any of them the store
    /// cannot be found.
    pub fn from_locations(
        primary: Option<String>,
        legacy: Option<String>,
        home: Option<String>,
    ) -> (res: Result<ProfileStore, Error>)
        ensures
            match store_root(
                crate::paths::owned_view(primary),
                crate::paths::owned_view(legacy),
                crate::paths::owned_view(home),
            ) {
                Some(r) => res matches Ok(s) && s@ == r,
                None => res matches Err(Error::HomeUnavailable),
            },
    {
        match primary {
            Some(p) => Ok(ProfileStore { root: p }),
            None => match legacy {
                Some(l) => Ok(ProfileStore { root: l }),
                None => match home {
                    Some(h) => Ok(ProfileStore { root: join_path(h.as_str(), ".chatgpt-status") }),
                    None => Err(Error::HomeUnavailable),
                },
            },
        }
    }

    /// A store rooted at `root`.
    pub fn new(root: String) -> (res: ProfileStore)
        ensures
            res@ == root@,
    {
        ProfileStore { root }
    }

    /// The store root.
    pub fn root(&self) -> (res: &str)
        ensures
            res@ == self@,
    {
        self.root.as_str()
    }

    /// `<root>/profiles`.
    pub fn profiles_dir(&self) -> (res: String)
        ensures
            res@ == profiles_dir_of(self@),
    {
        join_path(self.root.as_str(), "profiles")
    }

    /// `<root>/profiles/<name>`, the `CODEX_HOME` of profile `name`.
    pub fn profile_home(&self, name: &str) -> (res: String)
        ensures
            res@ == path_join(profiles_dir_of(self@), name@),
    {
        let dir = self.profiles_dir();
        join_path(dir.as_str(), name)
    }

    /// `<root>/config.json`.
    pub fn config_file(&self) -> (res: String)
        ensures
            res@ == path_join(self@, "config.json"@),
    {
        join_path(self.root.as_str(), "config.json")
    }

    /// `<root>/.config.json.tmp`, written first and then renamed over the
    /// configuration file.
    pub fn temporary_config_file(&self) -> (res: String)
        ensures
            res@ == path_join(self@, ".config.json.tmp"@),
    {
        join_path(self.root.as_str(), ".config.json.tmp")
    }

    /// The profiles that a listing of the profiles directory holds: the
    /// directories with a valid name, sorted by name.
    pub fn profiles_from_entries(&self, entries: &Vec<ProfileEntry>) -> (res: Vec<Profile>)
        ensures
            exists|ps: Seq<Profile>|
                #![trigger sort_by_name(ps)]
                listed_as(self@, entries@, ps) && res@ == sort_by_name(ps),
            forall|k: int|
                0 <= k < entries@.len() && (#[trigger] entries@[k]).is_dir && entries@[k].name is Some
                    && ({
                    let name = entries@[k].name->0@;
                    name.len() > 0 && name != seq!['.'] && name != seq!['.', '.'] && forall|i: int|
                        0 <= i < name.len() ==> {
                            let c = #[trigger] name[i];
                            (48 <= c as u32 <= 57) || (65 <= c as u32 <= 90) || (97 <= c as u32
                                <= 122) || c == '-' || c == '_' || c == '.'
                        }
                }) ==> exists|j: int| 0 <= j < res@.len() && entries@[k].name == Some(res@[j].name),
    {
        let mut res: Vec<Profile> = Vec::new();
        let ghost mut ps: Seq<Profile> = Seq::empty();
        let mut i: usize = 0;
        proof {
            assert(entries@.take(0) == Seq::<ProfileEntry>::empty());
        }
        while i < entries.len()
            invariant
                i <= entries.len(),
                listed_as(self@, entries@.take(i as int), ps),
                res@ == sort_by_name(ps),
            decreases entries.len() - i,
        {
            let e = &entries[i];
            proof {
                assert(entries@.take(i + 1).drop_last() == entries@.take(i as int));
                assert(entries@.take(i + 1).last() == entries@[i as int]);
            }
            if e.is_dir {
                match &e.name {
                    Some(name) => {
                        if validate_profile_name(name.as_str()).is_ok() {
                            let home = self.profile_home(name.as_str());
                            let p = Profile {
                                name: name.clone(),
                                home,
                                authenticated: e.has_auth,
                            };
                            proof {
                                assert(ps.push(p).drop_last() == ps);
                                assert(ps.push(p).last() == p);
                                ps = ps.push(p);
                            }
                            insert_sorted_by_name(&mut res, p);
                        }
                    },
                    None => {},
                }
            }
            i = i + 1;
        }
        proof {
            assert(entries@.take(entries.len() as int) == entries@);
            law_valid_directories_listed(self@, entries@, ps);
        }
        res
    }

    /// The configuration the store holds.
    pub fn load_config(&self, stored: Option<Option<Config>>) -> (res: Result<Config, Error>)
        ensures
            res == stored_config(stored),
    {
        match stored {
            None => Ok(Config::default()),
            Some(None) => Err(Error::InvalidConfig),
            Some(Some(c)) => if c.schema_version == 2 || c.schema_version == 3 {
                Ok(c)
            } else {
                Err(Error::InvalidConfig)
            },
        }
    }

    /// The configured default profile.
    pub fn default_name(&self, stored: Option<Option<Config>>) -> (res: Result<Option<String>, Error>)
        ensures
            match stored_config(stored) {
                Ok(c) => res == Ok::<Option<String>, Error>(c.default_profile),
                Err(e) => res == Err::<Option<String>, Error>(e),
            },
    {
        match self.load_config(stored) {
            Ok(c) => Ok(c.default_profile),
            Err(e) => Err(e),
        }
    }

    /// The profile a command uses: `name` if given, else the configured
    /// default, else the only profile; it must be among `profiles`.
    pub fn resolve(
        &self,
        profiles: &Vec<Profile>,
        stored: Option<Option<Config>>,
        name: Option<&str>,
    ) -> (res: Result<Profile, Error>)
        ensures
            res == resolution(profiles@, stored, opt_view(name)),
    {
        let default_name = match self.default_name(stored) {
            Ok(d) => d,
            Err(e) => return Err(e),
        };
        let selected: String = match name {
            Some(n) => String::from_str(n),
            None => match default_name {
                Some(d) => d,
                None => {
                    if profiles.len() == 1 {
                        profiles[0].name.clone()
                    } else {
                        return Err(Error::NoDefaultProfile);
                    }
                },
            },
        };
        let mut i: usize = 0;
        proof {
            assert(profiles@.skip(0) == profiles@);
        }
        while i < profiles.len()
            invariant
                i <= profiles.len(),
                stored_config(stored) is Ok,
                selected_name(profiles@, stored_config(stored)->Ok_0.default_profile, opt_view(name))
                    == Some(selected@),
                first_named(profiles@, selected@) == first_named(
                    profiles@.skip(i as int),
                    selected@,
                ),
            decreases profiles.len() - i,
        {
            if profiles[i].name == selected {
                assert(profiles@.skip(i as int)[0] == profiles@[i as int]);
                assert(first_named(profiles@.skip(i as int), selected@) == Some(profiles@[i as int]));
                let r = profiles[i].duplicate();
                assert(r == profiles@[i as int]);
                return Ok(r);
            }
            assert(profiles@.skip(i as int).drop_first() == profiles@.skip(i + 1));
            i = i + 1;
        }
        Err(Error::ProfileNotFound)
    }

    /// The configuration that makes `name` the default profile; `name` must
    /// resolve among `profiles`.
    pub fn set_default(
        &self,
        profiles: &Vec<Profile>,
        stored: Option<Option<Config>>,
        name: &str,
    ) -> (res: Result<Config, Error>)
        ensures
            match resolution(profiles@, stored, Some(name@)) {
                Ok(_) => (res matches Ok(c) && c.schema_version == 3 && (c.default_profile matches Some(
                    d,
                ) && d@ == name@)),
                Err(e) => res == Err::<Config, Error>(e),
            },
    {
        match self.resolve(profiles, stored, Some(name)) {
            Ok(_) => Ok(Config { schema_version: 3, default_profile: Some(String::from_str(name)) }),
            Err(e) => Err(e),
        }
    }
}

/// Whether `codex login` may run for `profile`: an authenticated profile is
/// logged in again only with `force`.
pub fn check_login(profile: &Profile, force: bool) -> (res: Result<(), Error>)
    ensures
        (profile.authenticated && !force) ==> (res matches Err(Error::AlreadyAuthenticated {
            profile: p,
        }) && p == profile.name),
        !(profile.authenticated && !force) ==> res is Ok,
{
    if profile.authenticated && !force {
        Err(Error::AlreadyAuthenticated { profile: profile.name.clone() })
    } else {
        Ok(())
    }
}

/// The account a Codex profile is signed in with.
#[derive(Clone, Debug)]
pub struct Account {
    pub email: Option<String>,
    pub plan_type: Option<String>,
}

impl Default for Account {
    fn default() -> (res: Self)
        ensures
            res.email is None,
            res.plan_type is None,
    {
        Account { email: None, plan_type: None }
    }
}

} // verus!
