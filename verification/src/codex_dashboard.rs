//! Labels of the Codex usage dashboard: rate-limit buckets, windows and plans.
use vstd::prelude::*;

use crate::text::{
    ascii_lowercase, ascii_uppercase, chars_eq, chars_of, collapse_whitespace,
    collapse_whitespace_chars, contains, contains_chars, copy_range, decimal, decimal_chars,
    extend_chars, is_ascii_lower, join, join_words, lowercase, split_words, string_from_chars,
    trim, trim_chars, upper_char, uppercase, views_of, words, Separator,
};

verus! {

/// `'_'` and `'-'` become spaces.
pub open spec fn dashes_to_spaces(s: Seq<char>) -> Seq<char> {
    s.map_values(|c: char| if c == '_' || c == '-' { ' ' } else { c })
}

fn dashes_to_spaces_chars(cs: &[char]) -> (res: Vec<char>)
    ensures
        res@ == dashes_to_spaces(cs@),
{
    let mut res: Vec<char> = Vec::new();
    let mut i: usize = 0;
    while i < cs.len()
        invariant
            i <= cs.len(),
            res@ == dashes_to_spaces(cs@.take(i as int)),
        decreases cs.len() - i,
    {
        let c = cs[i];
        let d = if c == '_' || c == '-' {
            ' '
        } else {
            c
        };
        res.push(d);
        assert(dashes_to_spaces(cs@.take(i + 1)) == dashes_to_spaces(cs@.take(i as int)).push(d));
        i = i + 1;
    }
    assert(cs@.take(cs.len() as int) == cs@);
    res
}

/// A limit id made readable: `_` and `-` become spaces, runs of white space
/// become one space, none at the ends.
pub open spec fn humanized(value: Seq<char>) -> Seq<char> {
    collapse_whitespace(dashes_to_spaces(value))
}

fn humanize_chars(value: &[char]) -> (res: Vec<char>)
    ensures
        res@ == humanized(value@),
{
    let spaced = dashes_to_spaces_chars(value);
    collapse_whitespace_chars(spaced.as_slice())
}

/// A limit id made readable.
pub fn humanize_limit_id(value: &str) -> (res: String)
    ensures
        res@ == humanized(value@),
{
    let cs = chars_of(value);
    let h = humanize_chars(cs.as_slice());
    string_from_chars(h.as_slice())
}

/// At most the first `n` characters.
pub open spec fn prefix_of_len(s: Seq<char>, n: nat) -> Seq<char> {
    if s.len() <= n {
        s
    } else {
        s.take(n as int)
    }
}

/// The short label of an additional rate-limit bucket.
pub open spec fn bucket_label(limit_id: Seq<char>, limit_name: Option<Seq<char>>) -> Seq<char> {
    let candidate = match limit_name {
        Some(n) => n,
        None => limit_id,
    };
    let candidate_lower = lowercase(candidate);
    let id_lower = lowercase(limit_id);
    if contains(candidate_lower, "spark"@) || contains(id_lower, "bengalfox"@) {
        "Spark"@
    } else if contains(candidate_lower, "reserve"@) || id_lower == "base_model_inference"@ {
        "Reserve"@
    } else {
        prefix_of_len(humanized(candidate), 10)
    }
}

/// The short label of an additional rate-limit bucket: `Spark` and `Reserve`
/// for the known products, else the readable name cut to ten characters.
pub fn additional_bucket_label_with_name(limit_id: &str, limit_name: Option<&str>) -> (res: String)
    ensures
        res@ == bucket_label(limit_id@, crate::codex::opt_view(limit_name)),
{
    let id = chars_of(limit_id);
    let candidate = match limit_name {
        Some(n) => chars_of(n),
        None => chars_of(limit_id),
    };
    let candidate_lower = ascii_lowercase(candidate.as_slice());
    let id_lower = ascii_lowercase(id.as_slice());
    let spark = chars_of("spark");
    let bengalfox = chars_of("bengalfox");
    if contains_chars(candidate_lower.as_slice(), spark.as_slice()) || contains_chars(
        id_lower.as_slice(),
        bengalfox.as_slice(),
    ) {
        return String::from_str("Spark");
    }
    let reserve = chars_of("reserve");
    let base = chars_of("base_model_inference");
    if contains_chars(candidate_lower.as_slice(), reserve.as_slice()) || chars_eq(
        id_lower.as_slice(),
        base.as_slice(),
    ) {
        return String::from_str("Reserve");
    }
    let compact = humanize_chars(candidate.as_slice());
    if compact.len() <= 10 {
        string_from_chars(compact.as_slice())
    } else {
        let cut = copy_range(compact.as_slice(), 0, 10);
        assert(compact@.subrange(0, 10) == compact@.take(10));
        string_from_chars(cut.as_slice())
    }
}

/// The compact suffix of a window of `minutes` minutes: `5h`, `W`, or a count
/// of days, hours or minutes.
pub open spec fn minutes_suffix(minutes: u64) -> Seq<char> {
    if minutes == 300 {
        "5h"@
    } else if minutes == 10080 {
        "W"@
    } else if minutes % 1440 == 0 {
        decimal((minutes / 1440) as nat) + "d"@
    } else if minutes % 60 == 0 {
        decimal((minutes / 60) as nat) + "h"@
    } else {
        decimal(minutes as nat) + "m"@
    }
}

fn minutes_suffix_chars(minutes: u64) -> (res: Vec<char>)
    ensures
        res@ == minutes_suffix(minutes),
{
    if minutes == 300 {
        chars_of("5h")
    } else if minutes == 10080 {
        chars_of("W")
    } else if minutes % 1440 == 0 {
        let mut out = decimal_chars(minutes / 1440);
        let unit = chars_of("d");
        extend_chars(&mut out, unit.as_slice());
        out
    } else if minutes % 60 == 0 {
        let mut out = decimal_chars(minutes / 60);
        let unit = chars_of("h");
        extend_chars(&mut out, unit.as_slice());
        out
    } else {
        let mut out = decimal_chars(minutes);
        let unit = chars_of("m");
        extend_chars(&mut out, unit.as_slice());
        out
    }
}

/// The window label of an additional bucket.
pub open spec fn window_label(base: Seq<char>, minutes: Option<u64>, slot: Seq<char>) -> Seq<char> {
    let suffix = match minutes {
        Some(m) => minutes_suffix(m),
        None => if slot == "primary"@ {
            "P"@
        } else {
            "S"@
        },
    };
    base + seq![' '] + suffix
}

/// `<base> <suffix>`, the suffix naming the window length, or `P`/`S` for a
/// primary/secondary window of unknown length.
pub fn additional_window_label(base: &str, minutes: Option<u64>, slot: &str) -> (res: String)
    ensures
        res@ == window_label(base@, minutes, slot@),
{
    let suffix = match minutes {
        Some(m) => minutes_suffix_chars(m),
        None => {
            let s = chars_of(slot);
            let primary = chars_of("primary");
            if chars_eq(s.as_slice(), primary.as_slice()) {
                chars_of("P")
            } else {
                chars_of("S")
            }
        },
    };
    let mut out = chars_of(base);
    out.push(' ');
    extend_chars(&mut out, suffix.as_slice());
    string_from_chars(out.as_slice())
}

/// The compact window label of a limit: the suffix of its source window, or
/// its name where that is unknown.
pub open spec fn compact_window(source_window_minutes: Option<u64>, name: Seq<char>) -> Seq<char> {
    match source_window_minutes {
        Some(m) => minutes_suffix(m),
        None => name,
    }
}

pub fn compact_window_label(source_window_minutes: Option<u64>, name: &str) -> (res: String)
    ensures
        res@ == compact_window(source_window_minutes, name@),
{
    match source_window_minutes {
        Some(m) => {
            let s = minutes_suffix_chars(m);
            string_from_chars(s.as_slice())
        },
        None => String::from_str(name),
    }
}

/// The long label of a window length.
pub open spec fn duration_text(minutes: u64) -> Seq<char> {
    if minutes == 300 {
        "5 hour"@
    } else if minutes == 10080 {
        "Weekly"@
    } else if minutes % 1440 == 0 {
        decimal((minutes / 1440) as nat) + " day"@
    } else if minutes % 60 == 0 {
        decimal((minutes / 60) as nat) + " hour"@
    } else {
        decimal(minutes as nat) + " min"@
    }
}

/// `5 hour`, `Weekly`, or a count of days, hours or minutes.
pub fn duration_label(minutes: u64) -> (res: String)
    ensures
        res@ == duration_text(minutes),
{
    if minutes == 300 {
        return String::from_str("5 hour");
    }
    if minutes == 10080 {
        return String::from_str("Weekly");
    }
    let (count, unit) = if minutes % 1440 == 0 {
        (minutes / 1440, chars_of(" day"))
    } else if minutes % 60 == 0 {
        (minutes / 60, chars_of(" hour"))
    } else {
        (minutes, chars_of(" min"))
    };
    let mut out = decimal_chars(count);
    extend_chars(&mut out, unit.as_slice());
    string_from_chars(out.as_slice())
}

/// The label of a window on an account card. A window of an additional
/// bucket (one with a limit id) is labelled by its source window's length,
/// or by its name where that is unknown; a standard window (no limit id) is
/// labelled by the standard windows' own labelling, and gets `None` here.
pub fn limit_window_label_v2(
    limit_id: Option<&str>,
    source_window_minutes: Option<u64>,
    name: &str,
) -> (res: Option<String>)
    ensures
        match limit_id {
            None => res is None,
            Some(_) => res matches Some(l) && l@ == match source_window_minutes {
                Some(m) => duration_text(m),
                None => name@,
            },
        },
{
    match limit_id {
        None => None,
        Some(_) => match source_window_minutes {
            Some(m) => Some(duration_label(m)),
            None => Some(String::from_str(name)),
        },
    }
}

/// The product group a rate limit belongs to.
pub open spec fn group_label(
    limit_id: Option<Seq<char>>,
    limit_name: Option<Seq<char>>,
    name: Seq<char>,
) -> Seq<char> {
    match limit_id {
        None => "STANDARD"@,
        Some(limit_id) => {
            let id = lowercase(limit_id);
            let shown = lowercase(
                match limit_name {
                    Some(n) => n,
                    None => name,
                },
            );
            if id == "base_model_inference"@ || contains(id, "reserve"@) || contains(
                shown,
                "reserve"@,
            ) {
                "LUNA RESERVE"@
            } else if contains(id, "bengalfox"@) || contains(id, "spark"@) || contains(
                shown,
                "spark"@,
            ) {
                "SPARK"@
            } else {
                uppercase(
                    humanized(
                        match limit_name {
                            Some(n) => n,
                            None => limit_id,
                        },
                    ),
                )
            }
        },
    }
}

/// `STANDARD` for the standard limits, `LUNA RESERVE` and `SPARK` for the
/// known products, else the readable bucket name in capitals.
pub fn limit_group_label(limit_id: Option<&str>, limit_name: Option<&str>, name: &str) -> (res:
    String)
    ensures
        res@ == group_label(
            crate::codex::opt_view(limit_id),
            crate::codex::opt_view(limit_name),
            name@,
        ),
{
    let limit_id = match limit_id {
        None => return String::from_str("STANDARD"),
        Some(l) => l,
    };
    let raw_id = chars_of(limit_id);
    let id = ascii_lowercase(raw_id.as_slice());
    let shown_raw = match limit_name {
        Some(n) => chars_of(n),
        None => chars_of(name),
    };
    let shown = ascii_lowercase(shown_raw.as_slice());
    let base = chars_of("base_model_inference");
    let reserve = chars_of("reserve");
    if chars_eq(id.as_slice(), base.as_slice()) || contains_chars(id.as_slice(), reserve.as_slice())
        || contains_chars(shown.as_slice(), reserve.as_slice()) {
        return String::from_str("LUNA RESERVE");
    }
    let bengalfox = chars_of("bengalfox");
    let spark = chars_of("spark");
    if contains_chars(id.as_slice(), bengalfox.as_slice()) || contains_chars(
        id.as_slice(),
        spark.as_slice(),
    ) || contains_chars(shown.as_slice(), spark.as_slice()) {
        return String::from_str("SPARK");
    }
    let source = match limit_name {
        Some(n) => chars_of(n),
        None => raw_id,
    };
    let h = humanize_chars(source.as_slice());
    let up = ascii_uppercase(h.as_slice());
    string_from_chars(up.as_slice())
}

/// The short form of a group label.
pub open spec fn compact_group(group: Seq<char>) -> Seq<char> {
    if group == "LUNA RESERVE"@ {
        "Reserve"@
    } else if group == "SPARK"@ {
        "Spark"@
    } else {
        group
    }
}

pub fn compact_group_label(group: &str) -> (res: String)
    ensures
        res@ == compact_group(group@),
{
    let g = chars_of(group);
    let luna = chars_of("LUNA RESERVE");
    let spark = chars_of("SPARK");
    if chars_eq(g.as_slice(), luna.as_slice()) {
        String::from_str("Reserve")
    } else if chars_eq(g.as_slice(), spark.as_slice()) {
        String::from_str("Spark")
    } else {
        String::from_str(group)
    }
}

// ---------------------------------------------------------------------------
// Plan names
// ---------------------------------------------------------------------------

/// What `char::to_uppercase` yields for `c`.
pub uninterp spec fn unicode_uppercase(c: char) -> Seq<char>;

/// `char::to_uppercase`, collected into a string. Of ASCII characters it
/// promises what `to_ascii_uppercase` gives; of other characters only that the
/// result is the named function of the character.
#[verifier::external_body]
fn char_to_uppercase(c: char) -> (res: String)
    ensures
        res@ == unicode_uppercase(c),
        (c as u32) < 128 ==> res@ == seq![upper_char(c)],
{
    c.to_uppercase().collect::<String>()
}

/// A character in upper case: `to_ascii_uppercase` for an ASCII character,
/// else what `char::to_uppercase` yields.
pub open spec fn uppercase_of(c: char) -> Seq<char> {
    if (c as u32) < 128 {
        seq![upper_char(c)]
    } else {
        unicode_uppercase(c)
    }
}

/// A plan part with its first character in upper case.
pub open spec fn capitalized(part: Seq<char>) -> Seq<char> {
    if part.len() == 0 {
        part
    } else {
        uppercase_of(part[0]) + part.drop_first()
    }
}

pub open spec fn capitalize_all(parts: Seq<Seq<char>>) -> Seq<Seq<char>> {
    parts.map_values(|p: Seq<char>| capitalized(p))
}

/// The display name of a Codex plan type.
pub open spec fn plan_display(plan_type: Option<Seq<char>>) -> Seq<char> {
    match plan_type {
        None => "N/A"@,
        Some(raw) => {
            let t = trim(raw);
            if t.len() == 0 {
                "N/A"@
            } else {
                let l = lowercase(t);
                if l == "free"@ {
                    "Free"@
                } else if l == "plus"@ {
                    "Plus"@
                } else if l == "pro"@ {
                    "Pro 20x"@
                } else if l == "prolite"@ {
                    "Pro 5x"@
                } else if l == "team"@ {
                    "Team"@
                } else if l == "business"@ {
                    "Business"@
                } else if l == "enterprise"@ {
                    "Enterprise"@
                } else if l == "edu"@ {
                    "Edu"@
                } else {
                    join(capitalize_all(words(l, Separator::DashOrUnderscore)), seq![' '])
                }
            }
        },
    }
}

fn is_word(l: &[char], word: &str) -> (res: bool)
    ensures
        res == (l@ == word@),
{
    let w = chars_of(word);
    chars_eq(l, w.as_slice())
}

fn capitalize_chars(part: &Vec<char>) -> (res: Vec<char>)
    ensures
        res@ == capitalized(part@),
{
    if part.len() == 0 {
        return Vec::new();
    }
    let head = char_to_uppercase(part[0]);
    let mut out = chars_of(head.as_str());
    let rest = copy_range(part.as_slice(), 1, part.len());
    extend_chars(&mut out, rest.as_slice());
    assert(part@.subrange(1, part@.len() as int) == part@.drop_first());
    out
}

/// `Free`, `Plus`, `Pro 20x`, `Pro 5x` and the other known plans; an unknown
/// plan type is split at `-` and `_` into capitalised words; `N/A` where there
/// is no plan type.
pub fn format_codex_plan_name(plan_type: Option<&str>) -> (res: String)
    ensures
        res@ == plan_display(crate::codex::opt_view(plan_type)),
        plan_type is None ==> res@ == "N/A"@,
        plan_type matches Some(r) && trim(r@).len() == 0 ==> res@ == "N/A"@,
        plan_type matches Some(r) && lowercase(trim(r@)) == "free"@ ==> res@ == "Free"@,
        plan_type matches Some(r) && lowercase(trim(r@)) == "plus"@ ==> res@ == "Plus"@,
        plan_type matches Some(r) && lowercase(trim(r@)) == "pro"@ ==> res@ == "Pro 20x"@,
        plan_type matches Some(r) && lowercase(trim(r@)) == "prolite"@ ==> res@ == "Pro 5x"@,
        plan_type matches Some(r) && lowercase(trim(r@)) == "team"@ ==> res@ == "Team"@,
        plan_type matches Some(r) && lowercase(trim(r@)) == "business"@ ==> res@ == "Business"@,
        plan_type matches Some(r) && lowercase(trim(r@)) == "enterprise"@ ==> res@ == "Enterprise"@,
        plan_type matches Some(r) && lowercase(trim(r@)) == "edu"@ ==> res@ == "Edu"@,
        plan_type matches Some(r) && trim(r@).len() > 0 && (forall|i: int|
            0 <= i < r@.len() ==> (#[trigger] r@[i] as u32) < 128) ==> res@ != "N/A"@,
{
    proof {
        if let Some(r) = plan_type {
            law_plan_display(r@);
        }
        law_plan_display(Seq::empty());
    }
    let raw = match plan_type {
        None => return String::from_str("N/A"),
        Some(r) => chars_of(r),
    };
    let t = trim_chars(raw.as_slice());
    if t.len() == 0 {
        return String::from_str("N/A");
    }
    let l = ascii_lowercase(t.as_slice());
    if is_word(l.as_slice(), "free") {
        return String::from_str("Free");
    }
    if is_word(l.as_slice(), "plus") {
        return String::from_str("Plus");
    }
    if is_word(l.as_slice(), "pro") {
        return String::from_str("Pro 20x");
    }
    if is_word(l.as_slice(), "prolite") {
        return String::from_str("Pro 5x");
    }
    if is_word(l.as_slice(), "team") {
        return String::from_str("Team");
    }
    if is_word(l.as_slice(), "business") {
        return String::from_str("Business");
    }
    if is_word(l.as_slice(), "enterprise") {
        return String::from_str("Enterprise");
    }
    if is_word(l.as_slice(), "edu") {
        return String::from_str("Edu");
    }
    let parts = split_words(l.as_slice(), Separator::DashOrUnderscore);
    let mut caps: Vec<Vec<char>> = Vec::new();
    let mut i: usize = 0;
    while i < parts.len()
        invariant
            i <= parts.len(),
            views_of(caps@) == capitalize_all(views_of(parts@).take(i as int)),
        decreases parts.len() - i,
    {
        let c = capitalize_chars(&parts[i]);
        let ghost before = views_of(caps@);
        caps.push(c);
        proof {
            assert(views_of(caps@) == before.push(c@));
            assert(views_of(parts@).take(i + 1) == views_of(parts@).take(i as int).push(
                parts@[i as int]@,
            ));
            assert(capitalize_all(views_of(parts@).take(i + 1)) == capitalize_all(
                views_of(parts@).take(i as int),
            ).push(capitalized(parts@[i as int]@)));
        }
        i = i + 1;
    }
    proof {
        assert(views_of(parts@).take(parts.len() as int) == views_of(parts@));
    }
    let joined = join_words(&caps, ' ');
    string_from_chars(joined.as_slice())
}

// ---------------------------------------------------------------------------
// What plan names can come out
// ---------------------------------------------------------------------------

/// Every character is ASCII.
pub open spec fn all_ascii(s: Seq<char>) -> bool {
    forall|i: int| 0 <= i < s.len() ==> (#[trigger] s[i] as u32) < 128
}

/// Every character is ASCII and none is an upper-case letter.
pub open spec fn ascii_lower_text(s: Seq<char>) -> bool {
    forall|i: int| 0 <= i < s.len() ==> (#[trigger] s[i] as u32) < 128 && !crate::text::is_ascii_upper(s[i])
}

/// An upper-case ASCII letter stands only first or right after a space.
pub open spec fn capitals_start_words(s: Seq<char>) -> bool {
    forall|i: int| 0 < i < s.len() && crate::text::is_ascii_upper(#[trigger] s[i]) ==> s[i - 1] == ' '
}

proof fn lemma_trim_ascii(s: Seq<char>)
    requires
        all_ascii(s),
    ensures
        all_ascii(trim(s)),
{
    lemma_trim_start_ascii(s);
    lemma_trim_end_ascii(crate::text::trim_start(s));
}

proof fn lemma_trim_start_ascii(s: Seq<char>)
    requires
        all_ascii(s),
    ensures
        all_ascii(crate::text::trim_start(s)),
    decreases s.len(),
{
    if s.len() > 0 && crate::text::is_space(s[0]) {
        let r = s.drop_first();
        assert forall|i: int| 0 <= i < r.len() implies (#[trigger] r[i] as u32) < 128 by {
            assert(r[i] == s[i + 1]);
        }
        lemma_trim_start_ascii(r);
    }
}

proof fn lemma_trim_end_ascii(s: Seq<char>)
    requires
        all_ascii(s),
    ensures
        all_ascii(crate::text::trim_end(s)),
    decreases s.len(),
{
    if s.len() > 0 && crate::text::is_space(s.last()) {
        let r = s.drop_last();
        assert forall|i: int| 0 <= i < r.len() implies (#[trigger] r[i] as u32) < 128 by {
            assert(r[i] == s[i]);
        }
        lemma_trim_end_ascii(r);
    }
}

proof fn lemma_lowercase_ascii(s: Seq<char>)
    requires
        all_ascii(s),
    ensures
        ascii_lower_text(lowercase(s)),
{
    assert forall|i: int| 0 <= i < lowercase(s).len() implies (#[trigger] lowercase(s)[i] as u32) < 128
        && !crate::text::is_ascii_upper(lowercase(s)[i]) by {
        let c = s[i];
        assert((c as u32) < 128);
        if crate::text::is_ascii_upper(c) {
            let d = ((c as u32) + 32) as char;
            assert(d as u32 == (c as u32) + 32);
        }
    }
}

proof fn lemma_pieces_lower(s: Seq<char>, kind: Separator)
    requires
        ascii_lower_text(s),
    ensures
        forall|k: int| 0 <= k < crate::text::pieces(s, kind).len() ==> ascii_lower_text(
            #[trigger] crate::text::pieces(s, kind)[k],
        ),
    decreases s.len(),
{
    if s.len() > 0 {
        let r = s.drop_last();
        assert forall|i: int| 0 <= i < r.len() implies (#[trigger] r[i] as u32) < 128
            && !crate::text::is_ascii_upper(r[i]) by {
            assert(r[i] == s[i]);
        }
        lemma_pieces_lower(r, kind);
        crate::text::lemma_pieces_not_empty(r, kind);
        let p = crate::text::pieces(r, kind);
        let c = s.last();
        assert((c as u32) < 128 && !crate::text::is_ascii_upper(c)) by {
            assert(c == s[s.len() - 1]);
        }
        if !crate::text::is_separator(kind, c) {
            let grown = p.last().push(c);
            assert(ascii_lower_text(p[p.len() - 1]));
            assert forall|i: int| 0 <= i < grown.len() implies (#[trigger] grown[i] as u32) < 128
                && !crate::text::is_ascii_upper(grown[i]) by {
                if i < p.last().len() {
                    assert(grown[i] == p.last()[i]);
                }
            }
            let q = p.update(p.len() - 1, grown);
            assert forall|k: int| 0 <= k < q.len() implies ascii_lower_text(#[trigger] q[k]) by {
                if k < p.len() - 1 {
                    assert(q[k] == p[k]);
                }
            }
        } else {
            let q = p.push(Seq::<char>::empty());
            assert forall|k: int| 0 <= k < q.len() implies ascii_lower_text(#[trigger] q[k]) by {
                if k < p.len() {
                    assert(q[k] == p[k]);
                }
            }
        }
    }
}

proof fn lemma_non_empty_lower(ws: Seq<Seq<char>>)
    requires
        forall|k: int| 0 <= k < ws.len() ==> ascii_lower_text(#[trigger] ws[k]),
    ensures
        forall|k: int| 0 <= k < crate::text::non_empty(ws).len() ==> ascii_lower_text(
            #[trigger] crate::text::non_empty(ws)[k],
        ) && crate::text::non_empty(ws)[k].len() > 0,
    decreases ws.len(),
{
    if ws.len() > 0 {
        let r = ws.drop_last();
        assert forall|k: int| 0 <= k < r.len() implies ascii_lower_text(#[trigger] r[k]) by {
            assert(r[k] == ws[k]);
        }
        lemma_non_empty_lower(r);
        assert(ascii_lower_text(ws[ws.len() - 1]));
        if ws.last().len() > 0 {
            let n = crate::text::non_empty(r);
            let q = n.push(ws.last());
            assert forall|k: int| 0 <= k < q.len() implies ascii_lower_text(#[trigger] q[k]) && q[k].len() > 0 by {
                if k < n.len() {
                    assert(q[k] == n[k]);
                }
            }
        }
    }
}

proof fn lemma_capitalized_capitals(w: Seq<char>)
    requires
        ascii_lower_text(w),
        w.len() > 0,
    ensures
        capitals_start_words(capitalized(w)),
        capitalized(w).len() == w.len(),
{
    assert((w[0] as u32) < 128);
    let c = capitalized(w);
    assert(c == seq![upper_char(w[0])] + w.drop_first());
    assert forall|i: int| 0 < i < c.len() && crate::text::is_ascii_upper(#[trigger] c[i]) implies c[i - 1] == ' ' by {
        assert(c[i] == w[i]);
    }
}

proof fn lemma_join_capitals(ws: Seq<Seq<char>>)
    requires
        forall|k: int| 0 <= k < ws.len() ==> capitals_start_words(#[trigger] ws[k]) && ws[k].len() > 0,
    ensures
        capitals_start_words(join(ws, seq![' '])),
    decreases ws.len(),
{
    if ws.len() > 1 {
        let r = ws.drop_last();
        assert forall|k: int| 0 <= k < r.len() implies capitals_start_words(#[trigger] r[k]) && r[k].len() > 0 by {
            assert(r[k] == ws[k]);
        }
        lemma_join_capitals(r);
        let a = join(r, seq![' ']);
        let last = ws.last();
        assert(capitals_start_words(ws[ws.len() - 1]) && ws[ws.len() - 1].len() > 0);
        let j = a + seq![' '] + last;
        assert(join(ws, seq![' ']) == j);
        assert forall|i: int| 0 < i < j.len() && crate::text::is_ascii_upper(#[trigger] j[i]) implies j[i - 1] == ' ' by {
            if i < a.len() {
                assert(j[i] == a[i] && j[i - 1] == a[i - 1]);
            } else if i == a.len() {
                assert(j[i] == ' ');
            } else if i == a.len() + 1 {
                assert(j[i - 1] == ' ');
            } else {
                assert(j[i] == last[i - a.len() - 1]);
                assert(j[i - 1] == last[i - a.len() - 2]);
            }
        }
    } else if ws.len() == 1 {
        assert(capitals_start_words(ws[0]));
    }
}

proof fn lemma_unknown_plan_not_na(t: Seq<char>)
    requires
        all_ascii(t),
    ensures
        join(capitalize_all(words(lowercase(t), Separator::DashOrUnderscore)), seq![' ']) != "N/A"@,
{
    let l = lowercase(t);
    lemma_lowercase_ascii(t);
    lemma_pieces_lower(l, Separator::DashOrUnderscore);
    let ws = words(l, Separator::DashOrUnderscore);
    lemma_non_empty_lower(crate::text::pieces(l, Separator::DashOrUnderscore));
    let cs = capitalize_all(ws);
    assert forall|k: int| 0 <= k < cs.len() implies capitals_start_words(#[trigger] cs[k]) && cs[k].len() > 0 by {
        assert(cs[k] == capitalized(ws[k]));
        lemma_capitalized_capitals(ws[k]);
    }
    lemma_join_capitals(cs);
    let j = join(cs, seq![' ']);
    reveal_strlit("N/A");
    if j == "N/A"@ {
        assert(j[2] == 'A');
        assert(crate::text::is_ascii_upper(j[2]));
        assert(j[1] == '/');
    }
}

/// The plan shown for a plan type: `N/A` for a missing or blank one; each
/// known plan, in any case and with white space around it, by its display
/// name; and for any other ASCII plan type something other than `N/A`.
pub proof fn law_plan_display(raw: Seq<char>)
    ensures
        plan_display(None) == "N/A"@,
        trim(raw).len() == 0 ==> plan_display(Some(raw)) == "N/A"@,
        lowercase(trim(raw)) == "free"@ ==> plan_display(Some(raw)) == "Free"@,
        lowercase(trim(raw)) == "plus"@ ==> plan_display(Some(raw)) == "Plus"@,
        lowercase(trim(raw)) == "pro"@ ==> plan_display(Some(raw)) == "Pro 20x"@,
        lowercase(trim(raw)) == "prolite"@ ==> plan_display(Some(raw)) == "Pro 5x"@,
        lowercase(trim(raw)) == "team"@ ==> plan_display(Some(raw)) == "Team"@,
        lowercase(trim(raw)) == "business"@ ==> plan_display(Some(raw)) == "Business"@,
        lowercase(trim(raw)) == "enterprise"@ ==> plan_display(Some(raw)) == "Enterprise"@,
        lowercase(trim(raw)) == "edu"@ ==> plan_display(Some(raw)) == "Edu"@,
        trim(raw).len() > 0 && (forall|i: int| 0 <= i < raw.len() ==> (#[trigger] raw[i] as u32) < 128)
            ==> plan_display(Some(raw)) != "N/A"@,
{
    reveal_strlit("free");
    reveal_strlit("plus");
    reveal_strlit("pro");
    reveal_strlit("prolite");
    reveal_strlit("team");
    reveal_strlit("business");
    reveal_strlit("enterprise");
    reveal_strlit("edu");
    reveal_strlit("N/A");
    assert("plus"@[0] != "free"@[0]);
    assert("team"@[0] != "free"@[0]);
    assert("team"@[0] != "plus"@[0]);
    assert("edu"@[0] != "pro"@[0]);
    let t = trim(raw);
    if lowercase(t).len() == 0 {
        assert(t.len() == 0);
    }
    if t.len() > 0 && all_ascii(raw) {
        lemma_trim_ascii(raw);
        let l = lowercase(t);
        if l != "free"@ && l != "plus"@ && l != "pro"@ && l != "prolite"@ && l != "team"@ && l
            != "business"@ && l != "enterprise"@ && l != "edu"@ {
            lemma_unknown_plan_not_na(t);
        } else {
            reveal_strlit("Free");
            reveal_strlit("Plus");
            reveal_strlit("Pro 20x");
            reveal_strlit("Pro 5x");
            reveal_strlit("Team");
            reveal_strlit("Business");
            reveal_strlit("Enterprise");
            reveal_strlit("Edu");
            assert("Edu"@[0] != "N/A"@[0]);
        }
    }
}

} // verus!
