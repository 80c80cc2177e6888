//! Character-level string helpers with exact specifications.
//!
//! Strings are handled as sequences of Unicode scalar values; Rust's `Ord`
//! on `String` compares UTF-8 bytes, which orders strings exactly as the
//! lexicographic order on their characters does.
use vstd::prelude::*;

verus! {

// ---------------------------------------------------------------------------
// Character classes
// ---------------------------------------------------------------------------

pub open spec fn is_ascii_upper(c: char) -> bool {
    65 <= (c as u32) && (c as u32) <= 90
}

pub open spec fn is_ascii_lower(c: char) -> bool {
    97 <= (c as u32) && (c as u32) <= 122
}

pub open spec fn is_ascii_digit(c: char) -> bool {
    48 <= (c as u32) && (c as u32) <= 57
}

pub open spec fn is_ascii_alnum(c: char) -> bool {
    is_ascii_upper(c) || is_ascii_lower(c) || is_ascii_digit(c)
}

/// `char::to_ascii_lowercase`.
pub open spec fn lower_char(c: char) -> char {
    if is_ascii_upper(c) {
        ((c as u32) + 32) as char
    } else {
        c
    }
}

/// `char::to_ascii_uppercase`.
pub open spec fn upper_char(c: char) -> char {
    if is_ascii_lower(c) {
        ((c as u32) - 32) as char
    } else {
        c
    }
}

/// The Unicode `White_Space` property, which `char::is_whitespace` tests.
pub open spec fn is_space(c: char) -> bool {
    let u = c as u32;
    ||| 9 <= u && u <= 13
    ||| u == 32
    ||| u == 0x85
    ||| u == 0xA0
    ||| u == 0x1680
    ||| 0x2000 <= u && u <= 0x200A
    ||| u == 0x2028
    ||| u == 0x2029
    ||| u == 0x202F
    ||| u == 0x205F
    ||| u == 0x3000
}

pub open spec fn lowercase(s: Seq<char>) -> Seq<char> {
    s.map_values(|c: char| lower_char(c))
}

pub open spec fn uppercase(s: Seq<char>) -> Seq<char> {
    s.map_values(|c: char| upper_char(c))
}

pub fn is_space_char(c: char) -> (res: bool)
    ensures
        res == is_space(c),
{
    let u = c as u32;
    (9 <= u && u <= 13) || u == 32 || u == 0x85 || u == 0xA0 || u == 0x1680 || (0x2000 <= u
        && u <= 0x200A) || u == 0x2028 || u == 0x2029 || u == 0x202F || u == 0x205F || u == 0x3000
}

pub fn lower_of(c: char) -> (res: char)
    ensures
        res == lower_char(c),
{
    let u = c as u32;
    if 65 <= u && u <= 90 {
        ((u + 32) as u8) as char
    } else {
        c
    }
}

pub fn upper_of(c: char) -> (res: char)
    ensures
        res == upper_char(c),
{
    let u = c as u32;
    if 97 <= u && u <= 122 {
        ((u - 32) as u8) as char
    } else {
        c
    }
}

// ---------------------------------------------------------------------------
// Conversions between strings and character vectors
// ---------------------------------------------------------------------------

/// Appends one character to a string (`String::push`).
#[verifier::external_body]
pub(crate) fn push_char(s: &mut String, c: char)
    ensures
        final(s)@ == old(s)@.push(c),
{
    s.push(c);
}

/// The characters of a string slice, in order.
pub fn chars_of(s: &str) -> (res: Vec<char>)
    ensures
        res@ == s@,
{
    let mut res: Vec<char> = Vec::new();
    for c in it: s.chars()
        invariant
            it.seq() == s@,
            res@ == it.seq().take(it.index() as int),
    {
        res.push(c);
    }
    res
}

/// Builds a string from a sequence of characters.
pub fn string_from_chars(cs: &[char]) -> (res: String)
    ensures
        res@ == cs@,
{
    let mut res = String::new();
    let mut i: usize = 0;
    while i < cs.len()
        invariant
            i <= cs.len(),
            res@ == cs@.take(i as int),
        decreases cs.len() - i,
    {
        push_char(&mut res, cs[i]);
        assert(cs@.take(i + 1) == cs@.take(i as int).push(cs@[i as int]));
        i = i + 1;
    }
    assert(cs@.take(cs.len() as int) == cs@);
    res
}

/// Copies the characters `from..to` of `cs`.
pub fn copy_range(cs: &[char], from: usize, to: usize) -> (res: Vec<char>)
    requires
        from <= to <= cs@.len(),
    ensures
        res@ == cs@.subrange(from as int, to as int),
{
    let mut res: Vec<char> = Vec::new();
    let mut i = from;
    while i < to
        invariant
            from <= i <= to <= cs@.len(),
            res@ == cs@.subrange(from as int, i as int),
        decreases to - i,
    {
        res.push(cs[i]);
        assert(cs@.subrange(from as int, i + 1) == cs@.subrange(from as int, i as int).push(
            cs@[i as int],
        ));
        i = i + 1;
    }
    res
}

/// Appends all characters of `extra` to `out`.
pub fn extend_chars(out: &mut Vec<char>, extra: &[char])
    ensures
        final(out)@ == old(out)@ + extra@,
{
    let mut i: usize = 0;
    while i < extra.len()
        invariant
            i <= extra.len(),
            out@ == old(out)@ + extra@.take(i as int),
        decreases extra.len() - i,
    {
        out.push(extra[i]);
        assert(extra@.take(i + 1) == extra@.take(i as int).push(extra@[i as int]));
        i = i + 1;
    }
    assert(extra@.take(extra.len() as int) == extra@);
}

// ---------------------------------------------------------------------------
// Case mapping, comparison and search
// ---------------------------------------------------------------------------

/// `to_ascii_lowercase` on a character sequence.
pub fn ascii_lowercase(cs: &[char]) -> (res: Vec<char>)
    ensures
        res@ == lowercase(cs@),
{
    let mut res: Vec<char> = Vec::new();
    let mut i: usize = 0;
    while i < cs.len()
        invariant
            i <= cs.len(),
            res@ == lowercase(cs@.take(i as int)),
        decreases cs.len() - i,
    {
        let c = lower_of(cs[i]);
        res.push(c);
        assert(lowercase(cs@.take(i + 1)) == lowercase(cs@.take(i as int)).push(c));
        i = i + 1;
    }
    assert(cs@.take(cs.len() as int) == cs@);
    res
}

/// `to_ascii_uppercase` on a character sequence.
pub fn ascii_uppercase(cs: &[char]) -> (res: Vec<char>)
    ensures
        res@ == uppercase(cs@),
{
    let mut res: Vec<char> = Vec::new();
    let mut i: usize = 0;
    while i < cs.len()
        invariant
            i <= cs.len(),
            res@ == uppercase(cs@.take(i as int)),
        decreases cs.len() - i,
    {
        let c = upper_of(cs[i]);
        res.push(c);
        assert(uppercase(cs@.take(i + 1)) == uppercase(cs@.take(i as int)).push(c));
        i = i + 1;
    }
    assert(cs@.take(cs.len() as int) == cs@);
    res
}

/// Character-sequence equality.
pub fn chars_eq(a: &[char], b: &[char]) -> (res: bool)
    ensures
        res == (a@ == b@),
{
    if a.len() != b.len() {
        return false;
    }
    let mut i: usize = 0;
    while i < a.len()
        invariant
            a@.len() == b@.len(),
            i <= a.len(),
            forall|k: int| 0 <= k < i ==> a@[k] == b@[k],
        decreases a.len() - i,
    {
        if a[i] != b[i] {
            return false;
        }
        i = i + 1;
    }
    assert(a@ == b@);
    true
}

/// `t` occurs in `s` as a contiguous block starting at `i`.
pub open spec fn occurs_at(s: Seq<char>, t: Seq<char>, i: int) -> bool {
    0 <= i && i + t.len() <= s.len() && s.subrange(i, i + t.len()) == t
}

/// `str::contains` with a string pattern.
pub open spec fn contains(s: Seq<char>, t: Seq<char>) -> bool {
    exists|i: int| occurs_at(s, t, i)
}

pub open spec fn starts_with(s: Seq<char>, t: Seq<char>) -> bool {
    occurs_at(s, t, 0)
}

fn occurs_at_exec(s: &[char], t: &[char], i: usize) -> (res: bool)
    requires
        i + t@.len() <= s@.len(),
    ensures
        res == occurs_at(s@, t@, i as int),
{
    let mut k: usize = 0;
    while k < t.len()
        invariant
            i + t@.len() <= s@.len(),
            k <= t.len(),
            forall|m: int| 0 <= m < k ==> s@[i + m] == t@[m],
        decreases t.len() - k,
    {
        let n = s.len();
        assert(i + k < n);
        if s[i + k] != t[k] {
            assert(s@.subrange(i as int, i + t@.len())[k as int] != t@[k as int]);
            return false;
        }
        k = k + 1;
    }
    assert(s@.subrange(i as int, i + t@.len()) == t@);
    true
}

/// Whether `t` occurs in `s`.
pub fn contains_chars(s: &[char], t: &[char]) -> (res: bool)
    ensures
        res == contains(s@, t@),
{
    if t.len() > s.len() {
        return false;
    }
    let last = s.len() - t.len();
    let mut i: usize = 0;
    while i < last
        invariant
            last + t@.len() == s@.len(),
            i <= last,
            forall|j: int| 0 <= j < i ==> !occurs_at(s@, t@, j),
        decreases last - i,
    {
        if occurs_at_exec(s, t, i) {
            return true;
        }
        i = i + 1;
    }
    if occurs_at_exec(s, t, last) {
        return true;
    }
    proof {
        lemma_absent(s@, t@);
    }
    false
}

proof fn lemma_absent(s: Seq<char>, t: Seq<char>)
    requires
        t.len() <= s.len(),
        forall|j: int| 0 <= j < s.len() - t.len() + 1 ==> !occurs_at(s, t, j),
    ensures
        !contains(s, t),
{
}

/// Whether `s` starts with `t`.
pub fn starts_with_chars(s: &[char], t: &[char]) -> (res: bool)
    ensures
        res == starts_with(s@, t@),
{
    if t.len() > s.len() {
        false
    } else {
        occurs_at_exec(s, t, 0)
    }
}

// ---------------------------------------------------------------------------
// Trimming
// ---------------------------------------------------------------------------

pub open spec fn trim_start(s: Seq<char>) -> Seq<char>
    decreases s.len(),
{
    if s.len() > 0 && is_space(s[0]) {
        trim_start(s.drop_first())
    } else {
        s
    }
}

pub open spec fn trim_end(s: Seq<char>) -> Seq<char>
    decreases s.len(),
{
    if s.len() > 0 && is_space(s.last()) {
        trim_end(s.drop_last())
    } else {
        s
    }
}

/// `str::trim`: leading and trailing white space removed.
pub open spec fn trim(s: Seq<char>) -> Seq<char> {
    trim_end(trim_start(s))
}

pub fn trim_chars(cs: &[char]) -> (res: Vec<char>)
    ensures
        res@ == trim(cs@),
{
    let n = cs.len();
    let mut i: usize = 0;
    assert(cs@.subrange(0, n as int) == cs@);
    while i < n && is_space_char(cs[i])
        invariant
            n == cs@.len(),
            i <= n,
            trim_start(cs@) == trim_start(cs@.subrange(i as int, n as int)),
        decreases n - i,
    {
        assert(cs@.subrange(i as int, n as int).drop_first() == cs@.subrange(i + 1, n as int));
        i = i + 1;
    }
    assert(trim_start(cs@.subrange(i as int, n as int)) == cs@.subrange(i as int, n as int));
    let mut j: usize = n;
    while j > i && is_space_char(cs[j - 1])
        invariant
            n == cs@.len(),
            i <= j <= n,
            trim_end(cs@.subrange(i as int, n as int)) == trim_end(
                cs@.subrange(i as int, j as int),
            ),
        decreases j - i,
    {
        assert(cs@.subrange(i as int, j as int).drop_last() == cs@.subrange(i as int, j - 1));
        j = j - 1;
    }
    copy_range(cs, i, j)
}

// ---------------------------------------------------------------------------
// Splitting into words and joining
// ---------------------------------------------------------------------------

/// Which characters separate pieces.
#[derive(Clone, Copy, Debug, PartialEq, Eq)]
pub enum Separator {
    /// `char::is_whitespace`, as `str::split_whitespace` uses.
    Whitespace,
    /// `'-'` or `'_'`.
    DashOrUnderscore,
    /// `'/'`, the path separator.
    Slash,
    /// `'\n'`, the line feed.
    Newline,
}

pub open spec fn is_separator(kind: Separator, c: char) -> bool {
    match kind {
        Separator::Whitespace => is_space(c),
        Separator::DashOrUnderscore => c == '-' || c == '_',
        Separator::Slash => c == '/',
        Separator::Newline => c == '\n',
    }
}

pub fn is_separator_char(kind: Separator, c: char) -> (res: bool)
    ensures
        res == is_separator(kind, c),
{
    match kind {
        Separator::Whitespace => is_space_char(c),
        Separator::DashOrUnderscore => c == '-' || c == '_',
        Separator::Slash => c == '/',
        Separator::Newline => c == '\n',
    }
}

/// `str::split` by a separator class: the pieces between separators, empty
/// pieces included; there is always at least one piece.
pub open spec fn pieces(s: Seq<char>, kind: Separator) -> Seq<Seq<char>>
    decreases s.len(),
{
    if s.len() == 0 {
        seq![Seq::<char>::empty()]
    } else {
        let p = pieces(s.drop_last(), kind);
        if is_separator(kind, s.last()) {
            p.push(Seq::<char>::empty())
        } else {
            p.update(p.len() - 1, p.last().push(s.last()))
        }
    }
}

/// The pieces that are not empty, in order.
pub open spec fn non_empty(ws: Seq<Seq<char>>) -> Seq<Seq<char>>
    decreases ws.len(),
{
    if ws.len() == 0 {
        ws
    } else if ws.last().len() == 0 {
        non_empty(ws.drop_last())
    } else {
        non_empty(ws.drop_last()).push(ws.last())
    }
}

/// Maximal runs of non-separator characters (`split_whitespace` for white space).
pub open spec fn words(s: Seq<char>, kind: Separator) -> Seq<Seq<char>> {
    non_empty(pieces(s, kind))
}

/// `[String]::join(glue)`.
pub open spec fn join(ws: Seq<Seq<char>>, glue: Seq<char>) -> Seq<char>
    decreases ws.len(),
{
    if ws.len() == 0 {
        Seq::empty()
    } else if ws.len() == 1 {
        ws[0]
    } else {
        join(ws.drop_last(), glue) + glue + ws.last()
    }
}

pub proof fn lemma_pieces_not_empty(s: Seq<char>, kind: Separator)
    ensures
        pieces(s, kind).len() >= 1,
    decreases s.len(),
{
    if s.len() > 0 {
        lemma_pieces_not_empty(s.drop_last(), kind);
    }
}

/// Text without a separator is one piece.
pub proof fn lemma_one_piece(s: Seq<char>, kind: Separator)
    requires
        forall|i: int| 0 <= i < s.len() ==> !is_separator(kind, #[trigger] s[i]),
    ensures
        pieces(s, kind) == seq![s],
    decreases s.len(),
{
    if s.len() > 0 {
        let rest = s.drop_last();
        assert forall|i: int| 0 <= i < rest.len() implies !is_separator(kind, #[trigger] rest[i]) by {
            assert(rest[i] == s[i]);
        }
        lemma_one_piece(rest, kind);
        assert(!is_separator(kind, s[s.len() - 1]));
        assert(rest.push(s.last()) =~= s);
        assert(seq![rest].update(0, rest.push(s.last())) =~= seq![s]);
    } else {
        assert(s =~= Seq::<char>::empty());
    }
}

/// Two runs without a separator, with one separator between them, are two
/// pieces.
pub proof fn lemma_two_pieces(a: Seq<char>, c: char, b: Seq<char>, kind: Separator)
    requires
        forall|i: int| 0 <= i < a.len() ==> !is_separator(kind, #[trigger] a[i]),
        forall|i: int| 0 <= i < b.len() ==> !is_separator(kind, #[trigger] b[i]),
        is_separator(kind, c),
    ensures
        pieces(a + seq![c] + b, kind) == seq![a, b],
    decreases b.len(),
{
    let s = a + seq![c] + b;
    if b.len() == 0 {
        assert(s.drop_last() =~= a);
        assert(s.last() == c);
        lemma_one_piece(a, kind);
        assert(b =~= Seq::<char>::empty());
        assert(seq![a].push(Seq::<char>::empty()) =~= seq![a, b]);
    } else {
        let front = b.drop_last();
        assert forall|i: int| 0 <= i < front.len() implies !is_separator(kind, #[trigger] front[i]) by {
            assert(front[i] == b[i]);
        }
        lemma_two_pieces(a, c, front, kind);
        assert(s.drop_last() == a + seq![c] + front);
        assert(s.last() == b.last());
        assert(!is_separator(kind, b[b.len() - 1]));
        assert(front.push(b.last()) =~= b);
        assert(seq![a, front].update(1, front.push(b.last())) =~= seq![a, b]);
    }
}

pub open spec fn views_of(ws: Seq<Vec<char>>) -> Seq<Seq<char>> {
    ws.map_values(|w: Vec<char>| w@)
}

/// Splits into the maximal runs of non-separator characters.
pub fn split_words(cs: &[char], kind: Separator) -> (res: Vec<Vec<char>>)
    ensures
        views_of(res@) == words(cs@, kind),
{
    let mut res: Vec<Vec<char>> = Vec::new();
    let mut cur: Vec<char> = Vec::new();
    let mut i: usize = 0;
    proof {
        assert(cs@.take(0) == Seq::<char>::empty());
        assert(views_of(res@) == Seq::<Seq<char>>::empty());
    }
    while i < cs.len()
        invariant
            i <= cs.len(),
            pieces(cs@.take(i as int), kind).len() >= 1,
            pieces(cs@.take(i as int), kind).last() == cur@,
            non_empty(pieces(cs@.take(i as int), kind).drop_last()) == views_of(res@),
        decreases cs.len() - i,
    {
        let c = cs[i];
        let ghost p = pieces(cs@.take(i as int), kind);
        let ghost old_res = views_of(res@);
        proof {
            assert(cs@.take(i + 1).drop_last() == cs@.take(i as int));
            assert(cs@.take(i + 1).last() == c);
        }
        if is_separator_char(kind, c) {
            proof {
                assert(pieces(cs@.take(i + 1), kind) == p.push(Seq::<char>::empty()));
                assert(p.push(Seq::<char>::empty()).drop_last() == p);
                assert(p.drop_last().push(p.last()) == p);
            }
            if cur.len() > 0 {
                let w = cur;
                cur = Vec::new();
                res.push(w);
                proof {
                    assert(views_of(res@) == old_res.push(w@));
                }
            } else {
                proof {
                    assert(p.last().len() == 0);
                }
            }
        } else {
            cur.push(c);
            proof {
                let q = p.update(p.len() - 1, p.last().push(c));
                assert(pieces(cs@.take(i + 1), kind) == q);
                assert(q.drop_last() == p.drop_last());
            }
        }
        i = i + 1;
    }
    proof {
        assert(cs@.take(cs.len() as int) == cs@);
    }
    let ghost p = pieces(cs@, kind);
    let ghost before = views_of(res@);
    if cur.len() > 0 {
        let w = cur;
        res.push(w);
        proof {
            assert(p.drop_last().push(p.last()) == p);
            assert(views_of(res@) == before.push(w@));
        }
    } else {
        proof {
            assert(p.drop_last().push(p.last()) == p);
        }
    }
    res
}


/// Splits at every separator character, keeping empty pieces (`str::split`).
pub fn split_pieces(cs: &[char], kind: Separator) -> (res: Vec<Vec<char>>)
    ensures
        views_of(res@) == pieces(cs@, kind),
{
    let mut res: Vec<Vec<char>> = Vec::new();
    let mut cur: Vec<char> = Vec::new();
    let mut i: usize = 0;
    proof {
        assert(cs@.take(0) == Seq::<char>::empty());
        assert(views_of(res@).push(cur@) == seq![Seq::<char>::empty()]);
    }
    while i < cs.len()
        invariant
            i <= cs.len(),
            views_of(res@).push(cur@) == pieces(cs@.take(i as int), kind),
        decreases cs.len() - i,
    {
        let c = cs[i];
        let ghost p = pieces(cs@.take(i as int), kind);
        let ghost before = views_of(res@);
        proof {
            assert(cs@.take(i + 1).drop_last() == cs@.take(i as int));
            assert(cs@.take(i + 1).last() == c);
        }
        if is_separator_char(kind, c) {
            let w = cur;
            cur = Vec::new();
            res.push(w);
            proof {
                assert(views_of(res@) == before.push(w@));
                assert(pieces(cs@.take(i + 1), kind) == p.push(Seq::<char>::empty()));
            }
        } else {
            cur.push(c);
            proof {
                assert(before.push(cur@) == p.update(p.len() - 1, p.last().push(c)));
            }
        }
        i = i + 1;
    }
    proof {
        assert(cs@.take(cs.len() as int) == cs@);
    }
    let ghost before = views_of(res@);
    res.push(cur);
    proof {
        assert(views_of(res@) == before.push(res@[res@.len() - 1]@));
    }
    res
}

/// Joins words with a single glue character between them.
pub fn join_words(ws: &Vec<Vec<char>>, glue: char) -> (res: Vec<char>)
    ensures
        res@ == join(views_of(ws@), seq![glue]),
{
    let mut res: Vec<char> = Vec::new();
    let mut i: usize = 0;
    while i < ws.len()
        invariant
            i <= ws.len(),
            res@ == join(views_of(ws@).take(i as int), seq![glue]),
        decreases ws.len() - i,
    {
        let ghost before = views_of(ws@).take(i as int);
        if i > 0 {
            res.push(glue);
        }
        extend_chars(&mut res, ws[i].as_slice());
        proof {
            let now = views_of(ws@).take(i + 1);
            assert(now.drop_last() == before);
            assert(now.last() == ws@[i as int]@);
            if i == 0 {
                assert(now.len() == 1);
            }
        }
        i = i + 1;
    }
    proof {
        assert(views_of(ws@).take(ws.len() as int) == views_of(ws@));
    }
    res
}

/// `split_whitespace().collect::<Vec<_>>().join(" ")`: runs of white space
/// become one space, with none at either end.
pub open spec fn collapse_whitespace(s: Seq<char>) -> Seq<char> {
    join(words(s, Separator::Whitespace), seq![' '])
}

pub fn collapse_whitespace_chars(cs: &[char]) -> (res: Vec<char>)
    ensures
        res@ == collapse_whitespace(cs@),
{
    let ws = split_words(cs, Separator::Whitespace);
    join_words(&ws, ' ')
}

// ---------------------------------------------------------------------------
// Decimal formatting
// ---------------------------------------------------------------------------

pub open spec fn digit_char(d: nat) -> char {
    (48 + d) as char
}

/// The decimal digits of `n` (`u64` `Display`).
pub open spec fn decimal(n: nat) -> Seq<char>
    decreases n,
{
    if n < 10 {
        seq![digit_char(n)]
    } else {
        decimal(n / 10).push(digit_char(n % 10))
    }
}

pub fn decimal_chars(n: u64) -> (res: Vec<char>)
    ensures
        res@ == decimal(n as nat),
    decreases n,
{
    let d = ((n % 10) as u8 + 48) as char;
    if n < 10 {
        let mut res: Vec<char> = Vec::new();
        res.push(d);
        assert(res@ == seq![d]);
        res
    } else {
        let mut res = decimal_chars(n / 10);
        res.push(d);
        res
    }
}

/// `n.to_string()` for a `u64`.
pub fn u64_to_string(n: u64) -> (res: String)
    ensures
        res@ == decimal(n as nat),
{
    let cs = decimal_chars(n);
    string_from_chars(cs.as_slice())
}


// ---------------------------------------------------------------------------
// Lexicographic order (the order of `Ord for String`)
// ---------------------------------------------------------------------------

/// `a < b` in the lexicographic order on characters.
pub open spec fn lex_lt(a: Seq<char>, b: Seq<char>) -> bool
    decreases a.len(),
{
    if a.len() == 0 {
        b.len() > 0
    } else if b.len() == 0 {
        false
    } else if a[0] != b[0] {
        (a[0] as int) < (b[0] as int)
    } else {
        lex_lt(a.drop_first(), b.drop_first())
    }
}

pub proof fn lemma_lex_irreflexive(a: Seq<char>)
    ensures
        !lex_lt(a, a),
    decreases a.len(),
{
    if a.len() > 0 {
        lemma_lex_irreflexive(a.drop_first());
    }
}

pub proof fn lemma_lex_asymmetric(a: Seq<char>, b: Seq<char>)
    ensures
        lex_lt(a, b) ==> !lex_lt(b, a),
    decreases a.len(),
{
    if a.len() > 0 && b.len() > 0 && a[0] == b[0] {
        lemma_lex_asymmetric(a.drop_first(), b.drop_first());
    }
}

pub proof fn lemma_lex_transitive(a: Seq<char>, b: Seq<char>, c: Seq<char>)
    ensures
        lex_lt(a, b) && lex_lt(b, c) ==> lex_lt(a, c),
    decreases a.len(),
{
    if a.len() > 0 && b.len() > 0 && c.len() > 0 && a[0] == b[0] && b[0] == c[0] {
        lemma_lex_transitive(a.drop_first(), b.drop_first(), c.drop_first());
    }
}

pub proof fn lemma_lex_total(a: Seq<char>, b: Seq<char>)
    ensures
        a != b ==> lex_lt(a, b) || lex_lt(b, a),
    decreases a.len(),
{
    if a.len() > 0 && b.len() > 0 {
        if a[0] == b[0] {
            lemma_lex_total(a.drop_first(), b.drop_first());
            if a.drop_first() == b.drop_first() {
                assert(a == seq![a[0]] + a.drop_first());
                assert(b == seq![b[0]] + b.drop_first());
            }
        } else {
            assert((a[0] as int) != (b[0] as int));
        }
    } else if a.len() == 0 && b.len() == 0 {
        assert(a == b);
    }
}

/// Whether `a < b` lexicographically.
pub fn lex_less(a: &[char], b: &[char]) -> (res: bool)
    ensures
        res == lex_lt(a@, b@),
{
    let mut i: usize = 0;
    assert(a@.skip(0) == a@ && b@.skip(0) == b@);
    while i < a.len() && i < b.len() && a[i] == b[i]
        invariant
            i <= a.len(),
            i <= b.len(),
            lex_lt(a@, b@) == lex_lt(a@.skip(i as int), b@.skip(i as int)),
        decreases a.len() - i,
    {
        assert(a@.skip(i as int).drop_first() == a@.skip(i + 1));
        assert(b@.skip(i as int).drop_first() == b@.skip(i + 1));
        i = i + 1;
    }
    if i == a.len() {
        i < b.len()
    } else if i == b.len() {
        false
    } else {
        a[i] < b[i]
    }
}

} // verus!
