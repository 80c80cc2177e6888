//! Where the OpenCode database is, and how directories are normalised when
//! the file system cannot resolve them.
use vstd::prelude::*;
use vstd::utf8::{decode_utf8, valid_utf8};

use crate::text::{
    chars_eq, chars_of, join, join_words, split_words, string_from_chars, trim, trim_chars,
    views_of, words, Separator,
};

verus! {

// ---------------------------------------------------------------------------
// The database path
// ---------------------------------------------------------------------------

/// `std::str::from_utf8`: the text that `bytes` encode, where they are valid
/// UTF-8 (as vstd defines validity and decoding).
#[verifier::external_body]
fn utf8_text(bytes: &[u8]) -> (res: Option<String>)
    ensures
        res is Some <==> valid_utf8(bytes@),
        res matches Some(s) ==> s@ == decode_utf8(bytes@),
{
    match std::str::from_utf8(bytes) {
        Ok(text) => Some(text.to_owned()),
        Err(_) => None,
    }
}

/// A line feed or a carriage return.
pub open spec fn is_line_end(b: u8) -> bool {
    b == 10 || b == 13
}

/// The pieces of `s` between line ends, in order, empty ones included: `n`
/// line ends give `n + 1` pieces.
pub open spec fn byte_lines(s: Seq<u8>) -> Seq<Seq<u8>>
    decreases s.len(),
{
    if s.len() == 0 {
        seq![Seq::<u8>::empty()]
    } else {
        let rest = byte_lines(s.drop_last());
        if is_line_end(s.last()) {
            rest.push(Seq::<u8>::empty())
        } else {
            rest.update(rest.len() - 1, rest.last().push(s.last()))
        }
    }
}

proof fn lemma_byte_lines_not_empty(s: Seq<u8>)
    ensures
        byte_lines(s).len() >= 1,
    decreases s.len(),
{
    if s.len() > 0 {
        lemma_byte_lines_not_empty(s.drop_last());
    }
}

/// A line that names a path: valid UTF-8 and not blank once trimmed.
pub open spec fn path_line(line: Seq<u8>) -> bool {
    valid_utf8(line) && trim(decode_utf8(line)).len() > 0
}

/// The last line that names a path, trimmed.
pub open spec fn last_path_line(ls: Seq<Seq<u8>>) -> Option<Seq<char>>
    decreases ls.len(),
{
    if ls.len() == 0 {
        None
    } else if path_line(ls.last()) {
        Some(trim(decode_utf8(ls.last())))
    } else {
        last_path_line(ls.drop_last())
    }
}

pub open spec fn byte_views(ls: Seq<Vec<u8>>) -> Seq<Seq<u8>> {
    ls.map_values(|l: Vec<u8>| l@)
}

fn split_byte_lines(bytes: &[u8]) -> (res: Vec<Vec<u8>>)
    ensures
        byte_views(res@) == byte_lines(bytes@),
{
    let mut done: Vec<Vec<u8>> = Vec::new();
    let mut current: Vec<u8> = Vec::new();
    let mut i: usize = 0;
    while i < bytes.len()
        invariant
            i <= bytes.len(),
            byte_views(done@).push(current@) == byte_lines(bytes@.take(i as int)),
        decreases bytes.len() - i,
    {
        let b = bytes[i];
        let ghost before = byte_views(done@).push(current@);
        proof {
            assert(bytes@.take(i + 1).drop_last() == bytes@.take(i as int));
            assert(bytes@.take(i + 1).last() == b);
        }
        if b == 10 || b == 13 {
            let finished = current;
            done.push(finished);
            current = Vec::new();
            proof {
                assert(byte_views(done@) == before);
                assert(byte_views(done@).push(current@) == before.push(Seq::<u8>::empty()));
            }
        } else {
            current.push(b);
            proof {
                assert(byte_views(done@).push(current@) == before.update(
                    before.len() - 1,
                    before.last().push(b),
                ));
            }
        }
        i = i + 1;
    }
    done.push(current);
    proof {
        assert(bytes@.take(bytes.len() as int) == bytes@);
    }
    done
}

/// The database path that `opencode db path` printed: its last line that is
/// valid UTF-8 and not blank, trimmed; `None` where it printed no such line.
pub fn db_path_from_output(stdout: &[u8]) -> (res: Option<String>)
    ensures
        match last_path_line(byte_lines(stdout@)) {
            Some(p) => res matches Some(s) && s@ == p,
            None => res is None,
        },
{
    let lines = split_byte_lines(stdout);
    let ghost ls = byte_views(lines@);
    let mut k: usize = lines.len();
    proof {
        assert(ls.take(k as int) == ls);
    }
    while k > 0
        invariant
            k <= lines@.len(),
            ls == byte_views(lines@),
            ls == byte_lines(stdout@),
            last_path_line(ls) == last_path_line(ls.take(k as int)),
        decreases k,
    {
        let line = &lines[k - 1];
        proof {
            assert(ls.take(k as int).last() == line@);
            assert(ls.take(k as int).drop_last() == ls.take(k - 1));
        }
        match utf8_text(line.as_slice()) {
            Some(text) => {
                let t = trim_chars(chars_of(text.as_str()).as_slice());
                if t.len() > 0 {
                    return Some(string_from_chars(t.as_slice()));
                }
            },
            None => {},
        }
        k = k - 1;
    }
    proof {
        assert(ls.take(0) == Seq::<Seq<u8>>::empty());
    }
    None
}

/// Where to look for the database before asking the `opencode` command: the
/// path given, else a non-empty value of the environment variable, else the
/// standard file where it exists.
pub open spec fn preferred_path(
    explicit: Option<Seq<char>>,
    env_value: Option<Seq<char>>,
    standard_file: Option<Seq<char>>,
) -> Option<Seq<char>> {
    match explicit {
        Some(p) => Some(p),
        None => match env_value {
            Some(v) if v.len() > 0 => Some(v),
            _ => standard_file,
        },
    }
}

pub open spec fn owned_view(o: Option<String>) -> Option<Seq<char>> {
    match o {
        Some(s) => Some(s@),
        None => None,
    }
}

/// The database path that needs no `opencode` command, if there is one.
pub fn preferred_db_path(
    explicit: Option<String>,
    env_value: Option<String>,
    standard_file: Option<String>,
) -> (res: Option<String>)
    ensures
        owned_view(res) == preferred_path(
            owned_view(explicit),
            owned_view(env_value),
            owned_view(standard_file),
        ),
{
    match explicit {
        Some(p) => Some(p),
        None => match env_value {
            Some(v) => {
                if chars_of(v.as_str()).len() > 0 {
                    Some(v)
                } else {
                    standard_file
                }
            },
            None => standard_file,
        },
    }
}

// ---------------------------------------------------------------------------
// Lexical normalisation
// ---------------------------------------------------------------------------

/// The components left once `.` is dropped and each `..` removes the
/// component before it (a `..` with none before it is dropped).
pub open spec fn resolve_components(ws: Seq<Seq<char>>) -> Seq<Seq<char>>
    decreases ws.len(),
{
    if ws.len() == 0 {
        Seq::empty()
    } else {
        let done = resolve_components(ws.drop_last());
        let w = ws.last();
        if w == seq!['.'] {
            done
        } else if w == seq!['.', '.'] {
            if done.len() > 0 {
                done.drop_last()
            } else {
                done
            }
        } else {
            done.push(w)
        }
    }
}

/// A path normalised without the file system: its components resolved, kept
/// absolute where it was.
pub open spec fn lexical_path(path: Seq<char>) -> Seq<char> {
    let body = join(resolve_components(words(path, Separator::Slash)), seq!['/']);
    if path.len() > 0 && path[0] == '/' {
        seq!['/'] + body
    } else {
        body
    }
}

/// Normalises `path` by its text alone, as the last resort when neither it
/// nor any ancestor can be resolved on disk.
pub fn lexical_normalize(path: &str) -> (res: String)
    ensures
        res@ == lexical_path(path@),
{
    let cs = chars_of(path);
    let ws = split_words(cs.as_slice(), Separator::Slash);
    let ghost all = views_of(ws@);
    let dot = ['.'];
    let dots = ['.', '.'];
    assert(dot@ == seq!['.']);
    assert(dots@ == seq!['.', '.']);
    let mut stack: Vec<Vec<char>> = Vec::new();
    let mut i: usize = 0;
    while i < ws.len()
        invariant
            i <= ws.len(),
            all == views_of(ws@),
            dot@ == seq!['.'],
            dots@ == seq!['.', '.'],
            views_of(stack@) == resolve_components(all.take(i as int)),
        decreases ws.len() - i,
    {
        let w = &ws[i];
        let ghost before = views_of(stack@);
        proof {
            assert(all.take(i + 1).drop_last() == all.take(i as int));
            assert(all.take(i + 1).last() == w@);
        }
        if chars_eq(w.as_slice(), dot.as_slice()) {
        } else if chars_eq(w.as_slice(), dots.as_slice()) {
            if stack.len() > 0 {
                stack.pop();
                proof {
                    assert(views_of(stack@) == before.drop_last());
                }
            }
        } else {
            stack.push(w.clone());
            proof {
                assert(views_of(stack@) == before.push(w@));
            }
        }
        i = i + 1;
    }
    proof {
        assert(all.take(ws.len() as int) == all);
    }
    let body = join_words(&stack, '/');
    if cs.len() > 0 && cs[0] == '/' {
        let mut out: Vec<char> = Vec::new();
        out.push('/');
        crate::text::extend_chars(&mut out, body.as_slice());
        string_from_chars(out.as_slice())
    } else {
        string_from_chars(body.as_slice())
    }
}

} // verus!
