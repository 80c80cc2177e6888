//! Reading a text field out of a message's JSON: the value at a path of
//! object keys, and the text that value names.
use vstd::prelude::*;

use crate::text::{chars_eq, chars_of, string_from_chars, trim, trim_chars};

verus! {

/// A JSON value as a field is read from it: text, an object's members in
/// order, or any other value.
pub enum FieldValue {
    Text(String),
    Object(Vec<(String, FieldValue)>),
    Other,
}

/// Where `key` first stands among `members`, looking from index `from` on.
pub open spec fn member_from(members: Seq<(String, FieldValue)>, key: Seq<char>, from: int) -> Option<
    int,
>
    decreases members.len() - from,
{
    if from < 0 || from >= members.len() {
        None
    } else if members[from].0@ == key {
        Some(from)
    } else {
        member_from(members, key, from + 1)
    }
}

/// Where `key` first stands among `members`.
pub open spec fn member_index(members: Seq<(String, FieldValue)>, key: Seq<char>) -> Option<int> {
    member_from(members, key, 0)
}

proof fn lemma_member_from_in_range(members: Seq<(String, FieldValue)>, key: Seq<char>, from: int)
    ensures
        member_from(members, key, from) matches Some(i) ==> from <= i < members.len()
            && members[i].0@ == key,
    decreases members.len() - from,
{
    if 0 <= from < members.len() && members[from].0@ != key {
        lemma_member_from_in_range(members, key, from + 1);
    }
}

/// The member of an object that `key` names, if any.
pub fn member(members: &Vec<(String, FieldValue)>, key: &str) -> (res: Option<usize>)
    ensures
        match res {
            Some(i) => member_index(members@, key@) == Some(i as int),
            None => member_index(members@, key@) is None,
        },
{
    let wanted = chars_of(key);
    let mut i: usize = 0;
    while i < members.len()
        invariant
            i <= members.len(),
            wanted@ == key@,
            member_index(members@, key@) == member_from(members@, key@, i as int),
        decreases members.len() - i,
    {
        if chars_eq(chars_of(members[i].0.as_str()).as_slice(), wanted.as_slice()) {
            return Some(i);
        }
        i = i + 1;
    }
    None
}

/// The text that the member `key` of an object names, if any.
pub open spec fn member_string(members: Seq<(String, FieldValue)>, key: Seq<char>) -> Option<
    Seq<char>,
>
    decreases members, 0int,
{
    match member_index(members, key) {
        Some(i) => if 0 <= i < members.len() {
            string_of(members[i].1)
        } else {
            None
        },
        None => None,
    }
}

/// The text a value names: text itself, trimmed, where something is left;
/// for an object, the text that its `id`, else its `name`, else its `value`
/// names.
pub open spec fn string_of(v: FieldValue) -> Option<Seq<char>>
    decreases v, 1int,
{
    match v {
        FieldValue::Text(s) => if trim(s@).len() > 0 {
            Some(trim(s@))
        } else {
            None
        },
        FieldValue::Object(ms) => {
            let by_id = member_string(ms@, "id"@);
            let by_name = member_string(ms@, "name"@);
            if by_id is Some {
                by_id
            } else if by_name is Some {
                by_name
            } else {
                member_string(ms@, "value"@)
            }
        },
        FieldValue::Other => None,
    }
}

pub open spec fn text_view(t: Option<String>) -> Option<Seq<char>> {
    match t {
        Some(s) => Some(s@),
        None => None,
    }
}

fn member_text(members: &Vec<(String, FieldValue)>, key: &str) -> (res: Option<String>)
    ensures
        text_view(res) == member_string(members@, key@),
    decreases members@, 0int,
{
    proof {
        lemma_member_from_in_range(members@, key@, 0);
    }
    match member(members, key) {
        Some(i) => string_value(&members[i].1),
        None => None,
    }
}

/// The text `v` names, as `string_of` states it.
pub fn string_value(v: &FieldValue) -> (res: Option<String>)
    ensures
        text_view(res) == string_of(*v),
    decreases *v, 1int,
{
    match v {
        FieldValue::Text(s) => {
            let t = trim_chars(chars_of(s.as_str()).as_slice());
            if t.len() > 0 {
                Some(string_from_chars(t.as_slice()))
            } else {
                None
            }
        },
        FieldValue::Object(ms) => {
            let by_id = member_text(ms, "id");
            if by_id.is_some() {
                return by_id;
            }
            let by_name = member_text(ms, "name");
            if by_name.is_some() {
                return by_name;
            }
            member_text(ms, "value")
        },
        FieldValue::Other => None,
    }
}

/// The value at `path`: each key of it names a member of the object reached
/// so far.
pub open spec fn field_at(v: FieldValue, path: Seq<Seq<char>>) -> Option<FieldValue>
    decreases path.len(),
{
    if path.len() == 0 {
        Some(v)
    } else {
        match v {
            FieldValue::Object(ms) => match member_index(ms@, path[0]) {
                Some(i) => if 0 <= i < ms@.len() {
                    field_at(ms@[i].1, path.drop_first())
                } else {
                    None
                },
                None => None,
            },
            _ => None,
        }
    }
}

/// The text named by the value at the first of `paths` that leads to a value
/// naming some.
pub open spec fn found_string(v: FieldValue, paths: Seq<Seq<Seq<char>>>) -> Option<Seq<char>>
    decreases paths.len(),
{
    if paths.len() == 0 {
        None
    } else {
        let here = match field_at(v, paths[0]) {
            Some(f) => string_of(f),
            None => None,
        };
        if here is Some {
            here
        } else {
            found_string(v, paths.drop_first())
        }
    }
}

pub open spec fn path_view(path: Seq<String>) -> Seq<Seq<char>> {
    path.map_values(|k: String| k@)
}

pub open spec fn paths_view(paths: Seq<Vec<String>>) -> Seq<Seq<Seq<char>>> {
    paths.map_values(|p: Vec<String>| path_view(p@))
}

/// The value at `path`, as `field_at` states it.
pub fn value_at<'a>(v: &'a FieldValue, path: &Vec<String>) -> (res: Option<&'a FieldValue>)
    ensures
        match res {
            Some(f) => field_at(*v, path_view(path@)) == Some(*f),
            None => field_at(*v, path_view(path@)) is None,
        },
{
    let mut current: &FieldValue = v;
    let mut k: usize = 0;
    assert(path_view(path@).skip(0) == path_view(path@));
    while k < path.len()
        invariant
            k <= path.len(),
            field_at(*v, path_view(path@)) == field_at(*current, path_view(path@).skip(k as int)),
        decreases path.len() - k,
    {
        let ghost rest = path_view(path@).skip(k as int);
        assert(rest[0] == path[k as int]@);
        assert(rest.drop_first() == path_view(path@).skip(k + 1));
        match current {
            FieldValue::Object(ms) => {
                proof {
                    lemma_member_from_in_range(ms@, path[k as int]@, 0);
                }
                match member(ms, path[k].as_str()) {
                    Some(i) => {
                        current = &ms[i].1;
                    },
                    None => {
                        return None;
                    },
                }
            },
            _ => {
                return None;
            },
        }
        k = k + 1;
    }
    assert(path_view(path@).skip(path.len() as int).len() == 0);
    Some(current)
}

/// The text named by the value at the first of `paths` that leads to a value
/// naming some, as `found_string` states it.
pub fn find_string(v: &FieldValue, paths: &Vec<Vec<String>>) -> (res: Option<String>)
    ensures
        text_view(res) == found_string(*v, paths_view(paths@)),
{
    let mut k: usize = 0;
    assert(paths_view(paths@).skip(0) == paths_view(paths@));
    while k < paths.len()
        invariant
            k <= paths.len(),
            found_string(*v, paths_view(paths@)) == found_string(*v, paths_view(paths@).skip(k as int)),
        decreases paths.len() - k,
    {
        let ghost rest = paths_view(paths@).skip(k as int);
        assert(rest[0] == path_view(paths[k as int]@));
        assert(rest.drop_first() == paths_view(paths@).skip(k + 1));
        match value_at(v, &paths[k]) {
            Some(f) => {
                let found = string_value(f);
                if found.is_some() {
                    return found;
                }
            },
            None => {},
        }
        k = k + 1;
    }
    None
}

} // verus!
