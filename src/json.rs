//! JSON trees and their flattening into single-level keyed entries.
use vstd::prelude::*;
use crate::output::PATH_SEPARATOR;
use crate::text::{decimal, decimal_string, push_char};

verus! {

/// A JSON document as a tree. Numbers keep their textual form.
pub enum JsonValue {
    Null,
    Bool(bool),
    Number(String),
    String(String),
    Array(Vec<JsonValue>),
    /// Members with their names.
    Object(Vec<(String, JsonValue)>),
}

/// A path extended by one segment; the empty path takes the segment alone.
pub open spec fn join(parent: Seq<char>, segment: Seq<char>) -> Seq<char> {
    if parent.len() == 0 {
        segment
    } else {
        parent.push(PATH_SEPARATOR) + segment
    }
}

pub open spec fn is_container(v: JsonValue) -> bool {
    v is Array || v is Object
}

/// The leaves of `v` under `path`, depth first: object members extend the path by their name,
/// array elements by their decimal index, and a scalar is one entry.
pub open spec fn flat_entries(v: JsonValue, path: Seq<char>) -> Seq<(Seq<char>, JsonValue)>
    decreases v, 1nat, 0nat,
{
    match v {
        JsonValue::Array(items) => flat_items(v, path, items.len() as nat),
        JsonValue::Object(members) => flat_members(v, path, members.len() as nat),
        _ => seq![(path, v)],
    }
}

/// The entries of the first `n` elements of the array `v`.
pub open spec fn flat_items(v: JsonValue, path: Seq<char>, n: nat) -> Seq<(Seq<char>, JsonValue)>
    decreases v, 0nat, n,
{
    match v {
        JsonValue::Array(items) => if n == 0 || n > items.len() {
            Seq::empty()
        } else {
            flat_items(v, path, (n - 1) as nat) + flat_entries(items[n - 1], join(path, decimal((n - 1) as nat)))
        },
        _ => Seq::empty(),
    }
}

/// The entries of the first `n` members of the object `v`.
pub open spec fn flat_members(v: JsonValue, path: Seq<char>, n: nat) -> Seq<(Seq<char>, JsonValue)>
    decreases v, 0nat, n,
{
    match v {
        JsonValue::Object(members) => if n == 0 || n > members.len() {
            Seq::empty()
        } else {
            flat_members(v, path, (n - 1) as nat) + flat_entries(members[n - 1].1, join(path, members[n - 1].0@))
        },
        _ => Seq::empty(),
    }
}

pub open spec fn entries_view(v: Seq<(String, JsonValue)>) -> Seq<(Seq<char>, JsonValue)> {
    v.map_values(|e: (String, JsonValue)| (e.0@, e.1))
}

fn clone_leaf(v: &JsonValue) -> (r: JsonValue)
    requires
        !is_container(*v),
    ensures
        r == *v,
{
    match v {
        JsonValue::Null => JsonValue::Null,
        JsonValue::Bool(b) => JsonValue::Bool(*b),
        JsonValue::Number(n) => JsonValue::Number(n.clone()),
        JsonValue::String(s) => JsonValue::String(s.clone()),
        _ => JsonValue::Null,
    }
}

fn join_path(parent: &String, segment: &String) -> (r: String)
    ensures
        r@ == join(parent@, segment@),
{
    if parent.unicode_len() == 0 {
        segment.clone()
    } else {
        let mut r = parent.clone();
        push_char(&mut r, PATH_SEPARATOR);
        r.append(segment.as_str());
        r
    }
}

/// Appends the leaves of `data` under the path `parent` to `flattened`, depth first.
pub fn dfs_flatten(data: &JsonValue, flattened: &mut Vec<(String, JsonValue)>, parent: &String)
    ensures
        entries_view(final(flattened)@) == entries_view(old(flattened)@) + flat_entries(*data, parent@),
    decreases data,
{
    match data {
        JsonValue::Array(items) => {
            let mut i: usize = 0;
            while i < items.len()
                invariant
                    i <= items.len(),
                    *data == JsonValue::Array(*items),
                    entries_view(flattened@) == entries_view(old(flattened)@) + flat_items(*data, parent@, i as nat),
                decreases items.len() - i,
            {
                let path = join_path(parent, &decimal_string(i));
                assert(decreases_to!(*data => items@[i as int]));
                dfs_flatten(&items[i], flattened, &path);
                i = i + 1;
            }
        },
        JsonValue::Object(members) => {
            let mut i: usize = 0;
            while i < members.len()
                invariant
                    i <= members.len(),
                    *data == JsonValue::Object(*members),
                    entries_view(flattened@) == entries_view(old(flattened)@) + flat_members(*data, parent@, i as nat),
                decreases members.len() - i,
            {
                let path = join_path(parent, &members[i].0);
                dfs_flatten(&members[i].1, flattened, &path);
                i = i + 1;
            }
        },
        _ => {
            flattened.push((parent.clone(), clone_leaf(data)));
        },
    }
}


/// Lexicographic order on character sequences, the order of `String`'s `Ord`.
pub open spec fn lex_le(a: Seq<char>, b: Seq<char>) -> bool
    decreases a.len(),
{
    if a.len() == 0 {
        true
    } else if b.len() == 0 {
        false
    } else if a[0] != b[0] {
        a[0] < b[0]
    } else {
        lex_le(a.drop_first(), b.drop_first())
    }
}

pub open spec fn sorted_by_path(v: Seq<(String, JsonValue)>) -> bool {
    forall|i: int, j: int| 0 <= i < j < v.len() ==> lex_le(#[trigger] v[i].0@, #[trigger] v[j].0@)
}

/// Relies on `slice::sort_by` with `String::cmp` on the paths: the same entries, ordered by path.
#[verifier::external_body]
fn sort_by_path(v: &mut Vec<(String, JsonValue)>)
    ensures
        entries_view(final(v)@).to_multiset() == entries_view(old(v)@).to_multiset(),
        sorted_by_path(final(v)@),
{
    v.sort_by(|a, b| a.0.cmp(&b.0))
}

/// What a leaf emits: a string's content; any other leaf emits nothing.
pub open spec fn leaf_text_of(v: JsonValue) -> Seq<char> {
    match v {
        JsonValue::String(s) => s@,
        _ => Seq::empty(),
    }
}

pub fn leaf_text(v: &JsonValue) -> (r: String)
    ensures
        r@ == leaf_text_of(*v),
{
    match v {
        JsonValue::String(s) => s.clone(),
        _ => String::new(),
    }
}

/// The leaves of a document, ordered by path; segments are joined by the private separator.
pub fn flatten(data: &JsonValue) -> (r: Vec<(String, JsonValue)>)
    ensures
        sorted_by_path(r@),
        entries_view(r@).to_multiset() == flat_entries(*data, Seq::empty()).to_multiset(),
{
    let mut r: Vec<(String, JsonValue)> = Vec::new();
    let root = String::new();
    dfs_flatten(data, &mut r, &root);
    proof {
        assert(entries_view(Seq::<(String, JsonValue)>::empty()) =~= Seq::empty());
        assert(entries_view(r@) =~= flat_entries(*data, Seq::empty()));
    }
    sort_by_path(&mut r);
    r
}


/// A JSON match template made parseable: each `$NAME` placeholder becomes the string `"NAME"`.
pub fn into_fixed(value: &str) -> (r: String)
    ensures
        r@ == crate::matcher::placeholders_replaced(value@, "\"${1}\""@),
{
    crate::matcher::replace_placeholders(value, "\"${1}\"")
}

} // verus!
