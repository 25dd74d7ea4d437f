//! Match templates: rewriting `$NAME` placeholders, and renaming or dropping emitted pairs.
use vstd::prelude::*;
use crate::dotenv::{pair_view, pairs_view};
use crate::json::{JsonValue, entries_view, leaf_text, leaf_text_of};
use crate::text::{chars_of, push_char};
use crate::error::Error;

verus! {

/// What replacing every match of `\$\s*\b(\w+)\b` in `text` by `replacement`, with `${1}`
/// standing for the captured name, gives.
pub uninterp spec fn placeholders_replaced(text: Seq<char>, replacement: Seq<char>) -> Seq<char>;

/// Relies on `regex::Regex::replace_all` with the pattern `\$\s*\b(\w+)\b`, whose `${1}` in the
/// replacement expands to the captured name. The pattern is valid, so `Regex::new` succeeds.
#[verifier::external_body]
pub(crate) fn replace_placeholders(text: &str, replacement: &str) -> (r: String)
    ensures
        r@ == placeholders_replaced(text@, replacement@),
{
    regex::Regex::new(r"\$\s*\b(\w+)\b").unwrap().replace_all(text, replacement).into_owned()
}

/// `s` with every `;` turned into a line break.
pub open spec fn semicolons_to_newlines(s: Seq<char>) -> Seq<char> {
    s.map_values(|c: char| if c == ';' { '\n' } else { c })
}

/// The dotenv template after its placeholders lost their `$`: one line per `;`-separated pair.
pub fn split_pairs(fixed: &str) -> (r: String)
    ensures
        r@ == semicolons_to_newlines(fixed@),
{
    let chars = chars_of(fixed);
    let mut r = String::new();
    let mut i: usize = 0;
    while i < chars.len()
        invariant
            i <= chars.len(),
            chars@ == fixed@,
            r@ == semicolons_to_newlines(chars@.take(i as int)),
        decreases chars.len() - i,
    {
        let c = chars[i];
        push_char(&mut r, if c == ';' { '\n' } else { c });
        assert(semicolons_to_newlines(chars@.take(i + 1)) =~= semicolons_to_newlines(chars@.take(i as int)).push(
            if c == ';' { '\n' } else { c }));
        i = i + 1;
    }
    assert(chars@.take(chars.len() as int) =~= chars@);
    r
}

/// `s` without any `"`.
pub open spec fn without_quotes(s: Seq<char>) -> Seq<char>
    decreases s.len(),
{
    if s.len() == 0 {
        s
    } else if s.last() == '"' {
        without_quotes(s.drop_last())
    } else {
        without_quotes(s.drop_last()).push(s.last())
    }
}

pub fn strip_quotes(s: &str) -> (r: String)
    ensures
        r@ == without_quotes(s@),
{
    let chars = chars_of(s);
    let mut r = String::new();
    let mut i: usize = 0;
    while i < chars.len()
        invariant
            i <= chars.len(),
            chars@ == s@,
            r@ == without_quotes(chars@.take(i as int)),
        decreases chars.len() - i,
    {
        assert(chars@.take(i + 1).drop_last() =~= chars@.take(i as int));
        if chars[i] != '"' {
            push_char(&mut r, chars[i]);
        }
        i = i + 1;
    }
    assert(chars@.take(chars.len() as int) =~= chars@);
    r
}

/// The name that a template gives `key`: the value of its last entry for `key`.
pub open spec fn template_name(template: Seq<(Seq<char>, Seq<char>)>, key: Seq<char>) -> Option<Seq<char>>
    decreases template.len(),
{
    if template.len() == 0 {
        None
    } else if template.last().0 == key {
        Some(template.last().1)
    } else {
        template_name(template.drop_last(), key)
    }
}

/// What a pair becomes under a template: renamed to the template's name for its key (with the
/// quotes taken out), or dropped when the template does not name the key.
pub open spec fn renamed(
    template: Seq<(Seq<char>, Seq<char>)>,
    pair: (Seq<char>, Seq<char>),
) -> Option<(Seq<char>, Seq<char>)> {
    match template_name(template, pair.0) {
        Some(n) => Some((without_quotes(n), pair.1)),
        None => None,
    }
}

fn lookup(template: &Vec<(String, String)>, key: &String) -> (r: Option<String>)
    ensures
        match r {
            Some(n) => template_name(pairs_view(template@), key@) == Some(n@),
            None => template_name(pairs_view(template@), key@) is None,
        },
{
    let mut i: usize = template.len();
    assert(pairs_view(template@).take(i as int) =~= pairs_view(template@));
    while i > 0
        invariant
            i <= template.len(),
            template_name(pairs_view(template@).take(i as int), key@) == template_name(pairs_view(template@), key@),
        decreases i,
    {
        assert(pairs_view(template@).take(i as int).drop_last() =~= pairs_view(template@).take(i - 1));
        if template[i - 1].0 == *key {
            return Some(template[i - 1].1.clone());
        }
        i = i - 1;
    }
    None
}

/// Renames one emitted pair through a template, or drops it.
pub fn rename(template: &Vec<(String, String)>, key: &String, value: &String) -> (r: Option<(String, String)>)
    ensures
        match r {
            Some(p) => renamed(pairs_view(template@), (key@, value@)) == Some(pair_view(p)),
            None => renamed(pairs_view(template@), (key@, value@)) is None,
        },
{
    match lookup(template, key) {
        Some(name) => Some((strip_quotes(name.as_str()), value.clone())),
        None => None,
    }
}

/// The pairs that a template lets through, renamed, in their original order.
pub open spec fn matched(
    template: Seq<(Seq<char>, Seq<char>)>,
    pairs: Seq<(Seq<char>, Seq<char>)>,
) -> Seq<(Seq<char>, Seq<char>)>
    decreases pairs.len(),
{
    if pairs.len() == 0 {
        Seq::empty()
    } else {
        let rest = matched(template, pairs.drop_last());
        match renamed(template, pairs.last()) {
            Some(p) => rest.push(p),
            None => rest,
        }
    }
}

/// Applies a template to all pairs.
pub fn apply_template(template: &Vec<(String, String)>, pairs: &Vec<(String, String)>) -> (r: Vec<(String, String)>)
    ensures
        pairs_view(r@) == matched(pairs_view(template@), pairs_view(pairs@)),
{
    let mut r: Vec<(String, String)> = Vec::new();
    let mut i: usize = 0;
    while i < pairs.len()
        invariant
            i <= pairs.len(),
            pairs_view(r@) == matched(pairs_view(template@), pairs_view(pairs@).take(i as int)),
        decreases pairs.len() - i,
    {
        assert(pairs_view(pairs@).take(i + 1).drop_last() =~= pairs_view(pairs@).take(i as int));
        let ghost before = r@;
        match rename(template, &pairs[i].0, &pairs[i].1) {
            Some(p) => {
                r.push(p);
                assert(pairs_view(r@) =~= pairs_view(before).push(pair_view(p)));
            },
            None => {},
        }
        i = i + 1;
    }
    assert(pairs_view(pairs@).take(pairs.len() as int) =~= pairs_view(pairs@));
    r
}

/// A key that only one side has emits nothing: a pair whose key no template entry has is
/// dropped, and everything emitted comes from a pair whose key the template has.
pub proof fn lemma_unmatched_keys_omitted(
    template: Seq<(Seq<char>, Seq<char>)>,
    pairs: Seq<(Seq<char>, Seq<char>)>,
)
    ensures
        forall|i: int| 0 <= i < pairs.len()
            && (forall|k: int| 0 <= k < template.len() ==> #[trigger] template[k].0 != pairs[i].0)
            ==> renamed(template, #[trigger] pairs[i]) is None,
        forall|j: int| 0 <= j < matched(template, pairs).len() ==> exists|i: int| 0 <= i < pairs.len()
            && (exists|k: int| 0 <= k < template.len() && #[trigger] template[k].0 == pairs[i].0)
            && renamed(template, #[trigger] pairs[i]) == Some(#[trigger] matched(template, pairs)[j]),
    decreases pairs.len(),
{
    assert forall|i: int| 0 <= i < pairs.len()
        && (forall|k: int| 0 <= k < template.len() ==> #[trigger] template[k].0 != pairs[i].0)
        implies renamed(template, #[trigger] pairs[i]) is None by {
        lemma_name_absent(template, pairs[i].0);
    }
    if pairs.len() > 0 {
        let init = pairs.drop_last();
        lemma_unmatched_keys_omitted(template, init);
        let m = matched(template, pairs);
        let mi = matched(template, init);
        assert forall|j: int| 0 <= j < m.len() implies exists|i: int| 0 <= i < pairs.len()
            && (exists|k: int| 0 <= k < template.len() && #[trigger] template[k].0 == pairs[i].0)
            && renamed(template, #[trigger] pairs[i]) == Some(#[trigger] m[j]) by {
            if j < mi.len() {
                assert(m[j] == mi[j]);
                let i = choose|i: int| 0 <= i < init.len()
                    && (exists|k: int| 0 <= k < template.len() && #[trigger] template[k].0 == init[i].0)
                    && renamed(template, #[trigger] init[i]) == Some(mi[j]);
                assert(init[i] == pairs[i]);
            } else {
                let last = pairs.len() - 1;
                assert(pairs[last] == pairs.last());
                if forall|k: int| 0 <= k < template.len() ==> #[trigger] template[k].0 != pairs[last].0 {
                    lemma_name_absent(template, pairs[last].0);
                }
            }
        }
    }
}

proof fn lemma_name_absent(template: Seq<(Seq<char>, Seq<char>)>, key: Seq<char>)
    requires
        forall|i: int| 0 <= i < template.len() ==> #[trigger] template[i].0 != key,
    ensures
        template_name(template, key) is None,
    decreases template.len(),
{
    if template.len() > 0 {
        assert(template[template.len() - 1].0 != key);
        assert forall|i: int| 0 <= i < template.drop_last().len() implies #[trigger] template.drop_last()[i].0 != key by {
            assert(template[i].0 != key);
        }
        lemma_name_absent(template.drop_last(), key);
    }
}

/// The pairs that the leaves of a flattened document emit: a string's content, else nothing.
pub open spec fn leaf_pairs(entries: Seq<(Seq<char>, JsonValue)>) -> Seq<(Seq<char>, Seq<char>)> {
    entries.map_values(|e: (Seq<char>, JsonValue)| (e.0, leaf_text_of(e.1)))
}

pub fn json_pairs(entries: &Vec<(String, JsonValue)>) -> (r: Vec<(String, String)>)
    ensures
        pairs_view(r@) == leaf_pairs(entries_view(entries@)),
{
    let mut r: Vec<(String, String)> = Vec::new();
    let mut i: usize = 0;
    while i < entries.len()
        invariant
            i <= entries.len(),
            pairs_view(r@) == leaf_pairs(entries_view(entries@).take(i as int)),
        decreases entries.len() - i,
    {
        let ghost before = r@;
        r.push((entries[i].0.clone(), leaf_text(&entries[i].1)));
        assert(pairs_view(r@) =~= pairs_view(before).push(pairs_view(r@).last()));
        assert(leaf_pairs(entries_view(entries@).take(i + 1)) =~= leaf_pairs(entries_view(entries@).take(i as int)).push(
            pairs_view(r@).last()));
        i = i + 1;
    }
    assert(entries_view(entries@).take(entries.len() as int) =~= entries_view(entries@));
    r
}


/// The name that a template leaf gives: its JSON text without quotes.
pub open spec fn leaf_name_of(v: JsonValue) -> Seq<char> {
    match v {
        JsonValue::Null => "null"@,
        JsonValue::Bool(b) => if b { "true"@ } else { "false"@ },
        JsonValue::Number(n) => n@,
        JsonValue::String(s) => s@,
        _ => Seq::empty(),
    }
}

fn leaf_name(v: &JsonValue) -> (r: String)
    ensures
        r@ == leaf_name_of(*v),
{
    match v {
        JsonValue::Null => String::from_str("null"),
        JsonValue::Bool(b) => if *b { String::from_str("true") } else { String::from_str("false") },
        JsonValue::Number(n) => n.clone(),
        JsonValue::String(s) => s.clone(),
        _ => String::new(),
    }
}

/// The template that a flattened JSON template gives: each path with its leaf's name.
pub open spec fn leaf_names(entries: Seq<(Seq<char>, JsonValue)>) -> Seq<(Seq<char>, Seq<char>)> {
    entries.map_values(|e: (Seq<char>, JsonValue)| (e.0, leaf_name_of(e.1)))
}

/// Builds the rename template from a parsed JSON match template.
pub fn json_template(template: &JsonValue) -> (r: Vec<(String, String)>)
    ensures
        pairs_view(r@) == leaf_names(crate::json::flat_entries(*template, Seq::empty())),
{
    let mut entries: Vec<(String, JsonValue)> = Vec::new();
    crate::json::dfs_flatten(template, &mut entries, &String::new());
    assert(entries_view(entries@) =~= crate::json::flat_entries(*template, Seq::empty()));
    let mut r: Vec<(String, String)> = Vec::new();
    let mut i: usize = 0;
    while i < entries.len()
        invariant
            i <= entries.len(),
            pairs_view(r@) == leaf_names(entries_view(entries@).take(i as int)),
        decreases entries.len() - i,
    {
        let ghost before = r@;
        r.push((entries[i].0.clone(), leaf_name(&entries[i].1)));
        assert(pairs_view(r@) =~= pairs_view(before).push(pairs_view(r@).last()));
        assert(leaf_names(entries_view(entries@).take(i + 1)) =~= leaf_names(entries_view(entries@).take(i as int)).push(
            pairs_view(r@).last()));
        i = i + 1;
    }
    assert(entries_view(entries@).take(entries.len() as int) =~= entries_view(entries@));
    r
}

/// Builds the rename template from a dotenv match template.
pub fn dotenv_template(template: &str, environment: Vec<(String, String)>) -> (r: Result<Vec<(String, String)>, Error>)
    ensures
        match crate::dotenv::document(crate::dotenv::into_fixed_spec(template@), 0, environment@, Map::empty()) {
            Ok(ps) => r is Ok && pairs_view(r->Ok_0@) == ps,
            Err((line, n)) => r is Err && r->Err_0 is LineParse && r->Err_0->LineParse_0@ == line
                && r->Err_0->LineParse_1 == n,
        },
{
    let fixed = crate::dotenv::into_fixed(template);
    crate::dotenv::parse_document(fixed.as_str(), environment)
}

} // verus!
