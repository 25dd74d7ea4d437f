//! Rendering of emitted pairs: the key separator, the key casing and the export line.
use vstd::prelude::*;
use crate::text::{lower_of, upper_of, to_lower, to_upper, push_char};

verus! {

/// Joins path segments inside flattened keys; it never occurs in legitimate content.
pub const PATH_SEPARATOR: char = '\u{1F}';

/// How emitted keys are cased.
#[derive(Debug, Clone, Copy, PartialEq, Eq)]
pub enum Casing {
    /// Keys pass through unchanged.
    Insensitive,
    /// Keys are lowercased.
    Lower,
    /// Keys are uppercased.
    Upper,
}

impl Default for Casing {
    fn default() -> (r: Casing)
        ensures
            r == Casing::Insensitive,
    {
        Casing::Insensitive
    }
}

/// The key that a casing mode makes of `s`.
pub open spec fn cased(casing: Casing, s: Seq<char>) -> Seq<char> {
    match casing {
        Casing::Insensitive => s,
        Casing::Lower => lower_of(s),
        Casing::Upper => upper_of(s),
    }
}

impl Casing {
    /// Applies the casing mode to `value`.
    pub fn apply(self, value: &str) -> (r: String)
        ensures
            r@ == cased(self, value@),
    {
        match self {
            Casing::Insensitive => value.to_owned(),
            Casing::Lower => to_lower(value),
            Casing::Upper => to_upper(value),
        }
    }

    /// The mode's name on the command line.
    pub fn name(&self) -> (r: String)
        ensures
            *self == Casing::Insensitive ==> r@ == "insensitive"@,
            *self == Casing::Lower ==> r@ == "lower"@,
            *self == Casing::Upper ==> r@ == "upper"@,
    {
        match self {
            Casing::Insensitive => String::from_str("insensitive"),
            Casing::Lower => String::from_str("lower"),
            Casing::Upper => String::from_str("upper"),
        }
    }
}

/// `s` with every private path separator replaced by `sep`.
pub open spec fn with_separator(s: Seq<char>, sep: char) -> Seq<char>
    decreases s.len(),
{
    if s.len() == 0 {
        s
    } else {
        with_separator(s.drop_last(), sep).push(
            if s.last() == PATH_SEPARATOR { sep } else { s.last() },
        )
    }
}

/// The export line emitted for one pair: `KEY=VALUE; export KEY;`.
pub open spec fn export_line(key: Seq<char>, value: Seq<char>) -> Seq<char> {
    key + seq!['='] + value + seq![';', ' ', 'e', 'x', 'p', 'o', 'r', 't', ' '] + key + seq![';']
}

/// How emitted pairs are rendered: the user-visible separator and the key casing.
pub struct Output {
    pub casing: Casing,
    pub separator: char,
}

impl Output {
    pub fn new(casing: Casing, separator: char) -> (r: Output)
        ensures
            r.casing == casing,
            r.separator == separator,
    {
        Output { casing, separator }
    }

    /// The user-visible key for a flattened key.
    pub open spec fn key_view(&self, key: Seq<char>) -> Seq<char> {
        cased(self.casing, with_separator(key, self.separator))
    }

    /// Renders a flattened key: separators first, then casing.
    pub fn render_key(&self, key: &str) -> (r: String)
        ensures
            r@ == self.key_view(key@),
    {
        let chars = crate::text::chars_of(key);
        let mut joined = String::new();
        let mut i: usize = 0;
        while i < chars.len()
            invariant
                i <= chars.len(),
                chars@ == key@,
                joined@ == with_separator(chars@.take(i as int), self.separator),
            decreases chars.len() - i,
        {
            let c = chars[i];
            push_char(&mut joined, if c == PATH_SEPARATOR { self.separator } else { c });
            proof {
                assert(chars@.take(i as int + 1).drop_last() =~= chars@.take(i as int));
            }
            i = i + 1;
        }
        proof {
            assert(chars@.take(chars.len() as int) =~= key@);
        }
        self.casing.apply(joined.as_str())
    }

    /// The export line for one pair; the value is left as it is.
    pub fn line(&self, key: &str, value: &str) -> (r: String)
        ensures
            r@ == export_line(self.key_view(key@), value@),
    {
        let k = self.render_key(key);
        let mut r = k.clone();
        push_char(&mut r, '=');
        r.append(value);
        r.append("; export ");
        r.append(k.as_str());
        push_char(&mut r, ';');
        proof {
            reveal_strlit("; export ");
            assert(r@ =~= export_line(self.key_view(key@), value@));
        }
        r
    }
}

/// The script written for a spawned pair: a shebang naming `shell`, then an `echo` of `value`.
pub fn binary_template(shell: &str, value: &str) -> (r: String)
    ensures
        r@ == seq!['\n', '#', '!'] + shell@ + seq!['\n', 'e', 'c', 'h', 'o', ' '] + value@
            + seq!['\n', ' ', ' ', ' ', ' '],
{
    let mut r = String::from_str("\n#!");
    r.append(shell);
    r.append("\necho ");
    r.append(value);
    r.append("\n    ");
    proof {
        reveal_strlit("\n#!");
        reveal_strlit("\necho ");
        reveal_strlit("\n    ");
        assert(r@ =~= seq!['\n', '#', '!'] + shell@ + seq!['\n', 'e', 'c', 'h', 'o', ' ']
            + value@ + seq!['\n', ' ', ' ', ' ', ' ']);
    }
    r
}

/// Emitted values never depend on the casing or the separator: only keys are rendered.
pub proof fn lemma_casing_keeps_values(o: Output, key: Seq<char>, value: Seq<char>)
    ensures
        export_line(o.key_view(key), value).subrange(
            o.key_view(key).len() as int + 1,
            o.key_view(key).len() as int + 1 + value.len(),
        ) == value,
        o.casing == Casing::Insensitive ==> o.key_view(key) == with_separator(key, o.separator),
        o.casing == Casing::Upper ==> o.key_view(key) == upper_of(with_separator(key, o.separator)),
        o.casing == Casing::Lower ==> o.key_view(key) == lower_of(with_separator(key, o.separator)),
{
    let k = o.key_view(key);
    assert(export_line(k, value).subrange(k.len() as int + 1, k.len() as int + 1 + value.len()) =~= value);
}

/// A key with no private separator (a single segment) is unchanged by any separator;
/// in every other key each separator becomes the chosen character.
pub proof fn lemma_separator_only_joins(key: Seq<char>, sep: char)
    ensures
        with_separator(key, sep).len() == key.len(),
        forall|i: int| 0 <= i < key.len() ==> #[trigger] with_separator(key, sep)[i] == (
            if key[i] == PATH_SEPARATOR { sep } else { key[i] }),
        (forall|i: int| 0 <= i < key.len() ==> key[i] != PATH_SEPARATOR) ==> with_separator(key, sep) == key,
    decreases key.len(),
{
    if key.len() > 0 {
        lemma_separator_only_joins(key.drop_last(), sep);
        if forall|i: int| 0 <= i < key.len() ==> key[i] != PATH_SEPARATOR {
            assert(with_separator(key, sep) =~= key);
        }
    } else {
        assert(with_separator(key, sep) =~= key);
    }
}

} // verus!
