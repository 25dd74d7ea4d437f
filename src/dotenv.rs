//! Parser for dotenv text: `[export ]KEY=VALUE` lines with quoting, escapes and substitution.
use vstd::prelude::*;
use crate::error::Error;
use crate::text::{is_ascii_alpha, is_ascii_digit, is_ws, is_whitespace, alphanumeric, is_alphanumeric, chars_of, push_char,
    utf8_len, byte_len, utf8_len_of, lemma_utf8_len_subrange};

verus! {

pub open spec fn opt_view(o: Option<String>) -> Option<Seq<char>> {
    match o {
        Some(s) => Some(s@),
        None => None,
    }
}

/// The value stored last for `name` among `entries`, if any.
pub open spec fn lookup_entries(entries: Seq<(String, Option<String>)>, name: Seq<char>) -> Option<Option<Seq<char>>>
    decreases entries.len(),
{
    if entries.len() == 0 {
        None
    } else if entries.last().0@ == name {
        Some(opt_view(entries.last().1))
    } else {
        lookup_entries(entries.drop_last(), name)
    }
}

/// The values that earlier lines of one document defined; `None` marks a key declared with
/// no value.
pub struct SubstitutionData {
    entries: Vec<(String, Option<String>)>,
}

impl View for SubstitutionData {
    type V = Map<Seq<char>, Option<Seq<char>>>;

    closed spec fn view(&self) -> Map<Seq<char>, Option<Seq<char>>> {
        Map::new(
            |k: Seq<char>| lookup_entries(self.entries@, k) is Some,
            |k: Seq<char>| lookup_entries(self.entries@, k)->0,
        )
    }
}

impl SubstitutionData {
    pub fn new() -> (r: SubstitutionData)
        ensures
            r@ == Map::<Seq<char>, Option<Seq<char>>>::empty(),
    {
        let r = SubstitutionData { entries: Vec::new() };
        assert(r@ =~= Map::<Seq<char>, Option<Seq<char>>>::empty());
        r
    }

    /// Records `value` for `key`, replacing what was there.
    pub fn insert(&mut self, key: String, value: Option<String>)
        ensures
            final(self)@ == old(self)@.insert(key@, opt_view(value)),
    {
        let ghost k = key@;
        let ghost v = opt_view(value);
        self.entries.push((key, value));
        assert(self@ =~= old(self)@.insert(k, v)) by {
            assert(self.entries@.drop_last() =~= old(self).entries@);
        }
    }

    /// The value stored for `name`, when one is stored and it is not `None`.
    pub fn get(&self, name: &String) -> (r: Option<String>)
        ensures
            opt_view(r) == (if self@.contains_key(name@) { self@[name@] } else { None }),
    {
        let mut i: usize = self.entries.len();
        assert(self.entries@.take(i as int) =~= self.entries@);
        while i > 0
            invariant
                i <= self.entries.len(),
                lookup_entries(self.entries@.take(i as int), name@) == lookup_entries(self.entries@, name@),
            decreases i,
        {
            assert(self.entries@.take(i as int).drop_last() =~= self.entries@.take(i - 1));
            if self.entries[i - 1].0 == *name {
                return self.entries[i - 1].1.clone();
            }
            i = i - 1;
        }
        None
    }
}

/// The value that an environment snapshot holds for `name`: its first entry of that name.
pub open spec fn env_lookup(env: Seq<(String, String)>, name: Seq<char>) -> Option<Seq<char>>
    decreases env.len(),
{
    if env.len() == 0 {
        None
    } else if env[0].0@ == name {
        Some(env[0].1@)
    } else {
        env_lookup(env.drop_first(), name)
    }
}

/// What a `$NAME` reference stands for: the environment's value first, then the document's
/// own definition when it has a value, else nothing.
pub open spec fn resolve(
    name: Seq<char>,
    env: Seq<(String, String)>,
    data: Map<Seq<char>, Option<Seq<char>>>,
) -> Seq<char> {
    if env_lookup(env, name) is Some {
        env_lookup(env, name)->0
    } else if data.contains_key(name) && data[name] is Some {
        data[name]->0
    } else {
        Seq::empty()
    }
}

fn env_var(env: &Vec<(String, String)>, name: &String) -> (r: Option<String>)
    ensures
        opt_view(r) == env_lookup(env@, name@),
{
    let mut i: usize = 0;
    assert(env@.subrange(0, env.len() as int) =~= env@);
    while i < env.len()
        invariant
            i <= env.len(),
            env_lookup(env@.subrange(i as int, env.len() as int), name@) == env_lookup(env@, name@),
        decreases env.len() - i,
    {
        assert(env@.subrange(i as int, env.len() as int).drop_first() =~= env@.subrange(i + 1, env.len() as int));
        if env[i].0 == *name {
            return Some(env[i].1.clone());
        }
        i = i + 1;
    }
    None
}

/// Appends what `name` resolves to.
pub fn apply_substitution(
    data: &SubstitutionData,
    env: &Vec<(String, String)>,
    name: &String,
    output: &mut String,
)
    ensures
        final(output)@ == old(output)@ + resolve(name@, env@, data@),
{
    match env_var(env, name) {
        Some(v) => output.append(v.as_str()),
        None => match data.get(name) {
            Some(v) => output.append(v.as_str()),
            None => {
                assert(old(output)@ + resolve(name@, env@, data@) =~= old(output)@);
            },
        },
    }
}

/// Which kind of `$` reference the value scanner is inside.
#[derive(Debug, Clone, Copy, PartialEq, Eq, Structural)]
pub enum SubstitutionMode {
    Off,
    /// A bare `$NAME`.
    Block,
    /// A braced `${NAME}`.
    EscapedBlock,
}

/// The value scanner's state after some prefix of a value.
pub struct ValueScan {
    pub strong_quote: bool,
    pub weak_quote: bool,
    pub escaped: bool,
    pub expecting_end: bool,
    /// A trailing comment began: the rest of the value is ignored.
    pub stopped: bool,
    pub mode: SubstitutionMode,
    pub name: Seq<char>,
    pub output: Seq<char>,
}

pub open spec fn scan_start() -> ValueScan {
    ValueScan {
        strong_quote: false,
        weak_quote: false,
        escaped: false,
        expecting_end: false,
        stopped: false,
        mode: SubstitutionMode::Off,
        name: Seq::empty(),
        output: Seq::empty(),
    }
}

/// One character `c`, at offset `i` of the value, taken by the scanner; `Err` holds the offset
/// of a character that is not allowed there.
pub open spec fn scan_step(
    st: ValueScan,
    c: char,
    i: nat,
    env: Seq<(String, String)>,
    data: Map<Seq<char>, Option<Seq<char>>>,
) -> Result<ValueScan, nat> {
    if st.expecting_end {
        if c == ' ' || c == '\t' {
            Ok(st)
        } else if c == '#' {
            Ok(ValueScan { stopped: true, ..st })
        } else {
            Err(i)
        }
    } else if st.escaped {
        if c == '\\' || c == '\'' || c == '"' || c == '$' || c == ' ' {
            Ok(ValueScan { escaped: false, output: st.output.push(c), ..st })
        } else if c == 'n' {
            Ok(ValueScan { escaped: false, output: st.output.push('\n'), ..st })
        } else {
            Err(i)
        }
    } else if st.strong_quote {
        if c == '\'' {
            Ok(ValueScan { strong_quote: false, ..st })
        } else {
            Ok(ValueScan { output: st.output.push(c), ..st })
        }
    } else if st.mode != SubstitutionMode::Off {
        if alphanumeric(c) {
            Ok(ValueScan { name: st.name.push(c), ..st })
        } else if st.mode == SubstitutionMode::Block {
            if c == '{' && st.name.len() == 0 {
                Ok(ValueScan { mode: SubstitutionMode::EscapedBlock, ..st })
            } else if c == '$' {
                Ok(ValueScan { name: Seq::empty(), output: st.output + resolve(st.name, env, data), ..st })
            } else {
                Ok(ValueScan {
                    mode: SubstitutionMode::Off,
                    name: Seq::empty(),
                    output: (st.output + resolve(st.name, env, data)).push(c),
                    ..st
                })
            }
        } else if c == '}' {
            Ok(ValueScan {
                mode: SubstitutionMode::Off,
                name: Seq::empty(),
                output: st.output + resolve(st.name, env, data),
                ..st
            })
        } else {
            Ok(ValueScan { name: st.name.push(c), ..st })
        }
    } else if c == '$' {
        Ok(ValueScan { mode: SubstitutionMode::Block, ..st })
    } else if st.weak_quote {
        if c == '"' {
            Ok(ValueScan { weak_quote: false, ..st })
        } else if c == '\\' {
            Ok(ValueScan { escaped: true, ..st })
        } else {
            Ok(ValueScan { output: st.output.push(c), ..st })
        }
    } else if c == '\'' {
        Ok(ValueScan { strong_quote: true, ..st })
    } else if c == '"' {
        Ok(ValueScan { weak_quote: true, ..st })
    } else if c == '\\' {
        Ok(ValueScan { escaped: true, ..st })
    } else if c == ' ' || c == '\t' {
        Ok(ValueScan { expecting_end: true, ..st })
    } else {
        Ok(ValueScan { output: st.output.push(c), ..st })
    }
}

/// The scanner's state after the first `n` characters of `input`.
pub open spec fn scan(
    input: Seq<char>,
    n: nat,
    env: Seq<(String, String)>,
    data: Map<Seq<char>, Option<Seq<char>>>,
) -> Result<ValueScan, nat>
    decreases n,
{
    if n == 0 {
        Ok(scan_start())
    } else {
        match scan(input, (n - 1) as nat, env, data) {
            Ok(st) => if st.stopped {
                Ok(st)
            } else {
                scan_step(st, input[n - 1], (n - 1) as nat, env, data)
            },
            Err(e) => Err(e),
        }
    }
}

/// The resolved value of `input` (what follows `KEY=`), or the byte offset of the error.
/// An unterminated quote or braced reference is reported at the last byte.
pub open spec fn value_result(
    input: Seq<char>,
    env: Seq<(String, String)>,
    data: Map<Seq<char>, Option<Seq<char>>>,
) -> Result<Seq<char>, nat> {
    match scan(input, input.len(), env, data) {
        Err(e) => Err(utf8_len(input.take(e as int))),
        Ok(st) => if st.mode == SubstitutionMode::EscapedBlock || st.strong_quote || st.weak_quote {
            Err(if utf8_len(input) == 0 { 0 } else { (utf8_len(input) - 1) as nat })
        } else if st.mode == SubstitutionMode::Block {
            Ok(st.output + resolve(st.name, env, data))
        } else {
            Ok(st.output)
        },
    }
}

/// Once the scan has failed or met a trailing comment, later characters change nothing.
pub proof fn lemma_scan_settled(
    input: Seq<char>,
    n: nat,
    m: nat,
    env: Seq<(String, String)>,
    data: Map<Seq<char>, Option<Seq<char>>>,
)
    requires
        n <= m,
        scan(input, n, env, data) is Err || scan(input, n, env, data)->Ok_0.stopped,
    ensures
        scan(input, m, env, data) == scan(input, n, env, data),
    decreases m - n,
{
    if n < m {
        lemma_scan_settled(input, n, (m - 1) as nat, env, data);
    }
}

proof fn value_error_bound(chars: Seq<char>, start: int, i: int)
    requires
        0 <= start <= i <= chars.len(),
    ensures
        chars.subrange(start, chars.len() as int).take(i - start) == chars.subrange(start, i),
        utf8_len(chars.take(start)) + utf8_len(chars.subrange(start, i)) <= utf8_len(chars),
{
    assert(chars.subrange(start, chars.len() as int).take(i - start) =~= chars.subrange(start, i));
    lemma_utf8_len_subrange(chars, start, i);
    lemma_utf8_len_subrange(chars, 0, i);
    assert(chars.subrange(0, i) =~= chars.take(i));
}

/// Resolves the value that follows `KEY=` in `chars[start..]`; `Err` holds the offset, counted
/// in bytes from `start`, where the value went wrong.
fn parse_value(
    chars: &Vec<char>,
    start: usize,
    env: &Vec<(String, String)>,
    data: &SubstitutionData,
) -> (r: Result<String, usize>)
    requires
        start <= chars.len(),
        utf8_len(chars@) <= usize::MAX,
    ensures
        match r {
            Ok(s) => value_result(chars@.subrange(start as int, chars.len() as int), env@, data@) == Ok::<Seq<char>, nat>(s@),
            Err(e) => value_result(chars@.subrange(start as int, chars.len() as int), env@, data@) == Err::<Seq<char>, nat>(e as nat)
                && utf8_len(chars@.take(start as int)) + e <= utf8_len(chars@),
        },
{
    let ghost input = chars@.subrange(start as int, chars.len() as int);
    let mut strong_quote = false;
    let mut weak_quote = false;
    let mut escaped = false;
    let mut expecting_end = false;
    let mut output = String::new();
    let mut substitution_mode = SubstitutionMode::Off;
    let mut substitution_name = String::new();
    let mut idx: usize = start;
    let mut stopped = false;
    while idx < chars.len()
        invariant_except_break
            scan(input, (idx - start) as nat, env@, data@) == Ok::<ValueScan, nat>(ValueScan {
                strong_quote,
                weak_quote,
                escaped,
                expecting_end,
                stopped,
                mode: substitution_mode,
                name: substitution_name@,
                output: output@,
            }),
            !stopped,
        invariant
            start <= idx <= chars.len(),
            input == chars@.subrange(start as int, chars.len() as int),
            utf8_len(chars@) <= usize::MAX,
        ensures
            scan(input, input.len(), env@, data@) == Ok::<ValueScan, nat>(ValueScan {
                strong_quote,
                weak_quote,
                escaped,
                expecting_end,
                stopped,
                mode: substitution_mode,
                name: substitution_name@,
                output: output@,
            }),
        decreases chars.len() - idx,
    {
        let c = chars[idx];
        let index = idx - start;
        assert(input[index as int] == c);
        if expecting_end {
            if c == ' ' || c == '\t' {
            } else if c == '#' {
                stopped = true;
                idx = idx + 1;
                proof {
                    lemma_scan_settled(input, (idx - start) as nat, input.len(), env@, data@);
                }
                break;
            } else {
                proof {
                    lemma_scan_settled(input, (index + 1) as nat, input.len(), env@, data@);
                    value_error_bound(chars@, start as int, idx as int);
                }
                return Err(utf8_len_of(chars, start, idx));
            }
        } else if escaped {
            if c == '\\' || c == '\'' || c == '"' || c == '$' || c == ' ' {
                push_char(&mut output, c);
            } else if c == 'n' {
                push_char(&mut output, '\n');
            } else {
                proof {
                    lemma_scan_settled(input, (index + 1) as nat, input.len(), env@, data@);
                    value_error_bound(chars@, start as int, idx as int);
                }
                return Err(utf8_len_of(chars, start, idx));
            }
            escaped = false;
        } else if strong_quote {
            if c == '\'' {
                strong_quote = false;
            } else {
                push_char(&mut output, c);
            }
        } else if substitution_mode != SubstitutionMode::Off {
            if is_alphanumeric(c) {
                push_char(&mut substitution_name, c);
            } else if substitution_mode == SubstitutionMode::Block {
                if c == '{' && substitution_name.unicode_len() == 0 {
                    substitution_mode = SubstitutionMode::EscapedBlock;
                } else {
                    apply_substitution(data, env, &substitution_name, &mut output);
                    substitution_name = String::new();
                    if c != '$' {
                        substitution_mode = SubstitutionMode::Off;
                        push_char(&mut output, c);
                    }
                }
            } else if c == '}' {
                substitution_mode = SubstitutionMode::Off;
                apply_substitution(data, env, &substitution_name, &mut output);
                substitution_name = String::new();
            } else {
                push_char(&mut substitution_name, c);
            }
        } else if c == '$' {
            substitution_mode = SubstitutionMode::Block;
        } else if weak_quote {
            if c == '"' {
                weak_quote = false;
            } else if c == '\\' {
                escaped = true;
            } else {
                push_char(&mut output, c);
            }
        } else if c == '\'' {
            strong_quote = true;
        } else if c == '"' {
            weak_quote = true;
        } else if c == '\\' {
            escaped = true;
        } else if c == ' ' || c == '\t' {
            expecting_end = true;
        } else {
            push_char(&mut output, c);
        }
        idx = idx + 1;
    }
    if substitution_mode == SubstitutionMode::EscapedBlock || strong_quote || weak_quote {
        proof {
            value_error_bound(chars@, start as int, chars.len() as int);
        }
        let len = utf8_len_of(chars, start, chars.len());
        Err(if len == 0 { 0 } else { len - 1 })
    } else {
        if substitution_mode == SubstitutionMode::Block {
            apply_substitution(data, env, &substitution_name, &mut output);
        }
        Ok(output)
    }
}


/// Length of `s` without its trailing whitespace.
pub open spec fn trimmed_len(s: Seq<char>) -> nat
    decreases s.len(),
{
    if s.len() > 0 && is_ws(s.last()) {
        trimmed_len(s.drop_last())
    } else {
        s.len()
    }
}

/// The first offset at or after `i` that holds no whitespace (or the end).
pub open spec fn skip_ws(t: Seq<char>, i: nat) -> nat
    decreases t.len() - i,
{
    if i < t.len() && is_ws(t[i as int]) {
        skip_ws(t, i + 1)
    } else {
        i
    }
}

pub open spec fn is_key_start(c: char) -> bool {
    is_ascii_alpha(c) || c == '_'
}

pub open spec fn is_key_char(c: char) -> bool {
    is_ascii_alpha(c) || is_ascii_digit(c) || c == '_' || c == '.'
}

/// The end of the key that starts at `i`.
pub open spec fn key_end(t: Seq<char>, i: nat) -> nat
    decreases t.len() - i,
{
    if i < t.len() && is_key_char(t[i as int]) {
        key_end(t, i + 1)
    } else {
        i
    }
}

pub open spec fn export_word() -> Seq<char> {
    seq!['e', 'x', 'p', 'o', 'r', 't']
}

fn is_key_start_character(c: char) -> (r: bool)
    ensures
        r == is_key_start(c),
{
    ('a' <= c && c <= 'z') || ('A' <= c && c <= 'Z') || c == '_'
}

fn is_key_character(c: char) -> (r: bool)
    ensures
        r == is_key_char(c),
{
    ('a' <= c && c <= 'z') || ('A' <= c && c <= 'Z') || ('0' <= c && c <= '9') || c == '_' || c == '.'
}

/// What one line of a document gives.
pub enum LineOutcome {
    /// A blank line or a comment.
    Skip,
    /// A key, its value, and whether a value was written (`KEY=` alone declares the key).
    Pair(Seq<char>, Seq<char>, bool),
    /// A malformed line, with the byte offset of the failure.
    Fail(nat),
}

/// The outcome once the key is read and `=` is found just before offset `after`.
pub open spec fn outcome_after_equal(
    t: Seq<char>,
    key: Seq<char>,
    after: nat,
    env: Seq<(String, String)>,
    data: Map<Seq<char>, Option<Seq<char>>>,
) -> LineOutcome {
    let p = skip_ws(t, after);
    if p >= t.len() || t[p as int] == '#' {
        LineOutcome::Pair(key, Seq::empty(), false)
    } else {
        match value_result(t.subrange(p as int, t.len() as int), env, data) {
            Ok(v) => LineOutcome::Pair(key, v, true),
            Err(o) => LineOutcome::Fail(utf8_len(t.take(p as int)) + o),
        }
    }
}

/// What `line` gives, given the environment and what earlier lines defined.
pub open spec fn line_outcome(
    line: Seq<char>,
    env: Seq<(String, String)>,
    data: Map<Seq<char>, Option<Seq<char>>>,
) -> LineOutcome {
    let t = line.take(trimmed_len(line) as int);
    let p0 = skip_ws(t, 0);
    if p0 >= t.len() || t[p0 as int] == '#' {
        LineOutcome::Skip
    } else if !is_key_start(t[p0 as int]) {
        LineOutcome::Fail(utf8_len(t.take(p0 as int)))
    } else {
        let k1 = key_end(t, p0);
        let key = t.subrange(p0 as int, k1 as int);
        let p1 = skip_ws(t, k1);
        if p1 < t.len() && t[p1 as int] == '=' {
            outcome_after_equal(t, key, p1 + 1, env, data)
        } else if key != export_word() {
            LineOutcome::Fail(utf8_len(t.take(p1 as int)))
        } else if !(p1 < t.len() && is_key_start(t[p1 as int])) {
            LineOutcome::Fail(utf8_len(t.take(p1 as int)))
        } else {
            let k2 = key_end(t, p1);
            let p2 = skip_ws(t, k2);
            if p2 < t.len() && t[p2 as int] == '=' {
                outcome_after_equal(t, t.subrange(p1 as int, k2 as int), p2 + 1, env, data)
            } else {
                LineOutcome::Fail(utf8_len(t.take(p2 as int)))
            }
        }
    }
}

/// What the substitution data holds after a line with outcome `o`.
pub open spec fn data_after(
    o: LineOutcome,
    data: Map<Seq<char>, Option<Seq<char>>>,
) -> Map<Seq<char>, Option<Seq<char>>> {
    match o {
        LineOutcome::Pair(k, v, true) => data.insert(k, Some(v)),
        LineOutcome::Pair(k, _, false) => data.insert(k, None),
        _ => data,
    }
}

/// A result of the parser against an outcome: pairs and offsets as the outcome says, and
/// errors that carry `line`.
pub open spec fn result_matches(
    r: Result<Option<(String, String)>, Error>,
    o: LineOutcome,
    line: Seq<char>,
) -> bool {
    match o {
        LineOutcome::Skip => r is Ok && r->Ok_0 is None,
        LineOutcome::Pair(k, v, _) => r is Ok && r->Ok_0 is Some && pair_view(r->Ok_0->0) == (k, v),
        LineOutcome::Fail(n) => r is Err && r->Err_0 is LineParse && r->Err_0->LineParse_0@ == line
            && r->Err_0->LineParse_1 == n,
    }
}

pub open spec fn pair_view(p: (String, String)) -> (Seq<char>, Seq<char>) {
    (p.0@, p.1@)
}

struct LineParser {
    original_line: String,
    chars: Vec<char>,
    end: usize,
    pos: usize,
}

impl LineParser {
    spec fn wf(&self) -> bool {
        &&& self.chars@ == self.original_line@
        &&& self.end == trimmed_len(self.chars@)
        &&& self.end <= self.chars.len()
        &&& self.pos <= self.end
        &&& utf8_len(self.chars@) <= usize::MAX
    }

    spec fn rest(&self) -> Seq<char> {
        self.chars@.take(self.end as int)
    }

    fn new(line: &str) -> (r: LineParser)
        ensures
            r.wf(),
            r.original_line@ == line@,
            r.pos == 0,
    {
        let chars = chars_of(line);
        let mut end: usize = chars.len();
        assert(chars@.take(end as int) =~= chars@);
        while end > 0 && is_whitespace(chars[end - 1])
            invariant
                end <= chars.len(),
                trimmed_len(chars@.take(end as int)) == trimmed_len(chars@),
            decreases end,
        {
            assert(chars@.take(end as int).drop_last() =~= chars@.take(end - 1));
            end = end - 1;
        }
        proof {
            lemma_trimmed_len_bound(chars@.take(end as int));
        }
        let _bytes = byte_len(line);
        LineParser { original_line: line.to_owned(), chars, end, pos: 0 }
    }

    fn err(&self) -> (r: Error)
        requires
            self.wf(),
        ensures
            r is LineParse && r->LineParse_0@ == self.original_line@
                && r->LineParse_1 == utf8_len(self.rest().take(self.pos as int)),
    {
        assert(self.chars@.subrange(0, self.pos as int) =~= self.rest().take(self.pos as int));
        Error::LineParse(self.original_line.clone(), utf8_len_of(&self.chars, 0, self.pos))
    }

    fn skip_whitespace(&mut self)
        requires
            old(self).wf(),
        ensures
            final(self).wf(),
            final(self).pos == skip_ws(old(self).rest(), old(self).pos as nat),
            final(self).original_line == old(self).original_line,
            final(self).chars == old(self).chars,
            final(self).end == old(self).end,
    {
        let ghost t = self.rest();
        let ghost p = self.pos as nat;
        while self.pos < self.end && is_whitespace(self.chars[self.pos])
            invariant
                self.wf(),
                t == self.rest(),
                self.original_line == old(self).original_line,
                self.chars == old(self).chars,
                self.end == old(self).end,
                skip_ws(t, self.pos as nat) == skip_ws(t, p),
            decreases self.end - self.pos,
        {
            self.pos = self.pos + 1;
        }
    }

    fn parse_key(&mut self) -> (r: Result<String, Error>)
        requires
            old(self).wf(),
        ensures
            final(self).wf(),
            final(self).original_line == old(self).original_line,
            final(self).chars == old(self).chars,
            final(self).end == old(self).end,
            final(self).pos >= old(self).pos,
            old(self).pos < old(self).end && is_key_start(old(self).rest()[old(self).pos as int]) ==> {
                &&& r is Ok
                &&& r->Ok_0@ == old(self).rest().subrange(old(self).pos as int, key_end(old(self).rest(), old(self).pos as nat) as int)
                &&& final(self).pos == key_end(old(self).rest(), old(self).pos as nat)
            },
            !(old(self).pos < old(self).end && is_key_start(old(self).rest()[old(self).pos as int])) ==> {
                &&& r is Err && r->Err_0 is LineParse
                &&& r->Err_0->LineParse_0@ == old(self).original_line@
                &&& r->Err_0->LineParse_1 == utf8_len(old(self).rest().take(old(self).pos as int))
                &&& final(self).pos == old(self).pos
            },
    {
        let ghost t = self.rest();
        let start = self.pos;
        if !(self.pos < self.end && is_key_start_character(self.chars[self.pos])) {
            return Err(self.err());
        }
        let mut key = String::new();
        while self.pos < self.end && is_key_character(self.chars[self.pos])
            invariant
                self.wf(),
                t == self.rest(),
                start <= self.pos,
                self.original_line == old(self).original_line,
                self.chars == old(self).chars,
                self.end == old(self).end,
                key_end(t, self.pos as nat) == key_end(t, start as nat),
                key@ == t.subrange(start as int, self.pos as int),
            decreases self.end - self.pos,
        {
            push_char(&mut key, self.chars[self.pos]);
            self.pos = self.pos + 1;
            assert(key@ =~= t.subrange(start as int, self.pos as int));
        }
        Ok(key)
    }

    fn expect_equal(&mut self) -> (r: Result<(), Error>)
        requires
            old(self).wf(),
        ensures
            final(self).wf(),
            final(self).original_line == old(self).original_line,
            final(self).chars == old(self).chars,
            final(self).end == old(self).end,
            old(self).pos < old(self).end && old(self).rest()[old(self).pos as int] == '=' ==> {
                &&& r is Ok
                &&& final(self).pos == old(self).pos + 1
            },
            !(old(self).pos < old(self).end && old(self).rest()[old(self).pos as int] == '=') ==> {
                &&& r is Err && r->Err_0 is LineParse
                &&& r->Err_0->LineParse_0@ == old(self).original_line@
                &&& r->Err_0->LineParse_1 == utf8_len(old(self).rest().take(old(self).pos as int))
                &&& final(self).pos == old(self).pos
            },
    {
        if !(self.pos < self.end && self.chars[self.pos] == '=') {
            return Err(self.err());
        }
        self.pos = self.pos + 1;
        Ok(())
    }

    fn is_export(&self, start: usize) -> (r: bool)
        requires
            self.wf(),
            start <= self.pos,
        ensures
            r == (self.rest().subrange(start as int, self.pos as int) == export_word()),
    {
        let ghost k = self.rest().subrange(start as int, self.pos as int);
        if self.pos - start != 6 {
            assert(k.len() != export_word().len());
            return false;
        }
        let r = self.chars[start] == 'e' && self.chars[start + 1] == 'x' && self.chars[start + 2] == 'p'
            && self.chars[start + 3] == 'o' && self.chars[start + 4] == 'r' && self.chars[start + 5] == 't';
        proof {
            if r {
                assert(k =~= export_word());
            } else {
                if k == export_word() {
                    assert(k[0] == 'e' && k[1] == 'x' && k[2] == 'p' && k[3] == 'o' && k[4] == 'r' && k[5] == 't');
                }
            }
        }
        r
    }

    /// The value part: the pair, once `=` has been consumed.
    fn finish(
        &mut self,
        key: String,
        env: &Vec<(String, String)>,
        data: &mut SubstitutionData,
    ) -> (r: Result<Option<(String, String)>, Error>)
        requires
            old(self).wf(),
        ensures
            result_matches(r, outcome_after_equal(old(self).rest(), key@, old(self).pos as nat, env@, old(data)@), old(self).original_line@),
            final(data)@ == data_after(outcome_after_equal(old(self).rest(), key@, old(self).pos as nat, env@, old(data)@), old(data)@),
    {
        let ghost t = self.rest();
        self.skip_whitespace();
        if self.pos >= self.end || self.chars[self.pos] == '#' {
            data.insert(key.clone(), None);
            return Ok(Some((key, String::new())));
        }
        let mut value_chars = self.chars.clone();
        value_chars.truncate(self.end);
        assert(value_chars@ == t);
        proof {
            lemma_utf8_len_subrange(self.chars@, 0, self.end as int);
            assert(self.chars@.subrange(0, self.end as int) =~= t);
            assert(t.subrange(0, self.pos as int) =~= t.take(self.pos as int));
        }
        match parse_value(&value_chars, self.pos, env, data) {
            Ok(value) => {
                data.insert(key.clone(), Some(value.clone()));
                Ok(Some((key, value)))
            },
            Err(o) => {
                Err(Error::LineParse(self.original_line.clone(), utf8_len_of(&value_chars, 0, self.pos) + o))
            },
        }
    }

    fn parse_line(
        &mut self,
        env: &Vec<(String, String)>,
        data: &mut SubstitutionData,
    ) -> (r: Result<Option<(String, String)>, Error>)
        requires
            old(self).wf(),
            old(self).pos == 0,
        ensures
            result_matches(r, line_outcome(old(self).original_line@, env@, old(data)@), old(self).original_line@),
            final(data)@ == data_after(line_outcome(old(self).original_line@, env@, old(data)@), old(data)@),
    {
        let ghost t = self.rest();
        self.skip_whitespace();
        if self.pos >= self.end || self.chars[self.pos] == '#' {
            return Ok(None);
        }
        let start = self.pos;
        let mut key = self.parse_key()?;
        let is_export = self.is_export(start);
        self.skip_whitespace();
        if self.pos < self.end && self.chars[self.pos] == '=' {
            self.expect_equal()?;
            return self.finish(key, env, data);
        }
        if !is_export {
            return Err(self.err());
        }
        key = self.parse_key()?;
        self.skip_whitespace();
        self.expect_equal()?;
        self.finish(key, env, data)
    }
}

proof fn lemma_trimmed_len_bound(s: Seq<char>)
    ensures
        trimmed_len(s) <= s.len(),
    decreases s.len(),
{
    if s.len() > 0 && is_ws(s.last()) {
        lemma_trimmed_len_bound(s.drop_last());
    }
}

/// Parses one line of a document: `Ok(None)` for a blank line or a comment, else the pair.
/// A pair is recorded in `data`, so that later lines can refer to it.
pub fn parse_line(
    line: &str,
    env: &Vec<(String, String)>,
    data: &mut SubstitutionData,
) -> (r: Result<Option<(String, String)>, Error>)
    ensures
        result_matches(r, line_outcome(line@, env@, old(data)@), line@),
        final(data)@ == data_after(line_outcome(line@, env@, old(data)@), old(data)@),
{
    let mut parser = LineParser::new(line);
    parser.parse_line(env, data)
}


/// The end of the line that starts at `i`: the next line break, or the end of the text.
pub open spec fn line_end(s: Seq<char>, i: nat) -> nat
    decreases s.len() - i,
{
    if i < s.len() && s[i as int] != '\n' {
        line_end(s, i + 1)
    } else {
        i
    }
}

/// A line without the carriage return that may stand before its line break.
pub open spec fn strip_cr(l: Seq<char>) -> Seq<char> {
    if l.len() > 0 && l.last() == '\r' {
        l.drop_last()
    } else {
        l
    }
}

/// Where the line after the one starting at `i` begins.
pub open spec fn next_line_start(s: Seq<char>, i: nat) -> nat {
    if line_end(s, i) < s.len() {
        line_end(s, i) + 1
    } else {
        line_end(s, i)
    }
}

proof fn lemma_line_end_bounds(s: Seq<char>, i: nat)
    requires
        i <= s.len(),
    ensures
        i <= line_end(s, i) <= s.len(),
    decreases s.len() - i,
{
    if i < s.len() && s[i as int] != '\n' {
        lemma_line_end_bounds(s, i + 1);
    }
}

/// Reads lines from `cursor` on until one gives a pair or an error. Gives that line's outcome
/// and text (`None` at the end of the text), the next line's start, and the substitution data
/// after it.
pub open spec fn pull(
    s: Seq<char>,
    cursor: nat,
    env: Seq<(String, String)>,
    data: Map<Seq<char>, Option<Seq<char>>>,
) -> (Option<(LineOutcome, Seq<char>)>, nat, Map<Seq<char>, Option<Seq<char>>>)
    decreases s.len() - cursor via pull_decreases
{
    if cursor >= s.len() {
        (None, cursor, data)
    } else {
        let line = strip_cr(s.subrange(cursor as int, line_end(s, cursor) as int));
        let o = line_outcome(line, env, data);
        if o is Skip {
            pull(s, next_line_start(s, cursor), env, data)
        } else {
            (Some((o, line)), next_line_start(s, cursor), data_after(o, data))
        }
    }
}

#[via_fn]
proof fn pull_decreases(
    s: Seq<char>,
    cursor: nat,
    env: Seq<(String, String)>,
    data: Map<Seq<char>, Option<Seq<char>>>,
) {
    if cursor < s.len() {
        lemma_line_end_bounds(s, cursor);
    }
}

/// The pairs of one document, one line at a time. The first error ends it.
pub struct Iter {
    text: Vec<char>,
    cursor: usize,
    environment: Vec<(String, String)>,
    substitution_data: SubstitutionData,
    halted: bool,
}

impl Iter {
    /// The whole document.
    pub closed spec fn text(&self) -> Seq<char> {
        self.text@
    }

    /// Where the next unread line starts.
    pub closed spec fn cursor(&self) -> nat {
        self.cursor as nat
    }

    /// The environment snapshot that `$NAME` references consult first.
    pub closed spec fn env(&self) -> Seq<(String, String)> {
        self.environment@
    }

    /// What the lines read so far defined.
    pub closed spec fn data(&self) -> Map<Seq<char>, Option<Seq<char>>> {
        self.substitution_data@
    }

    /// Whether an error has ended the stream.
    pub closed spec fn halted(&self) -> bool {
        self.halted
    }

    pub closed spec fn wf(&self) -> bool {
        self.cursor <= self.text.len()
    }

    /// A stream over `text`, with nothing defined yet.
    pub fn new(text: &str, environment: Vec<(String, String)>) -> (r: Iter)
        ensures
            r.wf(),
            r.text() == text@,
            r.cursor() == 0,
            r.env() == environment@,
            r.data() == Map::<Seq<char>, Option<Seq<char>>>::empty(),
            !r.halted(),
    {
        Iter {
            text: chars_of(text),
            cursor: 0,
            environment,
            substitution_data: SubstitutionData::new(),
            halted: false,
        }
    }

    /// The next pair, or the error of the next malformed line, or `None` at the end.
    /// Blank lines and comments are passed over; after an error nothing more comes.
    pub fn next(&mut self) -> (r: Option<Result<(String, String), Error>>)
        requires
            old(self).wf(),
        ensures
            final(self).wf(),
            final(self).text() == old(self).text(),
            final(self).env() == old(self).env(),
            old(self).halted() ==> r is None && final(self).cursor() == old(self).cursor()
                && final(self).data() == old(self).data() && final(self).halted(),
            !old(self).halted() ==> {
                let (o, c, d) = pull(old(self).text(), old(self).cursor(), old(self).env(), old(self).data());
                &&& final(self).cursor() == c
                &&& final(self).data() == d
                &&& o is None ==> r is None && !final(self).halted()
                &&& o is Some ==> {
                    let (oc, line) = o->0;
                    &&& r is Some
                    &&& final(self).halted() == (oc is Fail)
                    &&& match r->0 {
                        Ok(p) => result_matches(Ok(Some(p)), oc, line),
                        Err(e) => result_matches(Err(e), oc, line),
                    }
                }
            },
    {
        if self.halted {
            return None;
        }
        let ghost start_view = pull(self.text@, self.cursor as nat, self.environment@, self.substitution_data@);
        loop
            invariant
                self.cursor <= self.text.len(),
                self.text@ == old(self).text@,
                self.environment@ == old(self).environment@,
                !self.halted,
                !old(self).halted,
                start_view == pull(old(self).text@, old(self).cursor as nat, old(self).environment@, old(self).substitution_data@),
                pull(self.text@, self.cursor as nat, self.environment@, self.substitution_data@) == start_view,
            decreases self.text.len() - self.cursor,
        {
            let len = self.text.len();
            if self.cursor >= len {
                return None;
            }
            let start = self.cursor;
            let mut j = start;
            while j < len && self.text[j] != '\n'
                invariant
                    start <= j <= len,
                    len == self.text.len(),
                    line_end(self.text@, j as nat) == line_end(self.text@, start as nat),
                decreases len - j,
            {
                j = j + 1;
            }
            assert(line_end(self.text@, j as nat) == j as nat);
            let mut stop = j;
            if stop > start && self.text[stop - 1] == '\r' {
                stop = stop - 1;
            }
            let line = string_of_range(&self.text, start, stop);
            proof {
                assert(line@ =~= strip_cr(self.text@.subrange(start as int, j as int)));
            }
            self.cursor = if j < len { j + 1 } else { j };
            let r = parse_line(line.as_str(), &self.environment, &mut self.substitution_data);
            match r {
                Ok(None) => {},
                Ok(Some(p)) => {
                    return Some(Ok(p));
                },
                Err(e) => {
                    self.halted = true;
                    return Some(Err(e));
                },
            }
        }
    }
}

/// The characters `v[a..b]` as a `String`.
fn string_of_range(v: &Vec<char>, a: usize, b: usize) -> (r: String)
    requires
        a <= b <= v.len(),
    ensures
        r@ == v@.subrange(a as int, b as int),
{
    let mut r = String::new();
    let mut i = a;
    while i < b
        invariant
            a <= i <= b,
            b <= v.len(),
            r@ == v@.subrange(a as int, i as int),
        decreases b - i,
    {
        push_char(&mut r, v[i]);
        assert(r@ =~= v@.subrange(a as int, i + 1));
        i = i + 1;
    }
    r
}

/// Starts reading the pairs of a dotenv document; `environment` holds the variables that
/// take precedence over the document's own definitions. Reading is lazy, so this succeeds.
pub fn from_str(input: &str, environment: Vec<(String, String)>) -> (r: Result<Iter, Error>)
    ensures
        r is Ok,
        r->Ok_0.wf(),
        r->Ok_0.text() == input@,
        r->Ok_0.cursor() == 0,
        r->Ok_0.env() == environment@,
        r->Ok_0.data() == Map::<Seq<char>, Option<Seq<char>>>::empty(),
        !r->Ok_0.halted(),
{
    Ok(Iter::new(input, environment))
}


/// `pull` moves forward, and stays within the text, whenever it finds a line.
pub proof fn lemma_pull_advances(
    s: Seq<char>,
    cursor: nat,
    env: Seq<(String, String)>,
    data: Map<Seq<char>, Option<Seq<char>>>,
)
    requires
        cursor <= s.len(),
    ensures
        pull(s, cursor, env, data).1 <= s.len(),
        pull(s, cursor, env, data).0 is Some ==> pull(s, cursor, env, data).1 > cursor,
        pull(s, cursor, env, data).0 is None ==> pull(s, cursor, env, data).2 == data,
    decreases s.len() - cursor,
{
    if cursor < s.len() {
        lemma_line_end_bounds(s, cursor);
        let line = strip_cr(s.subrange(cursor as int, line_end(s, cursor) as int));
        if line_outcome(line, env, data) is Skip {
            lemma_pull_advances(s, next_line_start(s, cursor), env, data);
        }
    }
}

/// Every pair of the document from `cursor` on, in order, or the first malformed line and the
/// offset of its error.
pub open spec fn document(
    s: Seq<char>,
    cursor: nat,
    env: Seq<(String, String)>,
    data: Map<Seq<char>, Option<Seq<char>>>,
) -> Result<Seq<(Seq<char>, Seq<char>)>, (Seq<char>, nat)>
    decreases s.len() - cursor via document_decreases
{
    let (o, c, d) = pull(s, cursor, env, data);
    match o {
        Some((LineOutcome::Pair(k, v, _), _)) => if cursor <= s.len() {
            match document(s, c, env, d) {
                Ok(rest) => Ok(seq![(k, v)] + rest),
                Err(e) => Err(e),
            }
        } else {
            Ok(Seq::empty())
        },
        Some((LineOutcome::Fail(n), line)) => Err((line, n)),
        _ => Ok(Seq::empty()),
    }
}

#[via_fn]
proof fn document_decreases(
    s: Seq<char>,
    cursor: nat,
    env: Seq<(String, String)>,
    data: Map<Seq<char>, Option<Seq<char>>>,
) {
    if cursor <= s.len() {
        lemma_pull_advances(s, cursor, env, data);
    }
}

pub open spec fn pairs_view(v: Seq<(String, String)>) -> Seq<(Seq<char>, Seq<char>)> {
    v.map_values(|p: (String, String)| pair_view(p))
}

/// `done` followed by what `rest` holds, or the error of `rest`.
pub open spec fn prepend(
    done: Seq<(Seq<char>, Seq<char>)>,
    rest: Result<Seq<(Seq<char>, Seq<char>)>, (Seq<char>, nat)>,
) -> Result<Seq<(Seq<char>, Seq<char>)>, (Seq<char>, nat)> {
    match rest {
        Ok(r) => Ok(done + r),
        Err(e) => Err(e),
    }
}

/// Parses a whole dotenv document into its pairs, in document order; the first malformed
/// line fails the whole.
pub fn parse_document(input: &str, environment: Vec<(String, String)>) -> (r: Result<Vec<(String, String)>, Error>)
    ensures
        match document(input@, 0, environment@, Map::empty()) {
            Ok(ps) => r is Ok && pairs_view(r->Ok_0@) == ps,
            Err((line, n)) => r is Err && r->Err_0 is LineParse && r->Err_0->LineParse_0@ == line
                && r->Err_0->LineParse_1 == n,
        },
{
    let ghost env = environment@;
    let mut iter = Iter::new(input, environment);
    let mut out: Vec<(String, String)> = Vec::new();
    proof {
        assert(pairs_view(out@) =~= Seq::empty());
        assert(Seq::<(Seq<char>, Seq<char>)>::empty() + Seq::empty() =~= Seq::<(Seq<char>, Seq<char>)>::empty());
        match document(input@, 0, env, Map::empty()) {
            Ok(ps) => assert(Seq::<(Seq<char>, Seq<char>)>::empty() + ps =~= ps),
            Err(_) => {},
        }
    }
    loop
        invariant
            iter.wf(),
            !iter.halted(),
            iter.text() == input@,
            iter.env() == env,
            env == environment@,
            document(input@, 0, env, Map::empty()) == prepend(pairs_view(out@), document(input@, iter.cursor(), env, iter.data())),
        decreases input@.len() - iter.cursor(),
    {
        let ghost before = iter;
        proof {
            lemma_pull_advances(input@, iter.cursor(), env, iter.data());
        }
        match iter.next() {
            None => {
                proof {
                    let (o, c, d) = pull(input@, before.cursor(), env, before.data());
                    assert(o is None);
                    assert(document(input@, before.cursor(), env, before.data())
                        == Ok::<Seq<(Seq<char>, Seq<char>)>, (Seq<char>, nat)>(Seq::empty()));
                    assert(pairs_view(out@) + Seq::empty() =~= pairs_view(out@));
                    assert(document(input@, 0, env, Map::empty())
                        == Ok::<Seq<(Seq<char>, Seq<char>)>, (Seq<char>, nat)>(pairs_view(out@)));
                }
                return Ok(out);
            },
            Some(Ok(p)) => {
                let ghost old_out = out@;
                out.push(p);
                proof {
                    assert(pairs_view(out@) =~= pairs_view(old_out).push(pair_view(p)));
                    match document(input@, iter.cursor(), env, iter.data()) {
                        Ok(rest) => {
                            assert(pairs_view(old_out) + (seq![pair_view(p)] + rest) =~= pairs_view(out@) + rest);
                        },
                        Err(_) => {},
                    }
                }
            },
            Some(Err(e)) => {
                proof {
                    let (o, c, d) = pull(input@, before.cursor(), env, before.data());
                    assert(o is Some);
                    let (oc, line) = o->0;
                    assert(oc is Fail);
                    assert(document(input@, before.cursor(), env, before.data())
                        == Err::<Seq<(Seq<char>, Seq<char>)>, (Seq<char>, nat)>((line, oc->Fail_0)));
                }
                return Err(e);
            },
        }
    }
}


/// A character that an unquoted, unescaped value may hold as it is.
pub open spec fn is_plain(c: char) -> bool {
    !is_ws(c) && c != '\'' && c != '"' && c != '\\' && c != '$'
}

proof fn lemma_scan_plain(
    v: Seq<char>,
    n: nat,
    env: Seq<(String, String)>,
    data: Map<Seq<char>, Option<Seq<char>>>,
)
    requires
        n <= v.len(),
        forall|i: int| 0 <= i < v.len() ==> is_plain(#[trigger] v[i]),
    ensures
        scan(v, n, env, data) == Ok::<ValueScan, nat>(ValueScan { output: v.take(n as int), ..scan_start() }),
    decreases n,
{
    if n > 0 {
        lemma_scan_plain(v, (n - 1) as nat, env, data);
        assert(is_plain(v[n - 1]));
        assert(v.take(n - 1).push(v[n - 1]) =~= v.take(n as int));
    } else {
        assert(v.take(0) =~= Seq::<char>::empty());
    }
}

/// A value with no quotes, escapes, references or whitespace is taken as it is.
pub proof fn lemma_plain_value(
    v: Seq<char>,
    env: Seq<(String, String)>,
    data: Map<Seq<char>, Option<Seq<char>>>,
)
    requires
        forall|i: int| 0 <= i < v.len() ==> is_plain(#[trigger] v[i]),
    ensures
        value_result(v, env, data) == Ok::<Seq<char>, nat>(v),
{
    lemma_scan_plain(v, v.len(), env, data);
    assert(v.take(v.len() as int) =~= v);
}

proof fn lemma_key_end(t: Seq<char>, i: nat, k: nat)
    requires
        i <= k < t.len(),
        forall|j: int| i <= j < k ==> is_key_char(#[trigger] t[j]),
        !is_key_char(t[k as int]),
    ensures
        key_end(t, i) == k,
    decreases k - i,
{
    if i < k {
        lemma_key_end(t, i + 1, k);
    }
}

/// `KEY=VALUE` with a well-formed key and a plain value gives exactly that key and value;
/// `KEY=` alone gives the key with an empty value.
pub proof fn lemma_plain_line(
    key: Seq<char>,
    value: Seq<char>,
    env: Seq<(String, String)>,
    data: Map<Seq<char>, Option<Seq<char>>>,
)
    requires
        key.len() > 0,
        is_key_start(key[0]),
        forall|i: int| 0 <= i < key.len() ==> is_key_char(#[trigger] key[i]),
        forall|i: int| 0 <= i < value.len() ==> is_plain(#[trigger] value[i]),
        value.len() > 0 ==> value[0] != '#',
    ensures
        line_outcome(key + seq!['='] + value, env, data) == LineOutcome::Pair(key, value, value.len() > 0),
{
    let line = key + seq!['='] + value;
    let eq = key.len();
    assert(line[eq as int] == '=');
    assert(!is_ws(line.last())) by {
        if value.len() > 0 {
            assert(line.last() == value[value.len() - 1]);
        }
    }
    assert(trimmed_len(line) == line.len());
    let t = line.take(line.len() as int);
    assert(t =~= line);
    assert(t[0] == key[0]);
    assert(skip_ws(t, 0) == 0);
    assert forall|j: int| 0 <= j < eq implies is_key_char(#[trigger] t[j]) by {
        assert(t[j] == key[j]);
    }
    lemma_key_end(t, 0, eq);
    assert(t.subrange(0, eq as int) =~= key);
    assert(skip_ws(t, eq) == eq);
    let rest = t.subrange(eq as int + 1, t.len() as int);
    assert(rest =~= value);
    assert(key_end(t, 0) == eq);
    assert(t[skip_ws(t, eq) as int] == '=');
    if value.len() > 0 {
        assert(t[eq as int + 1] == value[0]);
        assert(skip_ws(t, eq + 1) == eq + 1);
        lemma_plain_value(value, env, data);
        assert(outcome_after_equal(t, key, eq + 1, env, data) == LineOutcome::Pair(key, value, true));
    } else {
        assert(value =~= Seq::<char>::empty());
        assert(skip_ws(t, eq + 1) == eq + 1);
        assert(outcome_after_equal(t, key, eq + 1, env, data) == LineOutcome::Pair(key, value, false));
    }
}

proof fn lemma_scan_quoted(
    s: Seq<char>,
    n: nat,
    env: Seq<(String, String)>,
    data: Map<Seq<char>, Option<Seq<char>>>,
)
    requires
        1 <= n <= s.len() + 1,
        forall|i: int| 0 <= i < s.len() ==> #[trigger] s[i] != '\'',
    ensures
        scan(seq!['\''] + s, n, env, data) == Ok::<ValueScan, nat>(
            ValueScan { strong_quote: true, output: s.take(n - 1), ..scan_start() }),
    decreases n,
{
    let w = seq!['\''] + s;
    reveal_with_fuel(scan, 2);
    if n > 1 {
        lemma_scan_quoted(s, (n - 1) as nat, env, data);
        assert(w[n - 1] == s[n - 2]);
        assert(s.take(n - 2).push(s[n - 2]) =~= s.take(n - 1));
    } else {
        assert(w[0] == '\'');
        assert(s.take(0) =~= Seq::<char>::empty());
    }
}

/// A single-quoted value is copied as it stands: no escapes, no references.
pub proof fn lemma_single_quoted_verbatim(
    s: Seq<char>,
    env: Seq<(String, String)>,
    data: Map<Seq<char>, Option<Seq<char>>>,
)
    requires
        forall|i: int| 0 <= i < s.len() ==> #[trigger] s[i] != '\'',
    ensures
        value_result(seq!['\''] + s + seq!['\''], env, data) == Ok::<Seq<char>, nat>(s),
{
    let w = seq!['\''] + s + seq!['\''];
    lemma_scan_quoted(s, s.len() + 1, env, data);
    assert(w.take(s.len() as int + 1) =~= seq!['\''] + s);
    lemma_scan_prefix(w, seq!['\''] + s, s.len() + 1, env, data);
    assert(w[s.len() as int + 1] == '\'');
    assert(s.take(s.len() as int) =~= s);
}

/// An opening single quote that is never closed is an error at the value's last byte.
pub proof fn lemma_unterminated_quote(
    s: Seq<char>,
    env: Seq<(String, String)>,
    data: Map<Seq<char>, Option<Seq<char>>>,
)
    requires
        forall|i: int| 0 <= i < s.len() ==> #[trigger] s[i] != '\'',
    ensures
        value_result(seq!['\''] + s, env, data) == Err::<Seq<char>, nat>(utf8_len(s)),
{
    lemma_scan_quoted(s, s.len() + 1, env, data);
    assert((seq!['\''] + s).drop_first() =~= s);
    assert(crate::text::char_width('\'') == 1);
}

/// The scan of a prefix depends on the prefix alone.
proof fn lemma_scan_prefix(
    w: Seq<char>,
    p: Seq<char>,
    n: nat,
    env: Seq<(String, String)>,
    data: Map<Seq<char>, Option<Seq<char>>>,
)
    requires
        n <= p.len() <= w.len(),
        w.take(p.len() as int) == p,
    ensures
        scan(w, n, env, data) == scan(p, n, env, data),
    decreases n,
{
    if n > 0 {
        lemma_scan_prefix(w, p, (n - 1) as nat, env, data);
        assert(w[n - 1] == w.take(p.len() as int)[n - 1]);
    }
}

proof fn lemma_scan_reference(
    name: Seq<char>,
    n: nat,
    env: Seq<(String, String)>,
    data: Map<Seq<char>, Option<Seq<char>>>,
)
    requires
        1 <= n <= name.len() + 1,
        forall|i: int| 0 <= i < name.len() ==> alphanumeric(#[trigger] name[i]),
    ensures
        scan(seq!['$'] + name, n, env, data) == Ok::<ValueScan, nat>(
            ValueScan { mode: SubstitutionMode::Block, name: name.take(n - 1), ..scan_start() }),
    decreases n,
{
    let w = seq!['$'] + name;
    reveal_with_fuel(scan, 2);
    if n > 1 {
        lemma_scan_reference(name, (n - 1) as nat, env, data);
        assert(w[n - 1] == name[n - 2]);
        assert(alphanumeric(name[n - 2]));
        assert(name.take(n - 2).push(name[n - 2]) =~= name.take(n - 1));
    } else {
        assert(w[0] == '$');
        assert(name.take(0) =~= Seq::<char>::empty());
    }
}

/// `$NAME` resolves to the environment's value of `NAME` when it has one, else to what an
/// earlier line of the document defined, else to nothing.
pub proof fn lemma_reference_value(
    name: Seq<char>,
    env: Seq<(String, String)>,
    data: Map<Seq<char>, Option<Seq<char>>>,
)
    requires
        forall|i: int| 0 <= i < name.len() ==> alphanumeric(#[trigger] name[i]),
    ensures
        value_result(seq!['$'] + name, env, data) == Ok::<Seq<char>, nat>(resolve(name, env, data)),
        env_lookup(env, name) is Some ==> resolve(name, env, data) == env_lookup(env, name)->0,
        env_lookup(env, name) is None && data.contains_key(name) && data[name] is Some
            ==> resolve(name, env, data) == data[name]->0,
        env_lookup(env, name) is None && !(data.contains_key(name) && data[name] is Some)
            ==> resolve(name, env, data) == Seq::<char>::empty(),
{
    lemma_scan_reference(name, name.len() + 1, env, data);
    assert(name.take(name.len() as int) =~= name);
    assert(Seq::<char>::empty() + resolve(name, env, data) =~= resolve(name, env, data));
}


pub open spec fn into_fixed_spec(value: Seq<char>) -> Seq<char> {
    crate::matcher::semicolons_to_newlines(crate::matcher::placeholders_replaced(value, "${1}"@))
}

/// A dotenv match template made parseable: each `$NAME` placeholder becomes `NAME`, and each
/// `;` a line break, so that several `key=$NAME` pairs can stand on one line.
pub fn into_fixed(value: &str) -> (r: String)
    ensures
        r@ == into_fixed_spec(value@),
{
    let replaced = crate::matcher::replace_placeholders(value, "${1}");
    crate::matcher::split_pairs(replaced.as_str())
}

} // verus!
