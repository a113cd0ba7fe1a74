//! The oracle event protocol (`ein-events/1`): how one event line is built.
//!
//! An event is one JSON object per line, fields in call order, with Python's
//! `json.dumps(..., ensure_ascii=False)` spacing. This module builds the
//! text; where it goes (a file, a buffer, nowhere) is the caller's business,
//! so emitting can never change what the engine does.
use vstd::prelude::*;

use crate::facts::{Arg, FactTable};
use crate::text::{decimal, hex_char, hex_digit, push_char, push_decimal, ends_with_char, texts};

verus! {

/// The schema name every log starts with.
pub const SCHEMA: &'static str = "ein-events/1";

/// `--events-level`.
#[derive(Clone, Copy, PartialEq, Eq, Debug)]
pub enum Level {
    Normal,
    Verbose,
}

impl Level {
    pub open spec fn name(self) -> Seq<char> {
        match self {
            Level::Normal => seq!['n', 'o', 'r', 'm', 'a', 'l'],
            Level::Verbose => seq!['v', 'e', 'r', 'b', 'o', 's', 'e'],
        }
    }

    pub fn as_str(self) -> (s: &'static str)
        ensures
            s@ == self.name(),
    {
        match self {
            Level::Normal => {
                proof {
                    reveal_strlit("normal");
                }
                "normal"
            },
            Level::Verbose => {
                proof {
                    reveal_strlit("verbose");
                }
                "verbose"
            },
        }
    }
}

// ── JSON text, as sequences ───────────────────────────────────────────

/// How `json.dumps` writes one character inside a string literal.
pub open spec fn json_char(c: char) -> Seq<char> {
    if c == '"' {
        seq!['\\', '"']
    } else if c == '\\' {
        seq!['\\', '\\']
    } else if c == '\n' {
        seq!['\\', 'n']
    } else if c == '\r' {
        seq!['\\', 'r']
    } else if c == '\t' {
        seq!['\\', 't']
    } else if c == '\u{8}' {
        seq!['\\', 'b']
    } else if c == '\u{c}' {
        seq!['\\', 'f']
    } else if (c as u32) < 0x20 {
        seq!['\\', 'u', '0', '0', hex_digit((c as u32 / 16) as nat), hex_digit((c as u32 % 16) as nat)]
    } else {
        seq![c]
    }
}

pub open spec fn json_chars(s: Seq<char>) -> Seq<char>
    decreases s.len(),
{
    if s.len() == 0 {
        Seq::empty()
    } else {
        json_chars(s.drop_last()) + json_char(s.last())
    }
}

/// `json.dumps(s, ensure_ascii=False)`.
pub open spec fn json_str(s: Seq<char>) -> Seq<char> {
    seq!['"'] + json_chars(s) + seq!['"']
}

pub open spec fn comma() -> Seq<char> {
    seq![',', ' ']
}

pub open spec fn colon() -> Seq<char> {
    seq![':', ' ']
}

/// Items separated by `", "`.
pub open spec fn joined(items: Seq<Seq<char>>) -> Seq<char>
    decreases items.len(),
{
    if items.len() == 0 {
        Seq::empty()
    } else if items.len() == 1 {
        items[0]
    } else {
        joined(items.drop_last()) + comma() + items.last()
    }
}

/// `[a, b, ...]`.
pub open spec fn list(items: Seq<Seq<char>>) -> Seq<char> {
    seq!['['] + joined(items) + seq![']']
}

/// The separator a new field takes: none right after the opening brace.
pub open spec fn after_sep(s: Seq<char>) -> Seq<char> {
    if s.len() > 0 && s.last() == '{' {
        s
    } else {
        s + comma()
    }
}

/// `"key": ` after the separator.
pub open spec fn with_key(s: Seq<char>, key: Seq<char>) -> Seq<char> {
    after_sep(s) + json_str(key) + colon()
}

pub open spec fn quoted_strs(values: Seq<&str>) -> Seq<Seq<char>> {
    Seq::new(values.len(), |i: int| json_str(values[i]@))
}

pub open spec fn quoted_strings(values: Seq<String>) -> Seq<Seq<char>> {
    Seq::new(values.len(), |i: int| json_str(values[i]@))
}

pub open spec fn quoted_lists(values: Seq<Vec<String>>) -> Seq<Seq<char>> {
    Seq::new(values.len(), |i: int| list(quoted_strings(values[i]@)))
}

pub open spec fn object_members(pairs: Seq<(&str, String)>) -> Seq<Seq<char>> {
    Seq::new(pairs.len(), |i: int| json_str(pairs[i].0@) + colon() + pairs[i].1@)
}

pub open spec fn binding_items(pairs: Seq<(String, String)>) -> Seq<Seq<char>> {
    Seq::new(
        pairs.len(),
        |i: int| seq!['['] + json_str(pairs[i].0@) + comma() + json_str(pairs[i].1@) + seq![']'],
    )
}

pub open spec fn true_text() -> Seq<char> {
    seq!['t', 'r', 'u', 'e']
}

pub open spec fn false_text() -> Seq<char> {
    seq!['f', 'a', 'l', 's', 'e']
}

/// The finished text of one event: `{"e": kind, "n": seq` then the fields,
/// then `}`. `fields` is a line the caller built: its opening brace and then
/// the fields themselves.
pub open spec fn event_text(kind: Seq<char>, seq: u64, fields: Seq<char>) -> Seq<char> {
    let head = seq!['{'] + json_str(seq!['e']) + colon() + json_str(kind) + comma() + json_str(
        seq!['n'],
    ) + colon() + decimal((seq as i64) as int);
    let body = fields.skip(1);
    if body.len() > 0 {
        head + comma() + body + seq!['}']
    } else {
        head + seq!['}']
    }
}

/// The fields of a line, past its opening brace, appended to `s` with the
/// separator a field takes.
pub open spec fn with_fields(s: Seq<char>, fields: Seq<char>) -> Seq<char> {
    let body = fields.skip(1);
    if body.len() > 0 {
        after_sep(s) + body
    } else {
        s
    }
}

/// The fields every log's first event carries, before the caller's.
pub open spec fn run_fields(level: Level, extra: Seq<char>) -> Seq<char> {
    let base = with_key(seq!['{'], seq!['v', 'e', 'r', 's', 'i', 'o', 'n']) + json_str(
        SCHEMA@,
    );
    let both = with_key(base, seq!['l', 'e', 'v', 'e', 'l']) + json_str(level.name());
    with_fields(both, extra)
}

// ── Lemmas ───────────────────────────────────────────────────────────

proof fn lemma_json_chars_step(s: Seq<char>, i: int)
    requires
        0 <= i < s.len(),
    ensures
        json_chars(s.take(i + 1)) == json_chars(s.take(i)) + json_char(s[i]),
{
    assert(s.take(i + 1).drop_last() =~= s.take(i));
}

proof fn lemma_json_str_last(s: Seq<char>)
    ensures
        json_str(s).len() >= 2,
        json_str(s).last() == '"',
{
}

proof fn lemma_joined_step(items: Seq<Seq<char>>, i: int)
    requires
        0 <= i < items.len(),
    ensures
        joined(items.take(i + 1)) == (if i == 0 {
            items[0]
        } else {
            joined(items.take(i)) + comma() + items[i]
        }),
{
    assert(items.take(i + 1).drop_last() =~= items.take(i));
    if i == 0 {
        assert(items.take(1).len() == 1);
    }
}

// ── Building text ─────────────────────────────────────────────────────

fn push_comma(out: &mut String)
    ensures
        final(out)@ == old(out)@ + comma(),
{
    push_char(out, ',');
    push_char(out, ' ');
    assert(out@ =~= old(out)@ + comma());
}

fn push_colon(out: &mut String)
    ensures
        final(out)@ == old(out)@ + colon(),
{
    push_char(out, ':');
    push_char(out, ' ');
    assert(out@ =~= old(out)@ + colon());
}

fn push_json_char(out: &mut String, c: char)
    ensures
        final(out)@ == old(out)@ + json_char(c),
{
    if c == '"' {
        push_char(out, '\\');
        push_char(out, '"');
    } else if c == '\\' {
        push_char(out, '\\');
        push_char(out, '\\');
    } else if c == '\n' {
        push_char(out, '\\');
        push_char(out, 'n');
    } else if c == '\r' {
        push_char(out, '\\');
        push_char(out, 'r');
    } else if c == '\t' {
        push_char(out, '\\');
        push_char(out, 't');
    } else if c == '\u{8}' {
        push_char(out, '\\');
        push_char(out, 'b');
    } else if c == '\u{c}' {
        push_char(out, '\\');
        push_char(out, 'f');
    } else if (c as u32) < 0x20 {
        let v = c as u32;
        push_char(out, '\\');
        push_char(out, 'u');
        push_char(out, '0');
        push_char(out, '0');
        push_char(out, hex_char(v / 16));
        push_char(out, hex_char(v % 16));
    } else {
        push_char(out, c);
    }
    assert(out@ =~= old(out)@ + json_char(c));
}

/// `json.dumps(s, ensure_ascii=False)` for a string: escape what JSON
/// requires and nothing else, so non-ASCII goes out as itself rather than
/// `\uXXXX`.
pub fn push_json_str(out: &mut String, s: &str)
    ensures
        final(out)@ == old(out)@ + json_str(s@),
{
    push_char(out, '"');
    let n = s.unicode_len();
    let mut i: usize = 0;
    while i < n
        invariant
            i <= n,
            n == s@.len(),
            out@ == old(out)@ + seq!['"'] + json_chars(s@.take(i as int)),
        decreases n - i,
    {
        let c = s.get_char(i);
        proof {
            lemma_json_chars_step(s@, i as int);
        }
        push_json_char(out, c);
        assert(out@ =~= old(out)@ + seq!['"'] + json_chars(s@.take(i + 1)));
        i = i + 1;
    }
    push_char(out, '"');
    assert(s@.take(n as int) =~= s@);
    assert(out@ =~= old(out)@ + json_str(s@));
}

/// One event line under construction. Fields land in call order, which is
/// the order the schema fixes, so a raw `diff` of two logs stays readable.
pub struct Line {
    out: String,
}

impl View for Line {
    type V = Seq<char>;

    closed spec fn view(&self) -> Seq<char> {
        self.out@
    }
}

impl Line {
    /// A line holds its opening brace and then whole fields.
    pub open spec fn wf(&self) -> bool {
        self@.len() >= 1 && self@[0] == '{'
    }

    /// An empty line: just the opening brace.
    pub fn new() -> (l: Line)
        ensures
            l@ == seq!['{'],
            l.wf(),
    {
        let mut out = String::new();
        push_char(&mut out, '{');
        assert(out@ =~= seq!['{']);
        Line { out }
    }

    /// The text built so far.
    pub fn text(&self) -> (s: &str)
        ensures
            s@ == self@,
    {
        self.out.as_str()
    }

    fn sep(&mut self)
        ensures
            final(self)@ == after_sep(old(self)@),
    {
        if !ends_with_char(&self.out, '{') {
            push_comma(&mut self.out);
        }
    }

    fn key(&mut self, key: &str)
        ensures
            final(self)@ == with_key(old(self)@, key@),
    {
        self.sep();
        push_json_str(&mut self.out, key);
        push_colon(&mut self.out);
        assert(self@ =~= with_key(old(self)@, key@));
    }

    pub fn str(&mut self, key: &str, value: &str)
        requires
            old(self).wf(),
        ensures
            final(self)@ == with_key(old(self)@, key@) + json_str(value@),
            final(self).wf(),
    {
        self.key(key);
        push_json_str(&mut self.out, value);
    }

    pub fn num(&mut self, key: &str, value: i64)
        requires
            old(self).wf(),
        ensures
            final(self)@ == with_key(old(self)@, key@) + decimal(value as int),
            final(self).wf(),
    {
        self.key(key);
        push_decimal(&mut self.out, value);
    }

    pub fn bool(&mut self, key: &str, value: bool)
        requires
            old(self).wf(),
        ensures
            final(self)@ == with_key(old(self)@, key@) + (if value {
                true_text()
            } else {
                false_text()
            }),
            final(self).wf(),
    {
        self.key(key);
        if value {
            proof {
                reveal_strlit("true");
            }
            self.out.append("true");
        } else {
            proof {
                reveal_strlit("false");
            }
            self.out.append("false");
        }
    }

    /// A list of strings.
    pub fn strs(&mut self, key: &str, values: &[&str])
        requires
            old(self).wf(),
        ensures
            final(self)@ == with_key(old(self)@, key@) + list(quoted_strs(values@)),
            final(self).wf(),
    {
        self.key(key);
        let ghost base = self@;
        let ghost items = quoted_strs(values@);
        push_char(&mut self.out, '[');
        let n = values.len();
        let mut i: usize = 0;
        while i < n
            invariant
                i <= n,
                n == values@.len(),
                items == quoted_strs(values@),
                self@ == base + seq!['['] + joined(items.take(i as int)),
            decreases n - i,
        {
            proof {
                lemma_joined_step(items, i as int);
            }
            if i > 0 {
                push_comma(&mut self.out);
            }
            push_json_str(&mut self.out, values[i]);
            assert(self@ =~= base + seq!['['] + joined(items.take(i + 1)));
            i = i + 1;
        }
        push_char(&mut self.out, ']');
        assert(items.take(n as int) =~= items);
        assert(self@ =~= base + list(items));
    }

    /// A list of owned strings.
    pub fn owned_strs(&mut self, key: &str, values: Vec<String>)
        requires
            old(self).wf(),
        ensures
            final(self)@ == with_key(old(self)@, key@) + list(quoted_strings(values@)),
            final(self).wf(),
    {
        self.key(key);
        let ghost base = self@;
        push_char(&mut self.out, '[');
        self.push_string_items(&values);
        push_char(&mut self.out, ']');
        assert(self@ =~= base + list(quoted_strings(values@)));
    }

    /// `a, b, ...` for quoted strings, appended.
    fn push_string_items(&mut self, values: &Vec<String>)
        ensures
            final(self)@ == old(self)@ + joined(quoted_strings(values@)),
    {
        let ghost base = self@;
        let ghost items = quoted_strings(values@);
        let n = values.len();
        let mut i: usize = 0;
        while i < n
            invariant
                i <= n,
                n == values@.len(),
                items == quoted_strings(values@),
                self@ == base + joined(items.take(i as int)),
            decreases n - i,
        {
            proof {
                lemma_joined_step(items, i as int);
            }
            if i > 0 {
                push_comma(&mut self.out);
            }
            push_json_str(&mut self.out, values[i].as_str());
            assert(self@ =~= base + joined(items.take(i + 1)));
            i = i + 1;
        }
        assert(items.take(n as int) =~= items);
    }

    /// A list of string lists — the `verdict` event's `models`, one sorted
    /// fact list per branch.
    pub fn str_lists(&mut self, key: &str, values: &[Vec<String>])
        requires
            old(self).wf(),
        ensures
            final(self)@ == with_key(old(self)@, key@) + list(quoted_lists(values@)),
            final(self).wf(),
    {
        self.key(key);
        let ghost base = self@;
        let ghost items = quoted_lists(values@);
        push_char(&mut self.out, '[');
        let n = values.len();
        let mut i: usize = 0;
        while i < n
            invariant
                i <= n,
                n == values@.len(),
                items == quoted_lists(values@),
                self@ == base + seq!['['] + joined(items.take(i as int)),
            decreases n - i,
        {
            proof {
                lemma_joined_step(items, i as int);
            }
            if i > 0 {
                push_comma(&mut self.out);
            }
            let ghost before = self@;
            push_char(&mut self.out, '[');
            self.push_string_items(&values[i]);
            push_char(&mut self.out, ']');
            assert(self@ =~= before + list(quoted_strings(values@[i as int]@)));
            assert(self@ =~= base + seq!['['] + joined(items.take(i + 1)));
            i = i + 1;
        }
        push_char(&mut self.out, ']');
        assert(items.take(n as int) =~= items);
        assert(self@ =~= base + list(items));
    }

    /// An object of `key: value` pairs whose values are already JSON — the
    /// `run` event's `config`.
    pub fn obj_strs(&mut self, key: &str, pairs: &[(&str, String)])
        requires
            old(self).wf(),
        ensures
            final(self)@ == with_key(old(self)@, key@) + seq!['{'] + joined(
                object_members(pairs@),
            ) + seq!['}'],
            final(self).wf(),
    {
        self.key(key);
        let ghost base = self@;
        let ghost items = object_members(pairs@);
        push_char(&mut self.out, '{');
        let n = pairs.len();
        let mut i: usize = 0;
        while i < n
            invariant
                i <= n,
                n == pairs@.len(),
                items == object_members(pairs@),
                self@ == base + seq!['{'] + joined(items.take(i as int)),
            decreases n - i,
        {
            proof {
                lemma_joined_step(items, i as int);
            }
            if i > 0 {
                push_comma(&mut self.out);
            }
            let ghost before = self@;
            push_json_str(&mut self.out, pairs[i].0);
            push_colon(&mut self.out);
            self.out.append(pairs[i].1.as_str());
            assert(self@ =~= before + items[i as int]);
            assert(self@ =~= base + seq!['{'] + joined(items.take(i + 1)));
            i = i + 1;
        }
        push_char(&mut self.out, '}');
        assert(items.take(n as int) =~= items);
        assert(self@ =~= base + seq!['{'] + joined(items) + seq!['}']);
    }

    /// `events.bindings` — ordered `[name, value]` pairs, a list rather than
    /// an object because binding order is the observable.
    pub fn bindings(&mut self, key: &str, pairs: Vec<(String, String)>)
        requires
            old(self).wf(),
        ensures
            final(self)@ == with_key(old(self)@, key@) + list(binding_items(pairs@)),
            final(self).wf(),
    {
        self.key(key);
        let ghost base = self@;
        let ghost items = binding_items(pairs@);
        push_char(&mut self.out, '[');
        let n = pairs.len();
        let mut i: usize = 0;
        while i < n
            invariant
                i <= n,
                n == pairs@.len(),
                items == binding_items(pairs@),
                self@ == base + seq!['['] + joined(items.take(i as int)),
            decreases n - i,
        {
            proof {
                lemma_joined_step(items, i as int);
            }
            if i > 0 {
                push_comma(&mut self.out);
            }
            let ghost before = self@;
            push_char(&mut self.out, '[');
            push_json_str(&mut self.out, pairs[i].0.as_str());
            push_comma(&mut self.out);
            push_json_str(&mut self.out, pairs[i].1.as_str());
            push_char(&mut self.out, ']');
            assert(self@ =~= before + items[i as int]);
            assert(self@ =~= base + seq!['['] + joined(items.take(i + 1)));
            i = i + 1;
        }
        push_char(&mut self.out, ']');
        assert(items.take(n as int) =~= items);
        assert(self@ =~= base + list(items));
    }

    /// Append another line's fields after this line's, with the separator
    /// the first of them takes.
    pub fn extend(&mut self, other: &Line)
        requires
            old(self).wf(),
            other.wf(),
        ensures
            final(self)@ == with_fields(old(self)@, other@),
            final(self).wf(),
    {
        let t = other.out.as_str();
        let n = t.unicode_len();
        if n > 1 {
            self.sep();
            let ghost base = self@;
            let mut i: usize = 1;
            while i < n
                invariant
                    1 <= i <= n,
                    n == other@.len(),
                    t@ == other@,
                    self@ == base + other@.subrange(1, i as int),
                decreases n - i,
            {
                let c = t.get_char(i);
                push_char(&mut self.out, c);
                assert(self@ =~= base + other@.subrange(1, i + 1));
                i = i + 1;
            }
            assert(other@.subrange(1, n as int) =~= other@.skip(1));
        }
    }

    /// Close the line with `}`.
    fn close(self) -> (s: String)
        ensures
            s@ == self@ + seq!['}'],
    {
        let mut out = self.out;
        push_char(&mut out, '}');
        out
    }
}

/// The event recorder: whether it records, how many events it has
/// numbered, and at what level. `off` makes every emit one branch.
pub struct Events {
    recording: bool,
    seq: u64,
    level: Level,
}

impl Events {
    pub closed spec fn is_on(&self) -> bool {
        self.recording
    }

    pub closed spec fn count(&self) -> u64 {
        self.seq
    }

    pub closed spec fn level_of(&self) -> Level {
        self.level
    }

    pub fn off() -> (e: Events)
        ensures
            !e.is_on(),
            e.count() == 0,
            e.level_of() == Level::Normal,
    {
        Events { recording: false, seq: 0, level: Level::Normal }
    }

    /// Start recording, producing the `run` event the schema requires first
    /// — so a consumer can reject a log it does not understand before
    /// reading further.
    pub fn to(level: Level) -> (r: (Events, String))
        ensures
            r.0.is_on(),
            r.0.count() == 1,
            r.0.level_of() == level,
            r.1@ == event_text(
                seq!['r', 'u', 'n'],
                0,
                run_fields(level, seq!['{']),
            ),
    {
        Events::to_with(level, &Line::new())
    }

    /// [`Events::to`] with the caller's own `run` fields appended after
    /// `version` and `level`.
    pub fn to_with(level: Level, extra: &Line) -> (r: (Events, String))
        requires
            extra.wf(),
        ensures
            r.0.is_on(),
            r.0.count() == 1,
            r.0.level_of() == level,
            r.1@ == event_text(seq!['r', 'u', 'n'], 0, run_fields(level, extra@)),
    {
        proof {
            reveal_strlit("version");
            reveal_strlit("level");
            reveal_strlit("run");
            assert("version"@ =~= seq!['v', 'e', 'r', 's', 'i', 'o', 'n']);
            assert("level"@ =~= seq!['l', 'e', 'v', 'e', 'l']);
            assert("run"@ =~= seq!['r', 'u', 'n']);
        }
        let mut e = Events { recording: true, seq: 0, level };
        let mut fields = Line::new();
        fields.str("version", SCHEMA);
        fields.str("level", level.as_str());
        fields.extend(extra);
        assert(fields@ == run_fields(level, extra@));
        let text = e.emit("run", &fields);
        match text {
            Some(t) => (e, t),
            None => (e, String::new()),
        }
    }

    pub fn on(&self) -> (b: bool)
        ensures
            b == self.is_on(),
    {
        self.recording
    }

    pub fn verbose(&self) -> (b: bool)
        ensures
            b == (self.level_of() == Level::Verbose),
    {
        match self.level {
            Level::Verbose => true,
            Level::Normal => false,
        }
    }

    pub fn seq(&self) -> (n: u64)
        ensures
            n == self.count(),
    {
        self.seq
    }

    /// One event: `None` when not recording, and otherwise its text, with
    /// the event numbered and the count advanced.
    pub fn emit(&mut self, kind: &str, fields: &Line) -> (r: Option<String>)
        requires
            fields.wf(),
            old(self).is_on() ==> old(self).count() < u64::MAX,
        ensures
            final(self).is_on() == old(self).is_on(),
            final(self).level_of() == old(self).level_of(),
            old(self).is_on() ==> final(self).count() == old(self).count() + 1 && r is Some
                && r->0@ == event_text(kind@, old(self).count(), fields@),
            !old(self).is_on() ==> final(self).count() == old(self).count() && r is None,
    {
        if !self.recording {
            return None;
        }
        proof {
            reveal_strlit("e");
            reveal_strlit("n");
            assert("e"@ =~= seq!['e']);
            assert("n"@ =~= seq!['n']);
        }
        let mut line = Line::new();
        line.str("e", kind);
        let ghost l1 = line@;
        assert(l1 =~= seq!['{'] + json_str(seq!['e']) + colon() + json_str(kind@));
        line.num("n", self.seq as i64);
        let ghost l2 = line@;
        proof {
            lemma_json_str_last(kind@);
            assert(after_sep(l1) == l1 + comma());
        }
        let ghost head = seq!['{'] + json_str(seq!['e']) + colon() + json_str(kind@) + comma()
            + json_str(seq!['n']) + colon() + decimal((self.seq as i64) as int);
        assert(l2 =~= head);
        line.extend(fields);
        proof {
            crate::text::lemma_decimal_last((self.seq as i64) as int);
            assert(head.last() == decimal((self.seq as i64) as int).last());
            assert(after_sep(head) == head + comma());
        }
        self.seq = self.seq + 1;
        let text = line.close();
        Some(text)
    }
}


// ── Facts as the stream writes them ─────────────────────────────────

fn push_fact(tbl: &FactTable, f: u32, out: &mut String)
    requires
        tbl.wf(),
        f < tbl.rows@.len(),
    ensures
        final(out)@ == old(out)@ + tbl.fact_text(f as int),
    decreases f,
{
    let ghost fi = f as int;
    assert(tbl.row_ok(fi));
    let row = &tbl.rows[f as usize];
    let ghost head = old(out)@;
    out.append("(");
    out.append(tbl.names[row.rel as usize].as_str());
    let n = row.args.len();
    if n > 0 {
        out.append(" ");
        let ghost start = out@;
        assert(tbl.args_text(fi, 0) =~= Seq::<char>::empty());
        let mut k: usize = 0;
        while k < n
            invariant
                tbl.wf(),
                f < tbl.rows@.len(),
                fi == f as int,
                *row == tbl.rows@[fi],
                n == row.args@.len(),
                k <= n,
                out@ == start + tbl.args_text(fi, k as int),
            decreases n - k,
        {
            assert(tbl.row_ok(fi));
            let a = row.args[k];
            assert(tbl.arg_ok(a, fi));
            let ghost before = out@;
            if k > 0 {
                out.append(" ");
            }
            let ghost mid = out@;
            match a {
                Arg::Sym(s) => {
                    out.append(tbl.names[s as usize].as_str());
                },
                Arg::Int(i) => {
                    push_decimal(out, i);
                },
                Arg::Fact(g) => {
                    push_fact(tbl, g, out);
                },
            }
            proof {
                if k == 0 {
                    assert(out@ =~= start + tbl.args_text(fi, 1));
                } else {
                    assert(out@ =~= start + tbl.args_text(fi, k + 1));
                }
            }
            k = k + 1;
        }
        out.append(")");
        assert(out@ =~= head + tbl.fact_text(fi));
    } else {
        out.append(")");
        assert(out@ =~= head + tbl.fact_text(fi));
    }
}

/// Fact `f`, as a canonical s-expression: `(rel a b …)`.
pub fn sexpr(tbl: &FactTable, f: u32) -> (s: String)
    requires
        tbl.wf(),
        f < tbl.rows@.len(),
    ensures
        s@ == tbl.fact_text(f as int),
{
    let mut out = String::new();
    push_fact(tbl, f, &mut out);
    assert(out@ =~= tbl.fact_text(f as int));
    out
}

/// One argument: `str(arg)` for a name or a number, the s-expression for
/// a nested fact.
pub fn sexpr_value(tbl: &FactTable, v: Arg) -> (s: String)
    requires
        tbl.wf(),
        tbl.arg_ok(v, tbl.rows@.len() as int),
    ensures
        s@ == tbl.value_text(v),
{
    let mut out = String::new();
    match v {
        Arg::Sym(s) => out.append(tbl.names[s as usize].as_str()),
        Arg::Int(i) => push_decimal(&mut out, i),
        Arg::Fact(g) => push_fact(tbl, g, &mut out),
    }
    assert(out@ =~= tbl.value_text(v));
    out
}

/// Each of `ids`, rendered.
pub fn sexpr_facts(tbl: &FactTable, ids: &[u32]) -> (r: Vec<String>)
    requires
        tbl.wf(),
        forall|i: int| 0 <= i < ids@.len() ==> (#[trigger] ids@[i]) < tbl.rows@.len(),
    ensures
        texts(r@) == ids@.map_values(|f: u32| tbl.fact_text(f as int)),
{
    let mut out: Vec<String> = Vec::new();
    let mut i: usize = 0;
    while i < ids.len()
        invariant
            tbl.wf(),
            forall|i: int| 0 <= i < ids@.len() ==> (#[trigger] ids@[i]) < tbl.rows@.len(),
            i <= ids@.len(),
            texts(out@) == ids@.take(i as int).map_values(|f: u32| tbl.fact_text(f as int)),
        decreases ids@.len() - i,
    {
        let s = sexpr(tbl, ids[i]);
        let ghost before = texts(out@);
        out.push(s);
        assert(texts(out@) =~= before.push(tbl.fact_text(ids@[i as int] as int)));
        assert(ids@.take(i + 1).map_values(|f: u32| tbl.fact_text(f as int)) =~= ids@.take(i as int).map_values(|f: u32| tbl.fact_text(f as int)).push(tbl.fact_text(ids@[i as int] as int)));
        i = i + 1;
    }
    assert(ids@.take(ids@.len() as int) =~= ids@);
    out
}

/// A match's bindings as `(variable, value)` text pairs, for
/// [`Line::bindings`].
pub fn binding_pairs(tbl: &FactTable, pairs: &[(u32, Arg)]) -> (r: Vec<(String, String)>)
    requires
        tbl.wf(),
        forall|i: int| 0 <= i < pairs@.len() ==> (#[trigger] pairs@[i]).0 < tbl.names@.len() && tbl.arg_ok(pairs@[i].1, tbl.rows@.len() as int),
    ensures
        r@.len() == pairs@.len(),
        forall|i: int| 0 <= i < pairs@.len() ==> (#[trigger] r@[i]).0@ == tbl.name(pairs@[i].0) && r@[i].1@ == tbl.value_text(pairs@[i].1),
{
    let mut out: Vec<(String, String)> = Vec::new();
    let mut i: usize = 0;
    while i < pairs.len()
        invariant
            tbl.wf(),
            forall|i: int| 0 <= i < pairs@.len() ==> (#[trigger] pairs@[i]).0 < tbl.names@.len() && tbl.arg_ok(pairs@[i].1, tbl.rows@.len() as int),
            i <= pairs@.len(),
            out@.len() == i,
            forall|q: int| 0 <= q < i ==> (#[trigger] out@[q]).0@ == tbl.name(pairs@[q].0) && out@[q].1@ == tbl.value_text(pairs@[q].1),
        decreases pairs@.len() - i,
    {
        let (k, v) = pairs[i];
        let mut key = String::new();
        key.append(tbl.names[k as usize].as_str());
        assert(key@ =~= tbl.name(k));
        let value = sexpr_value(tbl, v);
        out.push((key, value));
        i = i + 1;
    }
    out
}

} // verus!
