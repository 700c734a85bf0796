//! A small syntax tree for generated Lua code, and how it is written out.

use crate::text::{chars_of, push_chars, push_text, same_chars, string_of};
use vstd::prelude::*;

verus! {

/// A Lua expression.
#[derive(Debug, PartialEq, Eq)]
pub enum Expression {
    /// A string literal with the given contents.
    String(String),
    /// Source text that is written out as it stands.
    Raw(String),
    /// A table constructor.
    Table(Table),
}

/// A Lua table constructor: named fields in the order in which they are written.
#[derive(Debug, PartialEq, Eq)]
pub struct Table {
    pub entries: Vec<(String, Expression)>,
}

/// A Lua statement.
#[derive(Debug, PartialEq, Eq)]
pub enum Statement {
    Return(Expression),
}

/// What an expression says, apart from how it is held in memory.
pub enum LuaValue {
    Text(Seq<char>),
    Raw(Seq<char>),
    Table(Seq<(Seq<char>, LuaValue)>),
}

impl View for Expression {
    type V = LuaValue;

    open spec fn view(&self) -> LuaValue
        decreases self,
    {
        match self {
            Expression::String(s) => LuaValue::Text(s@),
            Expression::Raw(s) => LuaValue::Raw(s@),
            Expression::Table(t) => LuaValue::Table(fields_view(t.entries@)),
        }
    }
}

/// The fields of a table, each with its name as characters and its value as
/// what it says.
pub open spec fn fields_view(entries: Seq<(String, Expression)>) -> Seq<(Seq<char>, LuaValue)>
    decreases entries,
{
    Seq::new(
        entries.len(),
        |i: int|
            if 0 <= i < entries.len() {
                (entries[i].0@, entries[i].1@)
            } else {
                (Seq::empty(), LuaValue::Raw(Seq::empty()))
            },
    )
}

impl View for Table {
    type V = Seq<(Seq<char>, LuaValue)>;

    open spec fn view(&self) -> Seq<(Seq<char>, LuaValue)> {
        fields_view(self.entries@)
    }
}

impl View for Statement {
    type V = LuaValue;

    open spec fn view(&self) -> LuaValue {
        match self {
            Statement::Return(e) => e@,
        }
    }
}

/// `depth` tab characters.
pub open spec fn indent(depth: nat) -> Seq<char>
    decreases depth,
{
    if depth == 0 {
        Seq::empty()
    } else {
        indent((depth - 1) as nat).push('\t')
    }
}

/// How one character stands inside a string literal.
pub open spec fn escaped_char(c: char) -> Seq<char> {
    if c == '\\' {
        seq!['\\', '\\']
    } else if c == '"' {
        seq!['\\', '"']
    } else if c == '\n' {
        seq!['\\', 'n']
    } else if c == '\r' {
        seq!['\\', 'r']
    } else {
        seq![c]
    }
}

/// The characters of `s` as they stand inside a string literal.
pub open spec fn escaped(s: Seq<char>) -> Seq<char>
    decreases s.len(),
{
    if s.len() == 0 {
        Seq::empty()
    } else {
        escaped(s.drop_last()) + escaped_char(s.last())
    }
}

/// The string literal with the contents `s`.
pub open spec fn quoted(s: Seq<char>) -> Seq<char> {
    seq!['"'] + escaped(s) + seq!['"']
}

/// A letter of the Latin alphabet or an underscore.
pub open spec fn is_name_start(c: char) -> bool {
    ('a' <= c && c <= 'z') || ('A' <= c && c <= 'Z') || c == '_'
}

/// A character that may stand inside a Lua name.
pub open spec fn is_name_char(c: char) -> bool {
    is_name_start(c) || ('0' <= c && c <= '9')
}

/// One of the words that Lua keeps for itself.
pub open spec fn is_keyword(s: Seq<char>) -> bool {
    ||| s == "and"@
    ||| s == "break"@
    ||| s == "do"@
    ||| s == "else"@
    ||| s == "elseif"@
    ||| s == "end"@
    ||| s == "false"@
    ||| s == "for"@
    ||| s == "function"@
    ||| s == "if"@
    ||| s == "in"@
    ||| s == "local"@
    ||| s == "nil"@
    ||| s == "not"@
    ||| s == "or"@
    ||| s == "repeat"@
    ||| s == "return"@
    ||| s == "then"@
    ||| s == "true"@
    ||| s == "until"@
    ||| s == "while"@
}

/// Whether `s` can be written as a bare field name.
pub open spec fn is_identifier(s: Seq<char>) -> bool {
    &&& s.len() > 0
    &&& is_name_start(s[0])
    &&& forall|i: int| 0 <= i < s.len() ==> is_name_char(#[trigger] s[i])
    &&& !is_keyword(s)
}

/// How the field name `key` is written in a table constructor.
pub open spec fn key_text(key: Seq<char>) -> Seq<char> {
    if is_identifier(key) {
        key
    } else {
        seq!['['] + quoted(key) + seq![']']
    }
}

/// The text of `v`, written at nesting depth `depth`.
pub open spec fn rendered(v: LuaValue, depth: nat) -> Seq<char>
    decreases v, 0nat,
{
    match v {
        LuaValue::Text(s) => quoted(s),
        LuaValue::Raw(s) => s,
        LuaValue::Table(entries) => if entries.len() == 0 {
            seq!['{', '}']
        } else {
            seq!['{', '\n'] + rendered_fields(entries, depth + 1) + indent(depth) + seq!['}']
        },
    }
}

/// The lines of the fields `entries`, one field a line, at depth `depth`.
pub open spec fn rendered_fields(entries: Seq<(Seq<char>, LuaValue)>, depth: nat) -> Seq<char>
    decreases entries, 1nat,
{
    if entries.len() == 0 {
        Seq::empty()
    } else {
        rendered_fields(entries.drop_last(), depth) + rendered_field(entries.last(), depth)
    }
}

/// The line of one field at depth `depth`.
pub open spec fn rendered_field(entry: (Seq<char>, LuaValue), depth: nat) -> Seq<char>
    decreases entry, 0nat,
{
    indent(depth) + key_text(entry.0) + seq![' ', '=', ' '] + rendered(entry.1, depth) + seq![
        ',',
        '\n',
    ]
}

/// The text of the statement that returns `v`.
pub open spec fn rendered_return(v: LuaValue) -> Seq<char> {
    seq!['r', 'e', 't', 'u', 'r', 'n', ' '] + rendered(v, 0) + seq!['\n']
}

/// Appends `s` as it stands inside a string literal.
fn push_escaped(out: &mut Vec<char>, s: &str)
    ensures
        final(out)@ == old(out)@ + escaped(s@),
{
    let chars = chars_of(s);
    let mut i: usize = 0;
    while i < chars.len()
        invariant
            i <= chars.len(),
            out@ == old(out)@ + escaped(chars@.take(i as int)),
        decreases chars.len() - i,
    {
        let c = chars[i];
        let ghost before = out@;
        if c == '\\' {
            out.push('\\');
            out.push('\\');
        } else if c == '"' {
            out.push('\\');
            out.push('"');
        } else if c == '\n' {
            out.push('\\');
            out.push('n');
        } else if c == '\r' {
            out.push('\\');
            out.push('r');
        } else {
            out.push(c);
        }
        proof {
            let next = chars@.take(i + 1);
            assert(next.drop_last() =~= chars@.take(i as int));
            assert(next.last() == c);
            assert(out@ =~= before + escaped_char(c));
        }
        i += 1;
    }
    assert(chars@.take(chars@.len() as int) == chars@);
}

/// Appends the string literal with the contents `s`.
fn push_quoted(out: &mut Vec<char>, s: &str)
    ensures
        final(out)@ == old(out)@ + quoted(s@),
{
    out.push('"');
    push_escaped(out, s);
    out.push('"');
    assert(out@ =~= old(out)@ + quoted(s@));
}

/// Whether `s` spells `word`.
fn spells(s: &Vec<char>, word: &str) -> (r: bool)
    ensures
        r == (s@ == word@),
{
    let w = chars_of(word);
    same_chars(s, &w)
}

/// Whether `s` is one of Lua's own words.
fn names_keyword(s: &Vec<char>) -> (r: bool)
    ensures
        r == is_keyword(s@),
{
    spells(s, "and") || spells(s, "break") || spells(s, "do") || spells(s, "else") || spells(
        s,
        "elseif",
    ) || spells(s, "end") || spells(s, "false") || spells(s, "for") || spells(s, "function")
        || spells(s, "if") || spells(s, "in") || spells(s, "local") || spells(s, "nil") || spells(
        s,
        "not",
    ) || spells(s, "or") || spells(s, "repeat") || spells(s, "return") || spells(s, "then")
        || spells(s, "true") || spells(s, "until") || spells(s, "while")
}

/// Whether `c` may start a Lua name.
fn starts_name(c: char) -> (r: bool)
    ensures
        r == is_name_start(c),
{
    ('a' <= c && c <= 'z') || ('A' <= c && c <= 'Z') || c == '_'
}

/// Whether `s` can be written as a bare field name.
fn names_identifier(s: &Vec<char>) -> (r: bool)
    ensures
        r == is_identifier(s@),
{
    if s.len() == 0 || !starts_name(s[0]) {
        return false;
    }
    let mut i: usize = 0;
    while i < s.len()
        invariant
            i <= s.len(),
            forall|j: int| 0 <= j < i ==> is_name_char(#[trigger] s@[j]),
        decreases s.len() - i,
    {
        let c = s[i];
        if !(starts_name(c) || ('0' <= c && c <= '9')) {
            assert(!is_name_char(s@[i as int]));
            return false;
        }
        i += 1;
    }
    !names_keyword(s)
}

/// Appends the field name `key` as a table constructor writes it.
fn push_key(out: &mut Vec<char>, key: &str)
    ensures
        final(out)@ == old(out)@ + key_text(key@),
{
    let chars = chars_of(key);
    if names_identifier(&chars) {
        push_chars(out, &chars);
    } else {
        out.push('[');
        push_quoted(out, key);
        out.push(']');
        assert(out@ =~= old(out)@ + key_text(key@));
    }
}

impl Expression {
    /// Appends the text of this expression, written at the nesting depth that
    /// `tabs` indents to.
    fn render_into(&self, out: &mut Vec<char>, tabs: &mut Vec<char>, Ghost(depth): Ghost<nat>)
        requires
            old(tabs)@ == indent(depth),
        ensures
            final(out)@ == old(out)@ + rendered(self@, depth),
            final(tabs)@ == old(tabs)@,
        decreases self, 0nat,
    {
        match self {
            Expression::String(s) => {
                push_quoted(out, s.as_str());
            },
            Expression::Raw(s) => {
                push_text(out, s.as_str());
            },
            Expression::Table(t) => {
                if t.entries.len() == 0 {
                    out.push('{');
                    out.push('}');
                    assert(out@ =~= old(out)@ + seq!['{', '}']);
                } else {
                    out.push('{');
                    out.push('\n');
                    tabs.push('\t');
                    render_fields(&t.entries, out, tabs, Ghost(depth + 1));
                    tabs.pop();
                    assert(tabs@ =~= old(tabs)@);
                    push_chars(out, tabs);
                    out.push('}');
                    assert(out@ =~= old(out)@ + rendered(self@, depth));
                }
            },
        }
    }

    /// The text of this expression.
    pub fn render(&self) -> (text: String)
        ensures
            text@ == rendered(self@, 0),
    {
        let mut out: Vec<char> = Vec::new();
        let mut tabs: Vec<char> = Vec::new();
        self.render_into(&mut out, &mut tabs, Ghost(0));
        assert(out@ =~= rendered(self@, 0));
        string_of(&out)
    }
}

/// Appends the lines of the fields `entries`, written at the nesting depth
/// that `tabs` indents to.
fn render_fields(
    entries: &Vec<(String, Expression)>,
    out: &mut Vec<char>,
    tabs: &mut Vec<char>,
    Ghost(depth): Ghost<nat>,
)
    requires
        old(tabs)@ == indent(depth),
    ensures
        final(out)@ == old(out)@ + rendered_fields(fields_view(entries@), depth),
        final(tabs)@ == old(tabs)@,
    decreases entries, 1nat,
{
    let ghost fields = fields_view(entries@);
    let mut i: usize = 0;
    while i < entries.len()
        invariant
            i <= entries.len(),
            fields == fields_view(entries@),
            tabs@ == indent(depth),
            tabs@ == old(tabs)@,
            out@ == old(out)@ + rendered_fields(fields.take(i as int), depth),
        decreases entries.len() - i,
    {
        let ghost before = out@;
        push_chars(out, tabs);
        push_key(out, entries[i].0.as_str());
        out.push(' ');
        out.push('=');
        out.push(' ');
        entries[i].1.render_into(out, tabs, Ghost(depth));
        out.push(',');
        out.push('\n');
        proof {
            let next = fields.take(i + 1);
            assert(next.drop_last() =~= fields.take(i as int));
            assert(next.last() == fields[i as int]);
            assert(out@ =~= before + rendered_field(fields[i as int], depth));
        }
        i += 1;
    }
    assert(fields.take(fields.len() as int) == fields);
}

impl Statement {
    /// The text of this statement, ending in a line break.
    pub fn render(&self) -> (text: String)
        ensures
            text@ == rendered_return(self@),
    {
        let mut out: Vec<char> = Vec::new();
        let mut tabs: Vec<char> = Vec::new();
        match self {
            Statement::Return(e) => {
                push_text(&mut out, "return ");
                proof {
                    reveal_strlit("return ");
                    assert("return "@ =~= seq!['r', 'e', 't', 'u', 'r', 'n', ' ']);
                }
                e.render_into(&mut out, &mut tabs, Ghost(0));
                out.push('\n');
            },
        }
        assert(out@ =~= rendered_return(self@));
        string_of(&out)
    }
}

} // verus!
