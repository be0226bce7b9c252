//! Output settings of the formatter: indentation and what happens to
//! comments, and the escaping of string contents.

use vstd::prelude::*;
use vstd::string::StringSliceAdditionalSpecFns;
use crate::ast::{
    EntryView, LazyValue, LazyView, Node, NodeView, Number, NumberView, ObjectEntry, Trivia, TriviaView, Value,
    ValueView, entry_views, lemma_array_value_view, lemma_object_value_view, node_views,
    trivia_view,
};
use crate::error::Error;
use crate::text::{self, decimal, str_debug_text, unicode_whitespace};

verus! {

broadcast use vstd::string::group_string_axioms;

/// How nested lines are indented.
#[derive(Debug, Clone, Copy, PartialEq, Eq, Structural)]
pub enum Indentation {
    Spaces(u8),
    Tabs,
    /// Minified: no newlines except the ones line comments force.
    Minified,
}

/// What happens to comments.
#[derive(Debug, Clone, Copy, PartialEq, Eq, Structural)]
pub enum CommentPolicy {
    Keep,
    Remove,
    /// Line comments become block comments, so no newline is ever needed.
    Minify,
}

/// Formatter settings.
#[derive(Debug, Clone, Copy)]
pub struct FormatOptions {
    pub indentation: Indentation,
    pub comment_policy: CommentPolicy,
}

/// Minified, comments kept.
impl Default for FormatOptions {
    fn default() -> (o: Self)
        ensures
            o.indentation == Indentation::Minified,
            o.comment_policy == CommentPolicy::Keep,
    {
        FormatOptions { indentation: Indentation::Minified, comment_policy: CommentPolicy::Keep }
    }
}

/// The text is made only of spaces.
pub open spec fn all_spaces(s: Seq<char>) -> bool {
    forall|i: int| 0 <= i < s.len() ==> s[i] == ' '
}

/// The message an unsupported indentation `s` is refused with.
pub open spec fn unsupported_indent_text(s: Seq<char>) -> Seq<char> {
    "unsupported indentation Some("@ + str_debug_text(s) + "): use a tab or a run of spaces"@
}

/// Number of spaces and tabs the line starts with.
pub open spec fn leading_blanks(l: Seq<char>) -> nat
    decreases l.len(),
{
    if l.len() > 0 && (l[0] == ' ' || l[0] == '\t') {
        1 + leading_blanks(l.skip(1))
    } else {
        0
    }
}

/// The line holds only whitespace (Unicode White_Space).
pub open spec fn blank_line(l: Seq<char>) -> bool {
    forall|i: int| 0 <= i < l.len() ==> unicode_whitespace(#[trigger] l[i])
}

/// The indentation a line shows: none for an unindented or blank line, tabs
/// for a line that starts with a tab, else as many spaces as it starts with
/// spaces and tabs (at most 255).
pub open spec fn line_indentation(l: Seq<char>) -> Option<Indentation> {
    let n = leading_blanks(l);
    if n == 0 || blank_line(l) {
        None
    } else if l[0] == '\t' {
        Some(Indentation::Tabs)
    } else if n > 255 {
        Some(Indentation::Spaces(255))
    } else {
        Some(Indentation::Spaces(n as u8))
    }
}

/// Offset of the first line feed at or after `i`, or the length.
pub open spec fn line_end(s: Seq<char>, i: int) -> int
    decreases s.len() - i,
{
    if i < 0 || i >= s.len() {
        s.len() as int
    } else if s[i] == '\n' {
        i
    } else {
        line_end(s, i + 1)
    }
}

pub proof fn lemma_line_end(s: Seq<char>, i: int)
    requires
        0 <= i <= s.len(),
    ensures
        i <= line_end(s, i) <= s.len(),
        line_end(s, i) < s.len() ==> s[line_end(s, i)] == '\n',
        forall|k: int| i <= k < line_end(s, i) ==> #[trigger] s[k] != '\n',
    decreases s.len() - i,
{
    if i < s.len() && s[i] != '\n' {
        lemma_line_end(s, i + 1);
    }
}

/// The indentation of the first indented line from offset `i` on, four
/// spaces if there is none.
pub open spec fn detect_from(s: Seq<char>, i: int) -> Indentation
    decreases s.len() - i,
{
    if i < 0 || i >= s.len() {
        Indentation::Spaces(4)
    } else {
        let e = line_end(s, i);
        proof {
            lemma_line_end(s, i);
        }
        match line_indentation(s.subrange(i, e)) {
            Some(ind) => ind,
            None => if e < s.len() {
                detect_from(s, e + 1)
            } else {
                Indentation::Spaces(4)
            },
        }
    }
}

impl Indentation {
    /// `None` means four spaces, `"\t"` tabs, a run of spaces that many
    /// spaces, and the empty text no indentation at all (minified output);
    /// anything else, more than 255 spaces included, is refused.
    pub fn parse(indent: Option<&str>) -> (r: Result<Self, Error>)
        ensures
            match indent {
                None => r == Ok::<Self, Error>(Indentation::Spaces(4)),
                Some(s) => if s@.len() == 0 {
                    r == Ok::<Self, Error>(Indentation::Minified)
                } else if s@ == seq!['\t'] {
                    r == Ok::<Self, Error>(Indentation::Tabs)
                } else if s@.len() > 0 && all_spaces(s@) && s@.len() <= 255 {
                    r == Ok::<Self, Error>(Indentation::Spaces(s@.len() as u8))
                } else {
                    r matches Err(Error::Custom(m)) && m@ == unsupported_indent_text(s@)
                },
            },
    {
        match indent {
            None => Ok(Indentation::Spaces(4)),
            Some(s) => {
                let chars = text::chars_of(s);
                if chars.len() == 0 {
                    return Ok(Indentation::Minified);
                }
                if chars.len() == 1 && chars[0] == '\t' {
                    proof {
                        assert(s@ =~= seq!['\t']);
                    }
                    return Ok(Indentation::Tabs);
                }
                let mut k: usize = 0;
                while k < chars.len() && chars[k] == ' '
                    invariant
                        chars@ == s@,
                        k <= chars@.len(),
                        forall|j: int| 0 <= j < k ==> chars@[j] == ' ',
                    decreases chars.len() - k,
                {
                    k += 1;
                }
                if chars.len() > 0 && k == chars.len() && chars.len() <= 255 {
                    proof {
                        assert(s@ != seq!['\t']) by {
                            assert(s@[0] == ' ');
                        }
                    }
                    Ok(Indentation::Spaces(chars.len() as u8))
                } else {
                    proof {
                        if s@ == seq!['\t'] {
                            assert(chars@.len() == 1 && chars@[0] == '\t');
                        }
                        if k < chars@.len() {
                            assert(!all_spaces(s@)) by {
                                assert(chars@[k as int] != ' ');
                            }
                        }
                    }
                    let mut msg = text::to_owned_string("unsupported indentation Some(");
                    let d = text::debug_str(s);
                    text::append_str(&mut msg, d.as_str());
                    text::append_str(&mut msg, "): use a tab or a run of spaces");
                    Err(Error::Custom(msg))
                }
            },
        }
    }

    /// The indentation of the first indented line of `source` (see
    /// [`detect_from`]), four spaces if there is none.
    pub fn detect(source: &str) -> (r: Self)
        ensures
            r == detect_from(source@, 0),
    {
        let chars = text::chars_of(source);
        let n = chars.len();
        let mut i: usize = 0;
        while i < n
            invariant
                chars@ == source@,
                n == chars@.len(),
                i <= n,
                detect_from(source@, 0) == detect_from(source@, i as int),
            decreases n - i,
        {
            let ghost s = chars@;
            let mut e = i;
            while e < n && chars[e] != '\n'
                invariant
                    chars@ == s,
                    n == s.len(),
                    i <= e <= n,
                    line_end(s, i as int) == line_end(s, e as int),
                decreases n - e,
            {
                e += 1;
            }
            proof {
                lemma_line_end(s, i as int);
            }
            let ghost line = s.subrange(i as int, e as int);
            let mut blanks: usize = 0;
            proof {
                assert(line.skip(0) =~= line);
            }
            while i + blanks < e && (chars[i + blanks] == ' ' || chars[i + blanks] == '\t')
                invariant
                    chars@ == s,
                    i <= e <= n == s.len(),
                    i + blanks <= e,
                    line == s.subrange(i as int, e as int),
                    leading_blanks(line) == blanks + leading_blanks(line.skip(blanks as int)),
                decreases e - i - blanks,
            {
                proof {
                    assert(line.skip(blanks as int).skip(1) =~= line.skip(blanks + 1));
                    assert(line.skip(blanks as int)[0] == s[i + blanks]);
                }
                blanks += 1;
            }
            proof {
                if i + blanks < e {
                    assert(line.skip(blanks as int)[0] == s[i + blanks]);
                } else {
                    assert(line.skip(blanks as int).len() == 0);
                }
                assert(leading_blanks(line) == blanks);
            }
            let mut k = i;
            while k < e && text::is_whitespace(chars[k])
                invariant
                    chars@ == s,
                    i <= k <= e <= n == s.len(),
                    line == s.subrange(i as int, e as int),
                    forall|j: int| 0 <= j < k - i ==> unicode_whitespace(#[trigger] line[j]),
                decreases e - k,
            {
                proof {
                    assert(line[k - i] == s[k as int]);
                }
                k += 1;
            }
            let all_ws = k == e;
            proof {
                if k < e {
                    assert(line[k - i] == s[k as int]);
                }
                assert(all_ws == blank_line(line));
            }
            if blanks > 0 && !all_ws {
                if chars[i] == '\t' {
                    assert(line[0] == s[i as int]);
                    return Indentation::Tabs;
                }
                assert(line[0] == s[i as int]);
                if blanks > 255 {
                    return Indentation::Spaces(255);
                }
                return Indentation::Spaces(blanks as u8);
            }
            if e == n {
                return Indentation::Spaces(4);
            }
            i = e + 1;
        }
        Indentation::Spaces(4)
    }
}

// ---------------------------------------------------------------------------
// Escaping
// ---------------------------------------------------------------------------

/// The uppercase hexadecimal digit of `d` (below 16).
pub open spec fn hex_upper(d: int) -> char {
    if d < 10 {
        (d + 0x30) as char
    } else {
        (d - 10 + 0x41) as char
    }
}

/// How one character is written inside a JSON string.
pub open spec fn escape_char(c: char) -> Seq<char> {
    if c == '"' {
        seq!['\\', '"']
    } else if c == '\\' {
        seq!['\\', '\\']
    } else if c == '\x08' {
        seq!['\\', 'b']
    } else if c == '\x0c' {
        seq!['\\', 'f']
    } else if c == '\n' {
        seq!['\\', 'n']
    } else if c == '\r' {
        seq!['\\', 'r']
    } else if c == '\t' {
        seq!['\\', 't']
    } else if (c as u32) <= 0x1f {
        seq!['\\', 'u', '0', '0', hex_upper((c as u32) as int / 16), hex_upper((c as u32) as int % 16)]
    } else {
        seq![c]
    }
}

/// The text written inside the quotes of a JSON string holding `s`.
pub open spec fn escaped(s: Seq<char>) -> Seq<char>
    decreases s.len(),
{
    if s.len() == 0 {
        seq![]
    } else {
        escaped(s.drop_last()) + escape_char(s.last())
    }
}

/// Appends the escape of `c` (see [`escape_char`]).
fn push_escaped(out: &mut String, c: char)
    ensures
        final(out)@ == old(out)@ + escape_char(c),
{
    let ghost before = out@;
    if c == '"' {
        text::push_char(out, '\\');
        text::push_char(out, '"');
    } else if c == '\\' {
        text::push_char(out, '\\');
        text::push_char(out, '\\');
    } else if c == '\x08' {
        text::push_char(out, '\\');
        text::push_char(out, 'b');
    } else if c == '\x0c' {
        text::push_char(out, '\\');
        text::push_char(out, 'f');
    } else if c == '\n' {
        text::push_char(out, '\\');
        text::push_char(out, 'n');
    } else if c == '\r' {
        text::push_char(out, '\\');
        text::push_char(out, 'r');
    } else if c == '\t' {
        text::push_char(out, '\\');
        text::push_char(out, 't');
    } else if (c as u32) <= 0x1f {
        let v = c as u32;
        let hi = (v / 16) as u8;
        let lo = (v % 16) as u8;
        let hi_c: char = if hi < 10 {
            (hi + 0x30) as char
        } else {
            (hi - 10 + 0x41) as char
        };
        let lo_c: char = if lo < 10 {
            (lo + 0x30) as char
        } else {
            (lo - 10 + 0x41) as char
        };
        text::push_char(out, '\\');
        text::push_char(out, 'u');
        text::push_char(out, '0');
        text::push_char(out, '0');
        text::push_char(out, hi_c);
        text::push_char(out, lo_c);
        proof {
            assert(hi_c == hex_upper((c as u32) as int / 16));
            assert(lo_c == hex_upper((c as u32) as int % 16));
        }
    } else {
        text::push_char(out, c);
    }
    proof {
        assert(out@ =~= before + escape_char(c));
    }
}

/// `s` written for the inside of a JSON string: `"` and `\` escaped, the
/// control characters with a short escape written so, the other characters
/// up to U+001F as `\u00XX`.
pub fn escape_string(s: &str) -> (r: String)
    ensures
        r@ == escaped(s@),
{
    let chars = text::chars_of(s);
    let mut out = String::new();
    let mut i: usize = 0;
    while i < chars.len()
        invariant
            chars@ == s@,
            i <= chars@.len(),
            out@ == escaped(chars@.take(i as int)),
        decreases chars.len() - i,
    {
        proof {
            let t = chars@.take(i + 1);
            assert(t.drop_last() =~= chars@.take(i as int));
            assert(t.last() == chars@[i as int]);
        }
        push_escaped(&mut out, chars[i]);
        i += 1;
    }
    proof {
        assert(chars@.take(chars@.len() as int) =~= chars@);
    }
    out
}

} // verus!

verus! {

// ---------------------------------------------------------------------------
// What the formatter writes
// ---------------------------------------------------------------------------

/// Output with newlines and indentation.
pub open spec fn is_pretty(o: FormatOptions) -> bool {
    !(o.indentation is Minified)
}

/// `c` written `n` times.
pub open spec fn repeat_char(c: char, n: nat) -> Seq<char>
    decreases n,
{
    if n == 0 {
        seq![]
    } else {
        repeat_char(c, (n - 1) as nat).push(c)
    }
}

/// One level of indentation.
pub open spec fn indent_unit(o: FormatOptions) -> Seq<char> {
    match o.indentation {
        Indentation::Spaces(n) => repeat_char(' ', n as nat),
        Indentation::Tabs => seq!['\t'],
        Indentation::Minified => seq![],
    }
}

/// A line break in pretty output, nothing in minified output.
pub open spec fn newline_text(o: FormatOptions) -> Seq<char> {
    if is_pretty(o) {
        seq!['\n']
    } else {
        seq![]
    }
}

/// A comment as written under `p`, and whether it is a line comment (which
/// must be followed by a newline); `None` when the comment is dropped.
pub open spec fn comment_piece(p: CommentPolicy, t: TriviaView) -> Option<(bool, Seq<char>)> {
    match p {
        CommentPolicy::Remove => None,
        CommentPolicy::Minify => match t {
            TriviaView::LineComment(c) => Some((false, "/*"@ + c + "*/"@)),
            TriviaView::BlockComment(c) => Some((false, "/*"@ + c + "*/"@)),
        },
        CommentPolicy::Keep => match t {
            TriviaView::LineComment(c) => Some((true, "//"@ + c)),
            TriviaView::BlockComment(c) => Some((false, "/*"@ + c + "*/"@)),
        },
    }
}

/// One comment before a key or value: a line comment ends its line and the
/// next starts at `indent`; a block comment stays inline, followed by a
/// space in pretty output.
pub open spec fn leading_piece(o: FormatOptions, indent: Seq<char>, t: TriviaView) -> Seq<char> {
    match comment_piece(o.comment_policy, t) {
        None => seq![],
        Some((line, text)) => if line {
            text + seq!['\n'] + indent
        } else if is_pretty(o) {
            text + seq![' ']
        } else {
            text
        },
    }
}

/// The comments before a key or value, in order.
pub open spec fn leading_text(o: FormatOptions, indent: Seq<char>, ts: Seq<TriviaView>) -> Seq<
    char,
>
    decreases ts.len(),
{
    if ts.len() == 0 {
        seq![]
    } else {
        leading_text(o, indent, ts.drop_last()) + leading_piece(o, indent, ts.last())
    }
}

/// An integer in decimal, with a `-` when negative.
pub open spec fn int_text(i: int) -> Seq<char> {
    if i < 0 {
        seq!['-'] + decimal((-i) as nat)
    } else {
        decimal(i as nat)
    }
}

/// A number as written: an integer in decimal, any other number as its
/// decimal text.
pub open spec fn number_text(n: NumberView) -> Seq<char> {
    match n {
        NumberView::Int(i) => int_text(i as int),
        NumberView::Float(t) => t,
    }
}

/// A value at the indentation `indent`: scalars inline; a non-empty array or
/// object with one element or member per line, one level deeper, and the
/// closing bracket back at `indent`.
pub open spec fn value_text(o: FormatOptions, indent: Seq<char>, v: ValueView) -> Seq<char>
    decreases v, 0nat,
{
    match v {
        ValueView::Null => "null"@,
        ValueView::Bool(b) => if b {
            "true"@
        } else {
            "false"@
        },
        ValueView::Number(n) => number_text(n),
        ValueView::String(s) => seq!['"'] + escaped(s) + seq!['"'],
        ValueView::Array(items) => if items.len() == 0 {
            "[]"@
        } else {
            seq!['['] + newline_text(o) + elements_text(
                o,
                indent + indent_unit(o),
                items,
                items.len(),
            ) + indent + seq![']']
        },
        ValueView::Object(ms) => if ms.len() == 0 {
            "{}"@
        } else {
            seq!['{'] + newline_text(o) + members_text(o, indent + indent_unit(o), ms, ms.len())
                + indent + seq!['}']
        },
        ValueView::Lazy(l) => match *l {
            LazyView::Unknown(raw) => raw,
            LazyView::UnknownObject(raw) => raw,
            LazyView::UnknownVector(raw) => raw,
            LazyView::Parsed(inner) => value_text(o, indent, inner),
        },
    }
}

/// A node: its comments, its value and its comma.
pub open spec fn node_text(o: FormatOptions, indent: Seq<char>, n: NodeView) -> Seq<char>
    decreases n, 0nat,
{
    leading_text(o, indent, n.trivia) + value_text(o, indent, n.value) + if n.comma {
        seq![',']
    } else {
        seq![]
    }
}

/// The lines of the first `k` elements of an array: each at `indent`, with
/// a comma added between elements that have none.
pub open spec fn elements_text(o: FormatOptions, indent: Seq<char>, items: Seq<NodeView>, k: nat) -> Seq<
    char,
>
    decreases items, k,
{
    if k == 0 || k > items.len() {
        seq![]
    } else {
        let n = items[k - 1];
        elements_text(o, indent, items, (k - 1) as nat) + indent + node_text(o, indent, n) + (if k
            < items.len() && !n.comma {
            seq![',']
        } else {
            seq![]
        }) + newline_text(o)
    }
}

/// A member: the comments before its key, the key, `:` (and a space in
/// pretty output), then its value node.
pub open spec fn member_text(o: FormatOptions, indent: Seq<char>, e: EntryView) -> Seq<char>
    decreases e, 0nat,
{
    leading_text(o, indent, e.key_trivia) + seq!['"'] + escaped(e.key) + seq!['"', ':'] + (if is_pretty(
        o,
    ) {
        seq![' ']
    } else {
        seq![]
    }) + node_text(o, indent, e.value)
}

/// The lines of the first `k` members of an object (see
/// [`elements_text`]).
pub open spec fn members_text(o: FormatOptions, indent: Seq<char>, ms: Seq<EntryView>, k: nat) -> Seq<
    char,
>
    decreases ms, k,
{
    if k == 0 || k > ms.len() {
        seq![]
    } else {
        let e = ms[k - 1];
        members_text(o, indent, ms, (k - 1) as nat) + indent + member_text(o, indent, e) + (if k
            < ms.len() && !e.value.comma {
            seq![',']
        } else {
            seq![]
        }) + newline_text(o)
    }
}


// ---------------------------------------------------------------------------
// Writing
// ---------------------------------------------------------------------------

/// Writes nodes as text under a set of options.
struct Formatter {
    options: FormatOptions,
    buffer: String,
}

/// `i` in decimal, with a `-` when negative (see [`int_text`]).
fn int_to_text(i: i64) -> (r: String)
    ensures
        r@ == int_text(i as int),
{
    if i < 0 {
        let m: u64 = (0i128 - (i as i128)) as u64;
        let digits = text::u64_to_decimal(m);
        let mut r = text::to_owned_string("-");
        text::append_str(&mut r, digits.as_str());
        proof {
            reveal_strlit("-");
            assert(m as nat == (-(i as int)) as nat);
            assert(r@ =~= seq!['-'] + decimal((-(i as int)) as nat));
        }
        r
    } else {
        text::u64_to_decimal(i as u64)
    }
}

impl Formatter {
    fn pretty(&self) -> (r: bool)
        ensures
            r == is_pretty(self.options),
    {
        match self.options.indentation {
            Indentation::Minified => false,
            _ => true,
        }
    }

    fn write_str(&mut self, t: &str)
        ensures
            final(self).options == old(self).options,
            final(self).buffer@ == old(self).buffer@ + t@,
    {
        text::append_str(&mut self.buffer, t);
    }

    fn write_char(&mut self, c: char)
        ensures
            final(self).options == old(self).options,
            final(self).buffer@ == old(self).buffer@ + seq![c],
    {
        text::push_char(&mut self.buffer, c);
        proof {
            assert(old(self).buffer@.push(c) =~= old(self).buffer@ + seq![c]);
        }
    }

    fn write_newline(&mut self)
        ensures
            final(self).options == old(self).options,
            final(self).buffer@ == old(self).buffer@ + newline_text(old(self).options),
    {
        if self.pretty() {
            self.write_char('\n');
        } else {
            proof {
                assert(old(self).buffer@ + newline_text(old(self).options) =~= old(self).buffer@);
            }
        }
    }

    /// The indentation one level deeper than `indent`.
    fn deeper(&self, indent: &str) -> (r: String)
        ensures
            r@ == indent@ + indent_unit(self.options),
    {
        let mut r = text::to_owned_string(indent);
        match self.options.indentation {
            Indentation::Spaces(n) => {
                let mut i: u8 = 0;
                while i < n
                    invariant
                        i <= n,
                        r@ == indent@ + repeat_char(' ', i as nat),
                    decreases n - i,
                {
                    text::push_char(&mut r, ' ');
                    proof {
                        assert(repeat_char(' ', (i + 1) as nat) == repeat_char(' ', i as nat).push(' '));
                        assert(r@ =~= indent@ + repeat_char(' ', (i + 1) as nat));
                    }
                    i += 1;
                }
            },
            Indentation::Tabs => {
                text::push_char(&mut r, '\t');
                proof {
                    assert(r@ =~= indent@ + seq!['\t']);
                }
            },
            Indentation::Minified => {
                proof {
                    assert(r@ =~= indent@ + seq![]);
                }
            },
        }
        r
    }

    /// A comment as written under the policy (see [`comment_piece`]).
    fn comment_text(&self, t: &Trivia) -> (r: Option<(bool, String)>)
        ensures
            match comment_piece(self.options.comment_policy, t@) {
                None => r is None,
                Some((line, text)) => r matches Some((l, s)) && l == line && s@ == text,
            },
    {
        match (self.options.comment_policy, t) {
            (CommentPolicy::Remove, _) => None,
            (CommentPolicy::Keep, Trivia::LineComment(c)) => {
                let mut s = text::to_owned_string("//");
                text::append_str(&mut s, c.as_str());
                Some((true, s))
            },
            (_, Trivia::LineComment(c)) => {
                let mut s = text::to_owned_string("/*");
                text::append_str(&mut s, c.as_str());
                text::append_str(&mut s, "*/");
                Some((false, s))
            },
            (_, Trivia::BlockComment(c)) => {
                let mut s = text::to_owned_string("/*");
                text::append_str(&mut s, c.as_str());
                text::append_str(&mut s, "*/");
                Some((false, s))
            },
        }
    }

    /// Comments before a key or value (see [`leading_text`]).
    fn format_leading(&mut self, trivia: &Vec<Trivia>, indent: &str)
        ensures
            final(self).options == old(self).options,
            final(self).buffer@ == old(self).buffer@ + leading_text(
                old(self).options,
                indent@,
                trivia_view(trivia@),
            ),
    {
        let ghost start = self.buffer@;
        let ghost ts = trivia_view(trivia@);
        let mut i: usize = 0;
        proof {
            assert(ts.take(0) =~= seq![]);
        }
        while i < trivia.len()
            invariant
                self.options == old(self).options,
                start == old(self).buffer@,
                ts == trivia_view(trivia@),
                i <= trivia@.len(),
                self.buffer@ == start + leading_text(self.options, indent@, ts.take(i as int)),
            decreases trivia.len() - i,
        {
            let ghost before = self.buffer@;
            proof {
                assert(ts.take(i + 1).drop_last() =~= ts.take(i as int));
                assert(ts.take(i + 1).last() == trivia@[i as int]@);
            }
            match self.comment_text(&trivia[i]) {
                None => {},
                Some((line, text)) => {
                    self.write_str(text.as_str());
                    if line {
                        self.write_char('\n');
                        self.write_str(indent);
                    } else if self.pretty() {
                        self.write_char(' ');
                    }
                },
            }
            proof {
                assert(self.buffer@ =~= before + leading_piece(
                    self.options,
                    indent@,
                    trivia@[i as int]@,
                ));
            }
            i += 1;
        }
        proof {
            assert(ts.take(trivia@.len() as int) =~= ts);
        }
    }

    /// A string in quotes, escaped.
    fn format_string(&mut self, s: &str)
        ensures
            final(self).options == old(self).options,
            final(self).buffer@ == old(self).buffer@ + seq!['"'] + escaped(s@) + seq!['"'],
    {
        self.write_char('"');
        let e = escape_string(s);
        self.write_str(e.as_str());
        self.write_char('"');
    }

    /// A value at the indentation `indent` (see [`value_text`]).
    #[verifier::rlimit(60)]
    fn format_value(&mut self, value: &Value, indent: &str)
        ensures
            final(self).options == old(self).options,
            final(self).buffer@ == old(self).buffer@ + value_text(
                old(self).options,
                indent@,
                value@,
            ),
        decreases value,
    {
        let ghost start = self.buffer@;
        match value {
            Value::Null => self.write_str("null"),
            Value::Bool(b) => {
                if *b {
                    self.write_str("true");
                } else {
                    self.write_str("false");
                }
            },
            Value::Number(Number::Int(i)) => {
                let t = int_to_text(*i);
                self.write_str(t.as_str());
            },
            Value::Number(Number::Float(t)) => self.write_str(t.as_str()),
            Value::String(s) => self.format_string(s.as_str()),
            Value::Array(items) => {
                proof {
                    lemma_array_value_view(*items);
                }
                if items.len() == 0 {
                    self.write_str("[]");
                    return;
                }
                let ghost o = self.options;
                let ghost nv = node_views(items@);
                let inner = self.deeper(indent);
                self.write_char('[');
                self.write_newline();
                let ghost head = self.buffer@;
                let mut i: usize = 0;
                while i < items.len()
                    invariant
                        *value == Value::Array(*items),
                        value@ == ValueView::Array(nv),
                        nv == node_views(items@),
                        self.options == o,
                        o == old(self).options,
                        inner@ == indent@ + indent_unit(o),
                        i <= items@.len(),
                        self.buffer@ == head + elements_text(o, inner@, nv, i as nat),
                    decreases items.len() - i,
                {
                    let ghost before = self.buffer@;
                    let ghost n = nv[i as int];
                    assert(n == items@[i as int]@);
                    self.write_str(inner.as_str());
                    self.format_leading(&items[i].trivia, inner.as_str());
                    self.format_value(&items[i].value, inner.as_str());
                    if items[i].comma {
                        self.write_char(',');
                    } else if i + 1 < items.len() {
                        self.write_char(',');
                    }
                    self.write_newline();
                    proof {
                        let sep = if (i + 1) < nv.len() && !n.comma {
                            seq![',']
                        } else {
                            seq![]
                        };
                        assert(self.buffer@ =~= before + inner@ + node_text(o, inner@, n) + sep
                            + newline_text(o));
                    }
                    i += 1;
                }
                self.write_str(indent);
                self.write_char(']');
                proof {
                    assert(self.buffer@ =~= start + value_text(o, indent@, value@));
                }
            },
            Value::Object(members) => {
                proof {
                    lemma_object_value_view(*members);
                }
                if members.len() == 0 {
                    self.write_str("{}");
                    return;
                }
                let ghost o = self.options;
                let ghost ev = entry_views(members@);
                let inner = self.deeper(indent);
                self.write_char('{');
                self.write_newline();
                let ghost head = self.buffer@;
                let mut i: usize = 0;
                while i < members.len()
                    invariant
                        *value == Value::Object(*members),
                        value@ == ValueView::Object(ev),
                        ev == entry_views(members@),
                        self.options == o,
                        o == old(self).options,
                        inner@ == indent@ + indent_unit(o),
                        i <= members@.len(),
                        self.buffer@ == head + members_text(o, inner@, ev, i as nat),
                    decreases members.len() - i,
                {
                    let ghost before = self.buffer@;
                    let ghost e = ev[i as int];
                    assert(e == members@[i as int]@);
                    self.write_str(inner.as_str());
                    self.format_leading(&members[i].key_trivia, inner.as_str());
                    self.format_string(members[i].key.as_str());
                    self.write_char(':');
                    if self.pretty() {
                        self.write_char(' ');
                    }
                    self.format_leading(&members[i].value.trivia, inner.as_str());
                    self.format_value(&members[i].value.value, inner.as_str());
                    if members[i].value.comma {
                        self.write_char(',');
                    } else if i + 1 < members.len() {
                        self.write_char(',');
                    }
                    self.write_newline();
                    proof {
                        let sep = if (i + 1) < ev.len() && !e.value.comma {
                            seq![',']
                        } else {
                            seq![]
                        };
                        assert(self.buffer@ =~= before + inner@ + member_text(o, inner@, e) + sep
                            + newline_text(o));
                    }
                    i += 1;
                }
                self.write_str(indent);
                self.write_char('}');
                proof {
                    assert(self.buffer@ =~= start + value_text(o, indent@, value@));
                }
            },
            Value::Lazy(l) => match &**l {
                LazyValue::Unknown(raw) => self.write_str(raw.as_str()),
                LazyValue::UnknownObject(raw) => self.write_str(raw.as_str()),
                LazyValue::UnknownVector(raw) => self.write_str(raw.as_str()),
                LazyValue::Parsed(inner) => self.format_value(inner, indent),
            },
        }
    }

    /// A node at the indentation `indent` (see [`node_text`]).
    fn format_node(&mut self, node: &Node, indent: &str)
        ensures
            final(self).options == old(self).options,
            final(self).buffer@ == old(self).buffer@ + node_text(old(self).options, indent@, node@),
    {
        let ghost start = self.buffer@;
        self.format_leading(&node.trivia, indent);
        self.format_value(&node.value, indent);
        if node.comma {
            self.write_char(',');
        }
        proof {
            assert(self.buffer@ =~= start + node_text(old(self).options, indent@, node@));
        }
    }

    /// A member at the indentation `indent` (see [`member_text`]).
    fn format_object_entry(&mut self, entry: &ObjectEntry, indent: &str)
        ensures
            final(self).options == old(self).options,
            final(self).buffer@ == old(self).buffer@ + member_text(
                old(self).options,
                indent@,
                entry@,
            ),
    {
        let ghost start = self.buffer@;
        self.format_leading(&entry.key_trivia, indent);
        self.format_string(entry.key.as_str());
        self.write_char(':');
        if self.pretty() {
            self.write_char(' ');
        }
        self.format_node(&entry.value, indent);
        proof {
            assert(self.buffer@ =~= start + member_text(old(self).options, indent@, entry@));
        }
    }
}

impl Node {
    /// The node as text under `options` (see [`node_text`]).
    pub fn to_formatted_string(&self, options: FormatOptions) -> (r: String)
        ensures
            r@ == node_text(options, seq![], self@),
    {
        let mut f = Formatter { options, buffer: String::new() };
        proof {
            reveal_strlit("");
            assert(""@ =~= Seq::<char>::empty());
            assert(f.buffer@ =~= seq![]);
        }
        f.format_node(self, "");
        proof {
            assert(f.buffer@ =~= node_text(options, seq![], self@));
        }
        f.buffer
    }
}


/// The options of [`to_string`]: minified, comments kept.
pub open spec fn compact_options() -> FormatOptions {
    FormatOptions { indentation: Indentation::Minified, comment_policy: CommentPolicy::Keep }
}

/// The indentation [`Indentation::parse`] reads from `indent`; `None` for
/// one it refuses.
pub open spec fn indentation_of(indent: Option<Seq<char>>) -> Option<Indentation> {
    match indent {
        None => Some(Indentation::Spaces(4)),
        Some(s) => if s.len() == 0 {
            Some(Indentation::Minified)
        } else if s == seq!['\t'] {
            Some(Indentation::Tabs)
        } else if s.len() > 0 && all_spaces(s) && s.len() <= 255 {
            Some(Indentation::Spaces(s.len() as u8))
        } else {
            None
        },
    }
}

/// The view of an optional text.
pub open spec fn opt_text(indent: Option<&str>) -> Option<Seq<char>> {
    match indent {
        None => None,
        Some(s) => Some(s@),
    }
}

/// Minified output, comments kept (see [`node_text`]); it does not fail.
pub fn to_string(node: &Node) -> (r: crate::error::Result<String>)
    ensures
        r matches Ok(s) && s@ == node_text(compact_options(), seq![], node@),
{
    Ok(node.to_formatted_string(FormatOptions::default()))
}

/// Pretty output with comments kept; `indent` is a tab or a run of spaces,
/// `None` meaning four spaces (see [`Indentation::parse`]), and any other
/// indentation is refused.
pub fn to_string_pretty(node: &Node, indent: Option<&str>) -> (r: crate::error::Result<String>)
    ensures
        match indentation_of(opt_text(indent)) {
            Some(ind) => r matches Ok(s) && s@ == node_text(
                FormatOptions { indentation: ind, comment_policy: CommentPolicy::Keep },
                seq![],
                node@,
            ),
            None => r matches Err(Error::Custom(m)) && m@ == unsupported_indent_text(
                opt_text(indent)->Some_0,
            ),
        },
{
    match Indentation::parse(indent) {
        Ok(indentation) => Ok(
            node.to_formatted_string(
                FormatOptions { indentation, comment_policy: CommentPolicy::Keep },
            ),
        ),
        Err(e) => Err(e),
    }
}

/// The bytes of `s`.
fn text_bytes(s: &str) -> (r: Vec<u8>)
    ensures
        r@ == vstd::utf8::encode_utf8(s@),
{
    let b = s.as_bytes();
    let mut out: Vec<u8> = Vec::new();
    let mut i: usize = 0;
    while i < b.len()
        invariant
            b@ == s.spec_bytes(),
            i <= b@.len(),
            out@ == b@.take(i as int),
        decreases b.len() - i,
    {
        out.push(b[i]);
        proof {
            assert(b@.take(i + 1) =~= b@.take(i as int).push(b@[i as int]));
        }
        i += 1;
    }
    proof {
        assert(b@.take(b@.len() as int) =~= b@);
        text::lemma_str_bytes(s);
        vstd::utf8::decode_utf8_encode_utf8(s.spec_bytes());
    }
    out
}

/// [`to_string`] as UTF-8 bytes.
pub fn to_vec(node: &Node) -> (r: crate::error::Result<Vec<u8>>)
    ensures
        r matches Ok(b) && b@ == vstd::utf8::encode_utf8(node_text(compact_options(), seq![], node@)),
{
    let s = node.to_formatted_string(FormatOptions::default());
    Ok(text_bytes(s.as_str()))
}

/// [`to_string_pretty`] as UTF-8 bytes.
pub fn to_vec_pretty(node: &Node, indent: Option<&str>) -> (r: crate::error::Result<Vec<u8>>)
    ensures
        match indentation_of(opt_text(indent)) {
            Some(ind) => r matches Ok(b) && b@ == vstd::utf8::encode_utf8(
                node_text(
                    FormatOptions { indentation: ind, comment_policy: CommentPolicy::Keep },
                    seq![],
                    node@,
                ),
            ),
            None => r matches Err(Error::Custom(m)) && m@ == unsupported_indent_text(
                opt_text(indent)->Some_0,
            ),
        },
{
    match to_string_pretty(node, indent) {
        Ok(s) => Ok(text_bytes(s.as_str())),
        Err(e) => Err(e),
    }
}

impl Node {
    /// The node minified with its comments, as its `Display` would show it
    /// (see [`to_string`]).
    pub fn to_string(&self) -> (r: String)
        ensures
            r@ == node_text(compact_options(), seq![], self@),
    {
        self.to_formatted_string(FormatOptions::default())
    }
}

impl Value {
    /// The value minified with the comments inside it (see
    /// [`value_text`]).
    pub fn to_string(&self) -> (r: String)
        ensures
            r@ == value_text(compact_options(), seq![], self@),
    {
        let mut f = Formatter { options: FormatOptions::default(), buffer: String::new() };
        proof {
            reveal_strlit("");
            assert(""@ =~= Seq::<char>::empty());
            assert(f.buffer@ =~= seq![]);
        }
        f.format_value(self, "");
        proof {
            assert(f.buffer@ =~= value_text(compact_options(), seq![], self@));
        }
        f.buffer
    }
}

impl ObjectEntry {
    /// The member minified with its comments (see [`member_text`]).
    pub fn to_string(&self) -> (r: String)
        ensures
            r@ == member_text(compact_options(), seq![], self@),
    {
        let mut f = Formatter { options: FormatOptions::default(), buffer: String::new() };
        proof {
            reveal_strlit("");
            assert(""@ =~= Seq::<char>::empty());
            assert(f.buffer@ =~= seq![]);
        }
        f.format_object_entry(self, "");
        proof {
            assert(f.buffer@ =~= member_text(compact_options(), seq![], self@));
        }
        f.buffer
    }
}

} // verus!
