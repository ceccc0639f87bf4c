//! `[_.microkitchen]` configuration: discovery, parsing, validation and edits.

pub mod discover;
pub mod document;
pub mod edit;
pub mod hostpat;
pub mod json;
pub mod project;
pub mod reading;
pub mod schema;
pub mod size;
pub mod staging;
pub mod validate;
pub mod walker;

use vstd::prelude::*;

use crate::text::{chars, concat3, decimal, opt_view, push_decimal, views};
use crate::tree::Span;

verus! {

// ---------------------------------------------------------------------------
// Types
// ---------------------------------------------------------------------------

/// Where the microkitchen table lives in the kitchen file.
#[derive(Debug, Clone, Copy, PartialEq, Eq, Structural)]
pub enum SectionLocation {
    /// `[_.microkitchen]`: mise documents top-level `_` as never parsed.
    Underscore,
    /// `[microkitchen]`: works, but mise warns about an unknown field.
    Legacy,
}

/// Severity of a [`Diagnostic`], ordered from least to most severe.
#[derive(Debug, Clone, Copy, PartialEq, Eq, PartialOrd, Ord, Structural)]
pub enum Severity {
    Notice,
    Warning,
    Error,
}

/// One problem found while loading a project, located in its file if possible.
#[derive(Debug, PartialEq, Eq)]
pub struct Diagnostic {
    pub severity: Severity,
    pub file: Option<String>,
    pub line: Option<usize>,
    pub column: Option<usize>,
    pub key: Option<String>,
    pub message: String,
}

/// A [`Diagnostic`] by its contents.
#[verifier::ext_equal]
pub struct DiagnosticView {
    pub severity: Severity,
    pub file: Option<Seq<char>>,
    pub line: Option<usize>,
    pub column: Option<usize>,
    pub key: Option<Seq<char>>,
    pub message: Seq<char>,
}

/// All diagnostics of one load, reported together.
#[derive(Debug, PartialEq, Eq)]
pub struct Diagnostics {
    items: Vec<Diagnostic>,
}

/// A config file's text, kept to map byte spans to lines and columns.
#[derive(Debug, PartialEq, Eq)]
pub struct Source {
    pub path: String,
    pub text: String,
}

impl View for Diagnostic {
    type V = DiagnosticView;

    open spec fn view(&self) -> DiagnosticView {
        DiagnosticView {
            severity: self.severity,
            file: opt_view(self.file),
            line: self.line,
            column: self.column,
            key: opt_view(self.key),
            message: self.message@,
        }
    }
}

impl View for Diagnostics {
    type V = Seq<DiagnosticView>;

    closed spec fn view(&self) -> Seq<DiagnosticView> {
        views(self.items@)
    }
}

// ---------------------------------------------------------------------------
// Places in a text
// ---------------------------------------------------------------------------

/// How many bytes a character takes in UTF-8.
pub open spec fn char_width(c: char) -> nat {
    let n = c as u32;
    if n < 0x80 {
        1
    } else if n < 0x800 {
        2
    } else if n < 0x10000 {
        3
    } else {
        4
    }
}

/// A character's width is the length of its encoding.
pub proof fn law_widths_are_utf8_lengths(c: char)
    ensures
        char_width(c) == vstd::utf8::encode_scalar(c as u32).len(),
{
    vstd::utf8::char_is_scalar(c);
}

/// How many whole characters of `s`, from `from` on, fit into `bytes` bytes.
pub open spec fn chars_within(s: Seq<char>, from: int, bytes: int) -> int
    decreases s.len() - from,
{
    if 0 <= from < s.len() && char_width(s[from]) <= bytes {
        chars_within(s, from + 1, bytes - char_width(s[from]))
    } else {
        from
    }
}

pub open spec fn newlines(s: Seq<char>) -> nat
    decreases s.len(),
{
    if s.len() == 0 {
        0
    } else {
        newlines(s.drop_last()) + if s.last() == '\n' {
            1nat
        } else {
            0nat
        }
    }
}

/// How many characters stand after the last line break.
pub open spec fn line_tail(s: Seq<char>) -> nat
    decreases s.len(),
{
    if s.len() == 0 || s.last() == '\n' {
        0
    } else {
        line_tail(s.drop_last()) + 1
    }
}

/// The place after `n` others, counted from one.
pub open spec fn ordinal(n: nat) -> usize {
    if n < usize::MAX {
        (n + 1) as usize
    } else {
        usize::MAX
    }
}

/// 1-based line and column (in characters) of a byte offset.
pub open spec fn position_in(text: Seq<char>, offset: nat) -> (usize, usize) {
    let before = text.subrange(0, chars_within(text, 0, offset as int));
    (ordinal(newlines(before)), ordinal(line_tail(before)))
}

// ---------------------------------------------------------------------------
// Methods
// ---------------------------------------------------------------------------

impl SectionLocation {
    pub open spec fn path(self) -> Seq<char> {
        match self {
            SectionLocation::Underscore => "_.microkitchen"@,
            SectionLocation::Legacy => "microkitchen"@,
        }
    }

    /// The TOML table path, as written in a header.
    pub fn table_path(self) -> (r: &'static str)
        ensures
            r@ == self.path(),
    {
        match self {
            SectionLocation::Underscore => "_.microkitchen",
            SectionLocation::Legacy => "microkitchen",
        }
    }
}

impl Severity {
    pub open spec fn spec_text(self) -> Seq<char> {
        match self {
            Severity::Notice => "note"@,
            Severity::Warning => "warning"@,
            Severity::Error => "error"@,
        }
    }

    pub fn to_text(&self) -> (r: &'static str)
        ensures
            r@ == self.spec_text(),
    {
        match *self {
            Severity::Notice => "note",
            Severity::Warning => "warning",
            Severity::Error => "error",
        }
    }
}

impl DiagnosticView {
    /// A diagnostic that belongs to no particular file.
    pub open spec fn general(severity: Severity, message: Seq<char>) -> DiagnosticView {
        DiagnosticView { severity, file: None, line: None, column: None, key: None, message }
    }

    /// `file:line:column: key: message`, leaving out the parts that are unknown.
    pub open spec fn located(self) -> Seq<char> {
        let file = match self.file {
            None => ""@,
            Some(file) => match (self.line, self.column) {
                (Some(line), Some(column)) => file + ":"@ + decimal(line as nat) + ":"@ + decimal(
                    column as nat,
                ) + ": "@,
                _ => file + ": "@,
            },
        };
        let key = match self.key {
            None => ""@,
            Some(key) => key + ": "@,
        };
        file + key + self.message
    }

    pub open spec fn text(self) -> Seq<char> {
        self.severity.spec_text() + ": "@ + self.located()
    }
}

impl Diagnostic {
    /// A diagnostic that belongs to no particular file.
    pub fn general(severity: Severity, message: &str) -> (r: Self)
        ensures
            r@ == DiagnosticView::general(severity, message@),
    {
        Diagnostic {
            severity,
            file: None,
            line: None,
            column: None,
            key: None,
            message: message.to_owned(),
        }
    }

    /// `file:line:column: key: message`, leaving out the parts that are unknown.
    pub fn located_message(&self) -> (r: String)
        ensures
            r@ == self@.located(),
    {
        proof {
            reveal_strlit("");
        }
        let mut out = String::new();
        if let Some(file) = &self.file {
            out.push_str(file.as_str());
            if let (Some(line), Some(column)) = (self.line, self.column) {
                out.push_str(":");
                push_decimal(&mut out, line as u64);
                out.push_str(":");
                push_decimal(&mut out, column as u64);
            }
            out.push_str(": ");
        }
        if let Some(key) = &self.key {
            out.push_str(key.as_str());
            out.push_str(": ");
        }
        out.push_str(self.message.as_str());
        assert(out@ =~= self@.located());
        out
    }

    /// The diagnostic as a line of output.
    pub fn to_text(&self) -> (r: String)
        ensures
            r@ == self@.text(),
    {
        concat3(self.severity.to_text(), ": ", self.located_message().as_str())
    }
}

impl Clone for Diagnostic {
    fn clone(&self) -> (r: Self)
        ensures
            r@ == self@,
    {
        Diagnostic {
            severity: self.severity,
            file: match &self.file {
                Some(file) => Some(file.clone()),
                None => None,
            },
            line: self.line,
            column: self.column,
            key: match &self.key {
                Some(key) => Some(key.clone()),
                None => None,
            },
            message: self.message.clone(),
        }
    }
}

pub open spec fn count_errors(items: Seq<DiagnosticView>) -> nat
    decreases items.len(),
{
    if items.len() == 0 {
        0
    } else {
        count_errors(items.drop_last()) + if items.last().severity == Severity::Error {
            1nat
        } else {
            0nat
        }
    }
}

impl Default for Diagnostics {
    fn default() -> (r: Self)
        ensures
            r@ == Seq::<DiagnosticView>::empty(),
    {
        let r = Diagnostics { items: Vec::new() };
        assert(r@ =~= Seq::<DiagnosticView>::empty());
        r
    }
}

impl Diagnostics {
    pub fn push(&mut self, diagnostic: Diagnostic)
        ensures
            final(self)@ == old(self)@.push(diagnostic@),
    {
        self.items.push(diagnostic);
        assert(self@ =~= old(self)@.push(diagnostic@));
    }

    /// The diagnostics in the order they were found.
    pub fn iter(&self) -> (r: core::slice::Iter<'_, Diagnostic>)
        ensures
            views(vstd::std_specs::slice::into_iter_elts(r)) == self@,
    {
        broadcast use vstd::std_specs::slice::group_slice_axioms;

        let items = self.items.as_slice();
        let r = items.iter();
        assert(items@.as_ref().unref() =~= items@);
        r
    }

    pub fn is_empty(&self) -> (r: bool)
        ensures
            r == (self@.len() == 0),
    {
        self.items.len() == 0
    }

    pub fn error_count(&self) -> (r: usize)
        ensures
            r == count_errors(self@),
    {
        let ghost all = self@;
        let mut n: usize = 0;
        let mut i: usize = 0;
        assert(all.subrange(0, 0) =~= Seq::empty());
        while i < self.items.len()
            invariant
                i <= self.items@.len(),
                all == views(self.items@),
                n <= i,
                n == count_errors(all.subrange(0, i as int)),
            decreases self.items@.len() - i,
        {
            assert(all.subrange(0, i + 1).drop_last() =~= all.subrange(0, i as int));
            assert(all[i as int].severity == self.items@[i as int].severity);
            if self.items[i].severity == Severity::Error {
                n += 1;
            }
            i += 1;
        }
        assert(all.subrange(0, all.len() as int) =~= all);
        n
    }

    pub fn has_errors(&self) -> (r: bool)
        ensures
            r == (count_errors(self@) > 0),
    {
        self.error_count() > 0
    }
}

impl Source {
    pub fn new(path: &str, text: &str) -> (r: Self)
        ensures
            r.path@ == path@,
            r.text@ == text@,
    {
        Source { path: path.to_owned(), text: text.to_owned() }
    }

    /// 1-based line and column (in characters) of a byte offset.
    pub fn position(&self, offset: usize) -> (r: (usize, usize))
        ensures
            r == position_in(self.text@, offset as nat),
    {
        let v = chars(self.text.as_str());
        let mut left: usize = offset;
        let mut i: usize = 0;
        let mut breaks: usize = 0;
        let mut tail: usize = 0;
        assert(v@.subrange(0, 0) =~= Seq::empty());
        loop
            invariant_except_break
                v@ == self.text@,
                i <= v@.len(),
                chars_within(v@, 0, offset as int) == chars_within(v@, i as int, left as int),
                breaks == newlines(v@.subrange(0, i as int)),
                tail == line_tail(v@.subrange(0, i as int)),
                breaks <= i,
                tail <= i,
            ensures
                v@ == self.text@,
                i <= v@.len(),
                chars_within(v@, 0, offset as int) == i,
                breaks == newlines(v@.subrange(0, i as int)),
                tail == line_tail(v@.subrange(0, i as int)),
            decreases v@.len() - i,
        {
            if i >= v.len() {
                break;
            }
            let c = v[i];
            let n: u32 = c as u32;
            let width: usize = if n < 0x80 {
                1
            } else if n < 0x800 {
                2
            } else if n < 0x10000 {
                3
            } else {
                4
            };
            if width > left {
                break;
            }
            assert(v@.subrange(0, i + 1).drop_last() =~= v@.subrange(0, i as int));
            left -= width;
            if c == '\n' {
                breaks += 1;
                tail = 0;
            } else {
                tail += 1;
            }
            i += 1;
        }
        (breaks.saturating_add(1), tail.saturating_add(1))
    }

    /// A diagnostic located at `span` in this file.
    pub open spec fn located(
        self,
        severity: Severity,
        span: Option<Span>,
        key: Option<Seq<char>>,
        message: Seq<char>,
    ) -> DiagnosticView {
        DiagnosticView {
            severity,
            file: Some(self.path@),
            line: match span {
                Some(span) => Some(position_in(self.text@, span.start as nat).0),
                None => None,
            },
            column: match span {
                Some(span) => Some(position_in(self.text@, span.start as nat).1),
                None => None,
            },
            key,
            message,
        }
    }

    /// A diagnostic located at `span` in this file.
    pub fn diagnostic(
        &self,
        severity: Severity,
        span: Option<Span>,
        key: Option<&str>,
        message: &str,
    ) -> (r: Diagnostic)
        ensures
            r@ == self.located(
                severity,
                span,
                match key {
                    Some(key) => Some(key@),
                    None => None,
                },
                message@,
            ),
    {
        let (line, column) = match span {
            Some(span) => {
                let (line, column) = self.position(span.start);
                (Some(line), Some(column))
            },
            None => (None, None),
        };
        Diagnostic {
            severity,
            file: Some(self.path.clone()),
            line,
            column,
            key: match key {
                Some(key) => Some(key.to_owned()),
                None => None,
            },
            message: message.to_owned(),
        }
    }
}

// ---------------------------------------------------------------------------
// Laws
// ---------------------------------------------------------------------------

/// A place is told by its line and its column: one more than the newlines before it, and
/// one more than the characters behind the last of them.
pub proof fn law_places_are_told_by_line_and_column(line: Seq<char>, text: Seq<char>)
    requires
        !line.contains('\n'),
    ensures
        newlines(line) == 0,
        line_tail(line) == line.len(),
        newlines(text + seq!['\n'] + line) == newlines(text) + 1,
        line_tail(text + seq!['\n'] + line) == line.len(),
    decreases line.len(),
{
    let all = text + seq!['\n'] + line;
    if line.len() == 0 {
        assert(all.drop_last() =~= text);
        assert(all.last() == '\n');
    } else {
        let rest = line.drop_last();
        assert(line[line.len() - 1] != '\n') by {
            if line[line.len() - 1] == '\n' {
                assert(line.contains('\n'));
            }
        }
        assert(!rest.contains('\n')) by {
            if rest.contains('\n') {
                let k = choose|k: int| 0 <= k < rest.len() && rest[k] == '\n';
                assert(line[k] == '\n');
            }
        }
        law_places_are_told_by_line_and_column(rest, text);
        assert(all.drop_last() =~= text + seq!['\n'] + rest);
    }
}

/// The place of a character is that of the bytes before it.
pub proof fn law_offsets_count_bytes(before: Seq<char>, behind: Seq<char>)
    requires
        newlines(before) < usize::MAX,
        line_tail(before) < usize::MAX,
    ensures
        position_in(before + behind, vstd::utf8::encode_utf8(before).len()) == (
            (newlines(before) + 1) as usize,
            (line_tail(before) + 1) as usize,
        ),
{
    let all = before + behind;
    lemma_bytes_within(before, behind, 0);
    assert(before.subrange(0, before.len() as int) =~= before);
    assert(all.subrange(0, before.len() as int) =~= before);
}

proof fn lemma_bytes_within(before: Seq<char>, behind: Seq<char>, from: int)
    requires
        0 <= from <= before.len(),
    ensures
        chars_within(
            before + behind,
            from,
            vstd::utf8::encode_utf8(before.subrange(from, before.len() as int)).len() as int,
        ) == before.len(),
    decreases before.len() - from,
{
    let all = before + behind;
    let rest = before.subrange(from, before.len() as int);
    if from < before.len() {
        lemma_bytes_within(before, behind, from + 1);
        assert(rest.drop_first() =~= before.subrange(from + 1, before.len() as int));
        law_widths_are_utf8_lengths(rest[0]);
        assert(all[from] == rest[0]);
    } else {
        assert(rest =~= Seq::empty());
        assert(vstd::utf8::encode_utf8(rest).len() == 0);
        if from < all.len() {
            law_widths_are_utf8_lengths(all[from]);
        }
    }
}

/// Errors are counted, and nothing else is.
pub proof fn law_errors_are_counted(items: Seq<DiagnosticView>)
    ensures
        count_errors(items) == items.filter(
            |item: DiagnosticView| item.severity == Severity::Error,
        ).len(),
    decreases items.len(),
{
    reveal(Seq::filter);
    if items.len() > 0 {
        law_errors_are_counted(items.drop_last());
    }
}

/// A diagnostic is shown with its severity, its file and place, its key and its message,
/// as far as it has them.
pub proof fn law_diagnostics_are_shown(
    severity: Severity,
    file: Seq<char>,
    line: usize,
    column: usize,
    key: Seq<char>,
    message: Seq<char>,
)
    ensures
        (DiagnosticView {
            severity,
            file: Some(file),
            line: Some(line),
            column: Some(column),
            key: Some(key),
            message,
        }).text() == severity.spec_text() + seq![':', ' '] + (file + seq![':'] + decimal(
            line as nat,
        ) + seq![':'] + decimal(column as nat) + seq![':', ' '] + (key + seq![':', ' ']) + message),
        DiagnosticView::general(severity, message).text() == severity.spec_text() + seq![':', ' ']
            + message,
        severity.spec_text() == match severity {
            Severity::Notice => "note"@,
            Severity::Warning => "warning"@,
            Severity::Error => "error"@,
        },
{
    reveal_strlit(":");
    reveal_strlit(": ");
    reveal_strlit("");
    assert(":"@ =~= seq![':']);
    assert(": "@ =~= seq![':', ' ']);
    assert(""@ + ""@ + message =~= message);
}

} // verus!
