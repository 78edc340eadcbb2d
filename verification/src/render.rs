//! How one row of the tree is drawn: the prefix that its ancestors leave, the
//! branch glyph, and the name in the style of its kind.

use crate::entry::{Entry, EntryView};
use colored::{ColoredString, Colorize};
use vstd::prelude::*;

verus! {

/// The glyph in front of a name: one for the last of its siblings, one for the
/// others.
pub open spec fn branch(last: bool) -> Seq<char> {
    if last {
        "└── "@
    } else {
        "├── "@
    }
}

/// What an entry adds to the prefix of its children: blank padding under the
/// last of its siblings, a vertical line under the others.
pub open spec fn segment(last: bool) -> Seq<char> {
    if last {
        "    "@
    } else {
        "│   "@
    }
}

/// The name under which an entry is shown: its own where that was text, a
/// fixed word where it was not.
pub open spec fn label(e: EntryView) -> Seq<char> {
    if e.name_is_text {
        e.name
    } else {
        "<invalid>"@
    }
}

/// A line of the tree: prefix, branch glyph and the name as it is shown.
pub open spec fn line_of(prefix: Seq<char>, last: bool, shown: Seq<char>) -> Seq<char> {
    prefix + branch(last) + shown
}

/// Whether an entry is shown without any style: a file that is no link.
pub open spec fn unstyled(e: EntryView) -> bool {
    !e.is_dir && !e.is_symlink
}

/// One visited entry with its place in the tree.
#[derive(Debug)]
pub struct Row {
    /// The entry.
    pub entry: Entry,
    /// One segment for each ancestor below the root.
    pub prefix: String,
    /// Whether the entry is the last of its shown siblings.
    pub last: bool,
    /// The level of the entry; the children of the root are at level 0.
    pub level: usize,
}

/// The mathematical value of a [`Row`].
pub struct RowView {
    pub entry: EntryView,
    pub prefix: Seq<char>,
    pub last: bool,
    pub level: nat,
}

impl View for Row {
    type V = RowView;

    open spec fn view(&self) -> RowView {
        RowView { entry: self.entry@, prefix: self.prefix@, last: self.last, level: self.level as nat }
    }
}

/// The values of a sequence of rows, in order.
pub open spec fn row_views(rows: Seq<Row>) -> Seq<RowView> {
    rows.map_values(|r: Row| r@)
}

/// The line of a row without any style.
pub open spec fn plain_line(r: RowView) -> Seq<char> {
    line_of(r.prefix, r.last, label(r.entry))
}

/// The branch glyph for an entry.
pub fn branch_glyph(last: bool) -> (g: &'static str)
    ensures
        g@ == branch(last),
{
    if last {
        "└── "
    } else {
        "├── "
    }
}

/// The prefix for the children of an entry that is itself drawn behind
/// `prefix`.
pub fn child_prefix(prefix: &str, last: bool) -> (p: String)
    ensures
        p@ == prefix@ + segment(last),
{
    let mut p = String::from_str(prefix);
    if last {
        p.append("    ");
    } else {
        p.append("│   ");
    }
    p
}

/// Puts a line together from its three parts.
pub fn compose_line(prefix: &str, last: bool, shown: &str) -> (line: String)
    ensures
        line@ == line_of(prefix@, last, shown@),
{
    let mut line = String::from_str(prefix);
    line.append(branch_glyph(last));
    line.append(shown);
    line
}

/// The name under which an entry is shown.
pub fn label_of(e: &Entry) -> (name: &str)
    ensures
        name@ == label(e@),
{
    if e.name_is_text {
        e.name.as_str()
    } else {
        "<invalid>"
    }
}

/// The sequence with which a style begins.
pub open spec fn style_start() -> Seq<char> {
    "\u{1b}["@
}

/// The sequence that ends a style.
pub open spec fn style_reset() -> Seq<char> {
    "\u{1b}[0m"@
}

/// Whether a text holds the sequence that ends a style.
pub open spec fn holds_reset(text: Seq<char>) -> bool {
    exists|i: int|
        0 <= i && i + 4 <= text.len() && #[trigger] text.subrange(i, i + 4) == style_reset()
}

/// What a styled name looks like when it is written with its style: it ends
/// with the reset sequence and is longer than the name by that at least. A
/// name that holds no reset sequence stands unchanged right before it, behind
/// a style sequence; the style sequence is missing only if the colours were
/// switched off in the middle of the writing.
pub open spec fn escaped(name: Seq<char>, shown: Seq<char>) -> bool {
    &&& style_reset().is_suffix_of(shown)
    &&& shown.len() >= name.len() + 4
    &&& !holds_reset(name) ==> exists|code: Seq<char>|
        #![trigger code + name]
        shown == code + name + style_reset() && (code.len() == 0 || style_start().is_prefix_of(
            code,
        ))
}

/// What the name of an entry may be shown as: the label itself, or, for a
/// directory or a link, the label written with a style.
pub open spec fn shown_as(e: EntryView, shown: Seq<char>) -> bool {
    shown == label(e) || (!unstyled(e) && escaped(label(e), shown))
}

/// Whether `line` is a line for row `r`: prefix and branch glyph, then the
/// name in one of the forms in which it may be shown.
pub open spec fn drawn(r: RowView, line: Seq<char>) -> bool {
    exists|shown: Seq<char>|
        #![trigger line_of(r.prefix, r.last, shown)]
        line == line_of(r.prefix, r.last, shown) && shown_as(r.entry, shown)
}

/// `colored::ColoredString`: a text with a colour and a style. It is handed
/// on as it is; nothing is read of its inside.
#[verifier::external_type_specification]
#[verifier::external_body]
pub struct ExColoredString(ColoredString);

/// The text that a `colored::ColoredString` holds.
pub uninterp spec fn styled_text(s: ColoredString) -> Seq<char>;

/// Whether a `colored::ColoredString` carries neither a colour nor a style.
pub uninterp spec fn style_free(s: ColoredString) -> bool;

/// `Colorize::normal` on a string slice: a `ColoredString` that holds the
/// text and has no colour and no style.
#[verifier::external_body]
fn normal(name: &str) -> (s: ColoredString)
    ensures
        styled_text(s) == name@,
        style_free(s),
{
    name.normal()
}

/// `Colorize::blue` on a string slice: a `ColoredString` that holds the text
/// and has a blue foreground, so it is not free of style.
#[verifier::external_body]
fn blue(name: &str) -> (s: ColoredString)
    ensures
        styled_text(s) == name@,
        !style_free(s),
{
    name.blue()
}

/// `Colorize::bold` on a `ColoredString`: the same text, with bold added, so
/// the result is not free of style.
#[verifier::external_body]
fn bold(s: ColoredString) -> (r: ColoredString)
    ensures
        styled_text(r) == styled_text(s),
        !style_free(r),
{
    s.bold()
}

/// `Colorize::yellow` on a `ColoredString`: the same text, with the foreground
/// set to yellow, so the result is not free of style.
#[verifier::external_body]
fn yellow(s: ColoredString) -> (r: ColoredString)
    ensures
        styled_text(r) == styled_text(s),
        !style_free(r),
{
    s.yellow()
}

/// `Colorize::italic` on a `ColoredString`: the same text, with italic added,
/// so the result is not free of style.
#[verifier::external_body]
fn italic(s: ColoredString) -> (r: ColoredString)
    ensures
        styled_text(r) == styled_text(s),
        !style_free(r),
{
    s.italic()
}

/// `ToString::to_string` on a `ColoredString`, which goes through its
/// `Display`.
///
/// A string without colour and style is written as its text. With either,
/// the terminal and the environment decide: the text is written as it is, or
/// between a style sequence and the reset sequence. `colored` asks more than
/// once during one call whether to colour, so [`escaped`] leaves room for an
/// answer that changes in between: the reset sequence is always there once
/// it has begun, the style sequence may be missing.
#[verifier::external_body]
fn to_text(s: &ColoredString) -> (text: String)
    ensures
        style_free(*s) ==> text@ == styled_text(*s),
        text@ == styled_text(*s) || (!style_free(*s) && escaped(styled_text(*s), text@)),
{
    s.to_string()
}

/// The name in the style of its kind: a directory bold and blue, a symbolic
/// link italic and yellow whatever it leads to, any other file as it is.
///
/// A file that is no link comes back unchanged. A directory or a link comes
/// back unchanged where nothing is coloured, else written with its style.
pub fn paint(name: &str, is_dir: bool, is_symlink: bool) -> (text: String)
    ensures
        !is_dir && !is_symlink ==> text@ == name@,
        text@ == name@ || ((is_dir || is_symlink) && escaped(name@, text@)),
{
    let base = if is_dir {
        bold(blue(name))
    } else {
        normal(name)
    };
    let styled = if is_symlink {
        italic(yellow(base))
    } else {
        base
    };
    to_text(&styled)
}

impl Row {
    /// The line of the row without any style.
    pub fn plain_line(&self) -> (line: String)
        ensures
            line@ == plain_line(self@),
    {
        compose_line(self.prefix.as_str(), self.last, label_of(&self.entry))
    }

    /// The line of the row, the name in the style of its kind: prefix and
    /// branch glyph, then the label, as it is or written with its style. For
    /// a file that is no link the label follows as it is.
    pub fn line(&self) -> (line: String)
        ensures
            drawn(self@, line@),
            unstyled(self@.entry) ==> line@ == plain_line(self@),
    {
        let shown = paint(label_of(&self.entry), self.entry.is_dir, self.entry.is_symlink);
        let line = compose_line(self.prefix.as_str(), self.last, shown.as_str());
        assert(line@ == line_of(self@.prefix, self@.last, shown@) && shown_as(
            self@.entry,
            shown@,
        ));
        line
    }
}

} // verus!
