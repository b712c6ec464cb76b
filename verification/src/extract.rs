//! Locating the block of colour declarations in theme source text and
//! reading its declarations as name and value pairs.
//!
//! Positions count characters, not bytes.

use crate::text::{
    chars_of, drop_blanks, find, find_char, first_index, first_occurrence, is_blank_text,
    is_first_occurrence, is_whitespace, last_index, lemma_blank_text_lacks, lemma_concat_lacks,
    lemma_first_index_behind, lemma_first_occurrence_is_first, lemma_last_index_before,
    lemma_occurs_at_char, lemma_trailing_blanks_stop, lemma_trim_padded, lemma_trim_start_indented,
    matches_at, occurs_at, rfind_char, skip_blanks, string_of, trim, trim_bounds, trim_start,
};
use vstd::prelude::*;
use vstd::string::*;

verus! {

/// One of the three boundaries that delimit the block of declarations.
#[derive(Clone, Copy, Debug, PartialEq, Eq, Structural)]
pub enum Boundary {
    /// The name of the first light colour.
    Start,
    /// The name of the last dark colour.
    End,
    /// The line feed that closes the line of the last dark colour.
    LineEnd,
}

/// Why an extraction failed, over plain sequences.
pub enum Failure {
    /// A boundary of the block does not occur in the text.
    MarkerNotFound(Boundary),
    /// The block would end before it starts.
    InvalidRegion,
    /// A declaration line lacks `=`, or `_` on its left-hand side.
    MalformedDeclaration(Seq<char>),
}

/// Why an extraction failed.
#[derive(Debug, PartialEq, Eq)]
pub enum ExtractError {
    /// A boundary of the block does not occur in the text.
    MarkerNotFound(Boundary),
    /// The line of the end marker closes before the start marker begins.
    InvalidRegion,
    /// A declaration line lacks `=`, or `_` on its left-hand side; the line
    /// is carried along.
    MalformedDeclaration(String),
}

impl View for ExtractError {
    type V = Failure;

    open spec fn view(&self) -> Failure {
        match self {
            ExtractError::MarkerNotFound(b) => Failure::MarkerNotFound(*b),
            ExtractError::InvalidRegion => Failure::InvalidRegion,
            ExtractError::MalformedDeclaration(line) => Failure::MalformedDeclaration(line@),
        }
    }
}

impl ExtractError {
    /// A sentence for the operator.
    pub fn message(&self) -> (out: String)
        ensures
            out@ == failure_message(self@),
    {
        match self {
            ExtractError::MarkerNotFound(Boundary::Start) => String::from_str(
                "Error: The start marker md_theme_light_primary was not found.",
            ),
            ExtractError::MarkerNotFound(Boundary::End) => String::from_str(
                "Error: The end marker md_theme_dark_scrim was not found.",
            ),
            ExtractError::MarkerNotFound(Boundary::LineEnd) => String::from_str(
                "Error: The line of the end marker is not terminated.",
            ),
            ExtractError::InvalidRegion => String::from_str(
                "Error: The end marker closes before the start marker.",
            ),
            ExtractError::MalformedDeclaration(line) => {
                let mut out = String::from_str("Error: Malformed declaration: ");
                out.append(line.as_str());
                out
            },
        }
    }
}

/// The sentence that reports `f`.
pub open spec fn failure_message(f: Failure) -> Seq<char> {
    match f {
        Failure::MarkerNotFound(Boundary::Start) => "Error: The start marker md_theme_light_primary was not found."@,
        Failure::MarkerNotFound(Boundary::End) => "Error: The end marker md_theme_dark_scrim was not found."@,
        Failure::MarkerNotFound(Boundary::LineEnd) => "Error: The line of the end marker is not terminated."@,
        Failure::InvalidRegion => "Error: The end marker closes before the start marker."@,
        Failure::MalformedDeclaration(line) => "Error: Malformed declaration: "@ + line,
    }
}

/// A colour's name and the expression of its value.
pub type Entry = (Seq<char>, Seq<char>);

/// The text that opens the block.
pub open spec fn start_marker() -> Seq<char> {
    "md_theme_light_primary"@
}

/// The text whose line closes the block.
pub open spec fn end_marker() -> Seq<char> {
    "md_theme_dark_scrim"@
}

/// The keyword that a declaration begins with.
pub open spec fn keyword() -> Seq<char> {
    "val"@
}

/// Where the block of declarations starts and ends in `text`: from the
/// first start marker up to, and without, the first line feed behind the
/// first end marker.
pub open spec fn block_span(text: Seq<char>) -> Result<(int, int), Failure> {
    match first_occurrence(text, start_marker()) {
        None => Err(Failure::MarkerNotFound(Boundary::Start)),
        Some(start) => match first_occurrence(text, end_marker()) {
            None => Err(Failure::MarkerNotFound(Boundary::End)),
            Some(at) => {
                let behind = at + end_marker().len();
                match first_index(text.skip(behind), '\n') {
                    None => Err(Failure::MarkerNotFound(Boundary::LineEnd)),
                    Some(k) => if behind + k < start {
                        Err(Failure::InvalidRegion)
                    } else {
                        Ok((start, behind + k))
                    },
                }
            },
        },
    }
}

/// A block that is found begins with the first start marker and ends just
/// before a line feed behind the first end marker. The search fails for
/// want of the start marker exactly when that marker stands nowhere in the
/// text, and never with a malformed declaration.
pub proof fn lemma_block_span_bounds(text: Seq<char>)
    ensures
        match block_span(text) {
            Ok((start, end)) => {
                &&& 0 <= start <= end < text.len()
                &&& is_first_occurrence(text, start_marker(), start)
                &&& text[end] == '\n'
                &&& first_occurrence(text, end_marker()) is Some
                &&& first_occurrence(text, end_marker())->0 + end_marker().len() <= end
            },
            Err(f) => !(f is MalformedDeclaration),
        },
        block_span(text) == Err::<(int, int), Failure>(Failure::MarkerNotFound(Boundary::Start))
            <==> forall|i: int| !occurs_at(text, start_marker(), i),
{
    lemma_first_occurrence_is_first(text, start_marker());
    lemma_first_occurrence_is_first(text, end_marker());
    if first_occurrence(text, start_marker()) is Some && first_occurrence(
        text,
        end_marker(),
    ) is Some {
        let behind = first_occurrence(text, end_marker())->0 + end_marker().len();
        let tail = text.skip(behind);
        lemma_first_occurrence_is_first(tail, seq!['\n']);
        if first_index(tail, '\n') is Some {
            let k = first_index(tail, '\n')->0;
            lemma_occurs_at_char(tail, '\n', k);
        }
    }
}

/// `line` without a carriage return at its end.
pub open spec fn strip_return(line: Seq<char>) -> Seq<char> {
    if line.len() > 0 && line.last() == '\r' {
        line.drop_last()
    } else {
        line
    }
}

/// The lines of `text`. A line ends with a line feed, or with a carriage
/// return and a line feed, or with the text; the ending is not part of it.
pub open spec fn lines(text: Seq<char>) -> Seq<Seq<char>>
    decreases text.len(),
    via lines_decreases
{
    if text.len() == 0 {
        Seq::empty()
    } else {
        match first_index(text, '\n') {
            None => seq![text],
            Some(i) => seq![strip_return(text.take(i))] + lines(text.skip(i + 1)),
        }
    }
}

#[via_fn]
proof fn lines_decreases(text: Seq<char>) {
    lemma_first_occurrence_is_first(text, seq!['\n']);
}

/// Whether `line`, trimmed, begins with the keyword.
pub open spec fn is_declaration(line: Seq<char>) -> bool {
    occurs_at(trim(line), keyword(), 0)
}

/// What follows the keyword of the declaration `line`.
pub open spec fn declaration_body(line: Seq<char>) -> Seq<char> {
    trim_start(line).skip(keyword().len() as int)
}

/// The entry that the declaration `line` declares: the name is what follows
/// the last `_` left of the first `=`, trimmed; the value is all that
/// follows the first `=`. There is none if `=` or `_` is missing.
pub open spec fn entry_of(line: Seq<char>) -> Option<Entry> {
    let body = declaration_body(line);
    match first_index(body, '=') {
        None => None,
        Some(eq) => {
            let left = body.take(eq);
            match last_index(left, '_') {
                None => None,
                Some(us) => Some((trim(left.skip(us + 1)), body.skip(eq + 1))),
            }
        },
    }
}

/// The entries of the declarations among `lines`, in order, or the first
/// declaration that has no entry.
pub open spec fn parse_lines(lines: Seq<Seq<char>>) -> Result<Seq<Entry>, Seq<char>>
    decreases lines.len(),
{
    if lines.len() == 0 {
        Ok(Seq::empty())
    } else {
        match parse_lines(lines.drop_last()) {
            Err(line) => Err(line),
            Ok(entries) => {
                let line = lines.last();
                if !is_declaration(line) {
                    Ok(entries)
                } else {
                    match entry_of(line) {
                        Some(entry) => Ok(entries.push(entry)),
                        None => Err(line),
                    }
                }
            },
        }
    }
}

/// The entries declared in `block`.
pub open spec fn block_entries(block: Seq<char>) -> Result<Seq<Entry>, Failure> {
    match parse_lines(lines(block)) {
        Ok(entries) => Ok(entries),
        Err(line) => Err(Failure::MalformedDeclaration(line)),
    }
}

/// The entries declared in the block of the document `text`.
pub open spec fn document_entries(text: Seq<char>) -> Result<Seq<Entry>, Failure> {
    match block_span(text) {
        Err(f) => Err(f),
        Ok((start, end)) => block_entries(text.subrange(start, end)),
    }
}

/// Names and values as sequences of characters.
pub open spec fn entries_view(entries: Seq<(&str, &str)>) -> Seq<Entry> {
    entries.map_values(|e: (&str, &str)| (e.0@, e.1@))
}

/// The span of the block of declarations in `text`, in characters: from
/// the first character of the first start marker to the first line feed
/// behind the first end marker, which is left out. The two markers are
/// searched for independently. Fails if the start marker, the end marker or
/// that line feed is missing, in this order, and if the line feed stands
/// before the start marker.
pub fn locate_block(text: &str) -> (r: Result<(usize, usize), ExtractError>)
    ensures
        match r {
            Ok((start, end)) => block_span(text@) == Ok::<(int, int), Failure>(
                (start as int, end as int),
            ) && start <= end <= text@.len(),
            Err(e) => block_span(text@) == Err::<(int, int), Failure>(e@),
        },
{
    let chars = chars_of(text);
    locate_in(chars.as_slice())
}

/// As `locate_block`, over the characters of the document.
pub fn locate_in(text: &[char]) -> (r: Result<(usize, usize), ExtractError>)
    ensures
        match r {
            Ok((start, end)) => block_span(text@) == Ok::<(int, int), Failure>(
                (start as int, end as int),
            ) && start <= end <= text@.len(),
            Err(e) => block_span(text@) == Err::<(int, int), Failure>(e@),
        },
{
    let n: usize = text.len();
    let opening = chars_of("md_theme_light_primary");
    let closing = chars_of("md_theme_dark_scrim");
    proof {
        assert(text@.subrange(0, n as int) =~= text@);
    }
    let start: usize = match find(text, 0, n, opening.as_slice()) {
        None => {
            return Err(ExtractError::MarkerNotFound(Boundary::Start));
        },
        Some(i) => i,
    };
    let at: usize = match find(text, 0, n, closing.as_slice()) {
        None => {
            return Err(ExtractError::MarkerNotFound(Boundary::End));
        },
        Some(i) => i,
    };
    proof {
        lemma_first_occurrence_is_first(text@, closing@);
        lemma_first_occurrence_is_first(text@, opening@);
    }
    let behind: usize = at + closing.len();
    proof {
        assert(text@.subrange(behind as int, n as int) =~= text@.skip(behind as int));
    }
    match find_char(text, behind, n, '\n') {
        None => Err(ExtractError::MarkerNotFound(Boundary::LineEnd)),
        Some(k) => {
            if behind + k < start {
                Err(ExtractError::InvalidRegion)
            } else {
                Ok((start, behind + k))
            }
        },
    }
}

/// What a line of the block turned out to be.
pub enum Reading {
    /// No declaration: the line is passed over.
    Other,
    /// A declaration without `=`, or without `_` on its left-hand side.
    Malformed,
    /// A declaration, with the bounds of its name and of its value.
    Declares { name: (usize, usize), value: (usize, usize) },
}

/// Reads the line `text[lo..hi]`.
pub fn read_line(text: &[char], lo: usize, hi: usize) -> (r: Reading)
    requires
        lo <= hi <= text@.len(),
    ensures
        ({
            let line = text@.subrange(lo as int, hi as int);
            match r {
                Reading::Other => !is_declaration(line),
                Reading::Malformed => is_declaration(line) && entry_of(line) is None,
                Reading::Declares { name, value } => {
                    &&& is_declaration(line)
                    &&& lo <= name.0 <= name.1 <= value.0 <= value.1 == hi
                    &&& entry_of(line) == Some(
                        (
                            text@.subrange(name.0 as int, name.1 as int),
                            text@.subrange(value.0 as int, value.1 as int),
                        ),
                    )
                },
            }
        }),
{
    let word = chars_of("val");
    let m: usize = word.len();
    let p: usize = skip_blanks(text, lo, hi);
    let q: usize = drop_blanks(text, p, hi);
    if !matches_at(text, p, q, word.as_slice(), 0) {
        return Reading::Other;
    }
    let from: usize = p + m;
    let ghost line = text@.subrange(lo as int, hi as int);
    let ghost body = declaration_body(line);
    proof {
        assert(text@.subrange(from as int, hi as int) =~= text@.subrange(p as int, hi as int).skip(
            m as int,
        ));
    }
    let eq: usize = match find_char(text, from, hi, '=') {
        None => {
            return Reading::Malformed;
        },
        Some(i) => i,
    };
    proof {
        assert(text@.subrange(from as int, from + eq) =~= body.take(eq as int));
    }
    let us: usize = match rfind_char(text, from, from + eq, '_') {
        None => {
            return Reading::Malformed;
        },
        Some(i) => i,
    };
    proof {
        assert(text@.subrange(from + us + 1, from + eq) =~= body.take(eq as int).skip(us + 1));
        assert(text@.subrange(from + eq + 1, hi as int) =~= body.skip(eq + 1));
    }
    let name = trim_bounds(text, from + us + 1, from + eq);
    Reading::Declares { name, value: (from + eq + 1, hi) }
}

/// A declaration without an entry fails the lines that follow it too.
pub proof fn lemma_parse_lines_fails_on(done: Seq<Seq<char>>, more: Seq<Seq<char>>)
    requires
        parse_lines(done) is Err,
    ensures
        parse_lines(done + more) == parse_lines(done),
    decreases more.len(),
{
    if more.len() == 0 {
        assert(done + more =~= done);
    } else {
        lemma_parse_lines_fails_on(done, more.drop_last());
        assert((done + more).drop_last() =~= done + more.drop_last());
    }
}

/// The entries declared in `block`, each a slice of it, or the first
/// declaration line that declares none. A name is trimmed; a value is
/// taken as it stands, from behind the first `=` to the end of the line.
pub fn parse_entries<'a>(block: &'a str) -> (r: Result<Vec<(&'a str, &'a str)>, ExtractError>)
    ensures
        match r {
            Ok(entries) => block_entries(block@) == Ok::<Seq<Entry>, Failure>(
                entries_view(entries@),
            ),
            Err(e) => block_entries(block@) == Err::<Seq<Entry>, Failure>(e@),
        },
{
    let chars = chars_of(block);
    let text = chars.as_slice();
    let n: usize = text.len();
    let mut out: Vec<(&'a str, &'a str)> = Vec::new();
    let mut pos: usize = 0;
    let ghost mut done: Seq<Seq<char>> = Seq::empty();
    proof {
        assert(text@.skip(0) =~= text@);
        assert(entries_view(out@) =~= Seq::<Entry>::empty());
    }
    while pos < n
        invariant
            pos <= n == text@.len(),
            text@ == block@,
            lines(text@) == done + lines(text@.skip(pos as int)),
            parse_lines(done) == Ok::<Seq<Entry>, Seq<char>>(entries_view(out@)),
        decreases n - pos,
    {
        let ghost rest = text@.skip(pos as int);
        proof {
            assert(text@.subrange(pos as int, n as int) =~= rest);
        }
        let mut end: usize = n;
        let mut next: usize = n;
        match find_char(text, pos, n, '\n') {
            None => {
                proof {
                    assert(text@.skip(n as int) =~= Seq::<char>::empty());
                    assert(seq![rest] + Seq::<Seq<char>>::empty() =~= seq![rest]);
                }
            },
            Some(i) => {
                end = pos + i;
                next = pos + i + 1;
                if i > 0 && text[pos + i - 1] == '\r' {
                    end = pos + i - 1;
                }
                proof {
                    let raw = rest.take(i as int);
                    if i > 0 {
                        assert(raw.last() == text@[pos + i - 1]);
                    }
                    assert(text@.subrange(pos as int, end as int) =~= strip_return(raw));
                    assert(rest.skip(i + 1) =~= text@.skip(next as int));
                }
            },
        }
        let ghost line = text@.subrange(pos as int, end as int);
        proof {
            assert(lines(rest) == seq![line] + lines(text@.skip(next as int)));
            assert(done + (seq![line] + lines(text@.skip(next as int))) =~= done.push(line) + lines(
                text@.skip(next as int),
            ));
            assert(done.push(line).drop_last() =~= done);
        }
        match read_line(text, pos, end) {
            Reading::Other => {},
            Reading::Malformed => {
                proof {
                    lemma_parse_lines_fails_on(done.push(line), lines(text@.skip(next as int)));
                }
                return Err(ExtractError::MalformedDeclaration(string_of(text, pos, end)));
            },
            Reading::Declares { name, value } => {
                let entry = (
                    block.substring_char(name.0, name.1),
                    block.substring_char(value.0, value.1),
                );
                proof {
                    assert(entries_view(out@.push(entry)) =~= entries_view(out@).push(
                        (entry.0@, entry.1@),
                    ));
                }
                out.push(entry);
            },
        }
        proof {
            done = done.push(line);
        }
        pos = next;
    }
    proof {
        assert(text@.skip(n as int) =~= Seq::<char>::empty());
        assert(done + Seq::<Seq<char>>::empty() =~= done);
    }
    Ok(out)
}

/// The two halves of `entries`; of an odd number the second half holds one
/// more.
pub fn split_halves<'a, T>(entries: &'a [T]) -> (r: (&'a [T], &'a [T]))
    ensures
        r.0@ == entries@.take(entries@.len() as int / 2),
        r.1@ == entries@.skip(entries@.len() as int / 2),
        r.0@.len() == entries@.len() / 2,
        r.0@.len() + r.1@.len() == entries@.len(),
{
    entries.split_at(entries.len() / 2)
}

/// The entries declared in the block of the document `text`, each a slice
/// of it. The block begins at the start marker, behind the keyword of its
/// line, so that line is no declaration of the block: a marker that stands
/// in a declaration of its own leaves that declaration out.
pub fn extract_colors<'a>(text: &'a str) -> (r: Result<Vec<(&'a str, &'a str)>, ExtractError>)
    ensures
        match r {
            Ok(entries) => document_entries(text@) == Ok::<Seq<Entry>, Failure>(
                entries_view(entries@),
            ),
            Err(e) => document_entries(text@) == Err::<Seq<Entry>, Failure>(e@),
        },
{
    match locate_block(text) {
        Err(e) => Err(e),
        Ok((start, end)) => parse_entries(text.substring_char(start, end)),
    }
}

/// The test by which a line counts as a declaration.
pub open spec fn declaration_test() -> spec_fn(Seq<char>) -> bool {
    |line: Seq<char>| is_declaration(line)
}

/// The declarations among `lines`, in order.
pub open spec fn declarations(lines: Seq<Seq<char>>) -> Seq<Seq<char>> {
    lines.filter(declaration_test())
}

/// Every declaration among `lines` has its `=`, and a `_` left of it.
pub open spec fn well_formed(lines: Seq<Seq<char>>) -> bool {
    forall|i: int|
        0 <= i < lines.len() && is_declaration(#[trigger] lines[i]) ==> entry_of(lines[i]) is Some
}

/// The entries of `declarations`, one for each.
pub open spec fn entries_of(declarations: Seq<Seq<char>>) -> Seq<Entry> {
    declarations.map_values(|line: Seq<char>| entry_of(line)->0)
}

/// Lines whose declarations are all well formed give one entry for each
/// declaration, in the order of the lines.
pub proof fn lemma_parse_lines_well_formed(lines: Seq<Seq<char>>)
    requires
        well_formed(lines),
    ensures
        parse_lines(lines) == Ok::<Seq<Entry>, Seq<char>>(entries_of(declarations(lines))),
        entries_of(declarations(lines)).len() == declarations(lines).len(),
    decreases lines.len(),
{
    reveal(Seq::filter);
    if lines.len() == 0 {
        assert(entries_of(declarations(lines)) =~= Seq::<Entry>::empty());
    } else {
        let init = lines.drop_last();
        let line = lines.last();
        assert forall|i: int| 0 <= i < init.len() && is_declaration(#[trigger] init[i]) implies entry_of(
            init[i],
        ) is Some by {
            assert(init[i] == lines[i]);
        }
        lemma_parse_lines_well_formed(init);
        assert(init.push(line) =~= lines);
        init.lemma_filter_push(line, declaration_test());
        if is_declaration(line) {
            assert(entries_of(declarations(init).push(line)) =~= entries_of(
                declarations(init),
            ).push(entry_of(line)->0));
        }
    }
}

/// The first declaration without an entry fails the parse, and is what
/// the failure carries.
pub proof fn lemma_parse_lines_first_malformed(lines: Seq<Seq<char>>, i: int)
    requires
        0 <= i < lines.len(),
        is_declaration(lines[i]),
        entry_of(lines[i]) is None,
        well_formed(lines.take(i)),
    ensures
        parse_lines(lines) == Err::<Seq<Entry>, Seq<char>>(lines[i]),
{
    let upto = lines.take(i + 1);
    lemma_parse_lines_well_formed(lines.take(i));
    assert(upto.drop_last() =~= lines.take(i));
    assert(upto.last() == lines[i]);
    assert(parse_lines(upto) == Err::<Seq<Entry>, Seq<char>>(lines[i]));
    lemma_parse_lines_fails_on(upto, lines.skip(i + 1));
    assert(upto + lines.skip(i + 1) =~= lines);
}

/// A document with both markers, the line feed behind the second, and `n`
/// well-formed declarations in its block gives exactly `n` entries: the
/// entries of those declarations, in the order of the text.
pub proof fn lemma_well_formed_document(text: Seq<char>, n: nat)
    requires
        block_span(text) is Ok,
        well_formed(lines(text.subrange(block_span(text)->Ok_0.0, block_span(text)->Ok_0.1))),
        declarations(
            lines(text.subrange(block_span(text)->Ok_0.0, block_span(text)->Ok_0.1)),
        ).len() == n,
    ensures
        document_entries(text) == Ok::<Seq<Entry>, Failure>(
            entries_of(
                declarations(
                    lines(text.subrange(block_span(text)->Ok_0.0, block_span(text)->Ok_0.1)),
                ),
            ),
        ),
        document_entries(text)->Ok_0.len() == n,
{
    let span = block_span(text)->Ok_0;
    lemma_parse_lines_well_formed(lines(text.subrange(span.0, span.1)));
}

/// The declaration of `name` with `value`: an indentation, the keyword,
/// `prefix`, `_`, the name, padding, `=` and the value.
pub open spec fn declaration_line(
    indent: Seq<char>,
    prefix: Seq<char>,
    name: Seq<char>,
    pad: Seq<char>,
    value: Seq<char>,
) -> Seq<char> {
    indent + keyword() + prefix + seq!['_'] + name + pad + seq!['='] + value
}

/// A declaration is read back as it was written: where indentation and
/// padding are white space, the prefix holds no `=`, and the name holds
/// neither `_` nor `=` and no white space at its ends, the line declares
/// the name with the value, whatever the value holds.
pub proof fn lemma_declaration_line_entry(
    indent: Seq<char>,
    prefix: Seq<char>,
    name: Seq<char>,
    pad: Seq<char>,
    value: Seq<char>,
)
    requires
        is_blank_text(indent),
        is_blank_text(pad),
        !prefix.contains('='),
        !name.contains('_'),
        !name.contains('='),
        name.len() > 0 ==> !is_whitespace(name.first()) && !is_whitespace(name.last()),
    ensures
        is_declaration(declaration_line(indent, prefix, name, pad, value)),
        entry_of(declaration_line(indent, prefix, name, pad, value)) == Some((name, value)),
{
    let word = keyword();
    let left = prefix + seq!['_'] + name + pad;
    let body = left + seq!['='] + value;
    let rest = word + body;
    let line = declaration_line(indent, prefix, name, pad, value);
    assert(line =~= indent + rest);
    assert(rest.len() >= 3 && rest.subrange(0, 3) =~= word && !is_whitespace(rest[0])
        && !is_whitespace(rest[2])) by {
        reveal_strlit("val");
    }
    assert(word.len() == 3) by {
        reveal_strlit("val");
    }
    lemma_trim_start_indented(indent, rest);
    assert(is_declaration(line)) by {
        lemma_trailing_blanks_stop(rest, 2);
        assert(trim(line).subrange(0, 3) =~= rest.subrange(0, 3));
    }
    assert(declaration_body(line) == body) by {
        assert(rest.skip(3) =~= body);
    }
    let tail = name + pad;
    assert(left =~= prefix + seq!['_'] + tail);
    assert(!tail.contains('_') && !tail.contains('=')) by {
        lemma_blank_text_lacks(pad, '_');
        lemma_blank_text_lacks(pad, '=');
        lemma_concat_lacks(name, pad, '_');
        lemma_concat_lacks(name, pad, '=');
    }
    assert(first_index(body, '=') == Some(left.len() as int)) by {
        assert(!seq!['_'].contains('='));
        lemma_concat_lacks(prefix, seq!['_'], '=');
        lemma_concat_lacks(prefix + seq!['_'], tail, '=');
        lemma_first_index_behind(left, '=', value);
    }
    assert(body.take(left.len() as int) =~= left);
    assert(body.skip(left.len() as int + 1) =~= value);
    assert(last_index(left, '_') == Some(prefix.len() as int)) by {
        lemma_last_index_before(prefix, '_', tail);
    }
    assert(left.skip(prefix.len() as int + 1) =~= tail);
    assert(trim(tail) == name) by {
        assert(tail =~= Seq::<char>::empty() + name + pad);
        lemma_trim_padded(Seq::<char>::empty(), name, pad);
    }
}

} // verus!
