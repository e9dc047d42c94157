//! What a stream of characters means: the rows in it and the text of their
//! fields. Everything here is stated over the whole stream; nothing depends on
//! how a reader comes by it.

use vstd::prelude::*;
use crate::text::{strip_cr, unescape, well_paired};

verus! {

/// Where the parser stands inside a row. Positions count characters from the
/// start of the stream that is being parsed.
pub enum Phase {
    /// About to begin a field; `after_delim` tells a delimiter just seen from
    /// the start of the row.
    FieldStart { after_delim: bool },
    /// Inside an unquoted field that began at `start`.
    InField { start: int },
    /// Inside a quoted field whose opening quote stands at `start`.
    InQuotedField { start: int },
    /// Behind a quote character at `close`, inside the quoted field opened at
    /// `start`: the field has ended there unless another quote follows at once.
    InQuote { start: int, close: int },
}

/// A field as it stands in the stream: its characters without the enclosing
/// quotes, doubled quotes still doubled.
pub struct RawField {
    pub escaped: bool,
    pub text: Seq<char>,
}

/// What one character does: the phase after it, the field it completes, and
/// whether it ends the row.
pub struct Move {
    pub phase: Phase,
    pub emitted: Option<RawField>,
    pub row_done: bool,
}

/// The outcome of parsing from some position on.
pub enum Scan {
    /// A row ended; `next` is the position behind its newline.
    Complete { fields: Seq<RawField>, next: int },
    /// The stream ended first.
    Pending { phase: Phase, fields: Seq<RawField> },
}

pub open spec fn empty_field() -> RawField {
    RawField { escaped: false, text: Seq::empty() }
}

pub open spec fn plain_field(t: Seq<char>, start: int, end: int) -> RawField {
    RawField { escaped: false, text: t.subrange(start, end) }
}

/// The quoted field between the opening quote at `start` and the closing one
/// at `close`, both left out.
pub open spec fn quoted_field(t: Seq<char>, start: int, close: int) -> RawField {
    RawField { escaped: true, text: t.subrange(start + 1, close) }
}

/// The transition on the character at `pos`.
pub open spec fn step(t: Seq<char>, pos: int, phase: Phase, delim: char, quote: char) -> Move {
    let c = t[pos];
    match phase {
        Phase::FieldStart { after_delim } => {
            if c == quote {
                Move { phase: Phase::InQuotedField { start: pos }, emitted: None, row_done: false }
            } else if c == '\n' {
                Move {
                    phase,
                    emitted: if after_delim { Some(empty_field()) } else { None },
                    row_done: true,
                }
            } else if c == delim {
                Move {
                    phase: Phase::FieldStart { after_delim: true },
                    emitted: Some(empty_field()),
                    row_done: false,
                }
            } else {
                Move { phase: Phase::InField { start: pos }, emitted: None, row_done: false }
            }
        },
        Phase::InField { start } => {
            if c == '\n' {
                Move { phase, emitted: Some(plain_field(t, start, pos)), row_done: true }
            } else if c == delim {
                Move {
                    phase: Phase::FieldStart { after_delim: true },
                    emitted: Some(plain_field(t, start, pos)),
                    row_done: false,
                }
            } else {
                Move { phase, emitted: None, row_done: false }
            }
        },
        Phase::InQuotedField { start } => {
            if c == quote {
                Move { phase: Phase::InQuote { start, close: pos }, emitted: None, row_done: false }
            } else {
                Move { phase, emitted: None, row_done: false }
            }
        },
        Phase::InQuote { start, close } => {
            if c == '\n' {
                Move { phase, emitted: Some(quoted_field(t, start, close)), row_done: true }
            } else if c == quote {
                Move { phase: Phase::InQuotedField { start }, emitted: None, row_done: false }
            } else if c == delim {
                Move {
                    phase: Phase::FieldStart { after_delim: true },
                    emitted: Some(quoted_field(t, start, close)),
                    row_done: false,
                }
            } else {
                Move { phase, emitted: None, row_done: false }
            }
        },
    }
}

/// `fields`, with the field that a move completes, if any.
pub open spec fn with_emitted(fields: Seq<RawField>, emitted: Option<RawField>) -> Seq<RawField> {
    match emitted {
        Some(f) => fields.push(f),
        None => fields,
    }
}

/// Parses `t` from `pos` on, in `phase` and with `fields` already complete,
/// up to the end of the row or of the stream.
pub open spec fn scan(
    t: Seq<char>,
    pos: int,
    phase: Phase,
    fields: Seq<RawField>,
    delim: char,
    quote: char,
) -> Scan
    decreases t.len() - pos,
{
    if pos >= t.len() {
        Scan::Pending { phase, fields }
    } else {
        let m = step(t, pos, phase, delim, quote);
        let fields = with_emitted(fields, m.emitted);
        if m.row_done {
            Scan::Complete { fields, next: pos + 1 }
        } else {
            scan(t, pos + 1, m.phase, fields, delim, quote)
        }
    }
}

/// The first row of `t`.
pub open spec fn first_row(t: Seq<char>, delim: char, quote: char) -> Scan {
    scan(t, 0, Phase::FieldStart { after_delim: false }, Seq::empty(), delim, quote)
}

/// A complete row ends behind the position the scan started at, inside the stream.
pub proof fn lemma_scan_advances(
    t: Seq<char>,
    pos: int,
    phase: Phase,
    fields: Seq<RawField>,
    delim: char,
    quote: char,
)
    requires
        0 <= pos,
    ensures
        scan(t, pos, phase, fields, delim, quote) matches Scan::Complete { next, .. } ==> pos < next
            <= t.len(),
    decreases t.len() - pos,
{
    if pos < t.len() {
        let m = step(t, pos, phase, delim, quote);
        if !m.row_done {
            lemma_scan_advances(t, pos + 1, m.phase, with_emitted(fields, m.emitted), delim, quote);
        }
    }
}

/// All the rows of `t`, in order. Characters behind the last newline that ends
/// a row belong to no row.
pub open spec fn rows_of(t: Seq<char>, delim: char, quote: char) -> Seq<Seq<RawField>>
    decreases t.len(),
    via rows_of_decreases
{
    match first_row(t, delim, quote) {
        Scan::Complete { fields, next } => seq![fields] + rows_of(t.skip(next), delim, quote),
        Scan::Pending { .. } => Seq::empty(),
    }
}

#[via_fn]
proof fn rows_of_decreases(t: Seq<char>, delim: char, quote: char) {
    lemma_scan_advances(
        t,
        0,
        Phase::FieldStart { after_delim: false },
        Seq::empty(),
        delim,
        quote,
    );
}

/// The first row of a stream is the first of its rows, and the rows behind
/// it are those of the rest of the stream.
pub proof fn lemma_rows_of_unfold(t: Seq<char>, delim: char, quote: char)
    ensures
        match first_row(t, delim, quote) {
            Scan::Complete { fields, next } => {
                &&& rows_of(t, delim, quote).len() > 0
                &&& rows_of(t, delim, quote)[0] == fields
                &&& rows_of(t, delim, quote).skip(1) == rows_of(t.skip(next), delim, quote)
            },
            Scan::Pending { .. } => rows_of(t, delim, quote).len() == 0,
        },
        rows_of(Seq::empty(), delim, quote).len() == 0,
{
    match first_row(t, delim, quote) {
        Scan::Complete { fields, next } => {
            assert(rows_of(t, delim, quote).skip(1) =~= rows_of(t.skip(next), delim, quote));
        },
        Scan::Pending { .. } => {},
    }
}

/// `s`, with a newline added unless it already ends in one.
pub open spec fn terminate(s: Seq<char>) -> Seq<char> {
    if s.len() > 0 && s.last() == '\n' {
        s
    } else {
        s.push('\n')
    }
}

/// The characters of a field that count: the last field of a row loses one
/// trailing carriage return.
pub open spec fn field_body(f: RawField, last: bool) -> Seq<char> {
    if last {
        strip_cr(f.text)
    } else {
        f.text
    }
}

/// The value of a field: its body, with doubled quotes resolved if it was quoted.
pub open spec fn field_text(f: RawField, last: bool, quote: char) -> Seq<char> {
    if f.escaped {
        unescape(field_body(f, last), quote)
    } else {
        field_body(f, last)
    }
}

/// Whether a field can be given a value: in a quoted one, every quote character
/// of the body must be one of a pair.
pub open spec fn field_sound(f: RawField, last: bool, quote: char) -> bool {
    f.escaped ==> well_paired(field_body(f, last), quote)
}

/// The values of the fields of a row.
pub open spec fn row_text(row: Seq<RawField>, quote: char) -> Seq<Seq<char>> {
    Seq::new(row.len(), |i: int| field_text(row[i], i == row.len() - 1, quote))
}

pub open spec fn row_sound(row: Seq<RawField>, quote: char) -> bool {
    forall|i: int| 0 <= i < row.len() ==> field_sound(#[trigger] row[i], i == row.len() - 1, quote)
}

} // verus!
