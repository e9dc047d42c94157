//! What holds of the rows of every stream.

use vstd::prelude::*;
use crate::grammar::{
    Phase, RawField, Scan, empty_field, first_row, plain_field, row_sound, row_text, rows_of,
    scan, step, terminate, with_emitted,
};
use crate::reader::{RowReader, reachable};
use crate::source::CharSource;

verus! {

/// The pieces of `s` between the occurrences of `delim`: one piece more than
/// there are occurrences.
pub open spec fn split(s: Seq<char>, delim: char) -> Seq<Seq<char>>
    decreases s.len(),
{
    if s.len() == 0 {
        seq![Seq::empty()]
    } else {
        let head = split(s.drop_last(), delim);
        if s.last() == delim {
            head.push(Seq::empty())
        } else {
            head.update(head.len() - 1, head.last().push(s.last()))
        }
    }
}

/// Whether the fields are unquoted and hold the texts `pieces`.
spec fn plain(fields: Seq<RawField>, pieces: Seq<Seq<char>>) -> bool {
    &&& fields.len() == pieces.len()
    &&& forall|i: int|
        0 <= i < fields.len() ==> !(#[trigger] fields[i]).escaped && fields[i].text == pieces[i]
}

/// Where the parser stands after `pos` characters of a line without quotes:
/// the complete fields are all pieces of the text so far but the last, and
/// the last piece is the field that is being read.
spec fn on_track(
    input: Seq<char>,
    delim: char,
    pos: int,
    phase: Phase,
    fields: Seq<RawField>,
) -> bool {
    let pieces = split(input.take(pos), delim);
    &&& plain(fields, pieces.drop_last())
    &&& match phase {
        Phase::FieldStart { after_delim } => after_delim == (pos > 0) && pieces.last().len() == 0,
        Phase::InField { start } => 0 <= start < pos && pieces.last() == input.subrange(start, pos),
        _ => false,
    }
}

proof fn lemma_split_nonempty(s: Seq<char>, delim: char)
    ensures
        split(s, delim).len() >= 1,
    decreases s.len(),
{
    if s.len() > 0 {
        lemma_split_nonempty(s.drop_last(), delim);
    }
}

/// Completing the field that holds the last piece makes the fields hold all pieces.
proof fn lemma_plain_push(fields: Seq<RawField>, pieces: Seq<Seq<char>>, f: RawField)
    requires
        pieces.len() >= 1,
        plain(fields, pieces.drop_last()),
        !f.escaped,
        f.text == pieces.last(),
    ensures
        plain(fields.push(f), pieces),
{
    let all = fields.push(f);
    assert forall|i: int| 0 <= i < all.len() implies !(#[trigger] all[i]).escaped && all[i].text
        == pieces[i] by {
        if i < fields.len() {
            assert(all[i] == fields[i]);
            assert(pieces.drop_last()[i] == pieces[i]);
        }
    }
}

proof fn lemma_unquoted_scan(
    input: Seq<char>,
    delim: char,
    quote: char,
    pos: int,
    phase: Phase,
    fields: Seq<RawField>,
)
    requires
        input.len() > 0,
        !input.contains(quote),
        !input.contains('\n'),
        quote != '\n',
        0 <= pos <= input.len(),
        on_track(input, delim, pos, phase, fields),
    ensures
        scan(input.push('\n'), pos, phase, fields, delim, quote) matches Scan::Complete {
            fields: all,
            next,
        } && next == input.len() + 1 && plain(all, split(input, delim)),
    decreases input.len() - pos,
{
    let t = input.push('\n');
    let pieces = split(input.take(pos), delim);
    lemma_split_nonempty(input.take(pos), delim);
    let m = step(t, pos, phase, delim, quote);
    let after = with_emitted(fields, m.emitted);
    if pos == input.len() {
        assert(input.take(pos) =~= input);
        assert(t[pos] == '\n');
        match phase {
            Phase::InField { start } => {
                assert(t.subrange(start, pos) =~= input.subrange(start, pos));
                lemma_plain_push(fields, pieces, plain_field(t, start, pos));
            },
            _ => {
                assert(pieces.last() =~= Seq::<char>::empty());
                lemma_plain_push(fields, pieces, empty_field());
            },
        }
    } else {
        let c = input[pos];
        assert(t[pos] == c);
        assert(input.contains(c));
        let longer = input.take(pos + 1);
        assert(longer.drop_last() =~= input.take(pos));
        assert(longer.last() == c);
        let grown = split(longer, delim);
        lemma_split_nonempty(longer, delim);
        if c == delim {
            assert(grown == pieces.push(Seq::<char>::empty()));
            assert(grown.drop_last() =~= pieces);
            match phase {
                Phase::InField { start } => {
                    assert(t.subrange(start, pos) =~= input.subrange(start, pos));
                    lemma_plain_push(fields, pieces, plain_field(t, start, pos));
                },
                _ => {
                    assert(pieces.last() =~= Seq::<char>::empty());
                    lemma_plain_push(fields, pieces, empty_field());
                },
            }
        } else {
            assert(grown == pieces.update(pieces.len() - 1, pieces.last().push(c)));
            assert(grown.drop_last() =~= pieces.drop_last());
            assert(after == fields);
            match phase {
                Phase::InField { start } => {
                    assert(input.subrange(start, pos).push(c) =~= input.subrange(start, pos + 1));
                },
                _ => {
                    assert(pieces.last() =~= Seq::<char>::empty());
                    assert(Seq::<char>::empty().push(c) =~= input.subrange(pos, pos + 1));
                },
            }
        }
        assert(on_track(input, delim, pos + 1, m.phase, after));
        lemma_unquoted_scan(input, delim, quote, pos + 1, m.phase, after);
    }
}

/// A line without quote characters and newlines parses into one row, whose
/// fields can all be given their values, which are the pieces between the
/// delimiters.
///
/// The line is not empty (an empty one has no field, and one piece), and it
/// does not end in a carriage return (which the last field would lose). The
/// quote character is not the newline itself.
pub proof fn lemma_unquoted_line_rows(input: Seq<char>, delim: char, quote: char)
    requires
        input.len() > 0,
        !input.contains(quote),
        !input.contains('\n'),
        input.last() != '\r',
        quote != '\n',
    ensures
        rows_of(terminate(input), delim, quote).len() == 1,
        row_sound(rows_of(terminate(input), delim, quote)[0], quote),
        row_text(rows_of(terminate(input), delim, quote)[0], quote) == split(input, delim),
{
    let t = input.push('\n');
    assert(input.contains(input.last()));
    assert(terminate(input) == t);
    assert(input.take(0) =~= Seq::<char>::empty());
    assert(split(input.take(0), delim) =~= seq![Seq::<char>::empty()]);
    assert(split(input.take(0), delim).drop_last() =~= Seq::<Seq<char>>::empty());
    lemma_unquoted_scan(
        input,
        delim,
        quote,
        0,
        Phase::FieldStart { after_delim: false },
        Seq::empty(),
    );
    let first = first_row(t, delim, quote);
    let all = first->Complete_fields;
    let pieces = split(input, delim);
    assert(t.skip(t.len() as int) =~= Seq::<char>::empty());
    assert(rows_of(Seq::<char>::empty(), delim, quote) =~= Seq::<Seq<RawField>>::empty());
    assert(rows_of(t, delim, quote) =~= seq![all]);
    assert(pieces.last().len() == 0 || pieces.last().last() == input.last()) by {
        lemma_split_nonempty(input.drop_last(), delim);
    }
    assert(row_text(all, quote) =~= pieces);
    assert(row_sound(all, quote));
}

/// Splitting on the delimiter gives the fields: a reader that has just been
/// made over a source that holds `input`, a line without quote characters
/// and newlines, has one row before it, whose fields can all be given their
/// values, and these are the pieces of the line between the delimiters. This
/// holds for every read length but 0.
///
/// Left out are the empty line (no field, but one piece), a line that ends in
/// a carriage return (which the last field loses), and a reader whose quote
/// character is the newline.
pub proof fn lemma_unquoted_line_is_split<R: CharSource>(r: RowReader<R>, input: Seq<char>)
    requires
        r.readlen() >= 1,
        r.upcoming() == terminate(reachable(input, r.readlen())),
        input.len() > 0,
        !input.contains(r.quote()),
        !input.contains('\n'),
        input.last() != '\r',
        r.quote() != '\n',
    ensures
        r.rows_ahead().len() == 1,
        row_sound(r.rows_ahead()[0], r.quote()),
        row_text(r.rows_ahead()[0], r.quote()) == split(input, r.delim()),
{
    lemma_unquoted_line_rows(input, r.delim(), r.quote());
}

/// The rows do not depend on the read length: two readers that have just
/// been made over sources that hold the same characters, with the same
/// delimiter and quote character, have the same rows before them, whatever
/// their read lengths, as long as neither is 0.
pub proof fn lemma_read_length_is_immaterial<A: CharSource, B: CharSource>(
    a: RowReader<A>,
    b: RowReader<B>,
    input: Seq<char>,
)
    requires
        a.readlen() >= 1,
        b.readlen() >= 1,
        a.upcoming() == terminate(reachable(input, a.readlen())),
        b.upcoming() == terminate(reachable(input, b.readlen())),
        a.delim() == b.delim(),
        a.quote() == b.quote(),
    ensures
        a.rows_ahead() == b.rows_ahead(),
        a.rows_ahead() == rows_of(terminate(input), a.delim(), a.quote()),
{
}

/// Readers that have the same characters before them have the same rows
/// before them, however each came by its characters.
pub proof fn lemma_rows_follow_the_stream<A: CharSource, B: CharSource>(
    a: RowReader<A>,
    b: RowReader<B>,
)
    requires
        a.upcoming() == b.upcoming(),
        a.delim() == b.delim(),
        a.quote() == b.quote(),
    ensures
        a.rows_ahead() == b.rows_ahead(),
{
}

} // verus!
