//! The row reader: pulls chunks from a source, runs the parser over them and
//! hands out one row at a time.

use std::rc::Rc;
use vstd::prelude::*;
use crate::grammar::{
    Phase, RawField, Scan, empty_field, first_row, lemma_rows_of_unfold, plain_field,
    quoted_field, rows_of, scan, step, terminate, with_emitted,
};
use crate::row::{BufferDescr, FieldType, Row, chunks_of, fields_view, fields_wf};
use crate::source::CharSource;
use crate::text::{
    concat, lemma_concat_prefix, lemma_concat_push, lemma_concat_subrange,
    lemma_concat_take_next, lemma_inner_window, lemma_window,
};

verus! {

/// The read length of a reader made by [`new_reader`].
pub const DEFAULT_READ_LENGTH: usize = 1024;

/// Where the reader stands inside a row. A place in the text is a chunk, by
/// its index among the chunks held, and an offset into it.
#[derive(Clone, Copy)]
pub enum State {
    /// About to begin a field, behind a delimiter or at the start of the row.
    FieldStart { after_delim: bool },
    /// Inside an unquoted field that began at the place given.
    InField { buffer: usize, offset: usize },
    /// Inside a quoted field whose opening quote stands at the place given.
    InQuotedField { buffer: usize, offset: usize },
    /// Behind a quote character, at the second place given, inside a quoted field.
    InQuote { buffer: usize, offset: usize, close_buffer: usize, close_offset: usize },
}

/// No row is left.
#[derive(Clone, Copy, Debug)]
pub struct EndOfInput;

/// A reader of rows over the source `R`.
///
/// It holds the chunks that the row in progress lies in, the offset of the
/// next character in the last of them, and two flags: whether the last chunk
/// read ended in a newline, and whether the one newline that stands in for a
/// missing last newline has been put in.
pub struct RowReader<R: CharSource> {
    readlen: usize,
    delim: char,
    quote: char,
    f: R,
    offset: usize,
    buffers: Vec<Rc<Vec<char>>>,
    state: State,
    trailing_nl: bool,
    terminating: bool,
}

/// What a reader that asks for `readlen` characters at a time gets out of
/// `input`: all of it, or nothing where `readlen` is 0, since an empty chunk
/// means that the source is at its end.
pub open spec fn reachable(input: Seq<char>, readlen: usize) -> Seq<char> {
    if readlen == 0 {
        Seq::empty()
    } else {
        input
    }
}

/// The place of offset `o` in chunk `b`, counted from the start of the first chunk.
pub open spec fn position(chunks: Seq<Seq<char>>, b: int, o: int) -> int {
    concat(chunks.take(b)).len() + o
}

/// `Rc::clone` on a chunk: a second handle on the same allocation, so what
/// comes back is the chunk that went in. Nothing is copied.
#[verifier::external_body]
fn share(chunk: &Rc<Vec<char>>) -> (r: Rc<Vec<char>>)
    ensures
        r == *chunk,
{
    Rc::clone(chunk)
}

impl<R: CharSource> RowReader<R> {
    pub closed spec fn delim(&self) -> char {
        self.delim
    }

    pub closed spec fn quote(&self) -> char {
        self.quote
    }

    pub closed spec fn readlen(&self) -> usize {
        self.readlen
    }

    /// The source that the reader pulls from.
    pub closed spec fn source(&self) -> R {
        self.f
    }

    spec fn chunks(&self) -> Seq<Seq<char>> {
        chunks_of(self.buffers@)
    }

    /// The place of the next character to parse.
    spec fn cursor(&self) -> int {
        if self.buffers@.len() == 0 {
            0
        } else {
            concat(self.chunks().drop_last()).len() + self.offset
        }
    }

    /// What is still to come from the source, with the newline that will be
    /// put behind it where it does not end in one.
    spec fn future(&self) -> Seq<char> {
        if self.terminating {
            Seq::empty()
        } else {
            let a = reachable(self.f.pending(), self.readlen);
            if a.len() > 0 {
                terminate(a)
            } else if self.trailing_nl {
                a
            } else {
                a.push('\n')
            }
        }
    }

    /// What holds of the fields at any time.
    spec fn base_wf(&self) -> bool {
        &&& self.f.wf()
        &&& self.buffers@.len() == 0 ==> self.offset == 0 && !self.trailing_nl && !self.terminating
        &&& self.buffers@.len() > 0 ==> self.offset <= self.chunks().last().len()
        &&& self.buffers@.len() > 0 && !self.terminating ==> self.chunks().last().len() > 0
            && self.trailing_nl == (self.chunks().last().last() == '\n')
    }

    /// What holds of a reader between two reads of a row.
    pub closed spec fn wf(&self) -> bool {
        &&& self.base_wf()
        &&& self.terminating ==> self.offset == self.chunks().last().len()
    }

    /// The characters that the reader has yet to parse: those read and not yet
    /// parsed, those still in the source, and a newline behind them where they
    /// do not end in one.
    pub closed spec fn upcoming(&self) -> Seq<char> {
        if self.buffers@.len() == 0 {
            self.future()
        } else {
            self.chunks().last().skip(self.offset as int) + self.future()
        }
    }

    /// The number of chunks that the reader holds on to.
    pub closed spec fn chunks_held(&self) -> nat {
        self.buffers@.len()
    }

    /// The rows that the reader has yet to hand out.
    pub open spec fn rows_ahead(&self) -> Seq<Seq<RawField>> {
        rows_of(self.upcoming(), self.delim(), self.quote())
    }

    /// Whether a place that the state remembers lies in the chunks held,
    /// before the cursor and not before `skipped`.
    spec fn place_ok(&self, b: usize, o: usize, skipped: int) -> bool {
        &&& b < self.buffers@.len()
        &&& o < self.chunks()[b as int].len()
        &&& b < self.buffers@.len() - 1 || o < self.offset
        &&& skipped <= position(self.chunks(), b as int, o as int)
    }

    spec fn state_ok(&self, skipped: int) -> bool {
        match self.state {
            State::FieldStart { .. } => true,
            State::InField { buffer, offset } => self.place_ok(buffer, offset, skipped),
            State::InQuotedField { buffer, offset } => self.place_ok(buffer, offset, skipped),
            State::InQuote { buffer, offset, close_buffer, close_offset } => {
                &&& self.place_ok(buffer, offset, skipped)
                &&& self.place_ok(close_buffer, close_offset, skipped)
                &&& buffer < close_buffer || (buffer == close_buffer && offset < close_offset)
            },
        }
    }

    /// The state, over positions of the stream that starts `skipped`
    /// characters into the chunks held.
    spec fn phase(&self, skipped: int) -> Phase {
        match self.state {
            State::FieldStart { after_delim } => Phase::FieldStart { after_delim },
            State::InField { buffer, offset } => Phase::InField {
                start: position(self.chunks(), buffer as int, offset as int) - skipped,
            },
            State::InQuotedField { buffer, offset } => Phase::InQuotedField {
                start: position(self.chunks(), buffer as int, offset as int) - skipped,
            },
            State::InQuote { buffer, offset, close_buffer, close_offset } => Phase::InQuote {
                start: position(self.chunks(), buffer as int, offset as int) - skipped,
                close: position(self.chunks(), close_buffer as int, close_offset as int) - skipped,
            },
        }
    }

    /// What holds while a row is being read from `stream`, which starts
    /// `skipped` characters into the chunks held.
    spec fn scanning(&self, stream: Seq<char>, skipped: int) -> bool {
        &&& self.base_wf()
        &&& self.buffers@.len() > 0
        &&& 0 <= skipped <= self.cursor()
        &&& concat(self.chunks()).len() - skipped <= stream.len()
        &&& concat(self.chunks()).skip(skipped) == stream.take(concat(self.chunks()).len() - skipped)
        &&& self.state_ok(skipped)
    }

    /// Whether `other` differs from `self` in offset and state at most.
    spec fn same_but_progress(&self, other: &Self) -> bool {
        &&& self.readlen == other.readlen
        &&& self.delim == other.delim
        &&& self.quote == other.quote
        &&& self.f == other.f
        &&& self.buffers == other.buffers
        &&& self.trailing_nl == other.trailing_nl
        &&& self.terminating == other.terminating
    }

    /// The descriptor of the characters from offset `so` of chunk `sb` up to
    /// offset `eo` of chunk `eb`.
    fn new_bufferfield(&self, escaped: bool, sb: usize, so: usize, eb: usize, eo: usize) -> (field:
        FieldType)
        requires
            sb <= eb < self.buffers.len(),
            so <= self.chunks()[sb as int].len(),
            eo <= self.chunks()[eb as int].len(),
            sb == eb ==> so <= eo,
        ensures
            field.wf(),
            field@.escaped == escaped,
            position(self.chunks(), sb as int, so as int) <= position(
                self.chunks(),
                eb as int,
                eo as int,
            ) <= concat(self.chunks()).len(),
            field@.text == concat(self.chunks()).subrange(
                position(self.chunks(), sb as int, so as int),
                position(self.chunks(), eb as int, eo as int),
            ),
    {
        let mut held: Vec<Rc<Vec<char>>> = Vec::new();
        let mut i: usize = sb;
        while i <= eb
            invariant
                sb <= i <= eb + 1,
                eb < self.buffers.len(),
                held@ == self.buffers@.subrange(sb as int, i as int),
            decreases eb + 1 - i,
        {
            held.push(share(&self.buffers[i]));
            assert(held@ =~= self.buffers@.subrange(sb as int, i + 1));
            i += 1;
        }
        let desc = BufferDescr { escaped, buffers: held, start: so, end: eo };
        proof {
            let chunks = self.chunks();
            let sub = chunks.subrange(sb as int, eb + 1);
            let whole = concat(chunks);
            let before = concat(chunks.take(sb as int));
            let middle = concat(chunks.subrange(sb as int, eb as int));
            assert(desc.chunks() =~= sub);
            assert(sub.drop_last() =~= chunks.subrange(sb as int, eb as int));
            assert(sub.last() == chunks[eb as int]);
            assert(concat(sub) == middle + chunks[eb as int]);
            lemma_concat_subrange(chunks, sb as int, eb as int);
            lemma_concat_subrange(chunks, sb as int, eb + 1);
            lemma_concat_prefix(chunks, eb + 1);
            assert(concat(chunks.take(eb as int)).len() == before.len() + middle.len());
            assert(concat(chunks.take(eb + 1)) == before + (middle + chunks[eb as int]));
            if sb < eb {
                lemma_concat_subrange(chunks, sb + 1, eb as int);
                lemma_concat_take_next(chunks, sb as int);
            }
            assert(before.len() + so <= before.len() + middle.len() + eo <= whole.len());
            assert(desc.raw() == concat(sub).subrange(so as int, middle.len() + eo));
            lemma_inner_window(whole, before, concat(sub), so as int, middle.len() + eo);
        }
        FieldType::BufferField(desc)
    }

    /// Takes the character `c` at the cursor: one transition of the parser.
    fn advance(
        &mut self,
        c: char,
        fields: &mut Vec<FieldType>,
        Ghost(stream): Ghost<Seq<char>>,
        Ghost(skipped): Ghost<int>,
    ) -> (done: bool)
        requires
            old(self).scanning(stream, skipped),
            old(self).offset < old(self).chunks().last().len(),
            c == old(self).chunks().last()[old(self).offset as int],
            fields_wf(old(fields)@),
        ensures
            final(self).scanning(stream, skipped),
            old(self).same_but_progress(final(self)),
            final(self).offset == old(self).offset + 1,
            fields_wf(final(fields)@),
            0 <= old(self).cursor() - skipped < stream.len(),
            ({
                let m = step(
                    stream,
                    old(self).cursor() - skipped,
                    old(self).phase(skipped),
                    old(self).delim,
                    old(self).quote,
                );
                &&& done == m.row_done
                &&& fields_view(final(fields)@) == with_emitted(fields_view(old(fields)@), m.emitted)
                &&& !done ==> final(self).phase(skipped) == m.phase
            }),
    {
        let cbuffer = self.buffers.len() - 1;
        let coffset = self.offset;
        let ghost chunks = self.chunks();
        let ghost here = self.cursor() - skipped;
        let ghost before = fields_view(fields@);
        proof {
            assert(chunks.take(cbuffer as int) =~= chunks.drop_last());
            assert(concat(chunks) == concat(chunks.drop_last()) + chunks.last());
            assert(stream.take(concat(chunks).len() - skipped)[here] == concat(chunks).skip(
                skipped,
            )[here]);
            assert(stream[here] == c);
            assert(chunks.last().len() == self.buffers@[cbuffer as int].len());
        }
        self.offset += 1;
        let mut done = false;
        match self.state {
            State::FieldStart { after_delim } => {
                if c == self.quote {
                    self.state = State::InQuotedField { buffer: cbuffer, offset: coffset };
                } else if c == '\n' {
                    if after_delim {
                        fields.push(FieldType::EmptyField);
                        assert(fields_view(fields@) =~= before.push(empty_field()));
                    }
                    done = true;
                } else if c == self.delim {
                    self.state = State::FieldStart { after_delim: true };
                    fields.push(FieldType::EmptyField);
                    assert(fields_view(fields@) =~= before.push(empty_field()));
                } else {
                    self.state = State::InField { buffer: cbuffer, offset: coffset };
                }
            },
            State::InField { buffer, offset } => {
                if c == '\n' || c == self.delim {
                    let field = self.new_bufferfield(false, buffer, offset, cbuffer, coffset);
                    proof {
                        let start = position(chunks, buffer as int, offset as int);
                        lemma_window(concat(chunks), stream, skipped, start, here + skipped);
                        assert(field@ == plain_field(stream, start - skipped, here));
                    }
                    fields.push(field);
                    assert(fields_view(fields@) =~= before.push(field@));
                    if c == '\n' {
                        done = true;
                    } else {
                        self.state = State::FieldStart { after_delim: true };
                    }
                }
            },
            State::InQuotedField { buffer, offset } => {
                if c == self.quote {
                    self.state = State::InQuote {
                        buffer,
                        offset,
                        close_buffer: cbuffer,
                        close_offset: coffset,
                    };
                }
            },
            State::InQuote { buffer, offset, close_buffer, close_offset } => {
                if c == '\n' || (c != self.quote && c == self.delim) {
                    assert(chunks[buffer as int].len() == self.buffers@[buffer as int].len());
                    let field = self.new_bufferfield(
                        true,
                        buffer,
                        offset + 1,
                        close_buffer,
                        close_offset,
                    );
                    proof {
                        let start = position(chunks, buffer as int, offset as int);
                        let close = position(chunks, close_buffer as int, close_offset as int);
                        lemma_window(concat(chunks), stream, skipped, start + 1, close);
                        assert(field@ == quoted_field(stream, start - skipped, close - skipped));
                    }
                    fields.push(field);
                    assert(fields_view(fields@) =~= before.push(field@));
                    if c == '\n' {
                        done = true;
                    } else {
                        self.state = State::FieldStart { after_delim: true };
                    }
                } else if c == self.quote {
                    self.state = State::InQuotedField { buffer, offset };
                }
            },
        }
        done
    }

    /// Parses what is left of the last chunk, up to the end of the row or of
    /// the chunk. `true` where the row has ended.
    fn row_from_buf(
        &mut self,
        fields: &mut Vec<FieldType>,
        Ghost(stream): Ghost<Seq<char>>,
        Ghost(skipped): Ghost<int>,
    ) -> (done: bool)
        requires
            old(self).scanning(stream, skipped),
            fields_wf(old(fields)@),
        ensures
            final(self).scanning(stream, skipped),
            old(self).same_but_progress(final(self)),
            fields_wf(final(fields)@),
            done ==> final(self).offset > old(self).offset,
            !done ==> final(self).offset == final(self).chunks().last().len(),
            scan(
                stream,
                old(self).cursor() - skipped,
                old(self).phase(skipped),
                fields_view(old(fields)@),
                old(self).delim,
                old(self).quote,
            ) == (if done {
                Scan::Complete {
                    fields: fields_view(final(fields)@),
                    next: final(self).cursor() - skipped,
                }
            } else {
                scan(
                    stream,
                    final(self).cursor() - skipped,
                    final(self).phase(skipped),
                    fields_view(final(fields)@),
                    old(self).delim,
                    old(self).quote,
                )
            }),
    {
        let cbuffer = self.buffers.len() - 1;
        let buf = share(&self.buffers[cbuffer]);
        let ghost target = scan(
            stream,
            self.cursor() - skipped,
            self.phase(skipped),
            fields_view(fields@),
            self.delim,
            self.quote,
        );
        while self.offset < buf.len()
            invariant
                self.scanning(stream, skipped),
                old(self).same_but_progress(self),
                fields_wf(fields@),
                buf@ == self.chunks().last(),
                old(self).offset <= self.offset <= buf@.len(),
                target == scan(
                    stream,
                    old(self).cursor() - skipped,
                    old(self).phase(skipped),
                    fields_view(old(fields)@),
                    self.delim,
                    self.quote,
                ),
                target == scan(
                    stream,
                    self.cursor() - skipped,
                    self.phase(skipped),
                    fields_view(fields@),
                    self.delim,
                    self.quote,
                ),
            decreases buf@.len() - self.offset,
        {
            let c = buf[self.offset];
            if self.advance(c, fields, Ghost(stream), Ghost(skipped)) {
                return true;
            }
        }
        false
    }

    /// Appending a chunk moves no place that the state remembers.
    proof fn lemma_chunk_appended(before: Self, after: Self, skipped: int)
        requires
            before.buffers@.len() > 0,
            after.buffers@ == before.buffers@.push(after.buffers@.last()),
            after.state == before.state,
            before.state_ok(skipped),
        ensures
            after.state_ok(skipped),
            after.phase(skipped) == before.phase(skipped),
    {
        let old_chunks = before.chunks();
        let new_chunks = after.chunks();
        assert forall|b: int| 0 <= b < old_chunks.len() implies #[trigger] new_chunks.take(b)
            == old_chunks.take(b) && new_chunks[b] == old_chunks[b] by {
            assert(new_chunks.take(b) =~= old_chunks.take(b));
        }
    }

    /// Whether `stream` is what the chunks hold from `skipped` on, followed by
    /// what is still to come.
    spec fn covers(&self, stream: Seq<char>, skipped: int) -> bool {
        &&& 0 <= skipped <= concat(self.chunks()).len()
        &&& concat(self.chunks()).skip(skipped) + self.future() == stream
    }

    /// What holds of the state while a row is being read, with or without a chunk.
    spec fn settled(&self, stream: Seq<char>, skipped: int) -> bool {
        if self.buffers@.len() == 0 {
            skipped == 0 && self.state == (State::FieldStart { after_delim: false })
        } else {
            self.scanning(stream, skipped)
        }
    }

    /// What bounds the number of chunks that can still be pulled.
    spec fn fuel(&self) -> int {
        reachable(self.f.pending(), self.readlen).len() + if self.terminating {
            0int
        } else {
            1int
        }
    }

    /// Where all chunks are parsed and nothing is to come, the stream is at its end.
    proof fn lemma_exhausted(&self, stream: Seq<char>, skipped: int)
        requires
            self.covers(stream, skipped),
            self.buffers@.len() > 0,
            self.offset == self.chunks().last().len(),
            self.future() == Seq::<char>::empty(),
        ensures
            self.cursor() - skipped == stream.len(),
            self.upcoming() == Seq::<char>::empty(),
    {
        assert(stream =~= concat(self.chunks()).skip(skipped));
        assert(self.upcoming() =~= Seq::<char>::empty());
    }

    /// Pulls the next chunk from the source and appends it. At the end of the
    /// source a chunk of one newline takes its place, once, unless the last
    /// chunk ended in a newline; `false` where nothing was appended.
    fn pull_chunk(&mut self, Ghost(stream): Ghost<Seq<char>>, Ghost(skipped): Ghost<int>) -> (more:
        bool)
        requires
            old(self).base_wf(),
            !old(self).terminating,
            old(self).covers(stream, skipped),
            old(self).settled(stream, skipped),
            old(self).buffers@.len() > 0 ==> old(self).offset == old(self).chunks().last().len(),
        ensures
            final(self).readlen == old(self).readlen,
            final(self).delim == old(self).delim,
            final(self).quote == old(self).quote,
            final(self).state == old(self).state,
            final(self).phase(skipped) == old(self).phase(skipped),
            final(self).cursor() == old(self).cursor(),
            final(self).base_wf(),
            final(self).covers(stream, skipped),
            more ==> {
                &&& final(self).scanning(stream, skipped)
                &&& final(self).offset == 0
                &&& final(self).fuel() < old(self).fuel()
                &&& final(self).terminating ==> final(self).chunks().last().len() == 1
            },
            !more ==> {
                &&& !final(self).terminating
                &&& final(self).buffers == old(self).buffers
                &&& final(self).offset == old(self).offset
                &&& final(self).buffers@.len() > 0
                &&& final(self).future() == Seq::<char>::empty()
            },
    {
        let ghost before = *self;
        let mut data = self.f.read_chars(self.readlen);
        assert(self.f.pending() =~= before.f.pending().skip(data@.len() as int));
        if data.len() == 0 {
            assert(self.f.pending() =~= before.f.pending());
            if !self.trailing_nl {
                self.terminating = true;
                data.push('\n');
                assert(data@ =~= seq!['\n']);
            } else {
                assert(self.future() =~= Seq::<char>::empty());
                return false;
            }
        } else {
            self.trailing_nl = data[data.len() - 1] == '\n';
            assert(before.future() =~= data@ + self.future());
        }
        let chunk = Rc::new(data);
        self.buffers.push(chunk);
        self.offset = 0;
        proof {
            let old_chunks = before.chunks();
            let new_chunks = self.chunks();
            assert(new_chunks =~= old_chunks.push(chunk@));
            assert(new_chunks.drop_last() =~= old_chunks);
            lemma_concat_push(old_chunks, chunk@);
            assert(concat(new_chunks).skip(skipped) =~= concat(old_chunks).skip(skipped) + chunk@);
            assert(concat(new_chunks).skip(skipped) + self.future() =~= stream);
            assert(stream.take(concat(new_chunks).len() - skipped) =~= concat(new_chunks).skip(
                skipped,
            ));
            if before.buffers@.len() > 0 {
                Self::lemma_chunk_appended(before, *self, skipped);
            }
        }
        true
    }

    /// Makes the row of `fields` and lets go of every chunk but the last.
    fn take_row(
        &mut self,
        fields: Vec<FieldType>,
        Ghost(stream): Ghost<Seq<char>>,
        Ghost(skipped): Ghost<int>,
    ) -> (row: Row)
        requires
            old(self).scanning(stream, skipped),
            old(self).covers(stream, skipped),
            old(self).terminating ==> old(self).offset == old(self).chunks().last().len(),
            fields_wf(fields@),
        ensures
            final(self).wf(),
            final(self).readlen == old(self).readlen,
            final(self).delim == old(self).delim,
            final(self).quote == old(self).quote,
            row.wf(),
            row@ == fields_view(fields@),
            row.quote() == old(self).quote,
            final(self).upcoming() == stream.skip(old(self).cursor() - skipped),
            final(self).chunks_held() == 1,
    {
        let row = Row::from_fields(fields, self.quote);
        let ghost chunks = self.chunks();
        let n = self.buffers.len();
        if n > 1 {
            let kept = self.buffers.split_off(n - 1);
            self.buffers = kept;
            assert(self.chunks() =~= seq![chunks.last()]);
        }
        proof {
            let next = concat(chunks.drop_last()).len() + self.offset - skipped;
            assert(stream.skip(next) =~= chunks.last().skip(self.offset as int) + self.future());
        }
        row
    }

    /// Reads the next row.
    ///
    /// The row is the first one of the characters that were yet to parse, and
    /// those behind it are left for the next call. Where they hold no complete
    /// row, not even with the one newline that is put behind a source which
    /// does not end in one, there is no row, and none will come.
    pub fn readrow(&mut self) -> (res: Result<Row, EndOfInput>)
        requires
            old(self).wf(),
        ensures
            final(self).wf(),
            final(self).delim() == old(self).delim(),
            final(self).quote() == old(self).quote(),
            final(self).readlen() == old(self).readlen(),
            match first_row(old(self).upcoming(), old(self).delim(), old(self).quote()) {
                Scan::Complete { fields, next } => {
                    &&& res matches Ok(row)
                    &&& row.wf()
                    &&& row@ == fields
                    &&& row.quote() == old(self).quote()
                    &&& final(self).upcoming() == old(self).upcoming().skip(next)
                },
                Scan::Pending { .. } => {
                    &&& res is Err
                    &&& final(self).upcoming() == Seq::<char>::empty()
                },
            },
            res is Ok <==> old(self).rows_ahead().len() > 0,
            res matches Ok(row) ==> row@ == old(self).rows_ahead()[0],
            res is Ok ==> final(self).rows_ahead() == old(self).rows_ahead().skip(1),
            res is Err ==> final(self).rows_ahead().len() == 0,
            res is Ok ==> final(self).chunks_held() == 1,
    {
        let ghost stream = self.upcoming();
        let ghost skipped = self.cursor();
        self.state = State::FieldStart { after_delim: false };
        let mut do_read = self.buffers.len() == 0;
        let mut fields: Vec<FieldType> = Vec::new();
        proof {
            let chunks = self.chunks();
            if chunks.len() > 0 {
                assert(concat(chunks).skip(skipped) =~= chunks.last().skip(self.offset as int));
                assert(stream.take(concat(chunks).len() - skipped) =~= concat(chunks).skip(
                    skipped,
                ));
            } else {
                assert(concat(chunks).skip(skipped) =~= Seq::<char>::empty());
            }
            assert(fields_view(fields@) =~= Seq::<RawField>::empty());
        }
        while !self.terminating
            invariant
                self.base_wf(),
                stream == old(self).upcoming(),
                self.readlen == old(self).readlen,
                self.delim == old(self).delim,
                self.quote == old(self).quote,
                self.covers(stream, skipped),
                self.settled(stream, skipped),
                !do_read ==> self.buffers@.len() > 0,
                (do_read || self.terminating) && self.buffers@.len() > 0 ==> self.offset
                    == self.chunks().last().len(),
                fields_wf(fields@),
                first_row(stream, self.delim, self.quote) == scan(
                    stream,
                    self.cursor() - skipped,
                    self.phase(skipped),
                    fields_view(fields@),
                    self.delim,
                    self.quote,
                ),
            decreases self.fuel() + if do_read { 0int } else { 1int },
        {
            if do_read {
                if !self.pull_chunk(Ghost(stream), Ghost(skipped)) {
                    proof {
                        self.lemma_exhausted(stream, skipped);
                        lemma_rows_of_unfold(stream, self.delim, self.quote);
                    }
                    return Err(EndOfInput);
                }
            }
            if self.row_from_buf(&mut fields, Ghost(stream), Ghost(skipped)) {
                let row = self.take_row(fields, Ghost(stream), Ghost(skipped));
                proof {
                    lemma_rows_of_unfold(stream, self.delim, self.quote);
                }
                return Ok(row);
            }
            do_read = true;
        }
        proof {
            self.lemma_exhausted(stream, skipped);
            lemma_rows_of_unfold(stream, self.delim, self.quote);
        }
        Err(EndOfInput)
    }
}

} // verus!

verus! {

/// A reader over `f` that reads [`DEFAULT_READ_LENGTH`] characters at a time.
pub fn new_reader<R: CharSource>(f: R, delim: char, quote: char) -> (r: RowReader<R>)
    requires
        f.wf(),
    ensures
        r.wf(),
        r.delim() == delim,
        r.quote() == quote,
        r.readlen() == DEFAULT_READ_LENGTH,
        r.source() == f,
        r.chunks_held() == 0,
        r.upcoming() == terminate(f.pending()),
{
    new_reader_readlen(f, delim, quote, DEFAULT_READ_LENGTH)
}

/// A reader over `f` that reads `rl` characters at a time.
pub fn new_reader_readlen<R: CharSource>(f: R, delim: char, quote: char, rl: usize) -> (r:
    RowReader<R>)
    requires
        f.wf(),
    ensures
        r.wf(),
        r.delim() == delim,
        r.quote() == quote,
        r.readlen() == rl,
        r.source() == f,
        r.chunks_held() == 0,
        r.upcoming() == terminate(reachable(f.pending(), rl)),
{
    RowReader {
        readlen: rl,
        delim,
        quote,
        f,
        offset: 0,
        buffers: Vec::new(),
        state: State::FieldStart { after_delim: false },
        trailing_nl: false,
        terminating: false,
    }
}

} // verus!
