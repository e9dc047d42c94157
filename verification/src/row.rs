//! A parsed row: descriptors of its fields, which refer to the chunks that the
//! reader read, and the values made of them on request.

use std::rc::Rc;
use vstd::prelude::*;
use crate::grammar::{RawField, empty_field, field_body, field_sound, field_text, row_sound, row_text};
use crate::text::{
    append_range, concat, lemma_concat_take_next, string_from_chars, unescape_chars,
};

verus! {

/// The characters of each chunk of `buffers`.
pub open spec fn chunks_of(buffers: Seq<Rc<Vec<char>>>) -> Seq<Seq<char>> {
    Seq::new(buffers.len(), |i: int| buffers[i]@)
}

/// A field that lies in one or more chunks: from `start` in the first of
/// `buffers` up to `end` in the last. For a quoted field the two lie inside
/// the quotes.
pub struct BufferDescr {
    pub escaped: bool,
    pub buffers: Vec<Rc<Vec<char>>>,
    pub start: usize,
    pub end: usize,
}

pub enum FieldType {
    EmptyField,
    BufferField(BufferDescr),
}

impl BufferDescr {
    pub open spec fn chunks(&self) -> Seq<Seq<char>> {
        chunks_of(self.buffers@)
    }

    pub open spec fn wf(&self) -> bool {
        &&& self.buffers@.len() >= 1
        &&& self.start <= self.chunks().first().len()
        &&& self.end <= self.chunks().last().len()
        &&& self.buffers@.len() == 1 ==> self.start <= self.end
    }

    /// The characters that the descriptor refers to.
    pub open spec fn raw(&self) -> Seq<char> {
        concat(self.chunks()).subrange(
            self.start as int,
            concat(self.chunks().drop_last()).len() + self.end,
        )
    }

    /// Copies the characters that the descriptor refers to.
    pub fn raw_chars(&self) -> (buf: Vec<char>)
        requires
            self.wf(),
        ensures
            buf@ == self.raw(),
    {
        let n = self.buffers.len();
        let ghost chunks = self.chunks();
        let mut buf: Vec<char> = Vec::new();
        let mut i: usize = 0;
        while i < n
            invariant
                self.wf(),
                n == self.buffers@.len(),
                chunks == self.chunks(),
                i <= n,
                i == 0 ==> buf@ == Seq::<char>::empty(),
                0 < i ==> self.start <= concat(chunks.take(i as int)).len(),
                0 < i < n ==> buf@ == concat(chunks.take(i as int)).skip(self.start as int),
                i == n ==> buf@ == self.raw(),
            decreases n - i,
        {
            let chunk: &Vec<char> = &self.buffers[i];
            assert(chunk@ == chunks[i as int]);
            let from = if i == 0 { self.start } else { 0 };
            let to = if i == n - 1 { self.end } else { chunk.len() };
            append_range(&mut buf, chunk, from, to);
            proof {
                lemma_concat_take_next(chunks, i as int);
                assert(chunks.take(0) =~= Seq::<Seq<char>>::empty());
                assert(concat(chunks.take(0)) =~= Seq::<char>::empty());
                if i == n - 1 {
                    assert(chunks.take(i as int) =~= chunks.drop_last());
                    assert(chunks.take(i + 1) =~= chunks);
                    assert(buf@ =~= self.raw());
                } else {
                    assert(buf@ =~= concat(chunks.take(i + 1)).skip(self.start as int));
                }
            }
            i += 1;
        }
        buf
    }
}

impl View for FieldType {
    type V = RawField;

    open spec fn view(&self) -> RawField {
        match self {
            FieldType::EmptyField => empty_field(),
            FieldType::BufferField(d) => RawField { escaped: d.escaped, text: d.raw() },
        }
    }
}

impl FieldType {
    pub open spec fn wf(&self) -> bool {
        match self {
            FieldType::EmptyField => true,
            FieldType::BufferField(d) => d.wf(),
        }
    }
}

/// What each descriptor of `fields` stands for.
pub open spec fn fields_view(fields: Seq<FieldType>) -> Seq<RawField> {
    Seq::new(fields.len(), |i: int| fields[i]@)
}

pub open spec fn fields_wf(fields: Seq<FieldType>) -> bool {
    forall|i: int| 0 <= i < fields.len() ==> (#[trigger] fields[i]).wf()
}

/// Whether `f` may be called on every string whose characters are `text`.
pub open spec fn takes<F: Fn(String)>(f: F, text: Seq<char>) -> bool {
    forall|s: String| s@ == text ==> call_requires(f, (s,))
}

/// Whether what `f` ensures holds of a call on a string whose characters are `text`.
pub open spec fn done_on<F: Fn(String)>(f: F, text: Seq<char>) -> bool {
    exists|s: String| s@ == text && call_ensures(f, (s,), ())
}

/// One row: its fields in order, and the quote character they were read with.
pub struct Row {
    fields: Vec<FieldType>,
    quote: char,
}

impl View for Row {
    type V = Seq<RawField>;

    closed spec fn view(&self) -> Seq<RawField> {
        fields_view(self.fields@)
    }
}

impl Row {
    pub closed spec fn wf(&self) -> bool {
        fields_wf(self.fields@)
    }

    /// The quote character that doubled quotes are resolved with.
    pub closed spec fn quote(&self) -> char {
        self.quote
    }

    /// The values of the fields.
    pub open spec fn text(&self) -> Seq<Seq<char>> {
        row_text(self@, self.quote())
    }

    /// Whether every field can be given a value.
    pub open spec fn sound(&self) -> bool {
        row_sound(self@, self.quote())
    }

    /// Whether field `i` can be given a value.
    pub open spec fn sound_at(&self, i: int) -> bool {
        field_sound(self@[i], i == self@.len() - 1, self.quote())
    }

    pub(crate) fn from_fields(fields: Vec<FieldType>, quote: char) -> (row: Row)
        requires
            fields_wf(fields@),
        ensures
            row.wf(),
            row@ == fields_view(fields@),
            row.quote() == quote,
    {
        Row { fields, quote }
    }

    /// The number of fields.
    pub fn len(&self) -> (n: usize)
        ensures
            n == self@.len(),
    {
        self.fields.len()
    }

    /// The value of field `field`, or `None` where the row has no such field
    /// or the field is quoted and holds a quote character that stands alone.
    pub fn try_getchars(&self, field: usize) -> (out: Option<Vec<char>>)
        requires
            self.wf(),
        ensures
            out is Some <==> field < self@.len() && self.sound_at(field as int),
            out matches Some(v) ==> v@ == self.text()[field as int],
    {
        if field >= self.fields.len() {
            return None;
        }
        match &self.fields[field] {
            FieldType::EmptyField => Some(Vec::new()),
            FieldType::BufferField(desc) => {
                let mut buf = desc.raw_chars();
                if field == self.fields.len() - 1 {
                    let n = buf.len();
                    if n > 0 && buf[n - 1] == '\r' {
                        buf.pop();
                    }
                }
                assert(buf@ =~= field_body(self@[field as int], field == self@.len() - 1));
                if desc.escaped {
                    unescape_chars(&buf, self.quote)
                } else {
                    Some(buf)
                }
            },
        }
    }

    /// The value of field `field`, as characters.
    pub fn getchars(&self, field: usize) -> (out: Vec<char>)
        requires
            self.wf(),
            field < self@.len(),
            self.sound_at(field as int),
        ensures
            out@ == self.text()[field as int],
    {
        match self.try_getchars(field) {
            Some(v) => v,
            None => Vec::new(),
        }
    }

    /// The value of field `field`, as a string.
    pub fn getstr(&self, field: usize) -> (out: String)
        requires
            self.wf(),
            field < self@.len(),
            self.sound_at(field as int),
        ensures
            out@ == self.text()[field as int],
    {
        let chars = self.getchars(field);
        string_from_chars(&chars)
    }

    /// The values of all fields, in order.
    pub fn getall(&self) -> (out: Vec<String>)
        requires
            self.wf(),
            self.sound(),
        ensures
            out@.len() == self@.len(),
            forall|i: int| 0 <= i < out@.len() ==> (#[trigger] out@[i])@ == self.text()[i],
    {
        let mut a: Vec<String> = Vec::new();
        let len = self.len();
        let mut i: usize = 0;
        while i < len
            invariant
                self.wf(),
                self.sound(),
                len == self@.len(),
                i <= len,
                a@.len() == i,
                forall|j: int| 0 <= j < i ==> (#[trigger] a@[j])@ == self.text()[j],
            decreases len - i,
        {
            a.push(self.getstr(i));
            i += 1;
        }
        a
    }

    /// Calls `f` on the value of each field, in order.
    pub fn map<F: Fn(String)>(&self, f: F)
        requires
            self.wf(),
            self.sound(),
            forall|i: int| 0 <= i < self@.len() ==> takes(f, #[trigger] self.text()[i]),
        ensures
            forall|i: int| 0 <= i < self@.len() ==> done_on(f, #[trigger] self.text()[i]),
    {
        let len = self.len();
        let mut i: usize = 0;
        while i < len
            invariant
                self.wf(),
                self.sound(),
                len == self@.len(),
                i <= len,
                forall|j: int| 0 <= j < self@.len() ==> takes(f, #[trigger] self.text()[j]),
                forall|j: int| 0 <= j < i ==> done_on(f, #[trigger] self.text()[j]),
            decreases len - i,
        {
            let s = self.getstr(i);
            assert(takes(f, self.text()[i as int]));
            f(s);
            assert(done_on(f, self.text()[i as int]));
            i += 1;
        }
    }
}

} // verus!
