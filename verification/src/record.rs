//! Rows as records: the first row gives the labels, and each later row with
//! as many fields as there are labels becomes a record from label to value.

use vstd::prelude::*;
use crate::grammar::{RawField, field_sound, row_sound, row_text};
use crate::reader::RowReader;
use crate::row::Row;
use crate::source::CharSource;
use crate::text::string_from_chars;

verus! {

/// A label with its value.
pub type Entry = (Seq<char>, Seq<char>);

pub open spec fn has_key(entries: Seq<Entry>, key: Seq<char>) -> bool {
    exists|i: int| 0 <= i < entries.len() && (#[trigger] entries[i]).0 == key
}

pub open spec fn distinct_keys(entries: Seq<Entry>) -> bool {
    forall|i: int, j: int|
        0 <= i < j < entries.len() ==> (#[trigger] entries[i]).0 != (#[trigger] entries[j]).0
}

/// `entries` with `key` set to `value`: in the place where `key` stands, or
/// at the end where it is new.
pub open spec fn put(entries: Seq<Entry>, key: Seq<char>, value: Seq<char>) -> Seq<Entry> {
    if has_key(entries, key) {
        Seq::new(
            entries.len(),
            |i: int|
                if entries[i].0 == key {
                    (key, value)
                } else {
                    entries[i]
                },
        )
    } else {
        entries.push((key, value))
    }
}

/// The record of `values` under `labels`: each label set to the value in its
/// column, from the first column to the last.
pub open spec fn record_of(labels: Seq<Seq<char>>, values: Seq<Seq<char>>) -> Seq<Entry>
    decreases labels.len(),
{
    if labels.len() == 0 {
        Seq::empty()
    } else {
        put(record_of(labels.drop_last(), values), labels.last(), values[labels.len() - 1])
    }
}

/// The characters of each string of `cols`.
pub open spec fn labels_of(cols: Seq<String>) -> Seq<Seq<char>> {
    Seq::new(cols.len(), |i: int| cols[i]@)
}

/// The index of the first of `rows` that has `n` fields, or the number of
/// rows where none has.
pub open spec fn first_fitting(rows: Seq<Seq<RawField>>, n: nat) -> int
    decreases rows.len(),
{
    if rows.len() == 0 {
        0
    } else if rows[0].len() == n {
        0
    } else {
        1 + first_fitting(rows.skip(1), n)
    }
}

/// The records of `rows` under `labels`, in order: one for each row that has
/// as many fields as there are labels.
pub open spec fn records_of(rows: Seq<Seq<RawField>>, labels: Seq<Seq<char>>, quote: char) -> Seq<
    Seq<Entry>,
>
    decreases rows.len(),
{
    if rows.len() == 0 {
        Seq::empty()
    } else if rows[0].len() == labels.len() {
        seq![record_of(labels, row_text(rows[0], quote))] + records_of(rows.skip(1), labels, quote)
    } else {
        records_of(rows.skip(1), labels, quote)
    }
}

/// Whether each of `rows` that has `n` fields can be given its values.
pub open spec fn fitting_rows_sound(rows: Seq<Seq<RawField>>, n: nat, quote: char) -> bool {
    forall|i: int| 0 <= i < rows.len() && (#[trigger] rows[i]).len() == n ==> row_sound(rows[i], quote)
}

pub proof fn lemma_first_fitting_bounds(rows: Seq<Seq<RawField>>, n: nat)
    ensures
        0 <= first_fitting(rows, n) <= rows.len(),
        first_fitting(rows, n) < rows.len() ==> rows[first_fitting(rows, n)].len() == n,
    decreases rows.len(),
{
    if rows.len() > 0 && rows[0].len() != n {
        lemma_first_fitting_bounds(rows.skip(1), n);
    }
}

/// The first record comes from the first row that fits, and the others from
/// the rows behind it.
pub proof fn lemma_records_of_unfold(rows: Seq<Seq<RawField>>, labels: Seq<Seq<char>>, quote: char)
    ensures
        ({
            let k = first_fitting(rows, labels.len());
            if k < rows.len() {
                records_of(rows, labels, quote) == seq![
                    record_of(labels, row_text(rows[k], quote)),
                ] + records_of(rows.skip(k + 1), labels, quote)
            } else {
                records_of(rows, labels, quote) == Seq::<Seq<Entry>>::empty()
            }
        }),
    decreases rows.len(),
{
    lemma_first_fitting_bounds(rows, labels.len());
    if rows.len() > 0 && rows[0].len() != labels.len() {
        let rest = rows.skip(1);
        lemma_records_of_unfold(rest, labels, quote);
        lemma_first_fitting_bounds(rest, labels.len());
        let k = first_fitting(rest, labels.len());
        if k < rest.len() {
            assert(rest.skip(k + 1) =~= rows.skip(k + 2));
        }
    }
}

/// An ordered record: labels with their values, each label once, in the order
/// in which the labels were first set.
pub struct Record {
    entries: Vec<(String, String)>,
}

impl View for Record {
    type V = Seq<Entry>;

    closed spec fn view(&self) -> Seq<Entry> {
        Seq::new(self.entries@.len(), |i: int| (self.entries@[i].0@, self.entries@[i].1@))
    }
}

impl Record {
    pub open spec fn wf(&self) -> bool {
        distinct_keys(self@)
    }

    /// A record without entries.
    pub fn new() -> (rec: Record)
        ensures
            rec@ == Seq::<Entry>::empty(),
            rec.wf(),
    {
        let rec = Record { entries: Vec::new() };
        assert(rec@ =~= Seq::<Entry>::empty());
        rec
    }

    /// The number of entries.
    pub fn len(&self) -> (n: usize)
        ensures
            n == self@.len(),
    {
        self.entries.len()
    }

    /// Sets `key` to `value`. A key that is there keeps its place.
    pub fn insert(&mut self, key: String, value: String)
        requires
            old(self).wf(),
        ensures
            final(self).wf(),
            final(self)@ == put(old(self)@, key@, value@),
    {
        let n = self.entries.len();
        let mut i: usize = 0;
        while i < n
            invariant
                i <= n,
                n == self.entries@.len(),
                self == old(self),
                self.wf(),
                forall|j: int| 0 <= j < i ==> (#[trigger] self@[j]).0 != key@,
            decreases n - i,
        {
            let found = self.entries[i].0 == key;
            assert(self@[i as int].0 == self.entries@[i as int].0@);
            if found {
                let ghost before = self@;
                let ghost k = key@;
                let ghost v = value@;
                self.entries.set(i, (key, value));
                assert(before[i as int].0 == k);
                assert(has_key(before, k));
                assert forall|j: int| 0 <= j < before.len() && j != i implies before[j].0 != k by {
                    if j < i {
                        assert(before[j].0 != before[i as int].0);
                    } else {
                        assert(before[i as int].0 != before[j].0);
                    }
                }
                assert(self@ =~= put(before, k, v));
                return ;
            }
            i += 1;
        }
        let ghost before = self@;
        let ghost k = key@;
        let ghost v = value@;
        self.entries.push((key, value));
        assert(self@ =~= before.push((k, v)));
    }

    /// The value of `key`, where the record has it.
    pub fn get(&self, key: &String) -> (found: Option<&String>)
        requires
            self.wf(),
        ensures
            found is Some <==> has_key(self@, key@),
            found matches Some(v) ==> self@.contains((key@, v@)),
    {
        let n = self.entries.len();
        let mut i: usize = 0;
        while i < n
            invariant
                i <= n,
                n == self.entries@.len(),
                forall|j: int| 0 <= j < i ==> (#[trigger] self@[j]).0 != key@,
            decreases n - i,
        {
            let hit = self.entries[i].0 == *key;
            assert(self@[i as int].0 == self.entries@[i as int].0@);
            if hit {
                assert(self@[i as int] == (key@, self.entries@[i as int].1@));
                return Some(&self.entries[i].1);
            }
            i += 1;
        }
        None
    }
}

/// The record of the values of `row` under the labels `cols`, where every
/// field of the row can be given its value; `None` where one cannot.
pub fn try_record_from_row(cols: &Vec<String>, row: &Row) -> (found: Option<Record>)
    requires
        row.wf(),
        row@.len() == cols@.len(),
    ensures
        found is Some <==> row.sound(),
        found matches Some(rec) ==> rec.wf() && rec@ == record_of(labels_of(cols@), row.text()),
{
    let ghost labels = labels_of(cols@);
    let mut rec = Record::new();
    let mut col: usize = 0;
    assert(labels.take(0) =~= Seq::<Seq<char>>::empty());
    while col < cols.len()
        invariant
            row.wf(),
            row@.len() == cols@.len(),
            labels == labels_of(cols@),
            col <= cols@.len(),
            rec.wf(),
            rec@ == record_of(labels.take(col as int), row.text()),
            forall|j: int| 0 <= j < col ==> #[trigger] row.sound_at(j),
        decreases cols@.len() - col,
    {
        match row.try_getchars(col) {
            None => {
                assert(!row.sound_at(col as int));
                return None;
            },
            Some(chars) => {
                let value = string_from_chars(&chars);
                let label = cols[col].clone();
                proof {
                    let longer = labels.take(col + 1);
                    assert(longer.drop_last() =~= labels.take(col as int));
                    assert(longer.last() == label@);
                }
                rec.insert(label, value);
                col += 1;
            },
        }
    }
    proof {
        assert(labels.take(col as int) =~= labels);
        assert forall|i: int| 0 <= i < row@.len() implies field_sound(
            #[trigger] row@[i],
            i == row@.len() - 1,
            row.quote(),
        ) by {
            assert(row.sound_at(i));
        }
    }
    Some(rec)
}

/// The record of the values of `row` under the labels `cols`.
pub fn record_from_row(cols: &Vec<String>, row: &Row) -> (rec: Record)
    requires
        row.wf(),
        row.sound(),
        row@.len() == cols@.len(),
    ensures
        rec.wf(),
        rec@ == record_of(labels_of(cols@), row.text()),
{
    match try_record_from_row(cols, row) {
        Some(rec) => rec,
        None => Record::new(),
    }
}

/// Reads rows up to the first that has as many fields as there are labels in
/// `cols`; rows of another length are passed over. Gives the record of that
/// row, or the row itself as the error where one of its fields cannot be
/// given a value. `Ok(None)` where no such row is left; then no row at all
/// is left.
pub fn try_next_record<R: CharSource>(r: &mut RowReader<R>, cols: &Vec<String>) -> (found: Result<
    Option<Record>,
    Row,
>)
    requires
        old(r).wf(),
    ensures
        final(r).wf(),
        final(r).delim() == old(r).delim(),
        final(r).quote() == old(r).quote(),
        final(r).readlen() == old(r).readlen(),
        ({
            let rows = old(r).rows_ahead();
            let quote = old(r).quote();
            let k = first_fitting(rows, cols@.len());
            match found {
                Ok(Some(rec)) => {
                    &&& k < rows.len()
                    &&& row_sound(rows[k], quote)
                    &&& rec.wf()
                    &&& rec@ == record_of(labels_of(cols@), row_text(rows[k], quote))
                    &&& final(r).rows_ahead() == rows.skip(k + 1)
                },
                Ok(None) => k == rows.len() && final(r).rows_ahead().len() == 0,
                Err(row) => {
                    &&& k < rows.len()
                    &&& !row_sound(rows[k], quote)
                    &&& row.wf()
                    &&& row@ == rows[k]
                    &&& row.quote() == quote
                    &&& final(r).rows_ahead() == rows.skip(k + 1)
                },
            }
        }),
{
    let ghost rows = r.rows_ahead();
    let ghost passed: int = 0;
    assert(rows.skip(0) =~= rows);
    loop
        invariant
            r.wf(),
            r.delim() == old(r).delim(),
            r.quote() == old(r).quote(),
            r.readlen() == old(r).readlen(),
            rows == old(r).rows_ahead(),
            0 <= passed <= rows.len(),
            r.rows_ahead() == rows.skip(passed),
            first_fitting(rows, cols@.len()) == passed + first_fitting(
                rows.skip(passed),
                cols@.len(),
            ),
        decreases rows.len() - passed,
    {
        let ghost ahead = r.rows_ahead();
        match r.readrow() {
            Err(_) => {
                return Ok(None);
            },
            Ok(row) => {
                assert(ahead[0] == rows[passed]);
                assert(ahead.skip(1) =~= rows.skip(passed + 1));
                if row.len() == cols.len() {
                    return match try_record_from_row(cols, &row) {
                        Some(rec) => Ok(Some(rec)),
                        None => Err(row),
                    };
                }
                proof {
                    passed = passed + 1;
                }
            },
        }
    }
}

/// Reads rows up to the first that has as many fields as there are labels in
/// `cols`, and gives its record; rows of another length are passed over.
/// `None` where no such row is left; then no row at all is left.
pub fn next_record<R: CharSource>(r: &mut RowReader<R>, cols: &Vec<String>) -> (found: Option<
    Record,
>)
    requires
        old(r).wf(),
        fitting_rows_sound(old(r).rows_ahead(), cols@.len(), old(r).quote()),
    ensures
        final(r).wf(),
        final(r).delim() == old(r).delim(),
        final(r).quote() == old(r).quote(),
        final(r).readlen() == old(r).readlen(),
        ({
            let rows = old(r).rows_ahead();
            let k = first_fitting(rows, cols@.len());
            match found {
                Some(rec) => {
                    &&& k < rows.len()
                    &&& rec.wf()
                    &&& rec@ == record_of(labels_of(cols@), row_text(rows[k], old(r).quote()))
                    &&& final(r).rows_ahead() == rows.skip(k + 1)
                },
                None => k == rows.len() && final(r).rows_ahead().len() == 0,
            }
        }),
{
    proof {
        lemma_first_fitting_bounds(r.rows_ahead(), cols@.len());
    }
    match try_next_record(r, cols) {
        Ok(found) => found,
        Err(_) => None,
    }
}

/// Whether `f` may be called on every record that holds `entries`.
pub open spec fn takes_record<F: Fn(Record)>(f: F, entries: Seq<Entry>) -> bool {
    forall|rec: Record| rec.wf() && rec@ == entries ==> call_requires(f, (rec,))
}

/// Whether what `f` ensures holds of a call on a record that holds `entries`.
pub open spec fn done_on_record<F: Fn(Record)>(f: F, entries: Seq<Entry>) -> bool {
    exists|rec: Record| rec@ == entries && call_ensures(f, (rec,), ())
}

/// A suffix of rows that can be given their values can be given them too.
proof fn lemma_sound_suffix(rows: Seq<Seq<RawField>>, n: nat, quote: char, k: int)
    requires
        fitting_rows_sound(rows, n, quote),
        0 <= k <= rows.len(),
    ensures
        fitting_rows_sound(rows.skip(k), n, quote),
{
    let rest = rows.skip(k);
    assert forall|i: int| 0 <= i < rest.len() && (#[trigger] rest[i]).len() == n implies row_sound(
        rest[i],
        quote,
    ) by {
        assert(rest[i] == rows[k + i]);
    }
}

/// Calls `f` on the record of each row that is left and has as many fields as
/// there are labels in `cols`, in order, and reads the reader to its end.
/// Rows of another length are passed over.
pub fn hashmap_iter_cols<R: CharSource, F: Fn(Record)>(
    r: &mut RowReader<R>,
    cols: &Vec<String>,
    f: F,
)
    requires
        old(r).wf(),
        fitting_rows_sound(old(r).rows_ahead(), cols@.len(), old(r).quote()),
        forall|i: int|
            0 <= i < records_of(old(r).rows_ahead(), labels_of(cols@), old(r).quote()).len()
                ==> takes_record(
                f,
                #[trigger] records_of(old(r).rows_ahead(), labels_of(cols@), old(r).quote())[i],
            ),
    ensures
        final(r).wf(),
        final(r).delim() == old(r).delim(),
        final(r).quote() == old(r).quote(),
        final(r).readlen() == old(r).readlen(),
        final(r).rows_ahead().len() == 0,
        forall|i: int|
            0 <= i < records_of(old(r).rows_ahead(), labels_of(cols@), old(r).quote()).len()
                ==> done_on_record(
                f,
                #[trigger] records_of(old(r).rows_ahead(), labels_of(cols@), old(r).quote())[i],
            ),
{
    let ghost labels = labels_of(cols@);
    let ghost recs = records_of(r.rows_ahead(), labels, r.quote());
    let ghost done: int = 0;
    assert(recs.skip(0) =~= recs);
    loop
        invariant
            r.wf(),
            r.delim() == old(r).delim(),
            r.quote() == old(r).quote(),
            r.readlen() == old(r).readlen(),
            labels == labels_of(cols@),
            recs == records_of(old(r).rows_ahead(), labels, old(r).quote()),
            fitting_rows_sound(r.rows_ahead(), cols@.len(), r.quote()),
            0 <= done <= recs.len(),
            records_of(r.rows_ahead(), labels, r.quote()) == recs.skip(done),
            forall|i: int| 0 <= i < recs.len() ==> takes_record(f, #[trigger] recs[i]),
            forall|i: int| 0 <= i < done ==> done_on_record(f, #[trigger] recs[i]),
        ensures
            r.wf(),
            r.delim() == old(r).delim(),
            r.quote() == old(r).quote(),
            r.readlen() == old(r).readlen(),
            r.rows_ahead().len() == 0,
            recs == records_of(old(r).rows_ahead(), labels_of(cols@), old(r).quote()),
            forall|i: int| 0 <= i < recs.len() ==> done_on_record(f, #[trigger] recs[i]),
        decreases r.rows_ahead().len(),
    {
        let ghost rows = r.rows_ahead();
        proof {
            lemma_records_of_unfold(rows, labels, r.quote());
            lemma_first_fitting_bounds(rows, labels.len());
        }
        match next_record(r, cols) {
            None => {
                assert(recs.skip(done).len() == 0);
                break ;
            },
            Some(rec) => {
                proof {
                    let k = first_fitting(rows, labels.len());
                    lemma_sound_suffix(rows, labels.len(), r.quote(), k + 1);
                    let here = records_of(rows, labels, r.quote());
                    assert(here == seq![rec@] + records_of(rows.skip(k + 1), labels, r.quote()));
                    assert(here.len() >= 1 && here[0] == rec@);
                    assert(recs.skip(done)[0] == recs[done]);
                    assert(recs.skip(done).skip(1) =~= recs.skip(done + 1));
                    assert(rec@ == recs[done]);
                    assert(takes_record(f, recs[done]));
                }
                f(rec);
                proof {
                    assert(done_on_record(f, recs[done]));
                    done = done + 1;
                }
            },
        }
    }
}

/// Reads the first row as labels and calls `f` on the record of each later
/// row that has as many fields as there are labels. Does nothing where no row
/// is left.
pub fn hashmap_iter<R: CharSource, F: Fn(Record)>(r: &mut RowReader<R>, f: F)
    requires
        old(r).wf(),
        old(r).rows_ahead().len() > 0 ==> {
            let rows = old(r).rows_ahead();
            let quote = old(r).quote();
            &&& row_sound(rows[0], quote)
            &&& fitting_rows_sound(rows.skip(1), rows[0].len(), quote)
            &&& forall|i: int|
                0 <= i < records_of(rows.skip(1), row_text(rows[0], quote), quote).len()
                    ==> takes_record(
                    f,
                    #[trigger] records_of(rows.skip(1), row_text(rows[0], quote), quote)[i],
                )
        },
    ensures
        final(r).wf(),
        final(r).delim() == old(r).delim(),
        final(r).quote() == old(r).quote(),
        final(r).readlen() == old(r).readlen(),
        final(r).rows_ahead().len() == 0,
        old(r).rows_ahead().len() > 0 ==> {
            let rows = old(r).rows_ahead();
            let quote = old(r).quote();
            forall|i: int|
                0 <= i < records_of(rows.skip(1), row_text(rows[0], quote), quote).len()
                    ==> done_on_record(
                    f,
                    #[trigger] records_of(rows.skip(1), row_text(rows[0], quote), quote)[i],
                )
        },
{
    match r.readrow() {
        Ok(row) => {
            let cols = row.getall();
            assert(labels_of(cols@) =~= row.text());
            hashmap_iter_cols(r, &cols, f);
        },
        Err(_) => {},
    }
}

/// Whether `label` is what `hmap` may make of a string with the characters `text`.
pub open spec fn relabelled<H: Fn(String) -> String>(hmap: H, text: Seq<char>, label: String) -> bool {
    exists|s: String| s@ == text && call_ensures(hmap, (s,), label)
}

/// Whether `hmap` may be called on every string with the characters `text`.
pub open spec fn takes_label<H: Fn(String) -> String>(hmap: H, text: Seq<char>) -> bool {
    forall|s: String| s@ == text ==> call_requires(hmap, (s,))
}

/// Whether `cols` are labels that `hmap` may make of `header`, one of each.
pub open spec fn labels_from<H: Fn(String) -> String>(
    hmap: H,
    header: Seq<Seq<char>>,
    cols: Vec<String>,
) -> bool {
    &&& cols@.len() == header.len()
    &&& forall|i: int| 0 <= i < header.len() ==> relabelled(hmap, header[i], #[trigger] cols@[i])
}

/// What [`hashmap_iter_full`] has done where `cols` are the labels that `hmap`
/// made of `header`, `rest` the rows behind the header and `left` the rows
/// that the reader has before it in the end: where `hver` refused the labels,
/// no further row was read; where it took them, all were, and `f` was called
/// on each record.
pub open spec fn relabelled_outcome<
    H: Fn(String) -> String,
    V: Fn(&Vec<String>) -> bool,
    F: Fn(Record),
>(
    hmap: H,
    hver: V,
    f: F,
    header: Seq<Seq<char>>,
    rest: Seq<Seq<RawField>>,
    quote: char,
    cols: Vec<String>,
    left: Seq<Seq<RawField>>,
) -> bool {
    &&& labels_from(hmap, header, cols)
    &&& {
        ||| call_ensures(hver, (&cols,), false) && left == rest
        ||| {
            &&& call_ensures(hver, (&cols,), true)
            &&& left.len() == 0
            &&& forall|i: int|
                0 <= i < records_of(rest, labels_of(cols@), quote).len() ==> done_on_record(
                    f,
                    #[trigger] records_of(rest, labels_of(cols@), quote)[i],
                )
        }
    }
}

/// As [`hashmap_iter`], with each label of the first row replaced by what
/// `hmap` makes of it; where `hver` refuses the labels, no further row is read.
///
/// `hmap` is asked for on the labels of the first row only, `hver` on labels
/// that `hmap` made of them, and `f` on the records under labels that `hver`
/// took. Where no row is left, nothing is asked of the three.
pub fn hashmap_iter_full<
    R: CharSource,
    H: Fn(String) -> String,
    V: Fn(&Vec<String>) -> bool,
    F: Fn(Record),
>(r: &mut RowReader<R>, hmap: H, hver: V, f: F)
    requires
        old(r).wf(),
        old(r).rows_ahead().len() > 0 ==> {
            let rows = old(r).rows_ahead();
            let quote = old(r).quote();
            let header = row_text(rows[0], quote);
            &&& row_sound(rows[0], quote)
            &&& forall|i: int| 0 <= i < header.len() ==> takes_label(hmap, #[trigger] header[i])
            &&& forall|cols: Vec<String>| #[trigger]
                labels_from(hmap, header, cols) ==> call_requires(hver, (&cols,))
            &&& forall|cols: Vec<String>|
                #[trigger] labels_from(hmap, header, cols) && call_ensures(hver, (&cols,), true)
                    ==> {
                    &&& fitting_rows_sound(rows.skip(1), cols@.len(), quote)
                    &&& forall|i: int|
                        0 <= i < records_of(rows.skip(1), labels_of(cols@), quote).len()
                            ==> takes_record(
                            f,
                            #[trigger] records_of(rows.skip(1), labels_of(cols@), quote)[i],
                        )
                }
        },
    ensures
        final(r).wf(),
        final(r).delim() == old(r).delim(),
        final(r).quote() == old(r).quote(),
        final(r).readlen() == old(r).readlen(),
        old(r).rows_ahead().len() == 0 ==> final(r).rows_ahead().len() == 0,
        old(r).rows_ahead().len() > 0 ==> exists|cols: Vec<String>|
            relabelled_outcome(
                hmap,
                hver,
                f,
                row_text(old(r).rows_ahead()[0], old(r).quote()),
                old(r).rows_ahead().skip(1),
                old(r).quote(),
                cols,
                final(r).rows_ahead(),
            ),
{
    let ghost rows = r.rows_ahead();
    match r.readrow() {
        Ok(row) => {
            let header = row.getall();
            let ghost texts = row.text();
            let n = header.len();
            let mut cols: Vec<String> = Vec::new();
            let mut i: usize = 0;
            while i < n
                invariant
                    n == header@.len(),
                    n == texts.len(),
                    i <= n,
                    cols@.len() == i,
                    forall|j: int| 0 <= j < n ==> (#[trigger] header@[j])@ == texts[j],
                    forall|j: int| 0 <= j < n ==> takes_label(hmap, #[trigger] texts[j]),
                    forall|j: int| 0 <= j < i ==> relabelled(hmap, texts[j], #[trigger] cols@[j]),
                decreases n - i,
            {
                let label = header[i].clone();
                assert(takes_label(hmap, texts[i as int]));
                let renamed = hmap(label);
                assert(relabelled(hmap, texts[i as int], renamed));
                cols.push(renamed);
                i += 1;
            }
            assert(labels_from(hmap, texts, cols));
            if !hver(&cols) {
                assert(relabelled_outcome(
                    hmap,
                    hver,
                    f,
                    texts,
                    rows.skip(1),
                    r.quote(),
                    cols,
                    r.rows_ahead(),
                ));
                return ;
            }
            hashmap_iter_cols(r, &cols, f);
            assert(relabelled_outcome(
                hmap,
                hver,
                f,
                texts,
                rows.skip(1),
                r.quote(),
                cols,
                r.rows_ahead(),
            ));
        },
        Err(_) => {},
    }
}

} // verus!
