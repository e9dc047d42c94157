//! Character sequences: joining chunks, carriage returns, doubled quotes.

use vstd::prelude::*;

verus! {

/// The chunks of `chunks`, joined in order.
pub open spec fn concat(chunks: Seq<Seq<char>>) -> Seq<char>
    decreases chunks.len(),
{
    if chunks.len() == 0 {
        Seq::empty()
    } else {
        concat(chunks.drop_last()) + chunks.last()
    }
}

/// `s` without one trailing carriage return, if it ends in one.
pub open spec fn strip_cr(s: Seq<char>) -> Seq<char> {
    if s.len() > 0 && s.last() == '\r' {
        s.drop_last()
    } else {
        s
    }
}

/// Whether every quote character of `s` stands in a pair of two adjacent ones.
pub open spec fn well_paired(s: Seq<char>, quote: char) -> bool
    decreases s.len(),
{
    if s.len() == 0 {
        true
    } else if s[0] == quote {
        s.len() >= 2 && s[1] == quote && well_paired(s.skip(2), quote)
    } else {
        well_paired(s.skip(1), quote)
    }
}

/// `s` with each pair of adjacent quote characters replaced by one.
pub open spec fn unescape(s: Seq<char>, quote: char) -> Seq<char>
    decreases s.len(),
{
    if s.len() == 0 {
        Seq::empty()
    } else if s[0] == quote && s.len() >= 2 && s[1] == quote {
        seq![quote] + unescape(s.skip(2), quote)
    } else {
        seq![s[0]] + unescape(s.skip(1), quote)
    }
}

/// Joining is additive: the chunks up to `i + 1` are those up to `i` and chunk `i`.
pub proof fn lemma_concat_take_next(chunks: Seq<Seq<char>>, i: int)
    requires
        0 <= i < chunks.len(),
    ensures
        concat(chunks.take(i + 1)) == concat(chunks.take(i)) + chunks[i],
{
    assert(chunks.take(i + 1).drop_last() =~= chunks.take(i));
}

/// Pushing a chunk appends it to the joined text.
pub proof fn lemma_concat_push(chunks: Seq<Seq<char>>, chunk: Seq<char>)
    ensures
        concat(chunks.push(chunk)) == concat(chunks) + chunk,
{
    assert(chunks.push(chunk).drop_last() =~= chunks);
}

/// The joined text of a prefix of the chunks is a prefix of the joined text.
pub proof fn lemma_concat_prefix(chunks: Seq<Seq<char>>, i: int)
    requires
        0 <= i <= chunks.len(),
    ensures
        concat(chunks.take(i)).len() <= concat(chunks).len(),
        concat(chunks.take(i)) == concat(chunks).take(concat(chunks.take(i)).len() as int),
    decreases chunks.len() - i,
{
    if i == chunks.len() {
        assert(chunks.take(i) =~= chunks);
    } else {
        lemma_concat_prefix(chunks, i + 1);
        lemma_concat_take_next(chunks, i);
    }
}

/// Joining a run of chunks gives the text between the run's two ends.
pub proof fn lemma_concat_subrange(chunks: Seq<Seq<char>>, i: int, j: int)
    requires
        0 <= i <= j <= chunks.len(),
    ensures
        concat(chunks.take(i)).len() <= concat(chunks.take(j)).len(),
        concat(chunks.take(j)) == concat(chunks.take(i)) + concat(chunks.subrange(i, j)),
    decreases j - i,
{
    if i == j {
        assert(chunks.subrange(i, j) =~= Seq::<Seq<char>>::empty());
    } else {
        lemma_concat_subrange(chunks, i, j - 1);
        lemma_concat_take_next(chunks, j - 1);
        assert(chunks.subrange(i, j).drop_last() =~= chunks.subrange(i, j - 1));
    }
}

/// Where `stream` begins `skipped` characters into `whole`, a window of
/// `whole` behind that place is a window of `stream`.
pub proof fn lemma_window(whole: Seq<char>, stream: Seq<char>, skipped: int, from: int, to: int)
    requires
        0 <= skipped <= from <= to <= whole.len(),
        whole.len() - skipped <= stream.len(),
        whole.skip(skipped) == stream.take(whole.len() - skipped),
    ensures
        whole.subrange(from, to) == stream.subrange(from - skipped, to - skipped),
{
    let shared = whole.skip(skipped);
    assert(whole.subrange(from, to) =~= shared.subrange(from - skipped, to - skipped));
    assert(stream.take(whole.len() - skipped).subrange(from - skipped, to - skipped)
        =~= stream.subrange(from - skipped, to - skipped));
}

/// Where `whole` begins with `before` and then `inner`, a window of `inner`
/// is the window of `whole` that lies `before.len()` further on.
pub proof fn lemma_inner_window(
    whole: Seq<char>,
    before: Seq<char>,
    inner: Seq<char>,
    from: int,
    to: int,
)
    requires
        before.len() + inner.len() <= whole.len(),
        whole.take((before.len() + inner.len()) as int) == before + inner,
        0 <= from <= to <= inner.len(),
    ensures
        whole.subrange(before.len() + from, before.len() + to) == inner.subrange(from, to),
{
    let head = whole.take((before.len() + inner.len()) as int);
    assert(whole.subrange(before.len() + from, before.len() + to) =~= head.subrange(
        before.len() + from,
        before.len() + to,
    ));
    assert((before + inner).subrange(before.len() + from, before.len() + to) =~= inner.subrange(
        from,
        to,
    ));
}

/// `String::push` of std: the string afterwards is the string before with
/// `c` appended, and nothing else changes.
pub assume_specification[ String::push ](s: &mut String, c: char)
    ensures
        final(s)@ == old(s)@.push(c),
;

/// Appends the characters `src[from..to]` to `dst`.
pub fn append_range(dst: &mut Vec<char>, src: &Vec<char>, from: usize, to: usize)
    requires
        from <= to <= src.len(),
    ensures
        final(dst)@ == old(dst)@ + src@.subrange(from as int, to as int),
{
    let mut i: usize = from;
    while i < to
        invariant
            from <= i <= to <= src.len(),
            dst@ == old(dst)@ + src@.subrange(from as int, i as int),
        decreases to - i,
    {
        dst.push(src[i]);
        i += 1;
    }
}

/// Replaces each pair of adjacent quote characters by one; `None` where a
/// quote character stands alone.
pub fn unescape_chars(s: &Vec<char>, quote: char) -> (out: Option<Vec<char>>)
    ensures
        out is Some <==> well_paired(s@, quote),
        out matches Some(v) ==> v@ == unescape(s@, quote),
{
    let mut r: Vec<char> = Vec::new();
    let mut i: usize = 0;
    assert(s@.skip(0) =~= s@);
    while i < s.len()
        invariant
            i <= s.len(),
            well_paired(s@, quote) == well_paired(s@.skip(i as int), quote),
            unescape(s@, quote) == r@ + unescape(s@.skip(i as int), quote),
        decreases s.len() - i,
    {
        let ghost rest = s@.skip(i as int);
        let c = s[i];
        assert(rest[0] == c);
        if c == quote {
            if i + 1 < s.len() && s[i + 1] == quote {
                assert(rest[1] == quote);
                assert(rest.skip(2) =~= s@.skip(i + 2));
                r.push(c);
                i += 2;
            } else {
                return None;
            }
        } else {
            assert(rest.skip(1) =~= s@.skip(i + 1));
            r.push(c);
            i += 1;
        }
    }
    Some(r)
}

/// The string made of the characters of `chars`.
pub fn string_from_chars(chars: &Vec<char>) -> (s: String)
    ensures
        s@ == chars@,
{
    let mut s = String::new();
    let mut i: usize = 0;
    while i < chars.len()
        invariant
            i <= chars.len(),
            s@ == chars@.take(i as int),
        decreases chars.len() - i,
    {
        s.push(chars[i]);
        i += 1;
    }
    s
}

/// The characters of `s`, in order.
pub fn chars_of(s: &str) -> (chars: Vec<char>)
    ensures
        chars@ == s@,
{
    broadcast use vstd::string::group_string_axioms;

    let mut chars: Vec<char> = Vec::new();
    for c in it: s.chars()
        invariant
            it.seq() == s@,
            chars@ == s@.take(it.index()),
    {
        chars.push(c);
    }
    assert(s@.take(s@.len() as int) =~= s@);
    chars
}

} // verus!
