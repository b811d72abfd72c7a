//! The runs of bytes between the separators of a text.

use vstd::prelude::*;
use crate::config::SPLIT_MARKER;

verus! {

/// The text cut at every separator: the runs of bytes in between, first run
/// first. A text with `k` separators has `k + 1` runs; a run is empty where
/// two separators touch or one stands at an end of the text.
pub open spec fn lines(text: Seq<u8>) -> Seq<Seq<u8>>
    decreases text.len(),
{
    if text.len() == 0 {
        seq![Seq::<u8>::empty()]
    } else {
        let rest = lines(text.skip(1));
        if text[0] == SPLIT_MARKER {
            seq![Seq::<u8>::empty()] + rest
        } else {
            rest.update(0, seq![text[0]] + rest[0])
        }
    }
}

/// The number of separators among the bytes of `text` from `lo` up to, not
/// including, `hi`.
pub open spec fn count_delimiters(text: Seq<u8>, lo: int, hi: int) -> nat
    decreases hi - lo,
{
    if lo >= hi {
        0
    } else {
        count_delimiters(text, lo, hi - 1) + if text[hi - 1] == SPLIT_MARKER {
            1nat
        } else {
            0nat
        }
    }
}

/// A text always has a first run.
pub proof fn lemma_lines_nonempty(text: Seq<u8>)
    ensures
        lines(text).len() >= 1,
    decreases text.len(),
{
    if text.len() > 0 {
        lemma_lines_nonempty(text.skip(1));
    }
}

/// The runs of a suffix of a text are the last runs of the text, but for the
/// first of them, which may have lost its beginning.
pub proof fn lemma_lines_of_suffix(text: Seq<u8>, from: int)
    requires
        0 <= from <= text.len(),
    ensures
        1 <= lines(text.skip(from)).len() <= lines(text).len(),
        forall|i: int|
            1 <= i < lines(text.skip(from)).len() ==> #[trigger] lines(text.skip(from))[i]
                == lines(text)[lines(text).len() - lines(text.skip(from)).len() + i],
        lines(text.skip(from))[0].len() <= lines(text)[lines(text).len() - lines(
            text.skip(from),
        ).len()].len(),
    decreases from,
{
    lemma_lines_nonempty(text);
    if from == 0 {
        assert(text.skip(0) =~= text);
    } else {
        let rest = text.skip(1);
        lemma_lines_nonempty(rest);
        lemma_lines_of_suffix(rest, from - 1);
        assert(rest.skip(from - 1) =~= text.skip(from));
    }
}

/// Counting may stop anywhere in between and go on from there.
pub proof fn lemma_count_split(text: Seq<u8>, lo: int, mid: int, hi: int)
    requires
        lo <= mid <= hi,
    ensures
        count_delimiters(text, lo, hi) == count_delimiters(text, lo, mid) + count_delimiters(
            text,
            mid,
            hi,
        ),
    decreases hi - mid,
{
    if mid < hi {
        lemma_count_split(text, lo, mid, hi - 1);
    }
}

/// There are no more separators than bytes.
pub proof fn lemma_count_at_most(text: Seq<u8>, lo: int, hi: int)
    requires
        lo <= hi,
    ensures
        count_delimiters(text, lo, hi) <= hi - lo,
    decreases hi - lo,
{
    if lo < hi {
        lemma_count_at_most(text, lo, hi - 1);
    }
}

/// The count over a part of a text is the count over the same bytes of the
/// text.
pub proof fn lemma_count_in_subrange(text: Seq<u8>, start: int, end: int, lo: int, hi: int)
    requires
        0 <= start <= end <= text.len(),
        0 <= lo <= hi <= end - start,
    ensures
        count_delimiters(text.subrange(start, end), lo, hi) == count_delimiters(
            text,
            start + lo,
            start + hi,
        ),
    decreases hi - lo,
{
    if lo < hi {
        lemma_count_in_subrange(text, start, end, lo, hi - 1);
    }
}

/// A text has one run more than it has separators.
pub proof fn lemma_lines_len(text: Seq<u8>)
    ensures
        lines(text).len() == count_delimiters(text, 0, text.len() as int) + 1,
    decreases text.len(),
{
    if text.len() > 0 {
        let rest = text.skip(1);
        lemma_lines_len(rest);
        lemma_lines_nonempty(rest);
        lemma_count_in_subrange(text, 1, text.len() as int, 0, rest.len() as int);
        lemma_count_split(text, 0, 1, text.len() as int);
        assert(count_delimiters(text, 0, 1) == count_delimiters(text, 0, 0) + if text[0]
            == SPLIT_MARKER {
            1nat
        } else {
            0nat
        });
    }
}

/// The runs of two texts joined by a separator are the runs of the first
/// followed by the runs of the second.
pub proof fn lemma_lines_joined(head: Seq<u8>, tail: Seq<u8>)
    ensures
        lines(head + seq![SPLIT_MARKER] + tail) == lines(head) + lines(tail),
    decreases head.len(),
{
    let text = head + seq![SPLIT_MARKER] + tail;
    if head.len() == 0 {
        assert(text.skip(1) =~= tail);
        assert(lines(text) =~= lines(head) + lines(tail));
    } else {
        let shorter = head.skip(1);
        lemma_lines_joined(shorter, tail);
        lemma_lines_nonempty(shorter);
        assert(text.skip(1) =~= shorter + seq![SPLIT_MARKER] + tail);
        assert(text[0] == head[0]);
        assert(lines(text) =~= lines(head) + lines(tail));
    }
}

/// A part of a text that begins where a line begins and ends where a line
/// ends has, as its runs, the lines of the text that it spans: from the line
/// with as many separators before it as the text has before `start`, to the
/// one with as many before it as the text has before `end`.
pub proof fn lemma_lines_of_block(text: Seq<u8>, start: int, end: int)
    requires
        0 <= start <= end <= text.len(),
        start == 0 || text[start - 1] == SPLIT_MARKER,
        end == text.len() || text[end] == SPLIT_MARKER,
    ensures
        count_delimiters(text, 0, end) < lines(text).len(),
        lines(text.subrange(start, end)) == lines(text).subrange(
            count_delimiters(text, 0, start) as int,
            count_delimiters(text, 0, end) as int + 1,
        ),
{
    let len = text.len() as int;
    let block = text.subrange(start, end);
    let upto = text.subrange(0, end);
    lemma_lines_len(text);
    lemma_lines_len(block);
    lemma_lines_len(upto);
    lemma_count_in_subrange(text, start, end, 0, end - start);
    lemma_count_in_subrange(text, 0, end, 0, end);
    lemma_count_split(text, 0, start, end);
    lemma_count_split(text, 0, end, len);
    // The lines up to `end` are the first lines of the text.
    if end < len {
        let after = text.subrange(end + 1, len);
        lemma_lines_joined(upto, after);
        assert(upto + seq![SPLIT_MARKER] + after =~= text);
    } else {
        assert(upto =~= text);
    }
    assert(lines(upto) =~= lines(text).subrange(0, count_delimiters(text, 0, end) as int + 1));
    // The block holds the last of these.
    if start > 0 {
        let before = text.subrange(0, start - 1);
        lemma_lines_joined(before, block);
        lemma_lines_len(before);
        lemma_count_in_subrange(text, 0, start - 1, 0, start - 1);
        lemma_count_split(text, 0, start - 1, start);
        assert(count_delimiters(text, start - 1, start) == count_delimiters(
            text,
            start - 1,
            start - 1,
        ) + 1);
        assert(before + seq![SPLIT_MARKER] + block =~= upto);
        assert(lines(block) =~= lines(upto).subrange(
            count_delimiters(text, 0, start) as int,
            count_delimiters(text, 0, end) as int + 1,
        ));
    } else {
        assert(block =~= upto);
    }
}

} // verus!
