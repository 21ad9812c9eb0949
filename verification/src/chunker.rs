//! Splitting a corpus into pieces that end on document boundaries.
use vstd::prelude::*;
use vstd::string::StringSliceAdditionalSpecFns;
use vstd::utf8::*;

verus! {

broadcast use vstd::utf8::group_utf8_lib;

/// The first offset at or after `from` that is past the end of `bytes`
/// or lies on a character boundary of it.
pub open spec fn next_boundary(bytes: Seq<u8>, from: int) -> int
    decreases bytes.len() - from,
{
    if from >= bytes.len() || is_char_boundary(bytes, from) {
        from
    } else {
        next_boundary(bytes, from + 1)
    }
}

/// `next_boundary` never moves backwards, stops at the end of the text at
/// the latest, and skips nothing but offsets inside a character.
pub proof fn lemma_next_boundary(bytes: Seq<u8>, from: int)
    requires
        valid_utf8(bytes),
        0 <= from,
    ensures
        from <= next_boundary(bytes, from),
        from <= bytes.len() ==> next_boundary(bytes, from) <= bytes.len(),
        from <= bytes.len() ==> is_char_boundary(bytes, next_boundary(bytes, from)),
        forall|j: int| from <= j < next_boundary(bytes, from) ==> !is_char_boundary(bytes, j),
    decreases bytes.len() - from,
{
    if from >= bytes.len() || is_char_boundary(bytes, from) {
        if from == bytes.len() {
            is_char_boundary_start_end_of_seq(bytes);
        }
    } else {
        lemma_next_boundary(bytes, from + 1);
    }
}

/// Moves `try_index` forward to the nearest character boundary of `string`.
/// An index at or past the end comes back unchanged.
pub fn get_next_codepoint_idx(string: &str, try_index: usize) -> (idx: usize)
    ensures
        idx == next_boundary(string.spec_bytes(), try_index as int),
        try_index <= idx,
        try_index <= string.spec_bytes().len() ==> idx <= string.spec_bytes().len(),
        idx < string.spec_bytes().len() ==> is_char_boundary(string.spec_bytes(), idx as int),
        forall|j: int| try_index <= j < idx ==> !is_char_boundary(string.spec_bytes(), j),
{
    let len = string.as_bytes().len();
    let mut idx = try_index;
    proof {
        lemma_next_boundary(string.spec_bytes(), try_index as int);
    }
    while idx < len && !string.is_char_boundary(idx)
        invariant
            len == string.spec_bytes().len(),
            try_index <= idx,
            next_boundary(string.spec_bytes(), idx as int) == next_boundary(
                string.spec_bytes(),
                try_index as int,
            ),
        decreases len - idx,
    {
        idx = idx + 1;
    }
    idx
}

/// Whether `needle` stands in `hay` at offset `at`.
pub open spec fn occurs_at(hay: Seq<u8>, needle: Seq<u8>, at: int) -> bool {
    &&& 0 <= at
    &&& at + needle.len() <= hay.len()
    &&& hay.subrange(at, at + needle.len()) == needle
}

/// The offset of the first occurrence of `needle` in `hay` that starts at
/// or after `from`.
pub open spec fn first_occurrence(hay: Seq<u8>, needle: Seq<u8>, from: int) -> Option<int>
    decreases hay.len() - from + 1,
{
    if from < 0 || from + needle.len() > hay.len() {
        None
    } else if occurs_at(hay, needle, from) {
        Some(from)
    } else {
        first_occurrence(hay, needle, from + 1)
    }
}

/// What `first_occurrence` finds is an occurrence, nothing occurs between
/// `from` and it, and where it finds nothing there is no occurrence.
pub proof fn lemma_first_occurrence(hay: Seq<u8>, needle: Seq<u8>, from: int)
    requires
        0 <= from,
    ensures
        match first_occurrence(hay, needle, from) {
            Some(at) => {
                &&& from <= at
                &&& occurs_at(hay, needle, at)
                &&& forall|j: int| from <= j < at ==> !occurs_at(hay, needle, j)
            },
            None => forall|j: int| from <= j ==> !occurs_at(hay, needle, j),
        },
    decreases hay.len() - from + 1,
{
    if from + needle.len() > hay.len() {
    } else if occurs_at(hay, needle, from) {
    } else {
        lemma_first_occurrence(hay, needle, from + 1);
    }
}

/// Whether `hay` holds `needle` at `at`, byte for byte.
fn holds_at(hay: &[u8], needle: &[u8], at: usize) -> (found: bool)
    requires
        at + needle@.len() <= hay@.len(),
    ensures
        found == occurs_at(hay@, needle@, at as int),
{
    let mut k: usize = 0;
    while k < needle.len()
        invariant
            k <= needle@.len(),
            hay@.len() == hay.len(),
            at + needle@.len() <= hay@.len(),
            forall|j: int| 0 <= j < k ==> hay@[at + j] == needle@[j],
        decreases needle@.len() - k,
    {
        if hay[at + k] != needle[k] {
            assert(hay@.subrange(at as int, at + needle@.len())[k as int] != needle@[k as int]);
            return false;
        }
        k = k + 1;
    }
    assert(hay@.subrange(at as int, at + needle@.len()) =~= needle@);
    true
}

/// Searches `hay` from offset `from` on for the first occurrence of `needle`.
pub fn find_from(hay: &[u8], needle: &[u8], from: usize) -> (found: Option<usize>)
    ensures
        match found {
            Some(at) => first_occurrence(hay@, needle@, from as int) == Some(at as int),
            None => first_occurrence(hay@, needle@, from as int).is_none(),
        },
{
    if needle.len() > hay.len() || from > hay.len() - needle.len() {
        return None;
    }
    let last: usize = hay.len() - needle.len();
    let mut at: usize = from;
    while at <= last
        invariant
            last == hay@.len() - needle@.len(),
            hay@.len() == hay.len(),
            from <= at,
            first_occurrence(hay@, needle@, at as int) == first_occurrence(
                hay@,
                needle@,
                from as int,
            ),
        decreases last + 1 - at,
    {
        if holds_at(hay, needle, at) {
            return Some(at);
        }
        if at == last {
            return None;
        }
        at = at + 1;
    }
    None
}

/// A character boundary of a text is one of any of its suffixes that
/// starts on a boundary, and the other way round.
pub proof fn lemma_boundary_in_suffix(bytes: Seq<u8>, start: int, offset: int)
    requires
        valid_utf8(bytes),
        is_char_boundary(bytes, start),
        0 <= start,
        0 <= offset,
        start + offset <= bytes.len(),
    ensures
        valid_utf8(bytes.subrange(start, bytes.len() as int)),
        is_char_boundary(bytes, start + offset) <==> is_char_boundary(
            bytes.subrange(start, bytes.len() as int),
            offset,
        ),
{
    let suffix = bytes.subrange(start, bytes.len() as int);
    valid_utf8_split(bytes, start);
    if start + offset == bytes.len() {
        is_char_boundary_start_end_of_seq(bytes);
        is_char_boundary_start_end_of_seq(suffix);
    } else {
        is_char_boundary_iff_not_is_continuation_byte(bytes, start + offset);
        is_char_boundary_iff_not_is_continuation_byte(suffix, offset);
    }
}

/// The same for a prefix that ends on a boundary.
pub proof fn lemma_boundary_in_prefix(bytes: Seq<u8>, end: int, at: int)
    requires
        valid_utf8(bytes),
        is_char_boundary(bytes, end),
        0 <= at <= end <= bytes.len(),
    ensures
        valid_utf8(bytes.subrange(0, end)),
        is_char_boundary(bytes, at) <==> is_char_boundary(bytes.subrange(0, end), at),
{
    let prefix = bytes.subrange(0, end);
    valid_utf8_split(bytes, end);
    if at == end {
        is_char_boundary_start_end_of_seq(prefix);
    } else {
        is_char_boundary_iff_not_is_continuation_byte(bytes, at);
        is_char_boundary_iff_not_is_continuation_byte(prefix, at);
    }
}

/// Where a well-formed `needle` occurs in a well-formed `hay`, starting on
/// a character boundary, it also ends on one.
pub proof fn lemma_occurrence_ends_on_boundary(hay: Seq<u8>, needle: Seq<u8>, at: int)
    requires
        valid_utf8(hay),
        valid_utf8(needle),
        is_char_boundary(hay, at),
        occurs_at(hay, needle, at),
    ensures
        is_char_boundary(hay, at + needle.len()),
    decreases needle.len(),
{
    if needle.len() > 0 {
        let suffix = hay.subrange(at, hay.len() as int);
        let width = length_of_first_scalar(needle);
        lemma_boundary_in_suffix(hay, at, 0);
        assert(suffix[0] == hay.subrange(at, at + needle.len())[0]);
        assert(width == length_of_first_scalar(suffix));
        assert(0 < width <= needle.len());
        assert(is_char_boundary(suffix, width)) by {
            reveal_with_fuel(is_char_boundary, 2);
        }
        lemma_boundary_in_suffix(hay, at, width);
        let rest = pop_first_scalar(needle);
        assert(hay.subrange(at + width, at + width + rest.len()) =~= rest) by {
            assert forall|j: int| 0 <= j < rest.len() implies hay[at + width + j] == rest[j] by {
                assert(hay.subrange(at, at + needle.len())[width + j] == needle[width + j]);
            }
        }
        lemma_occurrence_ends_on_boundary(hay, rest, at + width);
    }
}

/// Where a well-formed, non-empty `needle` occurs in a well-formed `hay`,
/// it starts on a character boundary.
pub proof fn lemma_occurrence_starts_on_boundary(hay: Seq<u8>, needle: Seq<u8>, at: int)
    requires
        valid_utf8(hay),
        valid_utf8(needle),
        needle.len() > 0,
        occurs_at(hay, needle, at),
    ensures
        is_char_boundary(hay, at),
{
    is_char_boundary_iff_not_is_continuation_byte(needle, 0);
    is_char_boundary_iff_not_is_continuation_byte(hay, at);
    assert(hay.subrange(at, at + needle.len())[0] == needle[0]);
}

/// One piece of a corpus: its text and where that text starts in the corpus.
pub struct ContentsSplit<'a> {
    pub base_offset: usize,
    pub data: &'a str,
}

/// Where the piece that is probed at `probe` ends: right behind the first
/// occurrence of `tag` from there on, or at the end of the text where the
/// tag does not come again.
pub open spec fn chunk_end(bytes: Seq<u8>, tag: Seq<u8>, probe: int) -> int {
    match first_occurrence(bytes, tag, probe) {
        Some(at) => at + tag.len(),
        None => bytes.len() as int,
    }
}

/// The pieces, as pairs of start and end, that are cut from `prev` on when
/// `remaining` pieces may still be cut and each is probed `target` bytes
/// behind its start.
pub open spec fn chunk_bounds(
    bytes: Seq<u8>,
    tag: Seq<u8>,
    target: int,
    prev: int,
    remaining: nat,
) -> Seq<(int, int)>
    decreases remaining,
{
    if remaining == 0 {
        Seq::empty()
    } else {
        let probe = next_boundary(bytes, prev + target);
        if probe >= bytes.len() {
            seq![(prev, bytes.len() as int)]
        } else {
            let end = chunk_end(bytes, tag, probe);
            seq![(prev, end)] + chunk_bounds(bytes, tag, target, end, (remaining - 1) as nat)
        }
    }
}

/// The pieces into which a text is split for `num_chunks` workers.
pub open spec fn split_bounds(bytes: Seq<u8>, tag: Seq<u8>, num_chunks: int) -> Seq<(int, int)> {
    if num_chunks <= 1 {
        seq![(0int, bytes.len() as int)]
    } else {
        chunk_bounds(bytes, tag, bytes.len() as int / num_chunks, 0, num_chunks as nat)
    }
}

/// The part of `text` between two of its character boundaries.
pub(crate) fn slice_between<'a>(text: &'a str, from: usize, to: usize) -> (part: &'a str)
    requires
        from <= to <= text.spec_bytes().len(),
        is_char_boundary(text.spec_bytes(), from as int),
        is_char_boundary(text.spec_bytes(), to as int),
    ensures
        part.spec_bytes() == text.spec_bytes().subrange(from as int, to as int),
{
    proof {
        lemma_boundary_in_prefix(text.spec_bytes(), to as int, from as int);
    }
    let (head, _) = text.split_at(to);
    let (_, part) = head.split_at(from);
    assert(part.spec_bytes() =~= text.spec_bytes().subrange(from as int, to as int));
    part
}

/// Splits `contents` into at most `num_chunks` consecutive pieces. Each piece
/// but the last ends right behind an occurrence of `split_on_tag`, so that
/// no document is cut in two, and starts on a character boundary.
///
/// A piece is probed `len / num_chunks` bytes behind its start, moved
/// forward to a character boundary; from there the next tag is looked for.
pub fn split_contents<'a>(contents: &'a str, split_on_tag: &str, num_chunks: usize) -> (splits:
    Vec<ContentsSplit<'a>>)
    requires
        num_chunks > 0,
    ensures
        splits@.len() == split_bounds(
            contents.spec_bytes(),
            split_on_tag.spec_bytes(),
            num_chunks as int,
        ).len(),
        forall|k: int|
            0 <= k < splits@.len() ==> {
                let bound = #[trigger] split_bounds(
                    contents.spec_bytes(),
                    split_on_tag.spec_bytes(),
                    num_chunks as int,
                )[k];
                &&& splits@[k].base_offset == bound.0
                &&& 0 <= bound.0 <= bound.1 <= contents.spec_bytes().len()
                &&& splits@[k].data.spec_bytes() == contents.spec_bytes().subrange(bound.0, bound.1)
            },
        1 <= splits@.len() <= num_chunks,
        pieces_in_order(
            contents.spec_bytes(),
            split_on_tag.spec_bytes(),
            split_bounds(contents.spec_bytes(), split_on_tag.spec_bytes(), num_chunks as int),
            0,
        ),
        split_on_tag.spec_bytes().len() > 0 ==> pieces_joined(
            contents.spec_bytes(),
            split_bounds(contents.spec_bytes(), split_on_tag.spec_bytes(), num_chunks as int),
        ) == contents.spec_bytes(),
{
    proof {
        lemma_split_partitions_input(
            contents.spec_bytes(),
            split_on_tag.spec_bytes(),
            num_chunks as int,
        );
    }
    let bytes = contents.as_bytes();
    let tag = split_on_tag.as_bytes();
    let len = bytes.len();
    let mut splits: Vec<ContentsSplit<'a>> = Vec::new();
    proof {
        is_char_boundary_start_end_of_seq(contents.spec_bytes());
    }
    if num_chunks <= 1 {
        splits.push(ContentsSplit { base_offset: 0, data: slice_between(contents, 0, len) });
        return splits;
    }
    let chars_per_split = len / num_chunks;
    let ghost all = split_bounds(bytes@, tag@, num_chunks as int);
    let mut prev_index: usize = 0;
    let mut round: usize = 0;
    while round < num_chunks
        invariant_except_break
            all == all.subrange(0, splits@.len() as int) + chunk_bounds(
                bytes@,
                tag@,
                chars_per_split as int,
                prev_index as int,
                (num_chunks - round) as nat,
            ),
        invariant
            bytes@ == contents.spec_bytes(),
            tag@ == split_on_tag.spec_bytes(),
            len == bytes@.len(),
            chars_per_split <= len,
            round <= num_chunks,
            prev_index <= len,
            is_char_boundary(bytes@, prev_index as int),
            splits@.len() <= all.len(),
            forall|k: int|
                0 <= k < splits@.len() ==> {
                    let bound = #[trigger] all[k];
                    &&& splits@[k].base_offset == bound.0
                    &&& 0 <= bound.0 <= bound.1 <= len
                    &&& splits@[k].data.spec_bytes() == bytes@.subrange(bound.0, bound.1)
                },
        ensures
            splits@.len() == all.len(),
        decreases num_chunks - round,
    {
        let ghost rest = chunk_bounds(
            bytes@,
            tag@,
            chars_per_split as int,
            prev_index as int,
            (num_chunks - round) as nat,
        );
        let ghost done = splits@.len() as int;
        proof {
            lemma_next_boundary(bytes@, prev_index + chars_per_split);
        }
        let past_end = chars_per_split >= len - prev_index;
        let try_index = if past_end {
            len
        } else {
            get_next_codepoint_idx(contents, prev_index + chars_per_split)
        };
        if try_index >= len {
            splits.push(
                ContentsSplit { base_offset: prev_index, data: slice_between(contents, prev_index, len) },
            );
            proof {
                assert(rest =~= seq![(prev_index as int, len as int)]);
                assert(all.len() == done + 1);
                assert(all[done] == rest[0]);
            }
            break ;
        }
        proof {
            lemma_first_occurrence(bytes@, tag@, try_index as int);
        }
        let ending_index = match find_from(bytes, tag, try_index) {
            Some(at) => at + tag.len(),
            None => len,
        };
        proof {
            if first_occurrence(bytes@, tag@, try_index as int).is_some() {
                let at = first_occurrence(bytes@, tag@, try_index as int).unwrap();
                if tag@.len() > 0 {
                    lemma_occurrence_starts_on_boundary(bytes@, tag@, at);
                } else {
                    assert(bytes@.subrange(try_index as int, try_index as int) =~= tag@);
                }
                lemma_occurrence_ends_on_boundary(bytes@, tag@, at);
            }
            let tail = chunk_bounds(
                bytes@,
                tag@,
                chars_per_split as int,
                ending_index as int,
                (num_chunks - round - 1) as nat,
            );
            assert(rest == seq![(prev_index as int, ending_index as int)] + tail);
            assert(all[done] == rest[0]);
            assert(all.subrange(0, done + 1) =~= all.subrange(0, done) + seq![rest[0]]);
            assert(all =~= all.subrange(0, done + 1) + tail);
        }
        splits.push(
            ContentsSplit {
                base_offset: prev_index,
                data: slice_between(contents, prev_index, ending_index),
            },
        );
        prev_index = ending_index;
        round = round + 1;
    }
    splits
}

/// The bytes of the pieces, one behind the other.
pub open spec fn pieces_joined(bytes: Seq<u8>, bounds: Seq<(int, int)>) -> Seq<u8>
    decreases bounds.len(),
{
    if bounds.len() == 0 {
        Seq::empty()
    } else {
        bytes.subrange(bounds[0].0, bounds[0].1) + pieces_joined(bytes, bounds.drop_first())
    }
}

/// Whether `bounds` are consecutive pieces of `bytes` that begin at `start`,
/// each beginning on a character boundary and ending right behind an
/// occurrence of `tag` or at the end of the text.
pub open spec fn pieces_in_order(
    bytes: Seq<u8>,
    tag: Seq<u8>,
    bounds: Seq<(int, int)>,
    start: int,
) -> bool {
    &&& bounds.len() > 0 ==> bounds[0].0 == start
    &&& forall|k: int|
        0 <= k < bounds.len() ==> {
            let bound = #[trigger] bounds[k];
            &&& 0 <= bound.0 <= bound.1 <= bytes.len()
            &&& is_char_boundary(bytes, bound.0)
            &&& is_char_boundary(bytes, bound.1)
            &&& (bound.1 == bytes.len() || occurs_at(bytes, tag, bound.1 - tag.len()))
        }
    &&& forall|k: int| 0 <= k < bounds.len() - 1 ==> (#[trigger] bounds[k]).1 == bounds[k + 1].0
}

proof fn lemma_chunk_bounds_in_order(
    bytes: Seq<u8>,
    tag: Seq<u8>,
    target: int,
    prev: int,
    remaining: nat,
)
    requires
        valid_utf8(bytes),
        valid_utf8(tag),
        0 <= target,
        0 <= prev <= bytes.len(),
        is_char_boundary(bytes, prev),
    ensures
        pieces_in_order(bytes, tag, chunk_bounds(bytes, tag, target, prev, remaining), prev),
        chunk_bounds(bytes, tag, target, prev, remaining).len() <= remaining,
    decreases remaining,
{
    let bounds = chunk_bounds(bytes, tag, target, prev, remaining);
    if remaining > 0 {
        let probe = next_boundary(bytes, prev + target);
        lemma_next_boundary(bytes, prev + target);
        if probe >= bytes.len() {
        } else {
            let end = chunk_end(bytes, tag, probe);
            lemma_first_occurrence(bytes, tag, probe);
            if first_occurrence(bytes, tag, probe).is_some() {
                let at = first_occurrence(bytes, tag, probe).unwrap();
                if tag.len() > 0 {
                    lemma_occurrence_starts_on_boundary(bytes, tag, at);
                } else {
                    assert(bytes.subrange(probe, probe) =~= tag);
                }
                lemma_occurrence_ends_on_boundary(bytes, tag, at);
            } else {
                is_char_boundary_start_end_of_seq(bytes);
            }
            let tail = chunk_bounds(bytes, tag, target, end, (remaining - 1) as nat);
            lemma_chunk_bounds_in_order(bytes, tag, target, end, (remaining - 1) as nat);
            assert(bounds.drop_first() =~= tail);
            assert forall|k: int| 0 <= k < bounds.len() implies {
                let bound = #[trigger] bounds[k];
                &&& 0 <= bound.0 <= bound.1 <= bytes.len()
                &&& is_char_boundary(bytes, bound.0)
                &&& is_char_boundary(bytes, bound.1)
                &&& (bound.1 == bytes.len() || occurs_at(bytes, tag, bound.1 - tag.len()))
            } by {
                if k > 0 {
                    assert(bounds[k] == tail[k - 1]);
                }
            }
            assert forall|k: int| 0 <= k < bounds.len() - 1 implies (#[trigger] bounds[k]).1
                == bounds[k + 1].0 by {
                if k > 0 {
                    assert(bounds[k] == tail[k - 1]);
                    assert(bounds[k + 1] == tail[k]);
                } else {
                    assert(bounds[1] == tail[0]);
                }
            }
        }
    }
}

/// Consecutive pieces, joined, are the text from where the first begins to
/// where the last ends.
pub proof fn lemma_joined_pieces(bytes: Seq<u8>, bounds: Seq<(int, int)>)
    requires
        bounds.len() > 0,
        forall|k: int|
            0 <= k < bounds.len() ==> 0 <= (#[trigger] bounds[k]).0 <= bounds[k].1 <= bytes.len(),
        forall|k: int| 0 <= k < bounds.len() - 1 ==> (#[trigger] bounds[k]).1 == bounds[k + 1].0,
    ensures
        pieces_joined(bytes, bounds) == bytes.subrange(bounds[0].0, bounds.last().1),
    decreases bounds.len(),
{
    let rest = bounds.drop_first();
    if rest.len() == 0 {
        assert(pieces_joined(bytes, rest) =~= Seq::<u8>::empty());
        assert(pieces_joined(bytes, bounds) =~= bytes.subrange(bounds[0].0, bounds.last().1));
    } else {
        assert forall|k: int| 0 <= k < rest.len() implies 0 <= (#[trigger] rest[k]).0 <= rest[k].1
            <= bytes.len() by {
            assert(rest[k] == bounds[k + 1]);
        }
        assert forall|k: int| 0 <= k < rest.len() - 1 implies (#[trigger] rest[k]).1 == rest[k
            + 1].0 by {
            assert(rest[k] == bounds[k + 1]);
            assert(rest[k + 1] == bounds[k + 2]);
        }
        lemma_joined_pieces(bytes, rest);
        assert(rest[0] == bounds[1]);
        assert(rest.last() == bounds.last());
        assert(bounds[0].1 == bounds[1].0);
        lemma_pieces_ascend(bounds, 1, bounds.len() - 1);
        assert(pieces_joined(bytes, bounds) =~= bytes.subrange(bounds[0].0, bounds.last().1));
    }
}

/// In consecutive pieces a later one does not begin before an earlier one.
proof fn lemma_pieces_ascend(bounds: Seq<(int, int)>, i: int, j: int)
    requires
        0 <= i <= j < bounds.len(),
        forall|k: int| 0 <= k < bounds.len() ==> (#[trigger] bounds[k]).0 <= bounds[k].1,
        forall|k: int| 0 <= k < bounds.len() - 1 ==> (#[trigger] bounds[k]).1 == bounds[k + 1].0,
    ensures
        bounds[i].0 <= bounds[j].0,
        bounds[i].1 <= bounds[j].1,
    decreases j - i,
{
    if i < j {
        lemma_pieces_ascend(bounds, i, j - 1);
        assert(bounds[j - 1].1 == bounds[j].0);
    }
}

proof fn lemma_chunk_bounds_reach_end(
    bytes: Seq<u8>,
    tag: Seq<u8>,
    target: int,
    prev: int,
    remaining: nat,
)
    requires
        valid_utf8(bytes),
        0 <= target,
        0 <= prev <= bytes.len(),
        remaining > 0,
        prev + remaining * (target + tag.len()) > bytes.len(),
    ensures
        chunk_bounds(bytes, tag, target, prev, remaining).len() > 0,
        chunk_bounds(bytes, tag, target, prev, remaining).last().1 == bytes.len(),
    decreases remaining,
{
    let bounds = chunk_bounds(bytes, tag, target, prev, remaining);
    let probe = next_boundary(bytes, prev + target);
    lemma_next_boundary(bytes, prev + target);
    if probe < bytes.len() {
        let end = chunk_end(bytes, tag, probe);
        lemma_first_occurrence(bytes, tag, probe);
        let tail = chunk_bounds(bytes, tag, target, end, (remaining - 1) as nat);
        let step = target + tag.len();
        assert(remaining * step == (remaining - 1) * step + step) by (nonlinear_arith);
        if remaining == 1 {
            assert((remaining - 1) * step == 0) by (nonlinear_arith)
                requires
                    remaining == 1,
            ;
            assert(end == bytes.len());
            assert(tail =~= Seq::<(int, int)>::empty());
        } else if end == bytes.len() {
            lemma_next_boundary(bytes, end + target);
            assert(tail =~= seq![(end, bytes.len() as int)]);
            assert(bounds.last() == tail.last());
        } else {
            lemma_chunk_bounds_reach_end(bytes, tag, target, end, (remaining - 1) as nat);
            assert(bounds.last() == tail.last());
        }
    }
}

/// The pieces of a split lie one behind the other from the start of the
/// text, each begins on a character boundary, and each ends right behind an
/// occurrence of the tag or at the end of the text. With a tag that is not
/// empty they reach the end of the text, so that joined they give the text
/// back.
pub proof fn lemma_split_partitions_input(bytes: Seq<u8>, tag: Seq<u8>, num_chunks: int)
    requires
        valid_utf8(bytes),
        valid_utf8(tag),
        num_chunks >= 1,
    ensures
        1 <= split_bounds(bytes, tag, num_chunks).len() <= num_chunks,
        pieces_in_order(bytes, tag, split_bounds(bytes, tag, num_chunks), 0),
        tag.len() > 0 ==> pieces_joined(bytes, split_bounds(bytes, tag, num_chunks)) == bytes,
{
    let bounds = split_bounds(bytes, tag, num_chunks);
    is_char_boundary_start_end_of_seq(bytes);
    if num_chunks <= 1 {
        lemma_joined_pieces(bytes, bounds);
        assert(bytes.subrange(0, bytes.len() as int) =~= bytes);
    } else {
        let target = bytes.len() as int / num_chunks;
        let len = bytes.len() as int;
        assert(0 <= target && num_chunks * target > len - num_chunks) by (nonlinear_arith)
            requires
                target == len / num_chunks,
                num_chunks > 1,
                len >= 0,
        ;
        lemma_chunk_bounds_in_order(bytes, tag, target, 0, num_chunks as nat);
        if tag.len() > 0 {
            assert(num_chunks * (target + tag.len()) > len) by (nonlinear_arith)
                requires
                    num_chunks * target > len - num_chunks,
                    tag.len() >= 1,
                    num_chunks > 1,
            ;
            lemma_chunk_bounds_reach_end(bytes, tag, target, 0, num_chunks as nat);
            lemma_joined_pieces(bytes, bounds);
            assert(bytes.subrange(0, len) =~= bytes);
        }
    }
}

} // verus!
