use vstd::prelude::*;
use crate::error::{Failure, RunError};
use crate::reader::LINE_END;

verus! {

/// Position of the last line end in `w`, or -1 when there is none.
pub open spec fn last_line_end(w: Seq<u8>) -> int
    decreases w.len(),
{
    if w.len() == 0 {
        -1
    } else if w.last() == LINE_END {
        w.len() - 1
    } else {
        last_line_end(w.drop_last())
    }
}

/// The end of the lookback window read at `offset`.
pub open spec fn window_end(len: int, offset: int, peek: int) -> int {
    if offset + peek <= len { offset + peek } else { len }
}

/// The boundaries chosen from the scan position `offset` on: in the window at
/// `offset` the boundary falls just after the last line end, and the scan
/// goes on `c` bytes after it. A window that reaches the end of the data
/// without a line end ends the scan: the end of the data is the boundary.
/// `None` when some other window has no line end.
pub open spec fn boundaries_from(data: Seq<u8>, c: int, p: int, offset: int) -> Option<Seq<int>>
    decreases data.len() - offset,
{
    if offset >= data.len() || c <= 0 || p <= 0 || offset < 0 {
        Some(Seq::empty())
    } else {
        let i = last_line_end(data.subrange(offset, window_end(data.len() as int, offset, p)));
        if i < 0 {
            if window_end(data.len() as int, offset, p) == data.len() {
                Some(Seq::empty())
            } else {
                None
            }
        } else {
            let b = offset + i + 1;
            if b + c >= data.len() {
                Some(seq![b])
            } else {
                match boundaries_from(data, c, p, b + c) {
                    Some(rest) => Some(seq![b] + rest),
                    None => None,
                }
            }
        }
    }
}

/// The boundaries of a whole file, whose first scan position is `c`.
pub open spec fn file_boundaries(data: Seq<u8>, c: int, p: int) -> Option<Seq<int>> {
    boundaries_from(data, c, p, c)
}

/// Zero, the boundaries, and the length when the last boundary falls short of it.
pub open spec fn cut_points(bounds: Seq<int>, len: int) -> Seq<int> {
    let cuts = seq![0int] + bounds;
    if cuts.last() < len { cuts.push(len) } else { cuts }
}

/// Consecutive cut points, as chunks.
pub open spec fn chunks_of(bounds: Seq<int>, len: int) -> Seq<(int, int)> {
    let cuts = cut_points(bounds, len);
    Seq::new((cuts.len() - 1) as nat, |i: int| (cuts[i], cuts[i + 1]))
}

/// The chunks cover `[0, len)` in order, each one non-empty, each starting
/// where the one before it ends.
pub open spec fn tiles(chunks: Seq<(int, int)>, len: int) -> bool {
    &&& (chunks.len() == 0) == (len == 0)
    &&& chunks.len() > 0 ==> chunks[0].0 == 0 && chunks.last().1 == len
    &&& forall|i: int| 0 <= i < chunks.len() ==> #[trigger] chunks[i].0 < chunks[i].1
    &&& forall|i: int| 0 <= i < chunks.len() - 1 ==> #[trigger] chunks[i].1 == chunks[i + 1].0
}

/// Every chunk but the last ends just after a line end.
pub open spec fn ends_on_lines(data: Seq<u8>, chunks: Seq<(int, int)>) -> bool {
    forall|i: int| 0 <= i < chunks.len() - 1 ==> data[#[trigger] chunks[i].1 - 1] == LINE_END
}

/// The bytes of the chunks, one after the other.
pub open spec fn concat_chunks(data: Seq<u8>, chunks: Seq<(int, int)>) -> Seq<u8>
    decreases chunks.len(),
{
    if chunks.len() == 0 {
        Seq::empty()
    } else {
        concat_chunks(data, chunks.drop_last()) + data.subrange(chunks.last().0, chunks.last().1)
    }
}

/// A chunk of the input: the bytes from `start` up to, not including, `end`.
#[derive(Clone, Copy, Debug, PartialEq, Eq, Structural)]
pub struct Alignment {
    pub start: u64,
    pub end: u64,
}

pub open spec fn chunk_view(a: Alignment) -> (int, int) {
    (a.start as int, a.end as int)
}

pub open spec fn chunks_view(v: Seq<Alignment>) -> Seq<(int, int)> {
    v.map_values(|a: Alignment| chunk_view(a))
}

proof fn lemma_last_line_end(w: Seq<u8>)
    ensures
        -1 <= last_line_end(w) < w.len(),
        last_line_end(w) >= 0 ==> w[last_line_end(w)] == LINE_END,
        last_line_end(w) < 0 ==> forall|k: int| 0 <= k < w.len() ==> w[k] != LINE_END,
    decreases w.len(),
{
    if w.len() > 0 {
        lemma_last_line_end(w.drop_last());
        if w.last() != LINE_END {
            assert forall|k: int| 0 <= k < w.len() - 1 implies w[k] == w.drop_last()[k] by {}
        }
    }
}

/// What the boundaries chosen from `offset` on satisfy.
proof fn lemma_boundaries_shape(data: Seq<u8>, c: int, p: int, offset: int)
    requires
        c > 0,
        p > 0,
        boundaries_from(data, c, p, offset) is Some,
    ensures
        ({
            let bs = boundaries_from(data, c, p, offset)->Some_0;
            &&& forall|k: int| 0 <= k < bs.len() ==> offset < #[trigger] bs[k] <= data.len()
            &&& forall|k: int| 0 <= k < bs.len() ==> data[#[trigger] bs[k] - 1] == LINE_END
            &&& forall|k: int, l: int| 0 <= k < l < bs.len() ==> #[trigger] bs[k] < #[trigger] bs[l]
        }),
    decreases data.len() - offset,
{
    if !(offset >= data.len() || offset < 0) {
        let w = data.subrange(offset, window_end(data.len() as int, offset, p));
        let i = last_line_end(w);
        lemma_last_line_end(w);
        let b = offset + i + 1;
        if i >= 0 {
            assert(data[b - 1] == w[i]);
        }
        if i >= 0 && b + c < data.len() {
            lemma_boundaries_shape(data, c, p, b + c);
            let rest = boundaries_from(data, c, p, b + c)->Some_0;
            let bs = seq![b] + rest;
            assert forall|k: int| 0 < k < bs.len() implies bs[k] == rest[k - 1] by {}
        }
    }
}

/// Cut points made of increasing boundaries within the data tile it.
proof fn lemma_cuts_tile(data: Seq<u8>, bs: Seq<int>)
    requires
        forall|k: int| 0 <= k < bs.len() ==> 0 < #[trigger] bs[k] <= data.len(),
        forall|k: int| 0 <= k < bs.len() ==> data[#[trigger] bs[k] - 1] == LINE_END,
        forall|k: int, l: int| 0 <= k < l < bs.len() ==> #[trigger] bs[k] < #[trigger] bs[l],
    ensures
        tiles(chunks_of(bs, data.len() as int), data.len() as int),
        ends_on_lines(data, chunks_of(bs, data.len() as int)),
{
    let len = data.len() as int;
    let base = seq![0int] + bs;
    let cuts = cut_points(bs, len);
    let chunks = chunks_of(bs, len);
    assert forall|k: int| 0 < k < base.len() implies base[k] == bs[k - 1] by {}
    assert forall|k: int| 0 <= k < cuts.len() - 1 implies #[trigger] cuts[k] < cuts[k + 1] by {
        if k + 1 < base.len() {
            if k > 0 {
                assert(bs[k - 1] < bs[k]);
            }
        }
    }
    assert forall|k: int| 0 <= k < chunks.len() - 1 implies data[#[trigger] chunks[k].1 - 1] == LINE_END by {
        assert(chunks[k].1 == cuts[k + 1]);
        assert(k + 1 < base.len());
        assert(cuts[k + 1] == bs[k]);
    }
    if bs.len() > 0 {
        assert(bs[bs.len() - 1] <= len);
        assert(base.last() == bs[bs.len() - 1]);
    }
    assert(cuts.last() == len);
}

/// The bytes of chunks that tile a prefix of the data are that prefix.
proof fn lemma_concat_prefix(data: Seq<u8>, chunks: Seq<(int, int)>)
    requires
        chunks.len() > 0,
        chunks[0].0 == 0,
        chunks.last().1 <= data.len(),
        forall|i: int| 0 <= i < chunks.len() ==> #[trigger] chunks[i].0 < chunks[i].1,
        forall|i: int| 0 <= i < chunks.len() - 1 ==> #[trigger] chunks[i].1 == chunks[i + 1].0,
    ensures
        concat_chunks(data, chunks) == data.subrange(0, chunks.last().1),
    decreases chunks.len(),
{
    let last = chunks.last();
    if chunks.len() == 1 {
        assert(concat_chunks(data, chunks.drop_last()) =~= Seq::<u8>::empty());
        assert(Seq::<u8>::empty() + data.subrange(0, last.1) =~= data.subrange(0, last.1));
    } else {
        let front = chunks.drop_last();
        assert(front[0] == chunks[0]);
        assert(chunks[chunks.len() - 2].1 == last.0);
        assert forall|i: int| 0 <= i < front.len() implies #[trigger] front[i].0 < front[i].1 by {
            assert(front[i] == chunks[i]);
        }
        assert forall|i: int| 0 <= i < front.len() - 1 implies #[trigger] front[i].1 == front[i + 1].0 by {
            assert(front[i] == chunks[i]);
            assert(front[i + 1] == chunks[i + 1]);
        }
        assert forall|i: int| 0 <= i < chunks.len() - 1 implies #[trigger] chunks[i].1 <= last.0 by {
            lemma_tile_monotone(chunks, i);
        }
        lemma_concat_prefix(data, front);
        assert(data.subrange(0, last.0) + data.subrange(last.0, last.1) =~= data.subrange(0, last.1));
    }
}

proof fn lemma_tile_monotone(chunks: Seq<(int, int)>, i: int)
    requires
        0 <= i < chunks.len() - 1,
        forall|j: int| 0 <= j < chunks.len() ==> #[trigger] chunks[j].0 < chunks[j].1,
        forall|j: int| 0 <= j < chunks.len() - 1 ==> #[trigger] chunks[j].1 == chunks[j + 1].0,
    ensures
        chunks[i].1 <= chunks.last().0,
    decreases chunks.len() - 1 - i,
{
    if i < chunks.len() - 2 {
        lemma_tile_monotone(chunks, i + 1);
        assert(chunks[i].1 == chunks[i + 1].0);
    }
}

/// Each chunk of a tiling lies within `[0, len)` and is not empty.
pub proof fn lemma_chunk_bounds(chunks: Seq<(int, int)>, len: int, j: int)
    requires
        tiles(chunks, len),
        0 <= j < chunks.len(),
    ensures
        0 <= chunks[j].0 < chunks[j].1 <= len,
{
    if j > 0 {
        lemma_tile_order(chunks, 0, j);
    }
    if j < chunks.len() - 1 {
        lemma_tile_order(chunks, j, chunks.len() - 1);
    }
}

/// Chunks that tile the data reconstruct it when put back together in order.
pub proof fn lemma_chunks_reconstruct(data: Seq<u8>, chunks: Seq<(int, int)>)
    requires
        tiles(chunks, data.len() as int),
    ensures
        concat_chunks(data, chunks) == data,
{
    if chunks.len() == 0 {
        assert(data =~= Seq::<u8>::empty());
    } else {
        lemma_concat_prefix(data, chunks);
        assert(data.subrange(0, data.len() as int) =~= data);
    }
}

/// Chunks that tile `[0, len)` hold every position in it exactly once.
pub proof fn lemma_chunks_cover_once(chunks: Seq<(int, int)>, len: int, q: int)
    requires
        tiles(chunks, len),
        0 <= q < len,
    ensures
        exists|i: int| 0 <= i < chunks.len() && #[trigger] chunks[i].0 <= q < chunks[i].1,
        forall|i: int, j: int|
            0 <= i < chunks.len() && 0 <= j < chunks.len() && #[trigger] chunks[i].0 <= q < chunks[i].1
                && #[trigger] chunks[j].0 <= q < chunks[j].1 ==> i == j,
    decreases chunks.len(),
{
    assert forall|i: int, j: int|
        0 <= i < j < chunks.len() implies #[trigger] chunks[i].1 <= #[trigger] chunks[j].0 by {
        lemma_tile_order(chunks, i, j);
    }
    let last = chunks.len() - 1;
    if q >= chunks[last].0 {
        assert(chunks[last].0 <= q < chunks[last].1);
    } else {
        let front = chunks.drop_last();
        assert(front.len() > 0);
        assert(chunks[last - 1].1 == chunks[last].0);
        assert forall|i: int| 0 <= i < front.len() implies #[trigger] front[i].0 < front[i].1 by {
            assert(front[i] == chunks[i]);
        }
        assert forall|i: int| 0 <= i < front.len() - 1 implies #[trigger] front[i].1 == front[i + 1].0 by {
            assert(front[i] == chunks[i]);
            assert(front[i + 1] == chunks[i + 1]);
        }
        lemma_chunks_cover_once(front, front.last().1, q);
        let i = choose|i: int| 0 <= i < front.len() && #[trigger] front[i].0 <= q < front[i].1;
        assert(chunks[i] == front[i]);
    }
}

proof fn lemma_tile_order(chunks: Seq<(int, int)>, i: int, j: int)
    requires
        0 <= i < j < chunks.len(),
        forall|k: int| 0 <= k < chunks.len() ==> #[trigger] chunks[k].0 < chunks[k].1,
        forall|k: int| 0 <= k < chunks.len() - 1 ==> #[trigger] chunks[k].1 == chunks[k + 1].0,
    ensures
        chunks[i].1 <= chunks[j].0,
    decreases j - i,
{
    if j > i + 1 {
        lemma_tile_order(chunks, i, j - 1);
        assert(chunks[j - 1].1 == chunks[j].0);
    }
}

/// The chunks chosen for any data that aligns cover it from start to end in
/// order, without gap or overlap; every chunk but the last ends just after a
/// line end; and the chunks put back together are the data.
pub proof fn lemma_alignment_sound(data: Seq<u8>, c: int, p: int)
    requires
        c > 0,
        p > 0,
        file_boundaries(data, c, p) is Some,
    ensures
        tiles(chunks_of(file_boundaries(data, c, p)->Some_0, data.len() as int), data.len() as int),
        ends_on_lines(data, chunks_of(file_boundaries(data, c, p)->Some_0, data.len() as int)),
        concat_chunks(data, chunks_of(file_boundaries(data, c, p)->Some_0, data.len() as int)) == data,
{
    let bs = file_boundaries(data, c, p)->Some_0;
    lemma_boundaries_shape(data, c, p, c);
    lemma_cuts_tile(data, bs);
    lemma_chunks_reconstruct(data, chunks_of(bs, data.len() as int));
}

/// Finds the last line end of a window.
pub fn find_last_line_end(w: &[u8]) -> (r: Option<usize>)
    ensures
        last_line_end(w@) < 0 ==> r is None,
        last_line_end(w@) >= 0 ==> r is Some && r->Some_0 as int == last_line_end(w@),
        last_line_end(w@) < w@.len(),
{
    proof {
        lemma_last_line_end(w@);
        assert(w@.subrange(0, w@.len() as int) =~= w@);
    }
    let mut j: usize = w.len();
    while j > 0 && w[j - 1] != LINE_END
        invariant
            j <= w@.len(),
            last_line_end(w@.subrange(0, j as int)) == last_line_end(w@),
        decreases j,
    {
        proof {
            assert(w@.subrange(0, j as int).drop_last() =~= w@.subrange(0, j - 1));
        }
        j = j - 1;
    }
    proof {
        if j > 0 {
            assert(w@.subrange(0, j as int).last() == w@[j - 1]);
        } else {
            assert(w@.subrange(0, 0) =~= Seq::<u8>::empty());
        }
    }
    if j == 0 {
        None
    } else {
        Some(j - 1)
    }
}

/// Chooses chunk boundaries one lookback window at a time. The caller reads
/// the window that `next_window` names and hands it to `advance`, until
/// `next_window` says that the scan is done; `finish` then gives the chunks.
pub struct Aligner {
    pub file_len: u64,
    pub chunk_size: u64,
    pub peek: u64,
    pub offset: u64,
    pub boundaries: Vec<u64>,
}

impl Aligner {
    pub open spec fn bounds(&self) -> Seq<int> {
        self.boundaries@.map_values(|b: u64| b as int)
    }

    pub open spec fn wf(&self) -> bool {
        &&& self.chunk_size >= 1
        &&& self.peek >= 1
        &&& self.file_len + self.chunk_size <= u64::MAX
        &&& self.file_len + self.peek <= u64::MAX
        &&& self.offset <= self.file_len + self.chunk_size
        &&& forall|k: int| 0 <= k < self.boundaries@.len() ==> #[trigger] self.boundaries@[k] <= self.file_len
    }

    /// An aligner for a file of `file_len` bytes, cut about every `chunk_size`
    /// bytes, looking for a line end within `peek` bytes of each cut.
    pub fn new(file_len: u64, chunk_size: u64, peek: u64) -> (r: Self)
        requires
            chunk_size >= 1,
            peek >= 1,
            file_len + chunk_size <= u64::MAX,
            file_len + peek <= u64::MAX,
        ensures
            r.wf(),
            r.file_len == file_len,
            r.chunk_size == chunk_size,
            r.peek == peek,
            r.offset == chunk_size,
            r.bounds() == Seq::<int>::empty(),
    {
        let r = Aligner { file_len, chunk_size, peek, offset: chunk_size, boundaries: Vec::new() };
        proof {
            assert(r.bounds() =~= Seq::<int>::empty());
        }
        r
    }

    /// The byte range of the next window to read, or `None` once the scan
    /// has passed the end of the file.
    pub fn next_window(&self) -> (r: Option<(u64, u64)>)
        requires
            self.wf(),
        ensures
            self.offset >= self.file_len ==> r is None,
            self.offset < self.file_len ==> r is Some && r->Some_0.0 == self.offset && r->Some_0.1 as int
                == window_end(self.file_len as int, self.offset as int, self.peek as int),
    {
        if self.offset < self.file_len {
            let end = if self.offset + self.peek <= self.file_len { self.offset + self.peek } else { self.file_len };
            Some((self.offset, end))
        } else {
            None
        }
    }

    /// Takes the bytes of the window that `next_window` named: the boundary
    /// falls just after its last line end, and the scan moves `chunk_size`
    /// bytes on. A window without a line end that reaches the end of the file
    /// ends the scan; any other window without one fails the alignment.
    pub fn advance(&mut self, window: &[u8]) -> (r: Result<(), RunError>)
        requires
            old(self).wf(),
            old(self).offset < old(self).file_len,
            window@.len() == window_end(old(self).file_len as int, old(self).offset as int, old(self).peek as int)
                - old(self).offset,
        ensures
            final(self).wf(),
            final(self).file_len == old(self).file_len,
            final(self).chunk_size == old(self).chunk_size,
            final(self).peek == old(self).peek,
            last_line_end(window@) < 0 && old(self).offset + window@.len() < old(self).file_len ==> r is Err
                && r->Err_0@ == (Failure::AlignmentFailure { offset: old(self).offset as int }) && *final(self)
                == *old(self),
            last_line_end(window@) < 0 && old(self).offset + window@.len() == old(self).file_len ==> r is Ok
                && final(self).bounds() == old(self).bounds() && final(self).offset == old(self).file_len,
            last_line_end(window@) >= 0 ==> r is Ok && final(self).bounds() == old(self).bounds().push(
                old(self).offset + last_line_end(window@) + 1,
            ) && final(self).offset == old(self).offset + last_line_end(window@) + 1 + old(self).chunk_size,
    {
        match find_last_line_end(window) {
            None => {
                if self.offset + (window.len() as u64) < self.file_len {
                    Err(RunError::AlignmentFailure { offset: self.offset })
                } else {
                    self.offset = self.file_len;
                    Ok(())
                }
            },
            Some(i) => {
                proof {
                    assert(self.offset + window@.len() <= self.file_len);
                }
                let b = self.offset + i as u64 + 1;
                self.boundaries.push(b);
                self.offset = b + self.chunk_size;
                proof {
                    assert(i as int == last_line_end(window@));
                    assert(b as int == old(self).offset + last_line_end(window@) + 1);
                    assert(self.bounds() =~= old(self).bounds().push(b as int));
                    assert forall|k: int| 0 <= k < self.boundaries@.len() implies #[trigger] self.boundaries@[k]
                        <= self.file_len by {
                        if k < old(self).boundaries@.len() {
                            assert(self.boundaries@[k] == old(self).boundaries@[k]);
                        }
                    }
                }
                Ok(())
            }
        }
    }

    /// The chunks between consecutive boundaries, the first starting at zero
    /// and the last ending at the file's length.
    pub fn finish(&self) -> (r: Vec<Alignment>)
        requires
            self.wf(),
        ensures
            chunks_view(r@) == chunks_of(self.bounds(), self.file_len as int),
    {
        let ghost bs = self.bounds();
        let ghost len = self.file_len as int;
        let ghost cuts = cut_points(bs, len);
        let ghost base = seq![0int] + bs;
        proof {
            assert forall|k: int| 0 < k < base.len() implies base[k] == bs[k - 1] by {}
        }
        let mut out: Vec<Alignment> = Vec::new();
        let mut prev: u64 = 0;
        let mut i: usize = 0;
        while i < self.boundaries.len()
            invariant
                i <= self.boundaries@.len(),
                self.wf(),
                bs == self.bounds(),
                cuts == cut_points(bs, len),
                base == seq![0int] + bs,
                forall|k: int| 0 < k < base.len() ==> base[k] == bs[k - 1],
                prev as int == base[i as int],
                chunks_view(out@) =~= Seq::new(i as nat, |k: int| (base[k], base[k + 1])),
            decreases self.boundaries@.len() - i,
        {
            let b = self.boundaries[i];
            let ghost before = out@;
            out.push(Alignment { start: prev, end: b });
            proof {
                assert(base[i + 1] == b as int);
                assert(chunks_view(out@) =~= chunks_view(before).push((prev as int, b as int)));
            }
            prev = b;
            i = i + 1;
        }
        let ghost before = out@;
        proof {
            assert(base.last() == prev as int);
        }
        if prev < self.file_len {
            out.push(Alignment { start: prev, end: self.file_len });
            proof {
                assert(chunks_view(out@) =~= chunks_view(before).push((prev as int, len)));
                assert(cuts == base.push(len));
                assert(chunks_view(out@) =~= chunks_of(bs, len));
            }
        } else {
            proof {
                assert(cuts == base);
                assert(chunks_view(out@) =~= chunks_of(bs, len));
            }
        }
        out
    }
}

/// Aligns the chunks of data held in memory, `chunk_size` bytes apart, each
/// boundary found within `peek` bytes of its cut.
pub fn align_chunks(data: &[u8], chunk_size: u64, peek: u64) -> (r: Result<Vec<Alignment>, RunError>)
    requires
        chunk_size >= 1,
        peek >= 1,
        data@.len() + chunk_size <= u64::MAX,
        data@.len() + peek <= u64::MAX,
    ensures
        file_boundaries(data@, chunk_size as int, peek as int) is None ==> r is Err && r->Err_0@
            is AlignmentFailure,
        file_boundaries(data@, chunk_size as int, peek as int) is Some ==> r is Ok && chunks_view(r->Ok_0@)
            == chunks_of(
            file_boundaries(data@, chunk_size as int, peek as int)->Some_0,
            data@.len() as int,
        ),
        r is Ok ==> tiles(chunks_view(r->Ok_0@), data@.len() as int),
        r is Ok ==> ends_on_lines(data@, chunks_view(r->Ok_0@)),
{
    let len = data.len() as u64;
    let mut aligner = Aligner::new(len, chunk_size, peek);
    let ghost c = chunk_size as int;
    let ghost p = peek as int;
    loop
        invariant
            aligner.wf(),
            aligner.file_len == len,
            aligner.chunk_size == chunk_size,
            aligner.peek == peek,
            len == data@.len(),
            data@.len() <= usize::MAX,
            c == chunk_size as int,
            p == peek as int,
            aligner.offset > 0,
            file_boundaries(data@, c, p) == match boundaries_from(data@, c, p, aligner.offset as int) {
                Some(rest) => Some(aligner.bounds() + rest),
                None => None::<Seq<int>>,
            },
        ensures
            file_boundaries(data@, c, p) == Some(aligner.bounds()),
            aligner.wf(),
            aligner.file_len == len,
        decreases len + chunk_size - aligner.offset,
    {
        match aligner.next_window() {
            None => {
                proof {
                    assert(boundaries_from(data@, c, p, aligner.offset as int) == Some(Seq::<int>::empty()));
                    assert(aligner.bounds() + Seq::<int>::empty() =~= aligner.bounds());
                }
                break;
            },
            Some((start, end)) => {
                proof {
                    assert(start < end <= len);
                    assert(end <= data@.len());
                }
                let s_idx: usize = start as usize;
                let e_idx: usize = end as usize;
                proof {
                    assert(s_idx as int == start as int);
                    assert(e_idx as int == end as int);
                }
                let window = vstd::slice::slice_subrange(data, s_idx, e_idx);
                proof {
                    assert(window@ == data@.subrange(start as int, end as int));
                    assert(end as int == window_end(len as int, aligner.offset as int, p));
                }
                let ghost old_bounds = aligner.bounds();
                let ghost off = aligner.offset as int;
                match aligner.advance(window) {
                    Err(e) => {
                        proof {
                            assert(boundaries_from(data@, c, p, off) is None);
                        }
                        return Err(e);
                    },
                    Ok(()) => {
                        proof {
                            if last_line_end(window@) < 0 {
                                assert(boundaries_from(data@, c, p, off) == Some(Seq::<int>::empty()));
                                assert(boundaries_from(data@, c, p, aligner.offset as int) == Some(Seq::<int>::empty()));
                                assert(aligner.bounds() + Seq::<int>::empty() =~= old_bounds);
                            } else {
                                let b = aligner.bounds().last();
                                assert(aligner.bounds() == old_bounds.push(b));
                                assert(b == off + last_line_end(window@) + 1);
                                assert(aligner.offset == b + c);
                                if b + c >= data@.len() {
                                    assert(boundaries_from(data@, c, p, off) == Some(seq![b]));
                                    assert(boundaries_from(data@, c, p, b + c) == Some(Seq::<int>::empty()));
                                    assert(old_bounds + seq![b] =~= aligner.bounds() + Seq::<int>::empty());
                                } else {
                                    match boundaries_from(data@, c, p, aligner.offset as int) {
                                        Some(rest) => {
                                            assert(old_bounds + (seq![b] + rest) =~= aligner.bounds() + rest);
                                        },
                                        None => {},
                                    }
                                }
                            }
                        }
                    },
                }
            },
        }
    }
    let chunks = aligner.finish();
    proof {
        lemma_alignment_sound(data@, c, p);
    }
    Ok(chunks)
}

} // verus!
