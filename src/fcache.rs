//! A byte source over a stream file, cut into segments at entry-point
//! boundaries; each segment is read from the file whole, once, on first use.
use vstd::prelude::*;
use crate::predict::PredictedKeyFrame;

verus! {

/// Bytes per transport packet; entry-point byte offsets count packets.
pub const PACKET_SIZE: u64 = 192;

/// The shared segment store of one stream file: one slot per entry point,
/// filled with the segment's bytes on first use and never emptied.
pub struct FileCacheBackend {
    pub inner: Vec<(Option<Vec<u8>>, PredictedKeyFrame)>,
    pub file_size: u64,
}

/// What a read at the cursor comes to: the bytes, or the segment that has to
/// be loaded from the file before the read can be served.
pub enum ReadOutcome {
    Data(Vec<u8>),
    Load(usize),
}

/// Segment boundaries for `pred` in a file of `file_size` bytes: the first
/// segment starts at 0, segment `i` at entry `i`'s packet offset, and the
/// boundary after the last segment is the end of the file.
pub open spec fn boundary_of(pred: Seq<PredictedKeyFrame>, file_size: u64, i: int) -> int {
    if i <= 0 {
        0
    } else if i < pred.len() {
        pred[i].spn as int * PACKET_SIZE as int
    } else {
        file_size as int
    }
}

pub open spec fn boundaries_ordered(pred: Seq<PredictedKeyFrame>, file_size: u64) -> bool {
    forall|a: int, c: int|
        0 <= a <= c <= pred.len() ==> boundary_of(pred, file_size, a) <= boundary_of(
            pred,
            file_size,
            c,
        )
}

impl FileCacheBackend {
    pub open spec fn segments(&self) -> int {
        self.inner@.len() as int
    }

    pub open spec fn keyframe(&self, i: int) -> PredictedKeyFrame {
        self.inner@[i].1
    }

    pub open spec fn boundary(&self, i: int) -> int {
        if i <= 0 {
            0
        } else if i < self.inner@.len() {
            self.inner@[i].1.spn as int * PACKET_SIZE as int
        } else {
            self.file_size as int
        }
    }

    pub open spec fn cached(&self, i: int) -> bool {
        self.inner@[i].0 is Some
    }

    pub open spec fn segment_bytes(&self, i: int) -> Seq<u8> {
        self.inner@[i].0->Some_0@
    }

    pub open spec fn wf(&self) -> bool {
        &&& self.inner@.len() > 0
        &&& forall|a: int, c: int|
            0 <= a <= c <= self.segments() ==> self.boundary(a) <= self.boundary(c)
        &&& forall|i: int|
            0 <= i < self.segments() && #[trigger] self.cached(i) ==> self.segment_bytes(i).len()
                == self.boundary(i + 1) - self.boundary(i)
    }

    /// Greatest segment below `m` that starts at or before `p` (0 if none).
    pub open spec fn segment_from(&self, p: int, m: int) -> int
        decreases m,
    {
        if m <= 1 {
            0
        } else if self.boundary(m - 1) <= p {
            m - 1
        } else {
            self.segment_from(p, m - 1)
        }
    }

    /// The segment that holds byte `p` of the file.
    pub open spec fn segment_of(&self, p: int) -> int {
        self.segment_from(p, self.segments())
    }

    /// Byte `p` of the file, as its cached segment holds it.
    pub open spec fn byte_at(&self, p: int) -> u8 {
        self.segment_bytes(self.segment_of(p))[p - self.boundary(self.segment_of(p))]
    }

    /// Every byte in `[pos, pos + n)` lies in a cached segment.
    pub open spec fn covers(&self, pos: int, n: int) -> bool {
        forall|p: int| pos <= p < pos + n ==> #[trigger] self.cached(self.segment_of(p))
    }

    /// `self` holds the same segments as `other`, with every segment that
    /// `other` has cached cached in `self` with the same bytes.
    pub open spec fn extends(&self, other: &FileCacheBackend) -> bool {
        &&& self.file_size == other.file_size
        &&& self.inner@.len() == other.inner@.len()
        &&& forall|i: int| 0 <= i < self.segments() ==> #[trigger] self.keyframe(i) == other.keyframe(i)
        &&& forall|i: int|
            0 <= i < self.segments() && #[trigger] other.cached(i) ==> self.cached(i)
                && self.segment_bytes(i) == other.segment_bytes(i)
    }

    proof fn lemma_segment_from(&self, p: int, m: int)
        requires
            1 <= m <= self.segments(),
        ensures
            0 <= self.segment_from(p, m) < m,
            self.segment_from(p, m) == 0 || self.boundary(self.segment_from(p, m)) <= p,
            forall|k: int| self.segment_from(p, m) < k < m ==> #[trigger] self.boundary(k) > p,
        decreases m,
    {
        if m > 1 {
            self.lemma_segment_from(p, m - 1);
        }
    }

    /// Byte `p` of the file lies in segment `segment_of(p)`.
    pub proof fn lemma_segment_of(&self, p: int)
        requires
            self.wf(),
            0 <= p < self.file_size,
        ensures
            0 <= self.segment_of(p) < self.segments(),
            self.boundary(self.segment_of(p)) <= p < self.boundary(self.segment_of(p) + 1),
    {
        let n = self.segments();
        self.lemma_segment_from(p, n);
        let r = self.segment_of(p);
        assert(self.boundary(0) == 0);
        if r + 1 < n {
            assert(self.boundary(r + 1) > p);
        }
    }

    /// A byte in the range of segment `i` has `i` as its segment.
    pub proof fn lemma_in_segment(&self, i: int, p: int)
        requires
            self.wf(),
            0 <= i < self.segments(),
            self.boundary(i) <= p < self.boundary(i + 1),
        ensures
            self.segment_of(p) == i,
    {
        let n = self.segments();
        self.lemma_segment_from(p, n);
        let r = self.segment_of(p);
        if r < i {
            assert(self.boundary(i) > p);
        }
        if r > i {
            assert(self.boundary(i + 1) <= self.boundary(r));
            assert(r == 0 || self.boundary(r) <= p);
        }
    }
}

impl FileCacheBackend {
    /// A store with one empty segment per entry point of `pred`, over a file
    /// of `file_size` bytes; `None` where `pred` is empty or its boundaries
    /// are out of order or past the end of the file.
    pub fn new(pred: &[PredictedKeyFrame], file_size: u64) -> (r: Option<FileCacheBackend>)
        ensures
            r is Some <==> pred@.len() > 0 && boundaries_ordered(pred@, file_size),
            r matches Some(c) ==> {
                &&& c.wf()
                &&& c.file_size == file_size
                &&& c.segments() == pred@.len()
                &&& forall|i: int| 0 <= i < c.segments() ==> !#[trigger] c.cached(i)
                &&& forall|i: int| 0 <= i < c.segments() ==> #[trigger] c.keyframe(i) == pred@[i]
            },
    {
        let n = pred.len();
        if n == 0 {
            return None;
        }
        let mut inner: Vec<(Option<Vec<u8>>, PredictedKeyFrame)> = Vec::with_capacity(n);
        let mut k: usize = 0;
        while k < n
            invariant
                n == pred@.len(),
                0 < n,
                k <= n,
                inner@.len() == k,
                forall|i: int| 0 <= i < k ==> (#[trigger] inner@[i]).0 is None,
                forall|i: int| 0 <= i < k ==> (#[trigger] inner@[i]).1 == pred@[i],
                forall|a: int, c: int|
                    0 <= a <= c <= k ==> boundary_of(pred@, file_size, a) <= boundary_of(
                        pred@,
                        file_size,
                        c,
                    ),
            decreases n - k,
        {
            let here: u64 = if k == 0 {
                0
            } else {
                pred[k].spn as u64 * PACKET_SIZE
            };
            let next: u64 = if k + 1 < n {
                pred[k + 1].spn as u64 * PACKET_SIZE
            } else {
                file_size
            };
            assert(here == boundary_of(pred@, file_size, k as int));
            assert(next == boundary_of(pred@, file_size, k + 1));
            if next < here {
                assert(!boundaries_ordered(pred@, file_size)) by {
                    assert(boundary_of(pred@, file_size, k + 1) < boundary_of(pred@, file_size, k as int));
                }
                return None;
            }
            inner.push((None, pred[k]));
            k = k + 1;
        }
        let c = FileCacheBackend { inner, file_size };
        assert forall|i: int| 0 <= i <= n implies c.boundary(i) == boundary_of(pred@, file_size, i) by {
            if 0 < i < n {
                assert(c.inner@[i].1 == pred@[i]);
            }
        }
        assert forall|i: int| 0 <= i < c.segments() implies #[trigger] c.keyframe(i) == pred@[i] && !c.cached(i) by {
            assert(c.inner@[i].1 == pred@[i]);
            assert(c.inner@[i].0 is None);
        }
        assert(boundaries_ordered(pred@, file_size));
        Some(c)
    }

    /// Number of segments.
    pub fn segment_count(&self) -> (r: usize)
        ensures
            r == self.segments(),
    {
        self.inner.len()
    }

    /// Byte range `[start, end)` of segment `i` in the file.
    pub fn segment_range(&self, i: usize) -> (r: (u64, u64))
        requires
            self.wf(),
            i < self.segments(),
        ensures
            r.0 == self.boundary(i as int),
            r.1 == self.boundary(i + 1),
    {
        let n = self.inner.len();
        let start: u64 = if i == 0 {
            0
        } else {
            self.inner[i].1.spn as u64 * PACKET_SIZE
        };
        let end: u64 = if i + 1 < n {
            self.inner[i + 1].1.spn as u64 * PACKET_SIZE
        } else {
            self.file_size
        };
        (start, end)
    }

    /// Whether segment `i` has been read from the file.
    pub fn is_cached(&self, i: usize) -> (r: bool)
        requires
            i < self.segments(),
        ensures
            r == self.cached(i as int),
    {
        self.inner[i].0.is_some()
    }

    /// The segment that holds byte `pos` of the file.
    pub fn segment_index(&self, pos: u64) -> (r: usize)
        requires
            self.wf(),
            pos < self.file_size,
        ensures
            r == self.segment_of(pos as int),
            r < self.segments(),
            self.boundary(r as int) <= pos < self.boundary(r + 1),
    {
        proof {
            self.lemma_segment_of(pos as int);
        }
        let mut m: usize = self.inner.len();
        while m > 1
            invariant
                1 <= m <= self.segments(),
                self.segment_of(pos as int) == self.segment_from(pos as int, m as int),
                0 <= self.segment_of(pos as int) < self.segments(),
                self.boundary(self.segment_of(pos as int)) <= pos < self.boundary(
                    self.segment_of(pos as int) + 1,
                ),
            decreases m,
        {
            let start: u64 = self.inner[m - 1].1.spn as u64 * PACKET_SIZE;
            assert(start == self.boundary(m - 1));
            if start <= pos {
                return m - 1;
            }
            m = m - 1;
        }
        0
    }

    /// Stores the bytes read from the file for segment `i`. A segment that
    /// is already cached keeps its bytes: each is filled once.
    pub fn store_segment(&mut self, i: usize, bytes: Vec<u8>)
        requires
            old(self).wf(),
            i < old(self).segments(),
            bytes@.len() == old(self).boundary(i + 1) - old(self).boundary(i as int),
        ensures
            final(self).wf(),
            final(self).extends(old(self)),
            final(self).cached(i as int),
            old(self).cached(i as int) ==> *final(self) == *old(self),
            !old(self).cached(i as int) ==> final(self).segment_bytes(i as int) == bytes@,
            forall|j: int| 0 <= j < final(self).segments() && j != i ==> #[trigger] final(self).inner@[j] == old(self).inner@[j],
    {
        if self.inner[i].0.is_none() {
            let key = self.inner[i].1;
            self.inner[i] = (Some(bytes), key);
            proof {
                assert forall|k: int| 0 <= k <= self.segments() implies self.boundary(k) == old(
                    self,
                ).boundary(k) by {
                    if 0 < k < self.segments() && k != i {
                        assert(self.inner@[k] == old(self).inner@[k]);
                    }
                }
                assert forall|j: int|
                    0 <= j < self.segments() && #[trigger] self.cached(j) implies self.segment_bytes(j).len()
                    == self.boundary(j + 1) - self.boundary(j) by {
                    if j != i {
                        assert(self.inner@[j] == old(self).inner@[j]);
                        assert(old(self).cached(j));
                    }
                }
                assert forall|j: int| 0 <= j < self.segments() implies #[trigger] self.keyframe(j)
                    == old(self).keyframe(j) by {
                    if j != i {
                        assert(self.inner@[j] == old(self).inner@[j]);
                    }
                }
                assert forall|j: int|
                    0 <= j < self.segments() && #[trigger] old(self).cached(j) implies self.cached(j)
                    && self.segment_bytes(j) == old(self).segment_bytes(j) by {
                    assert(self.inner@[j] == old(self).inner@[j]);
                }
            }
        }
    }
}

/// Of a backend's bytes, how many a read of `want` at `head` gets: up to the
/// end of the file.
pub open spec fn available(file_size: u64, head: u64, want: usize) -> int {
    if head >= file_size {
        0
    } else if want < file_size - head {
        want as int
    } else {
        file_size - head
    }
}

/// A reader of the shared store: a cursor into the file.
pub struct FCached {
    pub seek_head: u64,
}

impl FCached {
    /// A reader at the start of the file.
    pub fn new() -> (r: FCached)
        ensures
            r.seek_head == 0,
    {
        FCached { seek_head: 0 }
    }

    /// Moves the cursor to `a`; no I/O.
    pub fn seek(&mut self, a: u64)
        ensures
            final(self).seek_head == a,
    {
        self.seek_head = a;
    }

    /// Reads up to `want` bytes at the cursor, stopping at the end of the
    /// file. Where every segment the read touches is cached, the bytes come
    /// back and the cursor moves past them; else the first missing segment
    /// is named and the cursor stays.
    pub fn read(&mut self, backend: &FileCacheBackend, want: usize) -> (r: ReadOutcome)
        requires
            backend.wf(),
        ensures
            (r is Data) <==> backend.covers(
                old(self).seek_head as int,
                available(backend.file_size, old(self).seek_head, want),
            ),
            r matches ReadOutcome::Data(v) ==> {
                let head = old(self).seek_head;
                let n = available(backend.file_size, head, want);
                &&& v@.len() == n
                &&& forall|k: int| 0 <= k < n ==> v@[k] == backend.byte_at(head + k)
                &&& final(self).seek_head == head + n
            },
            r matches ReadOutcome::Load(i) ==> {
                let head = old(self).seek_head;
                let n = available(backend.file_size, head, want);
                &&& i < backend.segments()
                &&& !backend.cached(i as int)
                &&& exists|p: int| head <= p < head + n && backend.segment_of(p) == i
                &&& final(self).seek_head == head
            },
    {
        let head = self.seek_head;
        let size = backend.file_size;
        let n: u64 = if head >= size {
            0
        } else if (want as u64) < size - head {
            want as u64
        } else {
            size - head
        };
        let end = head + n;
        let mut out: Vec<u8> = Vec::new();
        let mut cur = head;
        while cur < end
            invariant
                backend.wf(),
                size == backend.file_size,
                head <= cur <= end,
                head == old(self).seek_head,
                self.seek_head == head,
                n > 0 ==> end <= size,
                end == head + n,
                n == available(size, head, want),
                out@.len() == cur - head,
                forall|k: int| 0 <= k < cur - head ==> out@[k] == backend.byte_at(head + k),
                backend.covers(head as int, cur - head),
            decreases end - cur,
        {
            let i = backend.segment_index(cur);
            let (start, stop_seg) = backend.segment_range(i);
            match &backend.inner[i].0 {
                None => {
                    assert(backend.segment_of(cur as int) == i);
                    assert(head <= cur < head + n);
                    assert(exists|p: int| head <= p < head + n && backend.segment_of(p) == i);
                    assert(!backend.covers(head as int, n as int)) by {
                        assert(!backend.cached(backend.segment_of(cur as int)));
                    }
                    assert(!backend.cached(i as int));
                    assert(n == available(backend.file_size, head, want));
                    assert(backend.covers(head as int, n as int) == false);
                    return ReadOutcome::Load(i);
                },
                Some(buf) => {
                    assert(backend.cached(i as int));
                    let blen = buf.len();
                    let stop = if stop_seg < end {
                        stop_seg
                    } else {
                        end
                    };
                    while cur < stop
                        invariant
                            backend.wf(),
                            i < backend.segments(),
                            backend.cached(i as int),
                            buf@ == backend.segment_bytes(i as int),
                            blen == buf@.len(),
                            start == backend.boundary(i as int),
                            stop <= backend.boundary(i + 1),
                            start <= cur,
                            head <= cur <= stop <= end,
                            out@.len() == cur - head,
                            forall|k: int| 0 <= k < cur - head ==> out@[k] == backend.byte_at(head + k),
                            backend.covers(head as int, cur - head),
                        decreases stop - cur,
                    {
                        proof {
                            backend.lemma_in_segment(i as int, cur as int);
                        }
                        let ghost prev = out@;
                        assert(backend.segment_of(cur as int) == i);
                        assert(buf@.len() == backend.boundary(i + 1) - backend.boundary(i as int));
                        assert(cur - start < buf@.len());
                        out.push(buf[(cur - start) as usize]);
                        assert(out@[cur - head] == backend.byte_at(cur as int));
                        proof {
                            assert forall|k: int| 0 <= k < cur + 1 - head implies out@[k]
                                == backend.byte_at(head + k) by {
                                if k < cur - head {
                                    assert(out@[k] == prev[k]);
                                }
                            }
                            assert forall|p: int| head <= p < cur + 1 implies #[trigger] backend.cached(
                                backend.segment_of(p),
                            ) by {
                                if p < cur {
                                    assert(backend.covers(head as int, cur - head));
                                }
                            }
                        }
                        cur = cur + 1;
                    }
                },
            }
        }
        self.seek_head = end;
        ReadOutcome::Data(out)
    }
}

/// Once the bytes of a range have been read, every later read of that range
/// gets the same bytes: the store only grows, and a cached segment never
/// changes. So a segment is loaded from the file at most once, however many
/// reads touch it.
pub proof fn lemma_reads_repeat(
    before: &FileCacheBackend,
    after: &FileCacheBackend,
    pos: int,
    n: int,
)
    requires
        before.wf(),
        after.wf(),
        after.extends(before),
        0 <= pos,
        pos + n <= before.file_size,
        before.covers(pos, n),
    ensures
        after.covers(pos, n),
        forall|p: int| pos <= p < pos + n ==> #[trigger] after.byte_at(p) == before.byte_at(p),
        forall|i: int| 0 <= i < before.segments() && before.cached(i) ==> #[trigger] after.cached(i),
{
    assert forall|k: int| 0 <= k <= before.segments() implies after.boundary(k) == before.boundary(k) by {
        if 0 < k < before.segments() {
            assert(after.keyframe(k) == before.keyframe(k));
        }
    }
    assert forall|p: int| pos <= p < pos + n implies #[trigger] after.byte_at(p) == before.byte_at(p)
        && after.cached(after.segment_of(p)) by {
        before.lemma_segment_of(p);
        let i = before.segment_of(p);
        after.lemma_in_segment(i, p);
        assert(before.cached(i));
    }
    assert forall|p: int| pos <= p < pos + n implies #[trigger] after.cached(after.segment_of(p)) by {
        assert(after.byte_at(p) == before.byte_at(p));
    }
}

} // verus!
