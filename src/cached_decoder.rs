//! The decode-session reuse protocol: at most one live decode context,
//! reused while requests move forward inside its window and rebuilt from the
//! nearest preceding entry point otherwise.
use vstd::prelude::*;
use crate::predict::{PredictedKeyFrame, get_frame_dump_info, locate, last_at_or_below, lemma_last_at_or_below};

verus! {

/// The bookkeeping of a live decode context: the entry point's frame number
/// it started from, the next frame it will produce, and how many more
/// frames it may serve.
#[derive(Clone, Copy, Debug, PartialEq, Eq, Structural)]
pub struct CachedDecoder {
    pub start_idx: u64,
    pub current_idx: u64,
    pub frames_left: u64,
    pub frames_to_serve_total: u64,
}

impl CachedDecoder {
    pub fn new(start_idx: u64, current_idx: u64, frames_to_serve: u64) -> (r: CachedDecoder)
        ensures
            r == (CachedDecoder {
                start_idx,
                current_idx,
                frames_left: frames_to_serve,
                frames_to_serve_total: frames_to_serve,
            }),
    {
        CachedDecoder {
            start_idx,
            current_idx,
            frames_left: frames_to_serve,
            frames_to_serve_total: frames_to_serve,
        }
    }

    /// Frame `n` can be had by decoding forward in this context.
    pub open spec fn serves(&self, n: u64) -> bool {
        self.current_idx <= n < self.current_idx + self.frames_left
    }
}

/// What to do with the decoder for one frame request.
#[derive(Clone, Copy, Debug, PartialEq, Eq, Structural)]
pub enum FramePlan {
    /// Decode `skip + 1` more frames in the live context; return the last.
    Continue { skip: u64 },
    /// Release any live context, open a new one at entry point `entry`
    /// (packet offset `spn`), decode `skip + 1` frames and return the last.
    Rebuild { entry: usize, spn: u32, skip: u64 },
}

/// End (exclusive) of the frames that entry point `i` leads: the next entry
/// point's frame number, or the stream's frame count after the last one.
pub open spec fn window_end(pred: Seq<PredictedKeyFrame>, i: int, num_frames: u64) -> int {
    if i + 1 < pred.len() {
        pred[i + 1].number as int
    } else {
        num_frames as int
    }
}

/// A session that serves `left` more frames, or none where `left` is 0.
pub open spec fn live_or_none(c: CachedDecoder) -> Option<CachedDecoder> {
    if c.frames_left == 0 {
        None
    } else {
        Some(c)
    }
}

/// The plan for a request of frame `n` in `state`, and the session after it
/// has been carried out.
pub open spec fn step(
    state: Option<CachedDecoder>,
    n: u64,
    pred: Seq<PredictedKeyFrame>,
    num_frames: u64,
) -> (FramePlan, Option<CachedDecoder>) {
    match state {
        Some(c) if c.serves(n) => (
            FramePlan::Continue { skip: (n - c.current_idx) as u64 },
            live_or_none(
                CachedDecoder {
                    current_idx: (n + 1) as u64,
                    frames_left: (c.current_idx + c.frames_left - n - 1) as u64,
                    ..c
                },
            ),
        ),
        _ => {
            let (i, off) = locate(n, pred);
            let left = (window_end(pred, i as int, num_frames) - n - 1) as u64;
            (
                FramePlan::Rebuild { entry: i, spn: pred[i as int].spn, skip: off },
                live_or_none(
                    CachedDecoder {
                        start_idx: pred[i as int].number,
                        current_idx: (n + 1) as u64,
                        frames_left: left,
                        frames_to_serve_total: left,
                    },
                ),
            )
        },
    }
}

/// The session state of one opened stream.
pub struct AccessSession {
    pub session: Option<CachedDecoder>,
}

impl AccessSession {
    /// No live context.
    pub fn new() -> (r: AccessSession)
        ensures
            r.session is None,
    {
        AccessSession { session: None }
    }

    /// Frame `n` can be served by the live context.
    pub fn can_serve(&self, n: u64) -> (r: bool)
        ensures
            r == (self.session matches Some(c) && c.serves(n)),
    {
        match self.session {
            Some(c) => c.current_idx <= n && n - c.current_idx < c.frames_left,
            None => false,
        }
    }

    /// Plans the request of frame `n` of a stream of `num_frames` frames
    /// whose entry points are `pred`, and records the session as it stands
    /// once the plan has been carried out.
    pub fn request(&mut self, n: u64, pred: &[PredictedKeyFrame], num_frames: u64) -> (r: FramePlan)
        requires
            pred@.len() > 0,
            n < num_frames,
        ensures
            (r, final(self).session) == step(old(self).session, n, pred@, num_frames),
    {
        if let Some(c) = self.session {
            if c.current_idx <= n && n - c.current_idx < c.frames_left {
                let consumed = n - c.current_idx + 1;
                let left = c.frames_left - consumed;
                self.session = if left == 0 {
                    None
                } else {
                    Some(CachedDecoder { current_idx: c.current_idx + consumed, frames_left: left, ..c })
                };
                return FramePlan::Continue { skip: n - c.current_idx };
            }
        }
        let (i, off) = get_frame_dump_info(n, pred);
        proof {
            lemma_last_at_or_below(pred@, n, pred@.len() as int);
            let j = last_at_or_below(pred@, n, pred@.len() as int);
            if j < 0 && pred@.len() > 1 {
                assert(pred@[1].number > n);
            }
            if j >= 0 && j + 1 < pred@.len() {
                assert(pred@[j + 1].number > n);
            }
        }
        let len = pred.len();
        assert(i < len);
        let end = if i + 1 < len {
            pred[i + 1].number
        } else {
            num_frames
        };
        let left = end - n - 1;
        self.session = if left == 0 {
            None
        } else {
            Some(CachedDecoder::new(pred[i].number, n + 1, left))
        };
        FramePlan::Rebuild { entry: i, spn: pred[i].spn, skip: off }
    }

    /// A request failed: the context is gone and no session is left.
    pub fn abort(&mut self)
        ensures
            final(self).session is None,
    {
        self.session = None;
    }
}

/// The session after requesting `frames` in order from `state`, and how
/// many decode contexts were built on the way.
pub open spec fn run(
    state: Option<CachedDecoder>,
    frames: Seq<u64>,
    pred: Seq<PredictedKeyFrame>,
    num_frames: u64,
) -> (Option<CachedDecoder>, nat)
    decreases frames.len(),
{
    if frames.len() == 0 {
        (state, 0)
    } else {
        let (s, built) = run(state, frames.drop_last(), pred, num_frames);
        let (plan, next) = step(s, frames.last(), pred, num_frames);
        (next, built + if plan is Rebuild { 1nat } else { 0nat })
    }
}

pub open spec fn numbers_ascend(pred: Seq<PredictedKeyFrame>) -> bool {
    forall|x: int, y: int| 0 <= x <= y < pred.len() ==> pred[x].number <= pred[y].number
}

/// The session after the first `k` requests of a run inside the window of
/// entry point `e` that began from no session.
pub open spec fn session_in_window(
    frames: Seq<u64>,
    k: int,
    pred: Seq<PredictedKeyFrame>,
    e: int,
    num_frames: u64,
) -> Option<CachedDecoder> {
    let w = window_end(pred, e, num_frames);
    live_or_none(
        CachedDecoder {
            start_idx: pred[e].number,
            current_idx: (frames[k - 1] + 1) as u64,
            frames_left: (w - frames[k - 1] - 1) as u64,
            frames_to_serve_total: (w - frames[0] - 1) as u64,
        },
    )
}

proof fn lemma_run_in_window(
    frames: Seq<u64>,
    k: int,
    pred: Seq<PredictedKeyFrame>,
    e: int,
    num_frames: u64,
)
    requires
        pred.len() <= usize::MAX,
        numbers_ascend(pred),
        0 <= e < pred.len(),
        1 <= k <= frames.len(),
        forall|x: int, y: int| 0 <= x < y < frames.len() ==> frames[x] < frames[y],
        forall|x: int|
            0 <= x < frames.len() ==> pred[e].number <= #[trigger] frames[x] && frames[x]
                < window_end(pred, e, num_frames),
        window_end(pred, e, num_frames) <= num_frames,
    ensures
        run(None, frames.take(k), pred, num_frames) == (session_in_window(frames, k, pred, e, num_frames), 1nat),
    decreases k,
{
    let f = frames.take(k);
    assert(f.drop_last() =~= frames.take(k - 1));
    assert(f.last() == frames[k - 1]);
    let n = frames[k - 1];
    if k == 1 {
        assert(frames.take(0) =~= Seq::<u64>::empty());
        lemma_last_at_or_below(pred, n, pred.len() as int);
        let j = last_at_or_below(pred, n, pred.len() as int);
        assert(pred[e].number <= n);
        assert(j >= e) by {
            if j < e {
                assert(pred[e].number > n);
            }
        }
        assert(j <= e) by {
            if j > e {
                assert(pred[e + 1].number <= pred[j].number);
            }
        }
    } else {
        lemma_run_in_window(frames, k - 1, pred, e, num_frames);
        assert(frames[k - 2] < frames[k - 1]);
    }
}

/// Requests of frames in strictly increasing order, all inside the window
/// of one entry point, build a decode context exactly once when they start
/// from no session.
pub proof fn lemma_sequential_reuse(
    frames: Seq<u64>,
    pred: Seq<PredictedKeyFrame>,
    e: int,
    num_frames: u64,
)
    requires
        pred.len() <= usize::MAX,
        numbers_ascend(pred),
        0 <= e < pred.len(),
        frames.len() >= 1,
        forall|x: int, y: int| 0 <= x < y < frames.len() ==> frames[x] < frames[y],
        forall|x: int|
            0 <= x < frames.len() ==> pred[e].number <= #[trigger] frames[x] && frames[x]
                < window_end(pred, e, num_frames),
        window_end(pred, e, num_frames) <= num_frames,
    ensures
        run(None, frames, pred, num_frames).1 == 1,
{
    lemma_run_in_window(frames, frames.len() as int, pred, e, num_frames);
    assert(frames.take(frames.len() as int) =~= frames);
}

/// A request of a frame before the start of the live session's entry point
/// rebuilds the decode context.
pub proof fn lemma_backward_rebuilds(
    c: CachedDecoder,
    n: u64,
    pred: Seq<PredictedKeyFrame>,
    num_frames: u64,
)
    requires
        c.start_idx <= c.current_idx,
        n < c.start_idx,
    ensures
        step(Some(c), n, pred, num_frames).0 is Rebuild,
{
}

} // verus!
