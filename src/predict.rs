//! Estimated display-frame numbers for entry points, and the lookup of the
//! entry point that precedes a frame.
use vstd::prelude::*;
use crate::clpi::Combined;

verus! {

/// An entry point with its estimated display-frame number.
#[derive(Clone, Copy, Debug, PartialEq, Eq, Structural)]
pub struct PredictedKeyFrame {
    pub number: u64,
    pub pts: u64,
    pub spn: u32,
}

/// Ticks elapsed since `t0`; a time before `t0` counts as no time at all.
pub open spec fn elapsed(t: u64, t0: u64) -> int {
    if t >= t0 {
        t - t0
    } else {
        0
    }
}

/// Frame number at `d` ticks of the 45 kHz clock at 24000/1001 frames per
/// second, rounded to the nearest frame with halves rounded up:
/// `d / 45000 * 24000 / 1001 == 16 * d / 30030`.
pub open spec fn frame_number_at(d: int) -> int {
    (16 * d + 15015) / 30030
}

/// The prediction for entry `k` of `a`, measured from `a`'s first entry.
pub open spec fn predicted_at(a: Seq<Combined>, k: int) -> PredictedKeyFrame {
    PredictedKeyFrame {
        number: frame_number_at(elapsed(a[k].pts, a[0].pts)) as u64,
        pts: a[k].pts,
        spn: a[k].spn,
    }
}

pub open spec fn predicted(a: Seq<Combined>) -> Seq<PredictedKeyFrame> {
    Seq::new(a.len(), |k: int| predicted_at(a, k))
}

proof fn lemma_frame_number_bounds(d: int)
    requires
        0 <= d <= u64::MAX,
    ensures
        0 <= frame_number_at(d) <= u64::MAX,
{
    assert(0 <= (16 * d + 15015) / 30030 <= u64::MAX) by (nonlinear_arith)
        requires
            0 <= d <= u64::MAX,
    ;
}

proof fn lemma_frame_number_monotone(d: int, e: int)
    requires
        0 <= d <= e,
    ensures
        frame_number_at(d) <= frame_number_at(e),
{
    vstd::arithmetic::div_mod::lemma_div_is_ordered(16 * d + 15015, 16 * e + 15015, 30030);
}

/// Estimates the display-frame number of each entry point from its
/// presentation time relative to the first entry point.
pub fn predict_frame_numbers(a: &[Combined]) -> (r: Vec<PredictedKeyFrame>)
    ensures
        r@ == predicted(a@),
{
    let mut out: Vec<PredictedKeyFrame> = Vec::with_capacity(a.len());
    if a.len() == 0 {
        assert(out@ =~= predicted(a@));
        return out;
    }
    let frame_0 = a[0].pts;
    let mut k: usize = 0;
    while k < a.len()
        invariant
            0 < a@.len(),
            frame_0 == a@[0].pts,
            k <= a@.len(),
            out@ == predicted(a@).take(k as int),
        decreases a@.len() - k,
    {
        let e = a[k];
        let d: u64 = if e.pts >= frame_0 {
            e.pts - frame_0
        } else {
            0
        };
        proof {
            lemma_frame_number_bounds(d as int);
        }
        let number = ((16 * (d as u128) + 15015) / 30030) as u64;
        out.push(PredictedKeyFrame { number, pts: e.pts, spn: e.spn });
        assert(out@ =~= predicted(a@).take(k + 1));
        k = k + 1;
    }
    assert(out@ =~= predicted(a@));
    out
}

/// Presentation times that never decrease along the list.
pub open spec fn times_ascend(a: Seq<Combined>) -> bool {
    forall|x: int, y: int| 0 <= x <= y < a.len() ==> a[x].pts <= a[y].pts
}

/// Entry points ordered by presentation time get frame numbers that never
/// decrease along the list.
pub proof fn lemma_predicted_numbers_ascend(a: Seq<Combined>)
    requires
        times_ascend(a),
    ensures
        forall|x: int, y: int|
            0 <= x <= y < a.len() ==> predicted(a)[x].number <= predicted(a)[y].number,
{
    assert forall|x: int, y: int| 0 <= x <= y < a.len() implies predicted(a)[x].number
        <= predicted(a)[y].number by {
        let dx = elapsed(a[x].pts, a[0].pts);
        let dy = elapsed(a[y].pts, a[0].pts);
        lemma_frame_number_monotone(dx, dy);
        lemma_frame_number_bounds(dx);
        lemma_frame_number_bounds(dy);
    }
}

/// Greatest index below `n` whose frame number is at most `num`, or -1.
pub open spec fn last_at_or_below(s: Seq<PredictedKeyFrame>, num: u64, n: int) -> int
    decreases n,
{
    if n <= 0 {
        -1
    } else if s[n - 1].number <= num {
        n - 1
    } else {
        last_at_or_below(s, num, n - 1)
    }
}

/// The entry point to start decoding at for frame `num`, and how many frames
/// after it `num` lies: the last entry whose frame number is at most `num`;
/// where every entry lies after `num`, the first entry and `num` itself.
pub open spec fn locate(num: u64, s: Seq<PredictedKeyFrame>) -> (usize, u64) {
    let i = last_at_or_below(s, num, s.len() as int);
    if i >= 0 {
        (i as usize, (num - s[i].number) as u64)
    } else {
        (0, num)
    }
}

/// `last_at_or_below` is the greatest index below `n` whose frame number is
/// at most `num`.
pub proof fn lemma_last_at_or_below(s: Seq<PredictedKeyFrame>, num: u64, n: int)
    requires
        0 <= n <= s.len(),
    ensures
        -1 <= last_at_or_below(s, num, n) < n,
        last_at_or_below(s, num, n) >= 0 ==> s[last_at_or_below(s, num, n)].number <= num,
        forall|k: int| last_at_or_below(s, num, n) < k < n ==> #[trigger] s[k].number > num,
    decreases n,
{
    if n > 0 {
        lemma_last_at_or_below(s, num, n - 1);
    }
}

/// Finds the entry point that precedes frame `num` and the offset of `num`
/// from it.
pub fn get_frame_dump_info(num: u64, prd: &[PredictedKeyFrame]) -> (r: (usize, u64))
    ensures
        r == locate(num, prd@),
{
    let mut n: usize = prd.len();
    while n > 0
        invariant
            n <= prd@.len(),
            last_at_or_below(prd@, num, prd@.len() as int) == last_at_or_below(prd@, num, n as int),
        decreases n,
    {
        if prd[n - 1].number <= num {
            return (n - 1, num - prd[n - 1].number);
        }
        n = n - 1;
    }
    (0, num)
}

/// Against a predicted list, the entry point found for a frame is at or
/// before that frame, and the next entry point, where there is one, is
/// after it.
pub proof fn lemma_locate_brackets(a: Seq<Combined>, num: u64)
    requires
        0 < a.len() <= usize::MAX,
    ensures
        ({
            let p = predicted(a);
            let (i, off) = locate(num, p);
            &&& i < p.len()
            &&& p[i as int].number <= num
            &&& off == num - p[i as int].number
            &&& i + 1 < p.len() ==> num < p[i + 1].number
        }),
{
    let p = predicted(a);
    assert(frame_number_at(0) == 0);
    assert(p[0].number == 0);
    lemma_last_at_or_below(p, num, p.len() as int);
    let j = last_at_or_below(p, num, p.len() as int);
    if j < 0 {
        assert(p[0].number > num);
    }
    if j + 1 < p.len() {
        assert(p[j + 1].number > num);
    }
}

} // verus!
