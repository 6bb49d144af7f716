use bdngsp::cached_decoder::{AccessSession, CachedDecoder, FramePlan};
use bdngsp::clpi::Combined;
use bdngsp::predict::{predict_frame_numbers, PredictedKeyFrame};

fn two_gops() -> Vec<PredictedKeyFrame> {
    predict_frame_numbers(&[Combined { pts: 0, spn: 0 }, Combined { pts: 45000, spn: 1000 }])
}

fn rebuilds(plans: &[FramePlan]) -> usize {
    plans.iter().filter(|p| matches!(p, FramePlan::Rebuild { .. })).count()
}

#[test]
fn sequential_frames_share_one_context() {
    let pred = two_gops();
    let mut s = AccessSession::new();
    let a = s.request(5, &pred, 48);
    assert_eq!(a, FramePlan::Rebuild { entry: 0, spn: 0, skip: 5 });
    let b = s.request(6, &pred, 48);
    assert_eq!(b, FramePlan::Continue { skip: 0 });
    assert_eq!(rebuilds(&[a, b]), 1);
    let c = s.session.unwrap();
    assert_eq!(c.current_idx, 7);
    assert_eq!(c.frames_left, 17);
    assert_eq!(c.start_idx, 0);
}

#[test]
fn backward_request_rebuilds() {
    let pred = two_gops();
    let mut s = AccessSession::new();
    let a = s.request(3, &pred, 48);
    let b = s.request(1, &pred, 48);
    assert_eq!(b, FramePlan::Rebuild { entry: 0, spn: 0, skip: 1 });
    assert_eq!(rebuilds(&[a, b]), 2);
}

#[test]
fn increasing_frames_in_one_gop_build_once() {
    let pred = two_gops();
    let mut s = AccessSession::new();
    let plans: Vec<FramePlan> = [2u64, 3, 7, 8, 20, 23].iter().map(|&n| s.request(n, &pred, 48)).collect();
    assert_eq!(rebuilds(&plans), 1);
    assert_eq!(plans[2], FramePlan::Continue { skip: 3 });
    assert!(s.session.is_none());
}

#[test]
fn next_gop_and_last_gop_use_frame_count() {
    let pred = two_gops();
    let mut s = AccessSession::new();
    let a = s.request(30, &pred, 48);
    assert_eq!(a, FramePlan::Rebuild { entry: 1, spn: 1000, skip: 6 });
    assert_eq!(
        s.session,
        Some(CachedDecoder { start_idx: 24, current_idx: 31, frames_left: 17, frames_to_serve_total: 17 })
    );
    assert!(s.can_serve(47));
    assert!(!s.can_serve(48));
    assert!(!s.can_serve(30));
}

#[test]
fn abort_leaves_no_session() {
    let pred = two_gops();
    let mut s = AccessSession::new();
    s.request(5, &pred, 48);
    s.abort();
    assert!(s.session.is_none());
    assert_eq!(s.request(6, &pred, 48), FramePlan::Rebuild { entry: 0, spn: 0, skip: 6 });
}

#[test]
fn new_session_state() {
    let c = CachedDecoder::new(24, 30, 5);
    assert_eq!(c.frames_left, 5);
    assert_eq!(c.frames_to_serve_total, 5);
    assert_eq!(c.current_idx, 30);
}
