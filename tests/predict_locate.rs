use bdngsp::clpi::Combined;
use bdngsp::predict::{get_frame_dump_info, predict_frame_numbers, PredictedKeyFrame};

fn one_second_apart() -> Vec<PredictedKeyFrame> {
    predict_frame_numbers(&[Combined { pts: 0, spn: 0 }, Combined { pts: 45000, spn: 1000 }])
}

#[test]
fn one_second_is_twenty_four_frames() {
    let p = one_second_apart();
    assert_eq!(p.len(), 2);
    assert_eq!(p[0], PredictedKeyFrame { number: 0, pts: 0, spn: 0 });
    assert_eq!(p[1], PredictedKeyFrame { number: 24, pts: 45000, spn: 1000 });
}

#[test]
fn numbers_are_measured_from_first_entry_and_rounded() {
    let p = predict_frame_numbers(&[
        Combined { pts: 90000, spn: 1 },
        Combined { pts: 90000 + 938, spn: 2 },
        Combined { pts: 90000 + 939, spn: 3 },
        Combined { pts: 90000 + 450450, spn: 4 },
    ]);
    let numbers: Vec<u64> = p.iter().map(|e| e.number).collect();
    assert_eq!(numbers, vec![0, 0, 1, 240]);
}

#[test]
fn predicted_numbers_do_not_decrease() {
    let entries: Vec<Combined> =
        (0..50u64).map(|k| Combined { pts: k * k * 977, spn: k as u32 }).collect();
    let p = predict_frame_numbers(&entries);
    for w in p.windows(2) {
        assert!(w[0].number <= w[1].number);
    }
}

#[test]
fn empty_list_predicts_nothing() {
    assert!(predict_frame_numbers(&[]).is_empty());
}

#[test]
fn locate_in_first_and_second_gop() {
    let p = one_second_apart();
    assert_eq!(get_frame_dump_info(5, &p), (0, 5));
    assert_eq!(get_frame_dump_info(24, &p), (1, 0));
    assert_eq!(get_frame_dump_info(23, &p), (0, 23));
}

#[test]
fn locate_past_last_entry_uses_last() {
    let p = one_second_apart();
    assert_eq!(get_frame_dump_info(1000, &p), (1, 976));
}

#[test]
fn locate_before_first_entry_clamps() {
    let p = vec![
        PredictedKeyFrame { number: 10, pts: 0, spn: 0 },
        PredictedKeyFrame { number: 20, pts: 0, spn: 0 },
    ];
    assert_eq!(get_frame_dump_info(3, &p), (0, 3));
}

#[test]
fn locate_brackets_every_frame() {
    let entries: Vec<Combined> =
        (0..20u64).map(|k| Combined { pts: k * 45000 / 2, spn: k as u32 }).collect();
    let p = predict_frame_numbers(&entries);
    for n in 0..300u64 {
        let (i, off) = get_frame_dump_info(n, &p);
        assert!(p[i].number <= n);
        assert_eq!(off, n - p[i].number);
        if i + 1 < p.len() {
            assert!(n < p[i + 1].number);
        }
    }
}
