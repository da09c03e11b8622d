use mittens::eye_frames::{gaze_pair, merge_osc_packets, plan_frame, EyeFramePlan, OscEyeUpdate, StandardEyeSample};

type Sample = StandardEyeSample<u8, u8>;

fn empty() -> Sample {
    StandardEyeSample { combined_look: None, left_look: None, right_look: None, combined_openness: None }
}

fn update(combined: Option<u8>, left: Option<u8>, right: Option<u8>, openness: Option<u8>) -> Option<OscEyeUpdate<u8, u8>> {
    Some(OscEyeUpdate { combined_look: combined, left_look: left, right_look: right, combined_openness: openness })
}

#[test]
fn newer_packets_replace_only_the_fields_they_carry() {
    let packets = vec![update(Some(1), None, None, None), None, update(None, Some(2), None, Some(9)), update(Some(3), None, None, None)];
    let m = merge_osc_packets(empty(), &packets);
    assert_eq!(m.sample, StandardEyeSample { combined_look: Some(3), left_look: Some(2), right_look: None, combined_openness: Some(9) });
    assert!(m.received_update && m.received_gaze && m.received_closure);
}

#[test]
fn undecodable_packets_are_no_update() {
    let m = merge_osc_packets(empty(), &vec![None, None]);
    assert!(!m.received_update && !m.received_gaze && !m.received_closure);
    assert_eq!(plan_frame(5, &m), EyeFramePlan { sequence: 5, gaze_sequence: None, closure_sequence: None, emit: false });
}

#[test]
fn closure_only_frames_number_only_the_closure() {
    let m = merge_osc_packets(empty(), &vec![update(None, None, None, Some(1))]);
    assert!(m.received_update && !m.received_gaze && m.received_closure);
    assert_eq!(plan_frame(5, &m), EyeFramePlan { sequence: 6, gaze_sequence: None, closure_sequence: Some(6), emit: true });
}

#[test]
fn gaze_then_closure_take_consecutive_numbers_and_wrap() {
    let m = merge_osc_packets(empty(), &vec![update(Some(1), None, None, Some(1))]);
    assert_eq!(plan_frame(u64::MAX, &m), EyeFramePlan { sequence: 1, gaze_sequence: Some(0), closure_sequence: Some(1), emit: true });
}

#[test]
fn individual_eyes_win_and_one_eye_fills_the_other() {
    assert_eq!(gaze_pair(Some(1u8), Some(2), Some(3)), Some((1, 2)));
    assert_eq!(gaze_pair(None, Some(2u8), Some(3)), Some((3, 2)));
    assert_eq!(gaze_pair(Some(1u8), None, None), Some((1, 1)));
    assert_eq!(gaze_pair::<u8>(None, None, None), None);
}
