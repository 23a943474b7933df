use drackpad::landmark::{landmarks_from_raw, INDEX_FINGER_TIP, LANDMARK_NAMES, LANDMARK_VALUES, NUM_LANDMARKS};
use drackpad::outputs::{classify_outputs, DetectError, OutputInfo, OutputRoles};

fn out(name: &str, len: usize) -> OutputInfo {
    OutputInfo { name: name.to_string(), len }
}

#[test]
fn classify_mediapipe_outputs() {
    let outs = vec![out("Identity", 63), out("Identity_1", 1), out("Identity_2", 1), out("Identity_3", 63)];
    // No name says score or hand; the last 63-value output holds the landmarks.
    assert_eq!(
        classify_outputs(&outs),
        Ok(OutputRoles { landmarks: 3, score: None, handedness: None })
    );
}

#[test]
fn classify_named_outputs() {
    let outs = vec![out("xyz_x21", 63), out("hand_score", 1), out("lefthand_0_or_righthand_1", 1)];
    assert_eq!(
        classify_outputs(&outs),
        Ok(OutputRoles { landmarks: 0, score: Some(1), handedness: Some(2) })
    );
}

#[test]
fn score_in_name_wins_over_hand() {
    // "hand_score" names the score, not the handedness.
    let outs = vec![out("hand_score", 1), out("landmarks", 63)];
    assert_eq!(
        classify_outputs(&outs),
        Ok(OutputRoles { landmarks: 1, score: Some(0), handedness: None })
    );
}

#[test]
fn a_63_value_output_is_landmarks_whatever_its_name() {
    let outs = vec![out("score", 63)];
    assert_eq!(
        classify_outputs(&outs),
        Ok(OutputRoles { landmarks: 0, score: None, handedness: None })
    );
}

#[test]
fn missing_landmarks_is_an_error() {
    let outs = vec![out("score", 1), out("handedness", 1), out("world", 62)];
    assert_eq!(classify_outputs(&outs), Err(DetectError::MissingLandmarks));
    assert_eq!(classify_outputs(&vec![]), Err(DetectError::MissingLandmarks));
}

#[test]
fn later_outputs_override_earlier_ones() {
    let outs = vec![out("right", 1), out("score_a", 1), out("left", 1), out("score_b", 2), out("lm", 63)];
    assert_eq!(
        classify_outputs(&outs),
        Ok(OutputRoles { landmarks: 4, score: Some(3), handedness: Some(2) })
    );
}

#[test]
fn landmarks_group_raw_values_in_triples() {
    let raw: Vec<f32> = (0..LANDMARK_VALUES).map(|v| v as f32).collect();
    let lms = landmarks_from_raw(&raw);
    assert_eq!(lms.len(), NUM_LANDMARKS);
    let tip = &lms[INDEX_FINGER_TIP];
    assert_eq!((tip.x, tip.y, tip.z), (24.0, 25.0, 26.0));
    let last = &lms[20];
    assert_eq!((last.x, last.y, last.z), (60.0, 61.0, 62.0));
    assert_eq!(LANDMARK_NAMES[INDEX_FINGER_TIP], "index_finger_tip");
    assert_eq!(LANDMARK_NAMES[0], "wrist");
    assert_eq!(LANDMARK_NAMES[20], "pinky_tip");
}
