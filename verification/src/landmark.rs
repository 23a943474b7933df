//! The MediaPipe hand topology and the grouping of raw model values into landmarks.

use vstd::prelude::*;

verus! {

/// Landmarks per hand in the MediaPipe hand topology.
pub const NUM_LANDMARKS: usize = 21;

/// Index of the index-finger tip among the landmarks.
pub const INDEX_FINGER_TIP: usize = 8;

/// Values in the model output that carries the landmarks: x, y and z of each one.
pub const LANDMARK_VALUES: usize = NUM_LANDMARKS * 3;

/// Readable names of the landmarks, in model order.
pub const LANDMARK_NAMES: [&'static str; NUM_LANDMARKS] = [
    "wrist",
    "thumb_cmc",
    "thumb_mcp",
    "thumb_ip",
    "thumb_tip",
    "index_finger_mcp",
    "index_finger_pip",
    "index_finger_dip",
    "index_finger_tip",
    "middle_finger_mcp",
    "middle_finger_pip",
    "middle_finger_dip",
    "middle_finger_tip",
    "ring_finger_mcp",
    "ring_finger_pip",
    "ring_finger_dip",
    "ring_finger_tip",
    "pinky_mcp",
    "pinky_pip",
    "pinky_dip",
    "pinky_tip",
];

/// One landmark: its x and y position and its relative depth z, in whatever
/// number type the model values come in.
#[derive(Debug)]
pub struct Landmark<T> {
    pub x: T,
    pub y: T,
    pub z: T,
}

/// Groups the landmark output of the model, x, y, z for each landmark in turn,
/// into the landmarks.
pub fn landmarks_from_raw<T: Copy>(raw: &[T]) -> (r: Vec<Landmark<T>>)
    requires
        raw@.len() == LANDMARK_VALUES,
    ensures
        r@.len() == NUM_LANDMARKS,
        forall|i: int|
            0 <= i < NUM_LANDMARKS ==> {
                &&& (#[trigger] r@[i]).x == raw@[3 * i]
                &&& r@[i].y == raw@[3 * i + 1]
                &&& r@[i].z == raw@[3 * i + 2]
            },
{
    let mut r: Vec<Landmark<T>> = Vec::with_capacity(NUM_LANDMARKS);
    let mut i: usize = 0;
    while i < NUM_LANDMARKS
        invariant
            raw@.len() == LANDMARK_VALUES,
            i <= NUM_LANDMARKS,
            r@.len() == i,
            forall|j: int|
                0 <= j < i ==> {
                    &&& (#[trigger] r@[j]).x == raw@[3 * j]
                    &&& r@[j].y == raw@[3 * j + 1]
                    &&& r@[j].z == raw@[3 * j + 2]
                },
        decreases NUM_LANDMARKS - i,
    {
        let lm = Landmark { x: raw[3 * i], y: raw[3 * i + 1], z: raw[3 * i + 2] };
        r.push(lm);
        i = i + 1;
    }
    r
}

} // verus!
