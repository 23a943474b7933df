//! Hand-landmark preprocessing and decoding logic, with its contracts proved by Verus.
//!
//! The library turns camera or still-image frames into the planar tensor layout that a
//! MediaPipe-style hand-landmark model consumes, decides which model outputs carry the
//! landmarks, the presence score and the handedness, groups the raw landmark values, and
//! holds the command-line and capture-loop decisions of the tool around it.

pub mod tensor;
pub mod text;
pub mod landmark;
pub mod outputs;
pub mod paths;
pub mod capture;
pub mod cli;
pub mod model;
pub mod resize;

