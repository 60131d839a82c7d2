//! Telling speakers apart in a recording: which frames of it go into a step of the
//! speaker model, and what is remembered of the frames before.
//!
//! The model looks at a chunk of the recording together with a small memory of
//! earlier frames: the speaker cache and the latest frames, first in, first out.
//! A frame is a row of numbers of some type `T`, which is only ever copied here.
pub mod cache;
pub mod frontend;
pub mod scores;
pub mod steps;
