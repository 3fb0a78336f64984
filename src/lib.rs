//! A virtual microphone fed from an audio file.
//!
//! `decoder` holds the decoder pipeline (track selection, downmix, gain,
//! resampling into a FIFO at the device rate) and the buffer-fill service of
//! the realtime callback. `pcm` holds the sample arithmetic it rests on.
//! `device` provisions the chain of sound-server modules that makes the
//! capture device visible, with rollback, and releases it in reverse order.
use vstd::prelude::*;

pub mod decoder;
pub mod device;
pub mod pcm;

verus! {

} // verus!
