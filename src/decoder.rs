//! The decoder pipeline and the buffer-fill service.
//!
//! `AudioDecoder` owns the FIFO of mono samples at the device rate. The
//! container and codec are driven from outside: the caller reports what each
//! read of the container produced, and `next_action` decides what happens
//! next; each decoded block is handed to `push_block`, which downmixes, scales
//! and resamples it onto the buffer. `fill_from_buffer` and `pad_silence`
//! produce the output frames of the realtime callback.
use crate::pcm::{
    bounded, clamped_gain, downmix, downmix_block, ints, resample, resampled, frame_count,
    MAX_GAIN,
};
use std::collections::VecDeque;
use vstd::arithmetic::div_mod::*;
use vstd::prelude::*;

verus! {

/// The fixed sample rate of the virtual device, in frames per second.
pub const SAMPLE_RATE: u32 = 48000;

/// The virtual device carries a single channel.
pub const CHANNELS: u32 = 1;

/// What the container says of one of its tracks.
#[derive(Debug, Clone, Copy, PartialEq, Eq, Structural)]
pub struct TrackInfo {
    pub id: u32,
    /// The track's codec is the placeholder for "no codec".
    pub codec_is_null: bool,
    pub sample_rate: Option<u32>,
}

/// Errors of the decoder pipeline.
#[derive(Debug, Clone, Copy, PartialEq, Eq, Structural)]
pub enum DecodeError {
    /// The container holds no track with a real codec.
    NoAudioTrack,
    /// No track has been selected yet.
    NotOpened,
    /// Reading the container failed.
    ReadFailed,
}

/// What one read of the container produced.
#[derive(Debug, Clone, Copy, PartialEq, Eq, Structural)]
pub enum ReadEvent {
    /// A packet of the given track.
    Packet { track_id: u32 },
    /// The container has no more packets.
    EndOfStream,
    /// The read failed.
    Failed,
}

/// What to do after a read of the container.
#[derive(Debug, Clone, Copy, PartialEq, Eq, Structural)]
pub enum ReadAction {
    /// Decode the packet and hand the block to `push_block`: more data.
    Decode,
    /// The packet is of another track: read the next one.
    Skip,
    /// Open the source again and select its track: more data.
    Restart,
    /// No more data.
    Exhausted,
    /// Give up with this error.
    Fail(DecodeError),
}

/// The first track whose codec is not the placeholder, if any.
pub open spec fn is_first_audio_track(tracks: Seq<TrackInfo>, i: int) -> bool {
    &&& 0 <= i < tracks.len()
    &&& !tracks[i].codec_is_null
    &&& forall|j: int| 0 <= j < i ==> #[trigger] tracks[j].codec_is_null
}

pub open spec fn has_audio_track(tracks: Seq<TrackInfo>) -> bool {
    exists|i: int| 0 <= i < tracks.len() && !#[trigger] tracks[i].codec_is_null
}

/// The rate that resampling starts from: the track's rate, the device rate
/// where the track states none.
pub open spec fn effective_rate(rate: Option<u32>) -> nat {
    match rate {
        Some(r) => r as nat,
        None => SAMPLE_RATE as nat,
    }
}

/// The decoder pipeline: selected track, its metadata, and the FIFO of mono
/// samples at the device rate.
pub struct AudioDecoder {
    loop_audio: bool,
    gain: u32,
    buffer: VecDeque<i64>,
    track_id: Option<u32>,
    source_sample_rate: Option<u32>,
}

impl AudioDecoder {
    /// The samples waiting in the buffer, oldest first.
    pub closed spec fn pending(&self) -> Seq<int> {
        ints(self.buffer@)
    }

    pub closed spec fn gain_spec(&self) -> int {
        self.gain as int
    }

    pub closed spec fn loops(&self) -> bool {
        self.loop_audio
    }

    pub closed spec fn track(&self) -> Option<u32> {
        self.track_id
    }

    pub closed spec fn rate(&self) -> Option<u32> {
        self.source_sample_rate
    }

    pub closed spec fn wf(&self) -> bool {
        &&& self.gain <= MAX_GAIN
        &&& bounded(ints(self.buffer@))
    }

    /// A decoder for a source, looping or not, with a gain (fixed-point, see
    /// `UNITY_GAIN`) that is clamped to `[0, MAX_GAIN]`. No track is selected.
    pub fn new(loop_audio: bool, gain: i64) -> (r: Self)
        ensures
            r.wf(),
            r.pending() == Seq::<int>::empty(),
            r.gain_spec() == clamped_gain(gain as int),
            r.loops() == loop_audio,
            r.track() is None,
            r.rate() is None,
    {
        let r = AudioDecoder {
            loop_audio,
            gain: crate::pcm::clamp_gain(gain),
            buffer: VecDeque::new(),
            track_id: None,
            source_sample_rate: None,
        };
        proof {
            assert(ints(r.buffer@) =~= Seq::<int>::empty());
        }
        r
    }

    /// The gain applied to every sample.
    pub fn gain(&self) -> (r: u32)
        ensures
            r == self.gain_spec(),
    {
        self.gain
    }

    /// Whether the source starts again at its end.
    pub fn loop_audio(&self) -> (r: bool)
        ensures
            r == self.loops(),
    {
        self.loop_audio
    }

    /// The selected track.
    pub fn track_id(&self) -> (r: Option<u32>)
        ensures
            r == self.track(),
    {
        self.track_id
    }

    /// The sample rate of the selected track, where the container states one.
    pub fn source_sample_rate(&self) -> (r: Option<u32>)
        ensures
            r == self.rate(),
    {
        self.source_sample_rate
    }

    /// The number of samples waiting in the buffer.
    pub fn pending_len(&self) -> (r: usize)
        ensures
            r == self.pending().len(),
    {
        self.buffer.len()
    }

    /// Selects the first track whose codec is not the placeholder and records
    /// its id and sample rate. Called on open and on every restart of a
    /// looping source; the buffer is kept.
    pub fn select_track(&mut self, tracks: &Vec<TrackInfo>) -> (r: Result<u32, DecodeError>)
        requires
            old(self).wf(),
        ensures
            final(self).wf(),
            final(self).pending() == old(self).pending(),
            final(self).gain_spec() == old(self).gain_spec(),
            final(self).loops() == old(self).loops(),
            has_audio_track(tracks@) <==> r is Ok,
            r is Err ==> r == Err::<u32, DecodeError>(DecodeError::NoAudioTrack) && *final(self)
                == *old(self),
            r matches Ok(id) ==> exists|i: int|
                is_first_audio_track(tracks@, i) && #[trigger] tracks@[i].id == id
                    && final(self).track() == Some(id) && final(self).rate()
                    == tracks@[i].sample_rate,
    {
        let mut i: usize = 0;
        while i < tracks.len()
            invariant
                i <= tracks.len(),
                *self == *old(self),
                self.wf(),
                forall|j: int| 0 <= j < i ==> #[trigger] tracks@[j].codec_is_null,
            decreases tracks.len() - i,
        {
            if !tracks[i].codec_is_null {
                let t = tracks[i];
                self.track_id = Some(t.id);
                self.source_sample_rate = t.sample_rate;
                proof {
                    assert(is_first_audio_track(tracks@, i as int));
                    assert(self.buffer@ == old(self).buffer@);
                    assert(self.gain == old(self).gain);
                }
                return Ok(t.id);
            }
            i = i + 1;
        }
        Err(DecodeError::NoAudioTrack)
    }

    /// Decides what follows a read of the container: packets of the selected
    /// track are decoded, others skipped; at the end a looping source starts
    /// again and any other is exhausted.
    pub fn next_action(&self, event: ReadEvent) -> (r: ReadAction)
        ensures
            self.track() is None ==> r == ReadAction::Fail(DecodeError::NotOpened),
            self.track() matches Some(t) ==> r == match event {
                ReadEvent::Packet { track_id } => if track_id == t {
                    ReadAction::Decode
                } else {
                    ReadAction::Skip
                },
                ReadEvent::EndOfStream => if self.loops() {
                    ReadAction::Restart
                } else {
                    ReadAction::Exhausted
                },
                ReadEvent::Failed => ReadAction::Fail(DecodeError::ReadFailed),
            },
    {
        match self.track_id {
            None => ReadAction::Fail(DecodeError::NotOpened),
            Some(t) => match event {
                ReadEvent::Packet { track_id } => if track_id == t {
                    ReadAction::Decode
                } else {
                    ReadAction::Skip
                },
                ReadEvent::EndOfStream => if self.loop_audio {
                    ReadAction::Restart
                } else {
                    ReadAction::Exhausted
                },
                ReadEvent::Failed => ReadAction::Fail(DecodeError::ReadFailed),
            },
        }
    }

    /// Appends a decoded block of interleaved samples: mixed down to mono,
    /// scaled by the gain, and resampled from the track's rate to the device
    /// rate.
    pub fn push_block(&mut self, samples: &Vec<i32>, channels: usize)
        requires
            old(self).wf(),
            channels > 0,
            samples.len() * SAMPLE_RATE <= usize::MAX,
        ensures
            final(self).wf(),
            final(self).pending() == old(self).pending() + resampled(
                downmix(samples@, channels as nat, old(self).gain_spec()),
                effective_rate(old(self).rate()),
                SAMPLE_RATE as nat,
            ),
            final(self).gain_spec() == old(self).gain_spec(),
            final(self).loops() == old(self).loops(),
            final(self).track() == old(self).track(),
            final(self).rate() == old(self).rate(),
    {
        let mono = downmix_block(samples, channels, self.gain);
        let rate: u32 = match self.source_sample_rate {
            Some(r) => r,
            None => SAMPLE_RATE,
        };
        let block = if rate != 0 && rate != SAMPLE_RATE {
            proof {
                let len = samples.len() as int;
                let ch = channels as int;
                let fc = mono.len() as int;
                assert(ints(mono@).len() == mono@.len());
                assert(fc == frame_count(len as nat, ch as nat));
                lemma_fundamental_div_mod(len + ch - 1, ch);
                lemma_mod_pos_bound(len + ch - 1, ch);
                assert(fc <= len) by (nonlinear_arith)
                    requires
                        len + ch - 1 == ch * fc + (len + ch - 1) % ch,
                        0 <= (len + ch - 1) % ch,
                        ch > 0,
                        len >= 0,
                        fc >= 0,
                ;
            }
            resample(&mono, rate, SAMPLE_RATE)
        } else {
            mono
        };
        let ghost old_buf = self.buffer@;
        let mut i: usize = 0;
        while i < block.len()
            invariant
                i <= block.len(),
                self.buffer@ == old_buf + block@.subrange(0, i as int),
                bounded(ints(old_buf)),
                bounded(ints(block@)),
                self.gain == old(self).gain,
                self.loop_audio == old(self).loop_audio,
                self.track_id == old(self).track_id,
                self.source_sample_rate == old(self).source_sample_rate,
            decreases block.len() - i,
        {
            self.buffer.push_back(block[i]);
            proof {
                assert(block@.subrange(0, i + 1) =~= block@.subrange(0, i as int).push(block@[i as int]));
            }
            i = i + 1;
        }
        proof {
            assert(block@.subrange(0, block.len() as int) =~= block@);
            assert(ints(self.buffer@) =~= ints(old_buf) + ints(block@));
            assert(bounded(ints(self.buffer@)));
        }
    }

    /// Moves samples from the buffer to the end of `out` until `out` holds
    /// `want` samples or the buffer is empty. Returns whether `out` is full;
    /// where it is not, the buffer is empty and the caller decodes more.
    pub fn fill_from_buffer(&mut self, out: &mut Vec<i64>, want: usize) -> (full: bool)
        requires
            old(self).wf(),
            old(out).len() <= want,
        ensures
            final(self).wf(),
            ({
                let k = if old(self).pending().len() < want - old(out).len() {
                    old(self).pending().len()
                } else {
                    (want - old(out).len()) as nat
                };
                &&& ints(final(out)@) == ints(old(out)@) + old(self).pending().take(k as int)
                &&& final(self).pending() == old(self).pending().skip(k as int)
            }),
            full <==> final(out).len() == want,
            !full ==> final(self).pending().len() == 0,
            final(self).gain_spec() == old(self).gain_spec(),
            final(self).loops() == old(self).loops(),
            final(self).track() == old(self).track(),
            final(self).rate() == old(self).rate(),
    {
        let ghost old_out = out@;
        let ghost old_buf = self.buffer@;
        let ghost start = out.len();
        while out.len() < want && self.buffer.len() > 0
            invariant
                start <= out.len() <= want,
                out.len() - start <= old_buf.len(),
                out@ == old_out + old_buf.subrange(0, out.len() - start),
                self.buffer@ == old_buf.subrange(out.len() - start, old_buf.len() as int),
                bounded(ints(old_buf)),
                self.gain == old(self).gain,
                self.loop_audio == old(self).loop_audio,
                self.track_id == old(self).track_id,
                self.source_sample_rate == old(self).source_sample_rate,
            decreases want - out.len(),
        {
            let s = self.buffer.pop_front();
            match s {
                Some(v) => {
                    proof {
                        let n = out.len() - start;
                        assert(old_buf.subrange(0, n + 1) =~= old_buf.subrange(0, n as int).push(v));
                    }
                    out.push(v);
                },
                None => {},
            }
        }
        proof {
            let n = out.len() - start;
            assert(ints(out@) =~= ints(old_out) + ints(old_buf).take(n as int));
            assert(ints(self.buffer@) =~= ints(old_buf).skip(n as int));
            assert(bounded(ints(self.buffer@)));
        }
        out.len() == want
    }
}

/// Fills the rest of `out`, up to `want` samples, with silence.
pub fn pad_silence(out: &mut Vec<i64>, want: usize)
    requires
        old(out).len() <= want,
    ensures
        final(out).len() == want,
        final(out)@ == old(out)@ + Seq::new((want - old(out).len()) as nat, |_i: int| 0i64),
{
    let ghost old_out = out@;
    while out.len() < want
        invariant
            old_out.len() <= out.len() <= want,
            out@ == old_out + Seq::new((out.len() - old_out.len()) as nat, |_i: int| 0i64),
        decreases want - out.len(),
    {
        out.push(0);
        proof {
            assert(old_out + Seq::new((out.len() - old_out.len()) as nat, |_i: int| 0i64) =~= out@);
        }
    }
}

} // verus!
