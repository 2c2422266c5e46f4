//! Decoded audio: the decisions taken while a track is decoded, and the
//! samples of one channel that the spectrogram is made from.
//!
//! Samples are a type parameter: the decoder produces floating-point samples
//! outside this library, which only moves them around.

use vstd::prelude::*;

verus! {

/// A decoded track: interleaved samples of every channel.
pub struct DecodedAudio<S> {
    pub samples: Vec<S>,
    pub channels: usize,
    pub sample_rate: u32,
    pub bits_per_sample: Option<u32>,
}

// ---------------------------------------------------------------------------
// Decoding
// ---------------------------------------------------------------------------

/// The first track whose codec is known, given for each track whether its
/// codec is unknown.
pub fn first_decodable_track(codec_unknown: &Vec<bool>) -> (r: Result<usize, String>)
    ensures
        r matches Ok(i) ==> i < codec_unknown@.len() && !codec_unknown@[i as int] && forall|k: int|
            0 <= k < i ==> #[trigger] codec_unknown@[k],
        r is Err <==> forall|k: int| 0 <= k < codec_unknown@.len() ==> #[trigger] codec_unknown@[k],
        r matches Err(m) ==> m@ == "no supported audio track found"@,
{
    let mut i: usize = 0;
    while i < codec_unknown.len()
        invariant
            i <= codec_unknown@.len(),
            forall|k: int| 0 <= k < i ==> #[trigger] codec_unknown@[k],
        decreases codec_unknown@.len() - i,
    {
        if !codec_unknown[i] {
            return Ok(i);
        }
        i = i + 1;
    }
    Err(String::from_str("no supported audio track found"))
}

/// The channel count and sample rate of the chosen track, which must both be
/// known (the channel count is checked first).
pub fn track_format(channels: Option<usize>, sample_rate: Option<u32>) -> (r: Result<(usize, u32), String>)
    ensures
        match (channels, sample_rate) {
            (Some(c), Some(s)) => r == Ok::<(usize, u32), String>((c, s)),
            (None, _) => r matches Err(m) && m@ == "No channels metadata"@,
            (Some(_), None) => r matches Err(m) && m@ == "No sample rate metadata"@,
        },
{
    match channels {
        None => Err(String::from_str("No channels metadata")),
        Some(c) => match sample_rate {
            None => Err(String::from_str("No sample rate metadata")),
            Some(s) => Ok((c, s)),
        },
    }
}

/// The outcome of reading the next packet of the container.
pub enum PacketRead {
    /// A packet of the given track.
    Packet { track_id: u32 },
    /// The container ended (the read hit the end of the file).
    EndOfStream,
    /// The read failed, with the reason.
    Failed(String),
}

/// What to do with what was read.
pub enum PacketStep {
    /// The packet belongs to the chosen track: decode it.
    Decode,
    /// The packet belongs to another track: read on.
    Skip,
    /// The track is complete.
    Finish,
    /// Decoding fails, with the reason.
    Fail(String),
}

/// The outcome of decoding one packet.
pub enum PacketDecode<S> {
    /// The packet's samples, interleaved.
    Samples(Vec<S>),
    /// A damaged or unreadable packet: it is dropped.
    Damaged,
    /// Any other decoder error, with the reason.
    Failed(String),
}

/// Collects the samples of the chosen track, packet after packet.
pub struct DecodeSession<S> {
    pub track_id: u32,
    pub samples: Vec<S>,
}

impl<S> DecodeSession<S> {
    /// A session that decodes track `track_id`, with no samples yet.
    pub fn new(track_id: u32) -> (s: Self)
        ensures
            s.track_id == track_id,
            s.samples@.len() == 0,
    {
        DecodeSession { track_id, samples: Vec::new() }
    }

    /// What to do with the outcome of a read: decode packets of the chosen
    /// track, skip those of other tracks, finish at the end of the file and
    /// fail on any other read error.
    pub fn on_read(&self, read: PacketRead) -> (step: PacketStep)
        ensures
            match read {
                PacketRead::Packet { track_id } => if track_id == self.track_id {
                    step is Decode
                } else {
                    step is Skip
                },
                PacketRead::EndOfStream => step is Finish,
                PacketRead::Failed(e) => step == PacketStep::Fail(e),
            },
    {
        match read {
            PacketRead::Packet { track_id } => {
                if track_id == self.track_id {
                    PacketStep::Decode
                } else {
                    PacketStep::Skip
                }
            },
            PacketRead::EndOfStream => PacketStep::Finish,
            PacketRead::Failed(e) => PacketStep::Fail(e),
        }
    }

    /// Takes in a decoded packet: its samples are appended, a damaged packet
    /// is dropped, and any other decoder error ends decoding with its reason.
    pub fn on_decoded(&mut self, decoded: PacketDecode<S>) -> (r: Result<(), String>)
        ensures
            final(self).track_id == old(self).track_id,
            match decoded {
                PacketDecode::Samples(v) => r is Ok && final(self).samples@ == old(self).samples@
                    + v@,
                PacketDecode::Damaged => r is Ok && final(self).samples@ == old(self).samples@,
                PacketDecode::Failed(e) => r == Err::<(), String>(e) && final(self).samples@ == old(
                    self,
                ).samples@,
            },
    {
        match decoded {
            PacketDecode::Samples(v) => {
                let mut v = v;
                self.samples.append(&mut v);
                Ok(())
            },
            PacketDecode::Damaged => Ok(()),
            PacketDecode::Failed(e) => Err(e),
        }
    }

    /// The decoded track; a track that gave no sample at all is an error.
    pub fn finish(self, channels: usize, sample_rate: u32, bits_per_sample: Option<u32>) -> (r: Result<DecodedAudio<S>, String>)
        ensures
            r is Err <==> self.samples@.len() == 0,
            r matches Err(m) ==> m@ == "Could not parse any valid audio samples from the file."@,
            r matches Ok(a) ==> {
                &&& a.samples@ == self.samples@
                &&& a.channels == channels
                &&& a.sample_rate == sample_rate
                &&& a.bits_per_sample == bits_per_sample
            },
    {
        if self.samples.len() == 0 {
            return Err(String::from_str("Could not parse any valid audio samples from the file."));
        }
        Ok(DecodedAudio { samples: self.samples, channels, sample_rate, bits_per_sample })
    }
}

// ---------------------------------------------------------------------------
// The samples shown
// ---------------------------------------------------------------------------

/// Channel `channel` of interleaved samples with `channels` channels (an
/// incomplete last frame is left out).
pub open spec fn channel_of<S>(samples: Seq<S>, channels: nat, channel: nat) -> Seq<S> {
    Seq::new(samples.len() / channels, |i: int| samples[i * channels + channel])
}

/// The samples of one channel.
pub fn extract_channel<S: Copy>(samples: &Vec<S>, channels: usize, channel: usize) -> (out: Vec<S>)
    requires
        channels > 0,
        samples@.len() >= channels ==> channel < channels,
    ensures
        out@ == channel_of(samples@, channels as nat, channel as nat),
{
    let len = samples.len();
    let frames = len / channels;
    let mut out: Vec<S> = Vec::new();
    for i in 0..frames
        invariant
            len == samples@.len(),
            channels > 0,
            samples@.len() >= channels ==> channel < channels,
            frames == samples@.len() / (channels as nat),
            out@ =~= channel_of(samples@, channels as nat, channel as nat).take(i as int),
    {
        proof {
            assert(samples@.len() >= channels) by (nonlinear_arith)
                requires
                    i < frames,
                    frames == samples@.len() / (channels as nat),
                    channels > 0,
            ;
            assert(i * channels + channel < samples@.len()) by (nonlinear_arith)
                requires
                    i < frames,
                    frames == samples@.len() / (channels as nat),
                    channels > 0,
                    channel < channels,
            ;
        }
        out.push(samples[i * channels + channel]);
    }
    out
}

/// The window `[start, end)` of a channel of `total` samples shown when the
/// view spans the raw sample positions `start_raw..end_raw`: both ends are
/// kept within the samples, and a window shorter than one FFT is widened to
/// one FFT (towards the start when it ends at the last sample, towards the
/// end otherwise) when the channel is long enough.
pub open spec fn view_window_spec(total: nat, start_raw: nat, end_raw: nat, fft_size: nat) -> (nat, nat) {
    let start = if start_raw < total { start_raw } else { total };
    let end = if end_raw < total { end_raw } else { total };
    if end - start < fft_size && total >= fft_size {
        if end == total {
            ((total - fft_size) as nat, end)
        } else {
            (start, start + fft_size)
        }
    } else {
        (start, end)
    }
}

/// What the window of the view is, case by case, with `start` and `end` the
/// view's ends kept within the samples: a window at least one FFT long, or on
/// a channel shorter than one FFT, is kept as it is; a shorter window that
/// ends at the last sample is moved back to end there one FFT long; any
/// other shorter window keeps its start and is lengthened to one FFT.
pub proof fn lemma_view_window_cases(total: nat, start_raw: nat, end_raw: nat, fft_size: nat)
    ensures
        ({
            let start = if start_raw <= total { start_raw } else { total };
            let end = if end_raw <= total { end_raw } else { total };
            let w = view_window_spec(total, start_raw, end_raw, fft_size);
            &&& (end - start >= fft_size || total < fft_size) ==> w == (start, end)
            &&& (end - start < fft_size && total >= fft_size && end == total) ==> w.1 == total
                && w.1 - w.0 == fft_size
            &&& (end - start < fft_size && total >= fft_size && end != total) ==> w.0 == start
                && w.1 - w.0 == fft_size
        }),
{
}

/// The view can be cut out of the samples: the raw window is in order, and a
/// short window that is widened towards its end still ends within the
/// samples.
pub open spec fn view_window_fits(total: nat, start_raw: nat, end_raw: nat, fft_size: nat) -> bool {
    let start = if start_raw < total { start_raw } else { total };
    let end = if end_raw < total { end_raw } else { total };
    &&& start_raw <= end_raw
    &&& (end - start < fft_size && total >= fft_size && end != total) ==> start + fft_size <= total
}

/// The window of the samples that the view shows.
pub fn view_window(total: usize, start_raw: usize, end_raw: usize, fft_size: usize) -> (r: (usize, usize))
    requires
        view_window_fits(total as nat, start_raw as nat, end_raw as nat, fft_size as nat),
    ensures
        (r.0 as nat, r.1 as nat) == view_window_spec(
            total as nat,
            start_raw as nat,
            end_raw as nat,
            fft_size as nat,
        ),
        r.0 <= r.1 <= total,
        total >= fft_size ==> r.1 - r.0 >= fft_size,
        ({
            let start = if start_raw <= total { start_raw } else { total };
            let end = if end_raw <= total { end_raw } else { total };
            &&& (end - start >= fft_size || total < fft_size) ==> r == (start, end)
            &&& (end - start < fft_size && total >= fft_size && end == total) ==> r.1 == total
                && r.1 - r.0 == fft_size
            &&& (end - start < fft_size && total >= fft_size && end != total) ==> r.0 == start
                && r.1 - r.0 == fft_size
        }),
{
    let mut start = if start_raw < total {
        start_raw
    } else {
        total
    };
    let mut end = if end_raw < total {
        end_raw
    } else {
        total
    };
    if end - start < fft_size {
        if total >= fft_size {
            if end == total {
                start = total - fft_size;
            } else {
                end = start + fft_size;
            }
        }
    }
    (start, end)
}

/// The samples the spectrogram is made from: channel `channel` of the track,
/// cut to the view's window when the view is zoomed (`zoom` holds the raw
/// sample positions the view spans).
pub fn get_current_samples<S: Copy>(
    audio: &DecodedAudio<S>,
    channel: usize,
    zoom: Option<(usize, usize)>,
    fft_size: usize,
) -> (out: Vec<S>)
    requires
        audio.channels > 0,
        audio.samples@.len() >= audio.channels ==> channel < audio.channels,
        zoom matches Some((s, e)) ==> view_window_fits(
            audio.samples@.len() / (audio.channels as nat),
            s as nat,
            e as nat,
            fft_size as nat,
        ),
    ensures
        ({
            let all = channel_of(audio.samples@, audio.channels as nat, channel as nat);
            match zoom {
                None => out@ == all,
                Some((s, e)) => {
                    let w = view_window_spec(all.len(), s as nat, e as nat, fft_size as nat);
                    out@ == all.subrange(w.0 as int, w.1 as int)
                },
            }
        }),
{
    let all = extract_channel(&audio.samples, audio.channels, channel);
    match zoom {
        None => all,
        Some((s, e)) => {
            let (start, end) = view_window(all.len(), s, e, fft_size);
            let mut out: Vec<S> = Vec::new();
            for i in start..end
                invariant
                    start <= end <= all@.len(),
                    out@ =~= all@.subrange(start as int, i as int),
            {
                out.push(all[i]);
            }
            out
        },
    }
}

} // verus!
