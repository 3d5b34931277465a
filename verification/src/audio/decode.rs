//! Gathering a decoded file.
//!
//! The demuxer and the codec deliver packets and their outcomes one by one; a
//! [`DecodeSession`] decides what to do with each and gathers the samples of the
//! whole file.
use vstd::arithmetic::power2::*;
use vstd::math::*;
use vstd::prelude::*;

use crate::audio;
use crate::audio::{downmix_to_mono, AudioFormat};
use crate::single::Single;

verus! {

/// A fully decoded audio file: interleaved samples at the file's native rate.
#[derive(Clone, Debug)]
pub struct DecodedAudio {
    pub sample_rate: u32,
    pub channels: u16,
    /// Interleaved samples, length is a multiple of `channels`.
    pub interleaved: Vec<Single>,
}

impl DecodedAudio {
    /// The per-channel length.
    pub open spec fn frame_count(self) -> int {
        if self.channels == 0 {
            0
        } else {
            self.interleaved.len() as int / self.channels as int
        }
    }

    /// Number of sample frames (per-channel length).
    pub fn frames(&self) -> (r: usize)
        ensures
            r == self.frame_count(),
    {
        if self.channels == 0 {
            0
        } else {
            self.interleaved.len() / self.channels as usize
        }
    }

    /// Total duration in seconds, as the exact quotient of frames and frames per
    /// second.
    pub fn duration_secs(&self) -> (r: (usize, u32))
        ensures
            r.0 == self.frame_count(),
            r.1 == self.sample_rate,
    {
        (self.frames(), self.sample_rate)
    }

    /// Mono downmix of the whole buffer (averaging channels).
    pub fn to_mono(&self) -> (mono: Vec<Single>)
        ensures
            mono@ == audio::mono(self.interleaved@, self.channels),
    {
        let mut mono: Vec<Single> = Vec::with_capacity(self.frames());
        downmix_to_mono(self.interleaved.as_slice(), self.channels, &mut mono);
        mono
    }
}

/// The frames of a file are as many as its samples make up, channel by channel.
pub proof fn frames_make_up_the_file(audio: DecodedAudio, frames: usize)
    requires
        call_ensures(DecodedAudio::frames, (&audio,), frames),
    ensures
        audio.channels == 0 ==> frames == 0,
        audio.channels > 0 ==> frames * audio.channels <= audio.interleaved.len() < (frames + 1)
            * audio.channels,
{
    if audio.channels > 0 {
        let (len, c) = (audio.interleaved.len() as int, audio.channels as int);
        vstd::arithmetic::div_mod::lemma_fundamental_div_mod(len, c);
        assert(frames * c == c * frames && (frames + 1) * c == c * frames + c)
            by (nonlinear_arith);
    }
}

/// The downmix of a whole file is the mean of each frame, up to rounding, or the file itself
/// where it has one channel (values in units of `2^-149`).
pub proof fn whole_files_are_downmixed_to_means(
    decoded: DecodedAudio,
    mono: Vec<Single>,
    k: int,
    bound: int,
)
    requires
        call_ensures(DecodedAudio::to_mono, (&decoded,), mono),
        decoded.channels > 0,
        bound >= 0,
        2 * decoded.channels * bound < pow2(276),
    ensures
        decoded.channels == 1 ==> mono@ == decoded.interleaved@,
        mono.len() * decoded.channels <= decoded.interleaved.len() < (mono.len() + 1)
            * decoded.channels,
        decoded.channels > 1 && 0 <= k < mono.len() ==> {
            let c = decoded.channels as int;
            let frame = decoded.interleaved@.subrange(k * c, k * c + c);
            audio::bounded(frame, bound) ==> mono[k].finite() && 0x100_0000 * abs(
                c * mono[k].value() - audio::exact_total(frame),
            ) <= (c * c + 6 * c) * bound + 0x80_0000 * c
        },
{
    let (len, c) = (decoded.interleaved@.len() as int, decoded.channels as int);
    let n = len / c;
    vstd::arithmetic::div_mod::lemma_fundamental_div_mod(len, c);
    vstd::arithmetic::div_mod::lemma_div_basics(len);
    assert(n * c == c * n && (n + 1) * c == c * n + c) by (nonlinear_arith);
    if c > 1 && 0 <= k < n {
        assert(k * c >= 0 && k * c + c <= c * n) by (nonlinear_arith)
            requires
                0 <= k,
                k + 1 <= n,
                c > 0,
        ;
        let frame = decoded.interleaved@.subrange(k * c, k * c + c);
        if audio::bounded(frame, bound) {
            audio::lemma_mean(frame, c, bound);
        }
    }
}

/// The downmix of a whole file has one sample per frame.
pub proof fn mono_has_one_sample_per_frame(audio: DecodedAudio)
    requires
        audio.channels > 0,
    ensures
        audio::mono(audio.interleaved@, audio.channels).len() == audio.frame_count(),
{
    vstd::arithmetic::div_mod::lemma_div_basics(audio.interleaved.len() as int);
}

/// As long as every packet holds complete frames, so does what is gathered.
pub proof fn gathering_keeps_frames_whole(before: Seq<Single>, packet: Seq<Single>, channels: int)
    requires
        channels > 0,
        before.len() as int % channels == 0,
        packet.len() as int % channels == 0,
    ensures
        (before + packet).len() as int % channels == 0,
{
    vstd::arithmetic::div_mod::lemma_add_mod_noop(
        before.len() as int,
        packet.len() as int,
        channels,
    );
    vstd::arithmetic::div_mod::lemma_small_mod(0, channels as nat);
}

/// What a container says of one of its tracks.
#[derive(Copy, Clone, Debug)]
pub struct TrackInfo {
    pub id: u32,
    /// The track has a known codec.
    pub decodable: bool,
    pub sample_rate: Option<u32>,
    pub channels: Option<u16>,
}

/// The first decodable track.
pub fn select_track(tracks: &[TrackInfo]) -> (r: Option<usize>)
    ensures
        match r {
            Some(i) => {
                &&& i < tracks@.len()
                &&& tracks@[i as int].decodable
                &&& forall|j: int| 0 <= j < i ==> !(#[trigger] tracks@[j]).decodable
            },
            None => forall|j: int| 0 <= j < tracks@.len() ==> !(#[trigger] tracks@[j]).decodable,
        },
{
    let mut i: usize = 0;
    while i < tracks.len()
        invariant
            i <= tracks@.len(),
            forall|j: int| 0 <= j < i ==> !(#[trigger] tracks@[j]).decodable,
        decreases tracks@.len() - i,
    {
        if tracks[i].decodable {
            return Some(i);
        }
        i = i + 1;
    }
    None
}

/// What came of asking for the next packet.
#[derive(Copy, Clone, Debug, PartialEq, Eq, Structural)]
pub enum PacketRead {
    Packet { track_id: u32 },
    IoError { unexpected_eof: bool },
    ResetRequired,
    OtherError,
}

/// What to do after asking for a packet.
#[derive(Copy, Clone, Debug, PartialEq, Eq, Structural)]
pub enum PacketStep {
    /// Decode the packet.
    Decode,
    /// Leave the packet and ask for the next one.
    Skip,
    /// The stream is at its end.
    Finish,
    /// Give up with the reader's error.
    Fail,
}

/// What came of decoding a packet.
#[derive(Clone, Debug)]
pub enum DecodeOutcome {
    Decoded { sample_rate: u32, channels: u16, samples: Vec<Single> },
    /// The packet is malformed.
    DecodeError,
    OtherError,
}

/// What to do after decoding a packet.
#[derive(Copy, Clone, Debug, PartialEq, Eq, Structural)]
pub enum DecodeStep {
    /// Ask for the next packet.
    Continue,
    /// Give up with the codec's error.
    Fail,
}

/// Nothing playable was decoded.
#[derive(Copy, Clone, Debug, PartialEq, Eq, Structural)]
pub struct NoAudio {
    pub sample_rate: u32,
    pub channels: u16,
    pub samples: usize,
}

/// The samples of the packets that decoded, in order.
pub open spec fn gathered(outcomes: Seq<DecodeOutcome>) -> Seq<Single>
    decreases outcomes.len(),
{
    if outcomes.len() == 0 {
        Seq::empty()
    } else {
        match outcomes.last() {
            DecodeOutcome::Decoded { samples, .. } => gathered(outcomes.drop_last()) + samples@,
            _ => gathered(outcomes.drop_last()),
        }
    }
}

/// The rate and channels of the last packet that decoded, or `announced` where none
/// did.
pub open spec fn last_format(announced: AudioFormat, outcomes: Seq<DecodeOutcome>) -> AudioFormat
    decreases outcomes.len(),
{
    if outcomes.len() == 0 {
        announced
    } else {
        match outcomes.last() {
            DecodeOutcome::Decoded { sample_rate, channels, .. } => AudioFormat {
                sample_rate,
                channels,
            },
            _ => last_format(announced, outcomes.drop_last()),
        }
    }
}

/// A packet that decoded has `channels` channels and holds complete frames.
pub open spec fn whole_packet(outcome: DecodeOutcome, channels: u16) -> bool {
    outcome matches DecodeOutcome::Decoded { channels: c, samples, .. } ==> c == channels
        && samples.len() as int % channels as int == 0
}

/// Taking in `outcome` has led from `before` to `after`.
pub open spec fn taken_in(
    before: DecodeSession,
    outcome: DecodeOutcome,
    after: DecodeSession,
) -> bool {
    &&& after.track_id == before.track_id
    &&& match outcome {
        DecodeOutcome::Decoded { sample_rate, channels, samples } => {
            &&& after.format() == AudioFormat { sample_rate, channels }
            &&& after.interleaved@ == before.interleaved@ + samples@
        },
        _ => after == before,
    }
}

/// A run over a file: outcome `i` leads from `sessions[i]` to `sessions[i + 1]`, and the
/// first session has gathered nothing.
pub open spec fn ran(sessions: Seq<DecodeSession>, outcomes: Seq<DecodeOutcome>) -> bool {
    &&& sessions.len() == outcomes.len() + 1
    &&& sessions[0].interleaved.len() == 0
    &&& forall|i: int|
        0 <= i < outcomes.len() ==> taken_in(
            sessions[i],
            #[trigger] outcomes[i],
            sessions[i + 1],
        )
}

/// After a run, the samples of all packets that decoded have been gathered in order,
/// under the rate and channels of the last of them, for the track that was chosen.
pub proof fn a_run_gathers_every_packet(
    sessions: Seq<DecodeSession>,
    outcomes: Seq<DecodeOutcome>,
)
    requires
        ran(sessions, outcomes),
    ensures
        sessions.last().interleaved@ == gathered(outcomes),
        sessions.last().format() == last_format(sessions[0].format(), outcomes),
        sessions.last().track_id == sessions[0].track_id,
    decreases outcomes.len(),
{
    if outcomes.len() == 0 {
        assert(sessions.last().interleaved@ =~= gathered(outcomes));
    } else {
        let n = outcomes.len() - 1;
        let earlier = outcomes.drop_last();
        assert forall|i: int| 0 <= i < n implies taken_in(
            sessions.drop_last()[i],
            #[trigger] earlier[i],
            sessions.drop_last()[i + 1],
        ) by {
            assert(earlier[i] == outcomes[i]);
        }
        a_run_gathers_every_packet(sessions.drop_last(), earlier);
        assert(taken_in(sessions[n], outcomes[n], sessions[n + 1]));
    }
}

/// A run over packets of complete frames, all of one channel count, gathers complete
/// frames.
pub proof fn whole_packets_make_a_whole_run(
    sessions: Seq<DecodeSession>,
    outcomes: Seq<DecodeOutcome>,
    channels: u16,
)
    requires
        ran(sessions, outcomes),
        channels > 0,
        forall|i: int|
            0 <= i < outcomes.len() ==> whole_packet(#[trigger] outcomes[i], channels),
    ensures
        sessions.last().whole(),
        gathered(outcomes).len() as int % channels as int == 0,
        gathered(outcomes).len() > 0 ==> sessions.last().channels == channels,
    decreases outcomes.len(),
{
    a_run_gathers_every_packet(sessions, outcomes);
    vstd::arithmetic::div_mod::lemma_small_mod(0, channels as nat);
    if outcomes.len() > 0 {
        let n = outcomes.len() - 1;
        let earlier = outcomes.drop_last();
        assert forall|i: int| 0 <= i < n implies taken_in(
            sessions.drop_last()[i],
            #[trigger] earlier[i],
            sessions.drop_last()[i + 1],
        ) && whole_packet(earlier[i], channels) by {
            assert(earlier[i] == outcomes[i]);
        }
        whole_packets_make_a_whole_run(sessions.drop_last(), earlier, channels);
        a_run_gathers_every_packet(sessions.drop_last(), earlier);
        assert(taken_in(sessions[n], outcomes[n], sessions[n + 1]));
        if let DecodeOutcome::Decoded { samples, .. } = outcomes[n] {
            gathering_keeps_frames_whole(gathered(earlier), samples@, channels as int);
        }
    }
}

/// A session starts with nothing but what the container announces of the chosen track, and
/// zero where it is silent.
pub proof fn sessions_start_with_the_announced_format(track: TrackInfo, s: DecodeSession)
    requires
        call_ensures(DecodeSession::new, (&track,), s),
    ensures
        s.track_id == track.id,
        s.interleaved@.len() == 0,
        track.sample_rate is Some ==> s.sample_rate == track.sample_rate->0,
        track.sample_rate is None ==> s.sample_rate == 0,
        track.channels is Some ==> s.channels == track.channels->0,
        track.channels is None ==> s.channels == 0,
{
}

/// A file lasts as long as its frames do at its rate.
pub proof fn files_last_as_long_as_their_frames(audio: DecodedAudio, frames: usize, r: (usize, u32))
    requires
        call_ensures(DecodedAudio::frames, (&audio,), frames),
        call_ensures(DecodedAudio::duration_secs, (&audio,), r),
    ensures
        r == (frames, audio.sample_rate),
{
}

/// What taking in an outcome does: the samples of a packet that decoded are appended one by
/// one, and its rate and channels become the file's; any other outcome changes nothing, and
/// only an error that is not the packet's own ends the run.
pub proof fn packets_are_appended_sample_by_sample(
    s: &mut DecodeSession,
    outcome: DecodeOutcome,
    step: DecodeStep,
    i: int,
)
    requires
        call_ensures(DecodeSession::on_decoded, (s, outcome), step),
    ensures
        final(s).track_id == old(s).track_id,
        step == DecodeStep::Fail <==> outcome is OtherError,
        0 <= i < old(s).interleaved.len() ==> final(s).interleaved[i] == old(s).interleaved[i],
        match outcome {
            DecodeOutcome::Decoded { sample_rate, channels, samples } => {
                &&& final(s).sample_rate == sample_rate && final(s).channels == channels
                &&& final(s).interleaved.len() == old(s).interleaved.len() + samples.len()
                &&& 0 <= i < samples.len() ==> final(s).interleaved[old(s).interleaved.len() + i]
                    == samples[i]
            },
            _ => {
                &&& final(s).sample_rate == old(s).sample_rate
                &&& final(s).channels == old(s).channels
                &&& final(s).interleaved.len() == old(s).interleaved.len()
            },
        },
{
}

/// What asking for a packet leads to: a packet is decoded if and only if it belongs to the
/// chosen track, the end of the input and a required reset end the run, and every other
/// error fails.
pub proof fn packets_of_the_chosen_track_are_decoded(
    s: DecodeSession,
    read: PacketRead,
    step: PacketStep,
)
    requires
        call_ensures(DecodeSession::on_packet, (&s, read), step),
    ensures
        step == PacketStep::Decode <==> read == (PacketRead::Packet { track_id: s.track_id }),
        read is Packet ==> step == PacketStep::Decode || step == PacketStep::Skip,
        step == PacketStep::Finish <==> read is ResetRequired || read == (PacketRead::IoError {
            unexpected_eof: true,
        }),
        step == PacketStep::Fail <==> read is OtherError || read == (PacketRead::IoError {
            unexpected_eof: false,
        }),
{
}

/// A finished file has exactly the samples that were gathered; there is none if and only if
/// the rate, the channels or the samples are missing.
pub proof fn finished_files_hold_what_was_gathered(
    s: DecodeSession,
    r: Result<DecodedAudio, NoAudio>,
)
    requires
        call_ensures(DecodeSession::finish, (s,), r),
    ensures
        r is Err <==> s.sample_rate == 0 || s.channels == 0 || s.interleaved@.len() == 0,
        r is Ok ==> r->Ok_0.interleaved@ == s.interleaved@ && r->Ok_0.sample_rate
            == s.sample_rate && r->Ok_0.channels == s.channels,
        r is Err ==> r->Err_0.sample_rate == s.sample_rate && r->Err_0.channels == s.channels
            && r->Err_0.samples == s.interleaved@.len(),
{
}

/// The chosen track is the first that can be decoded, and one is chosen if there is any.
pub proof fn the_first_decodable_track_is_chosen(tracks: &[TrackInfo], r: Option<usize>, j: int)
    requires
        call_ensures(select_track, (tracks,), r),
        0 <= j < tracks@.len(),
    ensures
        r is Some ==> r->0 < tracks@.len(),
        tracks@[j].decodable ==> r is Some && r->0 <= j,
        r is Some && r->0 == j ==> tracks@[j].decodable,
{
}

/// A file being decoded: the chosen track, the format so far, and the samples so far.
pub struct DecodeSession {
    pub track_id: u32,
    pub sample_rate: u32,
    pub channels: u16,
    pub interleaved: Vec<Single>,
}

impl DecodeSession {
    /// The format so far.
    pub open spec fn format(self) -> AudioFormat {
        AudioFormat { sample_rate: self.sample_rate, channels: self.channels }
    }

    /// The samples gathered so far are complete frames.
    pub open spec fn whole(self) -> bool {
        self.interleaved.len() == 0 || self.channels > 0 && self.interleaved.len() as int
            % self.channels as int == 0
    }

    /// Start with the format that the container announces (zero where it is silent).
    pub fn new(track: &TrackInfo) -> (s: DecodeSession)
        ensures
            s.track_id == track.id,
            s.sample_rate == (match track.sample_rate {
                Some(rate) => rate,
                None => 0,
            }),
            s.channels == (match track.channels {
                Some(channels) => channels,
                None => 0,
            }),
            s.interleaved@ == Seq::<Single>::empty(),
            s.whole(),
    {
        DecodeSession {
            track_id: track.id,
            sample_rate: match track.sample_rate {
                Some(rate) => rate,
                None => 0,
            },
            channels: match track.channels {
                Some(channels) => channels,
                None => 0,
            },
            interleaved: Vec::new(),
        }
    }

    /// Packets of other tracks are skipped. The end of the file shows as an
    /// unexpected end of input, and a required reset ends the stream as well.
    pub fn on_packet(&self, read: PacketRead) -> (step: PacketStep)
        ensures
            step == (match read {
                PacketRead::Packet { track_id } => if track_id == self.track_id {
                    PacketStep::Decode
                } else {
                    PacketStep::Skip
                },
                PacketRead::IoError { unexpected_eof } => if unexpected_eof {
                    PacketStep::Finish
                } else {
                    PacketStep::Fail
                },
                PacketRead::ResetRequired => PacketStep::Finish,
                PacketRead::OtherError => PacketStep::Fail,
            }),
    {
        match read {
            PacketRead::Packet { track_id } => {
                if track_id == self.track_id {
                    PacketStep::Decode
                } else {
                    PacketStep::Skip
                }
            },
            PacketRead::IoError { unexpected_eof } => {
                if unexpected_eof {
                    PacketStep::Finish
                } else {
                    PacketStep::Fail
                }
            },
            PacketRead::ResetRequired => PacketStep::Finish,
            PacketRead::OtherError => PacketStep::Fail,
        }
    }

    /// Decoded samples are appended, and their format becomes the file's. A
    /// malformed packet is recoverable: it is left out.
    pub fn on_decoded(&mut self, outcome: DecodeOutcome) -> (step: DecodeStep)
        ensures
            taken_in(*old(self), outcome, *final(self)),
            match outcome {
                DecodeOutcome::Decoded { channels, samples, .. } => {
                    &&& step == DecodeStep::Continue
                    &&& old(self).whole() && channels > 0 && samples.len() as int % channels as int
                        == 0 && (channels == old(self).channels || old(self).interleaved.len()
                        == 0) ==> final(self).whole()
                },
                DecodeOutcome::DecodeError => step == DecodeStep::Continue,
                DecodeOutcome::OtherError => step == DecodeStep::Fail,
            },
    {
        match outcome {
            DecodeOutcome::Decoded { sample_rate, channels, samples } => {
                proof {
                    if channels > 0 && samples.len() as int % channels as int == 0
                        && self.interleaved.len() as int % channels as int == 0 {
                        gathering_keeps_frames_whole(
                            self.interleaved@,
                            samples@,
                            channels as int,
                        );
                    }
                    if channels > 0 {
                        vstd::arithmetic::div_mod::lemma_small_mod(0, channels as nat);
                    }
                }
                self.sample_rate = sample_rate;
                self.channels = channels;
                let mut samples = samples;
                self.interleaved.append(&mut samples);
                DecodeStep::Continue
            },
            DecodeOutcome::DecodeError => DecodeStep::Continue,
            DecodeOutcome::OtherError => DecodeStep::Fail,
        }
    }

    /// The decoded file, if it has a rate, channels and samples. Complete frames stay
    /// complete frames.
    pub fn finish(self) -> (r: Result<DecodedAudio, NoAudio>)
        ensures
            match r {
                Ok(audio) => {
                    &&& self.sample_rate != 0 && self.channels != 0 && self.interleaved.len() != 0
                    &&& audio.sample_rate == self.sample_rate
                    &&& audio.channels == self.channels
                    &&& audio.interleaved == self.interleaved
                    &&& self.whole() ==> audio.interleaved.len() as int % audio.channels as int == 0
                },
                Err(e) => {
                    &&& self.sample_rate == 0 || self.channels == 0 || self.interleaved.len() == 0
                    &&& e.sample_rate == self.sample_rate
                    &&& e.channels == self.channels
                    &&& e.samples == self.interleaved.len()
                },
            },
    {
        if self.sample_rate == 0 || self.channels == 0 || self.interleaved.len() == 0 {
            return Err(
                NoAudio {
                    sample_rate: self.sample_rate,
                    channels: self.channels,
                    samples: self.interleaved.len(),
                },
            );
        }
        Ok(
            DecodedAudio {
                sample_rate: self.sample_rate,
                channels: self.channels,
                interleaved: self.interleaved,
            },
        )
    }
}

} // verus!
