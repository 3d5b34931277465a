use ntrancerator::audio::decode::{
    select_track, DecodeOutcome, DecodeSession, DecodeStep, DecodedAudio, NoAudio, PacketRead,
    PacketStep, TrackInfo,
};
use ntrancerator::audio::live::{deliver, list_entry, select_device, DeviceChoice, LiveCapture};
use ntrancerator::audio::playback::{Block, Feeder, FilePlayback, Playhead};
use ntrancerator::audio::ring::{drain_samples, push_sample, push_samples};
use ntrancerator::audio::{
    analysis_ring, downmix_to_mono, ring_capacity, AudioFormat, RingSource, Source,
};
use ntrancerator::single::Single;

fn single(x: f32) -> Single {
    Single { bits: x.to_bits() }
}

fn singles(xs: &[f32]) -> Vec<Single> {
    xs.iter().map(|&x| single(x)).collect()
}

fn floats(xs: &[Single]) -> Vec<f32> {
    xs.iter().map(|x| f32::from_bits(x.bits)).collect()
}

#[test]
fn downmix_stereo_averages_channels() {
    let mut out = Vec::new();
    // L/R interleaved: (1,-1) -> 0, (0.5,0.5) -> 0.5.
    downmix_to_mono(&singles(&[1.0, -1.0, 0.5, 0.5]), 2, &mut out);
    assert_eq!(floats(&out), vec![0.0, 0.5]);
}

#[test]
fn downmix_mono_is_passthrough() {
    let mut out = Vec::new();
    downmix_to_mono(&singles(&[0.1, 0.2, 0.3]), 1, &mut out);
    assert_eq!(floats(&out), vec![0.1, 0.2, 0.3]);
}

#[test]
fn downmix_ignores_partial_trailing_frame() {
    let mut out = Vec::new();
    // 5 samples, 2 channels: last lone sample is dropped.
    downmix_to_mono(&singles(&[1.0, 1.0, 2.0, 2.0, 9.0]), 2, &mut out);
    assert_eq!(floats(&out), vec![1.0, 2.0]);
}

#[test]
fn downmix_appends_to_existing() {
    let mut out = vec![single(42.0)];
    downmix_to_mono(&singles(&[1.0, 3.0]), 2, &mut out);
    assert_eq!(floats(&out), vec![42.0, 2.0]);
}

#[test]
fn ring_capacity_takes_the_larger_term() {
    // fft term dominates at low rates...
    assert_eq!(ring_capacity(2048, 8_000), 2048 * 4);
    // ...rate term dominates at high rates.
    assert_eq!(ring_capacity(2048, 192_000), 48_000);
}

#[test]
fn analysis_ring_has_expected_slots() {
    let (prod, _cons) = analysis_ring(2048, 48_000);
    assert_eq!(prod.slots(), ring_capacity(2048, 48_000));
}

#[test]
fn frames_and_duration_are_consistent() {
    let a = DecodedAudio {
        sample_rate: 1000,
        channels: 2,
        interleaved: vec![single(0.0); 4000], // 2000 frames
    };
    assert_eq!(a.frames(), 2000);
    let (frames, rate) = a.duration_secs();
    assert!((frames as f64 / rate as f64 - 2.0).abs() < 1e-9);
    assert_eq!(a.to_mono().len(), 2000);
}

#[test]
fn no_channels_means_no_frames() {
    let a = DecodedAudio { sample_rate: 1000, channels: 0, interleaved: singles(&[1.0, 2.0]) };
    assert_eq!(a.frames(), 0);
    assert_eq!(floats(&a.to_mono()), vec![1.0, 2.0]);
}

#[test]
fn downmix_is_that_of_float_arithmetic() {
    for ch in 1..7u16 {
        let xs: Vec<f32> = (0..600).map(|i| ((i * 37 % 101) as f32 - 50.0) / 77.0).collect();
        let mut out = Vec::new();
        downmix_to_mono(&singles(&xs), ch, &mut out);
        let expected: Vec<f32> = if ch == 1 {
            xs.clone()
        } else {
            let inv = 1.0 / ch as f32;
            xs.chunks_exact(ch as usize).map(|f| f.iter().sum::<f32>() * inv).collect()
        };
        assert_eq!(floats(&out), expected);
    }
}

#[test]
fn zeros_keep_their_sign_in_the_downmix() {
    for frame in [[-0.0f32, -0.0], [0.0, -0.0], [-0.0, 0.0], [0.0, 0.0], [1.0, -1.0]] {
        let mut out = Vec::new();
        downmix_to_mono(&singles(&frame), 2, &mut out);
        let expected = frame.iter().sum::<f32>() * (1.0 / 2.0);
        assert_eq!(out[0].bits, expected.to_bits(), "{frame:?}");
    }
}

#[test]
fn downmixing_whole_frames_in_pieces_changes_nothing() {
    let xs: Vec<f32> = (0..60).map(|i| i as f32 * 0.01).collect();
    let mut whole = Vec::new();
    downmix_to_mono(&singles(&xs), 3, &mut whole);
    let mut pieces = Vec::new();
    downmix_to_mono(&singles(&xs[..12]), 3, &mut pieces);
    downmix_to_mono(&singles(&xs[12..]), 3, &mut pieces);
    assert_eq!(whole, pieces);
}

#[test]
fn ring_gives_back_what_was_pushed_in_order() {
    let (mut producer, mut consumer) = analysis_ring(4, 8);
    assert_eq!(push_samples(&mut producer, &singles(&[0.25, -0.5, 1.0])), 3);
    assert_eq!(floats(&drain_samples(&mut consumer)), vec![0.25, -0.5, 1.0]);
    assert!(drain_samples(&mut consumer).is_empty());
    assert_eq!(push_samples(&mut producer, &singles(&[2.0])), 1);
    assert_eq!(floats(&drain_samples(&mut consumer)), vec![2.0]);
}

#[test]
fn full_ring_drops_samples() {
    // Sixteen slots.
    let (mut producer, mut consumer) = analysis_ring(4, 8);
    let xs: Vec<f32> = (0..20).map(|i| i as f32).collect();
    assert_eq!(push_samples(&mut producer, &singles(&xs)), 16);
    assert_eq!(floats(&drain_samples(&mut consumer)), xs[..16].to_vec());
}

#[test]
fn recorded_blocks_are_delivered_as_mono() {
    let (mut producer, mut consumer) = analysis_ring(2048, 48_000);
    assert_eq!(deliver(&singles(&[1.0, 0.0, 0.5, 0.25, 7.0]), 2, &mut producer), 2);
    assert_eq!(floats(&drain_samples(&mut consumer)), vec![0.5, 0.375]);
}

#[test]
fn sources_report_their_format_and_ring() {
    let (mut producer, consumer) = analysis_ring(16, 8_000);
    let mut live = LiveCapture { sample_rate: 8_000, channels: 1, consumer, stream: () };
    assert_eq!(live.format(), AudioFormat { sample_rate: 8_000, channels: 1 });
    push_samples(&mut producer, &singles(&[0.125]));
    assert_eq!(floats(&drain_samples(live.consumer())), vec![0.125]);

    let (mut producer, consumer) = analysis_ring(16, 44_100);
    let mut file: FilePlayback<(), ()> = FilePlayback {
        sample_rate: 44_100,
        channels: 2,
        consumer,
        stream: None,
        feeder: None,
    };
    assert_eq!(file.sample_rate(), 44_100);
    assert_eq!(file.channels(), 2);
    assert_eq!(file.format(), AudioFormat { sample_rate: 44_100, channels: 2 });
    push_samples(&mut producer, &singles(&[-0.125]));
    assert_eq!(floats(&drain_samples(file.consumer())), vec![-0.125]);
}

#[test]
fn devices_are_chosen_by_index_or_name() {
    let names = vec![
        Some("Built-in Microphone".to_string()),
        None,
        Some("USB Sampler".to_string()),
        Some("USB Sampler 7".to_string()),
    ];
    assert_eq!(select_device(&names, None), DeviceChoice::Default);
    assert_eq!(select_device(&names, Some("1")), DeviceChoice::Index(1));
    assert_eq!(select_device(&names, Some("+3")), DeviceChoice::Index(3));
    assert_eq!(select_device(&names, Some("USB")), DeviceChoice::Index(2));
    // Case matters, and a number beyond the list is looked for in the names.
    assert_eq!(select_device(&names, Some("usb")), DeviceChoice::NoMatch);
    assert_eq!(select_device(&names, Some("7")), DeviceChoice::Index(3));
    assert_eq!(select_device(&names, Some("9")), DeviceChoice::NoMatch);
    // Everything contains the empty text.
    assert_eq!(select_device(&names, Some("")), DeviceChoice::Index(0));
    assert_eq!(select_device(&[], Some("x")), DeviceChoice::NoMatch);
    // A name that contains the number comes before the place in the list.
    let names = vec![Some("Sampler 1".to_string()), Some("Microphone".to_string())];
    assert_eq!(select_device(&names, Some("1")), DeviceChoice::Index(0));
    assert_eq!(select_device(&names, Some("0")), DeviceChoice::Index(0));
    assert_eq!(select_device(&names, Some("+1")), DeviceChoice::Index(1));
}

#[test]
fn the_default_device_is_marked() {
    let default = Some("A".to_string());
    assert_eq!(list_entry(Some("A".to_string()), &default), ("A".to_string(), true));
    assert_eq!(list_entry(Some("B".to_string()), &default), ("B".to_string(), false));
    assert_eq!(list_entry(None, &default), ("<unknown>".to_string(), false));
    assert_eq!(list_entry(Some("A".to_string()), &None), ("A".to_string(), false));
}

fn track(id: u32, decodable: bool) -> TrackInfo {
    TrackInfo { id, decodable, sample_rate: Some(48_000), channels: Some(2) }
}

#[test]
fn the_first_decodable_track_is_chosen() {
    assert_eq!(select_track(&[]), None);
    assert_eq!(select_track(&[track(1, false)]), None);
    assert_eq!(select_track(&[track(1, false), track(2, true), track(3, true)]), Some(1));
}

#[test]
fn packets_are_sorted_out() {
    let s = DecodeSession::new(&track(2, true));
    assert_eq!(s.on_packet(PacketRead::Packet { track_id: 2 }), PacketStep::Decode);
    assert_eq!(s.on_packet(PacketRead::Packet { track_id: 1 }), PacketStep::Skip);
    let eof = PacketRead::IoError { unexpected_eof: true };
    assert_eq!(s.on_packet(eof), PacketStep::Finish);
    let broken = PacketRead::IoError { unexpected_eof: false };
    assert_eq!(s.on_packet(broken), PacketStep::Fail);
    assert_eq!(s.on_packet(PacketRead::ResetRequired), PacketStep::Finish);
    assert_eq!(s.on_packet(PacketRead::OtherError), PacketStep::Fail);
}

#[test]
fn decoded_packets_are_gathered_and_malformed_ones_left_out() {
    let mut s = DecodeSession::new(&TrackInfo {
        id: 0,
        decodable: true,
        sample_rate: None,
        channels: None,
    });
    let packet = |xs: &[f32]| DecodeOutcome::Decoded {
        sample_rate: 44_100,
        channels: 2,
        samples: singles(xs),
    };
    assert_eq!(s.on_decoded(packet(&[1.0, 2.0])), DecodeStep::Continue);
    assert_eq!(s.on_decoded(DecodeOutcome::DecodeError), DecodeStep::Continue);
    assert_eq!(s.on_decoded(packet(&[3.0, 4.0])), DecodeStep::Continue);
    assert_eq!(s.on_decoded(DecodeOutcome::OtherError), DecodeStep::Fail);
    let audio = s.finish().unwrap();
    assert_eq!(audio.sample_rate, 44_100);
    assert_eq!(audio.channels, 2);
    assert_eq!(floats(&audio.interleaved), vec![1.0, 2.0, 3.0, 4.0]);
}

#[test]
fn nothing_decoded_is_an_error() {
    let s = DecodeSession::new(&track(0, true));
    assert_eq!(
        s.finish().unwrap_err(),
        NoAudio { sample_rate: 48_000, channels: 2, samples: 0 }
    );
    let mut s = DecodeSession::new(&track(0, true));
    let outcome =
        DecodeOutcome::Decoded { sample_rate: 0, channels: 1, samples: singles(&[1.0]) };
    s.on_decoded(outcome);
    assert_eq!(s.finish().unwrap_err(), NoAudio { sample_rate: 0, channels: 1, samples: 1 });
}

fn stereo(n: usize) -> DecodedAudio {
    DecodedAudio {
        sample_rate: 48_000,
        channels: 2,
        interleaved: (0..n).map(|i| single(i as f32)).collect(),
    }
}

#[test]
fn playback_ends_in_silence() {
    // Seven samples: three complete frames.
    let mut head = Playhead::new(stereo(7));
    let mut block = Block::new();
    head.fill(4, &mut block);
    let expected: Vec<_> = singles(&[0.0, 1.0, 2.0, 3.0]).into_iter().map(Some).collect();
    assert_eq!(block.slots, expected);
    assert_eq!(floats(&block.mono), vec![0.5, 2.5]);
    head.fill(4, &mut block);
    assert_eq!(block.slots, vec![Some(single(4.0)), Some(single(5.0)), None, None]);
    assert_eq!(floats(&block.mono), vec![4.5]);
    head.fill(2, &mut block);
    assert_eq!(block.slots, vec![None, None]);
    assert!(block.mono.is_empty());
}

#[test]
fn a_cut_frame_still_advances_by_a_whole_one() {
    let mut head = Playhead::new(stereo(6));
    let mut block = Block::new();
    head.fill(3, &mut block);
    assert_eq!(block.slots, vec![Some(single(0.0)), Some(single(1.0)), Some(single(2.0))]);
    // The second frame has only its first channel in the block.
    assert_eq!(floats(&block.mono), vec![0.5, 1.0]);
    head.fill(2, &mut block);
    assert_eq!(block.slots, vec![Some(single(4.0)), Some(single(5.0))]);
}

#[test]
fn blocks_and_one_block_play_the_same() {
    let mut whole = Playhead::new(stereo(101));
    let mut all = Block::new();
    whole.fill(120, &mut all);
    let mut parts = Playhead::new(stereo(101));
    let mut slots = Vec::new();
    let mut mono = Vec::new();
    let mut block = Block::new();
    for n in [2usize, 10, 48, 60] {
        parts.fill(n, &mut block);
        slots.extend_from_slice(&block.slots);
        mono.extend_from_slice(&block.mono);
    }
    assert_eq!(all.slots, slots);
    assert_eq!(all.mono, mono);
}

#[test]
fn a_block_of_the_same_length_is_filled_in_place() {
    let mut head = Playhead::new(stereo(64));
    let mut block = Block::new();
    head.fill(16, &mut block);
    let (slots, mono) = (block.slots.as_ptr(), block.mono.as_ptr());
    for _ in 0..5 {
        head.fill(16, &mut block);
        assert_eq!(block.slots.as_ptr(), slots);
        assert_eq!(block.mono.as_ptr(), mono);
    }
}

#[test]
fn feeding_pushes_the_whole_file_in_order() {
    let decoded = DecodedAudio {
        sample_rate: 1_050,
        channels: 1,
        interleaved: (0..35).map(|i| single(i as f32)).collect(),
    };
    let (mut producer, mut consumer) = analysis_ring(1024, 1_050);
    let mut feeder = Feeder::new(&decoded);
    let mut sent = Vec::new();
    while let Some(n) = feeder.feed(&mut producer) {
        sent.push(n);
    }
    // Pieces of 10 ms.
    assert_eq!(sent, vec![10, 20, 30, 35]);
    assert_eq!(drain_samples(&mut consumer), decoded.interleaved);
    assert_eq!(feeder.feed(&mut producer), None);
}

#[test]
fn pieces_last_ten_milliseconds() {
    for rate in (1..4_000u32).chain([8_000, 11_025, 44_100, 48_000, 96_000, 192_000, u32::MAX]) {
        let chunk = (rate as f64 * 0.01).max(1.0) as usize;
        let decoded = DecodedAudio {
            sample_rate: rate,
            channels: 1,
            interleaved: vec![single(0.0); 50],
        };
        let (mut producer, _consumer) = analysis_ring(64, 48_000);
        let mut feeder = Feeder::new(&decoded);
        assert_eq!(feeder.feed(&mut producer), Some(chunk.min(50)), "{rate}");
    }
}

#[test]
fn single_samples_enter_the_ring_until_it_is_full() {
    let (mut producer, mut consumer) = analysis_ring(1, 16);
    for i in 0..4 {
        assert!(push_sample(&mut producer, single(i as f32)));
    }
    assert!(!push_sample(&mut producer, single(4.0)));
    assert_eq!(floats(&drain_samples(&mut consumer)), vec![0.0, 1.0, 2.0, 3.0]);
    assert!(push_sample(&mut producer, single(5.0)));
    assert_eq!(floats(&drain_samples(&mut consumer)), vec![5.0]);
}

#[test]
fn whole_packets_make_a_whole_file() {
    for channels in [1u16, 2, 3, 6] {
        let mut s = DecodeSession::new(&track(1, true));
        for frames in [1usize, 0, 7, 100] {
            let samples = singles(&vec![0.5; frames * channels as usize]);
            s.on_decoded(DecodeOutcome::Decoded { sample_rate: 48_000, channels, samples });
            s.on_decoded(DecodeOutcome::DecodeError);
        }
        let audio = s.finish().unwrap();
        assert_eq!(audio.interleaved.len() % channels as usize, 0);
        assert_eq!(audio.frames(), 108);
    }
}

#[test]
fn a_run_gathers_every_packet_that_decodes() {
    let mut s = DecodeSession::new(&track(3, true));
    let packet = |sample_rate: u32, channels: u16, xs: &[f32]| DecodeOutcome::Decoded {
        sample_rate,
        channels,
        samples: singles(xs),
    };
    for outcome in [
        DecodeOutcome::DecodeError,
        packet(8_000, 1, &[1.0, 2.0]),
        packet(8_000, 1, &[]),
        DecodeOutcome::DecodeError,
        packet(44_100, 2, &[3.0, 4.0]),
        packet(44_100, 2, &[5.0, 6.0, 7.0, 8.0]),
    ] {
        assert_eq!(s.on_decoded(outcome), DecodeStep::Continue);
    }
    assert_eq!(s.on_decoded(DecodeOutcome::OtherError), DecodeStep::Fail);
    assert_eq!((s.track_id, s.sample_rate, s.channels), (3, 44_100, 2));
    let audio = s.finish().unwrap();
    assert_eq!(floats(&audio.interleaved), vec![1.0, 2.0, 3.0, 4.0, 5.0, 6.0, 7.0, 8.0]);
}
