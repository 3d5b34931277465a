//! From a WAV file, held in memory, through the codec and the downmix to the
//! spectrum: a pure tone appears in its bin.
use ntrancerator::audio::decode::{
    select_track, DecodeOutcome, DecodeSession, DecodeStep, DecodedAudio, PacketRead, PacketStep,
    TrackInfo,
};
use ntrancerator::config::WindowKind;
use ntrancerator::dsp::StftProducer;
use ntrancerator::single::Single;
use realfft::RealFftPlanner;
use std::f32::consts::PI;
use std::io::Cursor;

fn single(x: f32) -> Single {
    Single { bits: x.to_bits() }
}

fn cosine(x: Single) -> Single {
    single(f32::from_bits(x.bits).cos())
}

fn log10(x: Single) -> Single {
    single(f32::from_bits(x.bits).log10())
}

fn spectrum(frame: &Vec<Single>) -> Vec<Single> {
    let fft = RealFftPlanner::<f32>::new().plan_fft_forward(frame.len());
    let mut input: Vec<f32> = frame.iter().map(|x| f32::from_bits(x.bits)).collect();
    let mut output = fft.make_output_vec();
    fft.process(&mut input, &mut output).unwrap();
    output.iter().map(|c| single(c.norm())).collect()
}

/// A stereo 16-bit WAV file with a sine at `freq` Hz on the left and silence on
/// the right, so the downmix keeps the tone at half amplitude.
fn sine_wav(freq: f32, sample_rate: u32, secs: f32) -> Vec<u8> {
    let spec = hound::WavSpec {
        channels: 2,
        sample_rate,
        bits_per_sample: 16,
        sample_format: hound::SampleFormat::Int,
    };
    let mut file = Cursor::new(Vec::new());
    let mut writer = hound::WavWriter::new(&mut file, spec).unwrap();
    let n = (sample_rate as f32 * secs) as usize;
    let amp = i16::MAX as f32 * 0.5;
    for i in 0..n {
        let s = (2.0 * PI * freq * i as f32 / sample_rate as f32).sin();
        writer.write_sample((s * amp) as i16).unwrap(); // left: tone
        writer.write_sample(0i16).unwrap(); // right: silence
    }
    writer.finalize().unwrap();
    file.into_inner()
}

fn decode(bytes: Vec<u8>) -> DecodedAudio {
    let stream = symphonia::core::io::MediaSourceStream::new(Box::new(Cursor::new(bytes)), Default::default());
    let mut format = symphonia::default::get_probe()
        .format(
            &symphonia::core::probe::Hint::new(),
            stream,
            &symphonia::core::formats::FormatOptions::default(),
            &symphonia::core::meta::MetadataOptions::default(),
        )
        .unwrap()
        .format;
    let tracks: Vec<TrackInfo> = format
        .tracks()
        .iter()
        .map(|t| TrackInfo {
            id: t.id,
            decodable: t.codec_params.codec != symphonia::core::codecs::CODEC_TYPE_NULL,
            sample_rate: t.codec_params.sample_rate,
            channels: t.codec_params.channels.map(|c| c.count() as u16),
        })
        .collect();
    let chosen = select_track(&tracks).unwrap();
    let mut decoder = symphonia::default::get_codecs()
        .make(&format.tracks()[chosen].codec_params, &symphonia::core::codecs::DecoderOptions::default())
        .unwrap();
    let mut session = DecodeSession::new(&tracks[chosen]);
    loop {
        let next = format.next_packet();
        let read = match &next {
            Ok(p) => PacketRead::Packet { track_id: p.track_id() },
            Err(symphonia::core::errors::Error::IoError(e)) => PacketRead::IoError {
                unexpected_eof: e.kind() == std::io::ErrorKind::UnexpectedEof,
            },
            Err(symphonia::core::errors::Error::ResetRequired) => PacketRead::ResetRequired,
            Err(_) => PacketRead::OtherError,
        };
        match session.on_packet(read) {
            PacketStep::Decode => {}
            PacketStep::Skip => continue,
            PacketStep::Finish => break,
            PacketStep::Fail => panic!("reading next packet"),
        }
        let outcome = match decoder.decode(&next.unwrap()) {
            Ok(decoded) => {
                let spec = *decoded.spec();
                let mut buf = symphonia::core::audio::SampleBuffer::<f32>::new(decoded.capacity() as u64, spec);
                buf.copy_interleaved_ref(decoded);
                DecodeOutcome::Decoded {
                    sample_rate: spec.rate,
                    channels: spec.channels.count() as u16,
                    samples: buf.samples().iter().map(|&x| single(x)).collect(),
                }
            }
            Err(symphonia::core::errors::Error::DecodeError(_)) => DecodeOutcome::DecodeError,
            Err(_) => DecodeOutcome::OtherError,
        };
        if session.on_decoded(outcome) == DecodeStep::Fail {
            panic!("decoding packet");
        }
    }
    session.finish().unwrap()
}

/// Index of the maximum-magnitude bin.
fn peak_bin(column: &[Single]) -> usize {
    column
        .iter()
        .map(|x| f32::from_bits(x.bits))
        .enumerate()
        .max_by(|a, b| a.1.partial_cmp(&b.1).unwrap())
        .unwrap()
        .0
}

#[test]
fn wav_file_tone_decodes_and_lands_in_expected_bin() {
    let sr = 48_000u32;
    let fft = 2048usize;
    // Put the tone on a bin center to avoid spectral leakage: bin 80 -> 1875 Hz.
    let target_bin = 80;
    let freq = target_bin as f32 * sr as f32 / fft as f32;

    let decoded = decode(sine_wav(freq, sr, 0.5));
    assert_eq!(decoded.sample_rate, sr);
    assert_eq!(decoded.channels, 2);
    let (frames, rate) = decoded.duration_secs();
    assert!(frames as f64 / rate as f64 > 0.4);

    // Downmix to mono and run the STFT, keeping the last completed column.
    let mono = decoded.to_mono();
    let mut producer =
        StftProducer::new(fft, fft / 2, WindowKind::Hann, decoded.sample_rate, &cosine);
    let columns = producer.process(&mono, &spectrum, &log10);

    assert!(!columns.is_empty(), "expected at least one STFT column");
    let last_column = columns.last().unwrap();
    assert_eq!(last_column.len(), fft / 2 + 1);

    let pk = peak_bin(last_column);
    assert_eq!(pk, target_bin, "peak bin {pk} != target {target_bin}");
    // And the peak bin maps back to (approximately) the original pitch.
    assert!((f32::from_bits(producer.bin_to_freq(pk).bits) - freq).abs() < 1.0);
}

#[test]
fn decoded_pitch_tracks_a_different_frequency() {
    // A second frequency lands in a different, correctly-placed bin: the band
    // tracks pitch rather than being pinned to one location.
    let sr = 44_100u32;
    let fft = 4096usize;
    let target_bin = 200; // ~2153 Hz at 44.1k/4096
    let freq = target_bin as f32 * sr as f32 / fft as f32;

    let decoded = decode(sine_wav(freq, sr, 0.5));
    let mono = decoded.to_mono();
    let mut producer =
        StftProducer::new(fft, fft / 2, WindowKind::Hann, decoded.sample_rate, &cosine);
    let columns = producer.process(&mono, &spectrum, &log10);

    let pk = peak_bin(columns.last().unwrap());
    assert!(
        (pk as i32 - target_bin).abs() <= 1,
        "peak bin {pk} != target {target_bin}"
    );
}
