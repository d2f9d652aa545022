use std::path::PathBuf;

use speech2text::audio::{
    choose_cut, clean_copy, full_filter, source_args, split_segments, transcription_filter, DecodeAction,
    DecodeEvent, Decoding, DENOISE_FILTER, HALF_WINDOW, PASSTHROUGH_FILTER, SAMPLE_RATE, WINDOW,
};

fn energy(window: &[f32]) -> u32 {
    window.iter().map(|x| x * x).sum::<f32>().to_bits()
}

/// Splits by seconds with floating-point energies, window by window.
fn reference(samples: &[f32], target: usize, search: usize) -> Vec<(usize, usize)> {
    let n = samples.len();
    let win: usize = 320;
    let mut segments = Vec::new();
    let mut pos: usize = 0;
    while pos < n {
        let ideal = pos + target;
        if ideal >= n {
            segments.push((pos, n));
            break;
        }
        let lo = ideal.saturating_sub(search).max(pos + 1);
        let hi = (ideal + search).min(n - win);
        let mut best = ideal;
        let mut best_energy = f32::MAX;
        let mut c = lo;
        while c <= hi {
            let e: f32 = samples[c..c + win].iter().map(|x| x * x).sum();
            if e < best_energy {
                best_energy = e;
                best = c + win / 2;
            }
            c += win;
        }
        segments.push((pos, best));
        pos = best;
    }
    segments
}

fn noise(len: usize) -> Vec<f32> {
    let mut x: u32 = 12345;
    let mut v = Vec::new();
    for _ in 0..len {
        x = x.wrapping_mul(1_664_525).wrapping_add(1_013_904_223);
        v.push((x >> 8) as f32 / 16_777_216.0 - 0.5);
    }
    v
}

#[test]
fn splits_like_the_plain_loop() {
    for len in [1usize, 319, 320, 5_000, 16_000, 40_000, 100_001] {
        let samples = noise(len);
        for (target, search) in [(16_000usize, 3_200usize), (8_000, 32_000), (50_000, 0), (4_000, 7)] {
            let segments = split_segments(&samples, target, search, energy);
            assert_eq!(segments, reference(&samples, target, search));
        }
    }
}

#[test]
fn no_sample_is_lost() {
    let samples = noise(100_000);
    let segments = split_segments(&samples, 16_000, 3_200, energy);
    let mut joined: Vec<f32> = Vec::new();
    for &(start, end) in &segments {
        assert!(start < end);
        joined.extend_from_slice(&samples[start..end]);
    }
    assert_eq!(joined, samples);
    for &(start, end) in &segments[..segments.len() - 1] {
        assert!(end - start <= 16_000 + 3_200 + HALF_WINDOW);
        assert!(end - start >= 16_000 - 3_200 + HALF_WINDOW);
    }
    let (start, end) = segments[segments.len() - 1];
    assert!(end - start <= 16_000);
}

#[test]
fn later_cuts_depend_on_what_follows() {
    let samples = noise(100_001);
    for (target, search) in [(16_000usize, 3_200usize), (8_000, 32_000), (4_000, 7)] {
        let segments = split_segments(&samples, target, search, energy);
        assert!(segments.len() >= 2);
        let end = segments[0].1;
        let behind: Vec<(usize, usize)> =
            segments[1..].iter().map(|&(a, b)| (a - end, b - end)).collect();
        assert_eq!(split_segments(&samples[end..], target, search, energy), behind);
    }
}

#[test]
fn the_cut_is_in_the_silence() {
    let mut samples = vec![0.5f32; 40_000];
    for x in &mut samples[15_000..16_000] {
        *x = 0.0;
    }
    let segments = split_segments(&samples, 16_000, 3_200, energy);
    // The windows start at 12 800 and every 320 samples from there on.
    assert_eq!(segments[0], (0, 15_040 + HALF_WINDOW));
    assert_eq!(segments, reference(&samples, 16_000, 3_200));
}

#[test]
fn nothing_has_no_segments() {
    let none: [f32; 0] = [];
    assert_eq!(split_segments(&none, 16_000, 3_200, energy), vec![]);
    assert_eq!(split_segments(&none, 0, 0, energy), vec![]);
}

#[test]
fn a_short_recording_is_one_segment() {
    let samples = noise(16_000);
    assert_eq!(split_segments(&samples, 16_000, 3_200, energy), vec![(0, 16_000)]);
}

#[test]
fn without_a_quiet_window_the_cut_is_at_the_target() {
    let samples = vec![f32::NAN; 40_000];
    let segments = split_segments(&samples, 16_000, 3_200, energy);
    assert_eq!(segments, vec![(0, 16_000), (16_000, 32_000), (32_000, 40_000)]);
}

#[test]
fn the_first_of_equally_quiet_windows_is_chosen() {
    let bits = |x: f32| x.to_bits();
    assert_eq!(choose_cut(9, 1_000, &vec![]), 9);
    assert_eq!(choose_cut(9, 1_000, &vec![bits(f32::INFINITY), bits(f32::MAX), bits(f32::NAN)]), 9);
    assert_eq!(choose_cut(9, 1_000, &vec![bits(3.0), bits(1.0), bits(1.0)]), 1_000 + WINDOW + HALF_WINDOW);
    assert_eq!(choose_cut(9, 1_000, &vec![bits(f32::NAN), bits(2.0)]), 1_000 + WINDOW + HALF_WINDOW);
    assert_eq!(choose_cut(9, 1_000, &vec![bits(0.0), bits(-0.0)]), 1_000 + HALF_WINDOW);
}

#[test]
fn the_source_of_the_graph_is_described() {
    assert_eq!(
        source_args("1/44100", 44_100, "fltp", 0x3, 2),
        "time_base=1/44100:sample_rate=44100:sample_fmt=fltp:channel_layout=0x3"
    );
    assert_eq!(
        source_args("1/16000", 16_000, "s16", 0, 1),
        "time_base=1/16000:sample_rate=16000:sample_fmt=s16:channels=1"
    );
    assert_eq!(
        source_args("1/8000", 8_000, "s16", 0, 0),
        "time_base=1/8000:sample_rate=8000:sample_fmt=s16:channels=1"
    );
    assert_eq!(
        source_args("1/8000", 8_000, "s16", 0x60f, 0),
        "time_base=1/8000:sample_rate=8000:sample_fmt=s16:channel_layout=0x60f"
    );
}

#[test]
fn filters_end_in_the_output_format() {
    assert_eq!(
        full_filter("anull"),
        "anull,aresample=16000,aformat=sample_fmts=flt:channel_layouts=mono"
    );
    assert_eq!(
        full_filter(DENOISE_FILTER),
        "highpass=f=80,afftdn=nf=-25,speechnorm=e=12.5:r=0.0001,lowpass=f=7800,aresample=16000,aformat=sample_fmts=flt:channel_layouts=mono"
    );
    assert_eq!(SAMPLE_RATE, 16_000);
}

#[test]
fn noise_is_removed_only_where_asked() {
    assert_eq!(transcription_filter(true, "x=1".to_string()), "x=1");
    assert_eq!(transcription_filter(false, "x=1".to_string()), PASSTHROUGH_FILTER);
    assert_eq!(PASSTHROUGH_FILTER, "anull");
}

#[test]
fn cleaned_audio_is_kept_only_where_noise_is_removed() {
    let file = PathBuf::from("clean.wav");
    assert_eq!(clean_copy(true, Some(file.clone())), Some(file.clone()));
    assert_eq!(clean_copy(false, Some(file)), None);
    assert_eq!(clean_copy(true, None), None);
}

#[test]
fn a_file_is_decoded_step_by_step() {
    let mut decoding = Decoding::new(1);
    assert_eq!(decoding.next(DecodeEvent::Packet(0)), DecodeAction::ReadPacket);
    assert_eq!(decoding.next(DecodeEvent::Packet(1)), DecodeAction::SendPacket);
    assert_eq!(decoding.next(DecodeEvent::Sent), DecodeAction::ReceiveFrame);
    assert_eq!(decoding.next(DecodeEvent::Frame), DecodeAction::Filter);
    assert_eq!(decoding.next(DecodeEvent::Filtered), DecodeAction::ReceiveFrame);
    assert_eq!(decoding.next(DecodeEvent::NoFrame), DecodeAction::ReadPacket);
    assert_eq!(decoding.next(DecodeEvent::EndOfFile), DecodeAction::SendEnd);
    assert_eq!(decoding.next(DecodeEvent::Sent), DecodeAction::ReceiveFrame);
    assert_eq!(decoding.next(DecodeEvent::Frame), DecodeAction::Filter);
    assert_eq!(decoding.next(DecodeEvent::Filtered), DecodeAction::ReceiveFrame);
    assert_eq!(decoding.next(DecodeEvent::NoFrame), DecodeAction::Flush);
    assert_eq!(decoding.next(DecodeEvent::Flushed), DecodeAction::Finish);
    assert_eq!(decoding.stream, 1);
    assert!(decoding.ended);
}
