use speech2text::app::SttMsg;
use speech2text::server::ws::{bytes_of, reply, samples_of, Hearing, Incoming, Reaction, Step};
use speech2text::server::{gate, VadConfig};

fn config() -> VadConfig {
    VadConfig {
        silence_needed: 1_000,
        partial_every: 600,
        max_samples: 5_000,
        threshold: 0.1f32.to_bits(),
    }
}

fn rms(block: &[u32]) -> u32 {
    let sum: f32 = block.iter().map(|&b| f32::from_bits(b) * f32::from_bits(b)).sum();
    (sum / block.len() as f32).sqrt().to_bits()
}

fn block(x: f32, len: usize) -> Vec<u32> {
    vec![x.to_bits(); len]
}

fn hear(h: &mut Hearing, x: f32, len: usize) -> Step {
    let b = block(x, len);
    h.hear(&config(), &b, rms(&b))
}

#[test]
fn messages_hold_samples() {
    assert_eq!(samples_of(&[]), Vec::<u32>::new());
    assert_eq!(samples_of(&[1, 2, 3]), Vec::<u32>::new());
    let x: f32 = -1.5;
    let mut bytes = x.to_le_bytes().to_vec();
    bytes.extend_from_slice(&0.25f32.to_le_bytes());
    bytes.push(9);
    assert_eq!(samples_of(&bytes), vec![x.to_bits(), 0.25f32.to_bits()]);
}

#[test]
fn samples_sent_are_samples_read() {
    let samples: Vec<u32> = vec![0, 1, 0xFF, 0x1234_5678, u32::MAX, 0x8000_0000];
    assert_eq!(samples_of(&bytes_of(&samples)), samples);
    assert_eq!(bytes_of(&[0x1234_5678]), vec![0x78, 0x56, 0x34, 0x12]);
}

#[test]
fn silence_is_not_sent() {
    let mut h = Hearing::new();
    for _ in 0..20 {
        assert!(matches!(hear(&mut h, 0.05, 1_000), Step::Wait));
    }
    assert!(h.finish().is_none());
}

#[test]
fn an_utterance_ends_with_silence() {
    let mut h = Hearing::new();
    assert!(matches!(hear(&mut h, 0.0, 300), Step::Wait));
    match hear(&mut h, 0.5, 500) {
        Step::Partial(b) => assert_eq!(b.len(), 800),
        _ => panic!(),
    }
    assert!(matches!(hear(&mut h, 0.0, 500), Step::Wait));
    match hear(&mut h, 0.0, 500) {
        Step::Final(b) => {
            let wanted = [block(0.0, 300), block(0.5, 500), block(0.0, 1_000)].concat();
            assert_eq!(b, wanted);
        }
        _ => panic!(),
    }
    assert!(matches!(hear(&mut h, 0.0, 5_000), Step::Wait));
    assert!(h.finish().is_none());
}

#[test]
fn speech_again_restarts_the_silence() {
    let mut h = Hearing::new();
    hear(&mut h, 0.5, 100);
    hear(&mut h, 0.0, 900);
    hear(&mut h, 0.5, 100);
    assert!(!matches!(hear(&mut h, 0.0, 900), Step::Final(_)));
    assert!(matches!(hear(&mut h, 0.0, 100), Step::Final(_)));
}

#[test]
fn an_utterance_ends_when_it_is_too_long() {
    let mut h = Hearing::new();
    assert!(!matches!(hear(&mut h, 0.5, 4_999), Step::Final(_)));
    match hear(&mut h, 0.5, 1) {
        Step::Final(b) => assert_eq!(b.len(), 5_000),
        _ => panic!(),
    }
}

#[test]
fn an_utterance_that_ends_too_short_is_passed_over() {
    let short = VadConfig { max_samples: 1, ..config() };
    let mut h = Hearing::new();
    let b = block(0.5, 1);
    assert!(matches!(h.hear(&short, &b, rms(&b)), Step::Wait));
    let b = block(0.5, 399);
    assert!(matches!(h.hear(&short, &b, rms(&b)), Step::Wait));
    // Nothing of them is held: the next utterance is sent by itself.
    let b = block(0.25, 400);
    match h.hear(&short, &b, rms(&b)) {
        Step::Final(u) => assert_eq!(u, b),
        _ => panic!(),
    }
    assert!(h.finish().is_none());

    let quick = VadConfig { silence_needed: 100, ..config() };
    let mut h = Hearing::new();
    let b = block(0.5, 200);
    assert!(matches!(h.hear(&quick, &b, rms(&b)), Step::Wait));
    let b = block(0.0, 100);
    assert!(matches!(h.hear(&quick, &b, rms(&b)), Step::Wait));
    assert!(h.finish().is_none());
}

#[test]
fn what_is_sent_is_bounded_by_the_limit_and_a_block() {
    let mut h = Hearing::new();
    for _ in 0..30 {
        match hear(&mut h, 0.5, 700) {
            Step::Final(u) => assert_eq!(u.len(), 5_600),
            Step::Partial(u) => assert!(u.len() < 5_000),
            Step::Wait => panic!(),
        }
    }
}

#[test]
fn partial_results_come_at_intervals() {
    let mut h = Hearing::new();
    let mut seen: Vec<(usize, usize)> = Vec::new();
    for i in 0..20usize {
        if let Step::Partial(b) = hear(&mut h, 0.5, 200) {
            seen.push((i, b.len()));
        }
    }
    assert_eq!(seen[..3], [(2, 600), (5, 1_200), (8, 1_800)]);
}

#[test]
fn too_little_is_not_sent_in_part() {
    let fast = VadConfig { partial_every: 1, ..config() };
    let mut h = Hearing::new();
    let b = block(0.5, 399);
    assert!(matches!(h.hear(&fast, &b, rms(&b)), Step::Wait));
    let b = block(0.5, 1);
    match h.hear(&fast, &b, rms(&b)) {
        Step::Partial(b) => assert_eq!(b.len(), 400),
        _ => panic!(),
    }
}

#[test]
fn the_threshold_itself_is_silence() {
    let mut h = Hearing::new();
    let b = block(0.5, 1_000);
    assert!(matches!(h.hear(&config(), &b, config().threshold), Step::Wait));
    assert!(matches!(h.hear(&config(), &b, f32::NAN.to_bits()), Step::Wait));
    assert!(matches!(h.hear(&config(), &b, 0.11f32.to_bits()), Step::Partial(_)));
}

#[test]
fn what_is_left_is_sent_at_the_end() {
    let mut h = Hearing::new();
    hear(&mut h, 0.5, 399);
    assert!(h.finish().is_none());
    let mut h = Hearing::new();
    hear(&mut h, 0.5, 400);
    assert_eq!(h.finish().unwrap().len(), 400);
}

#[test]
fn every_sample_is_sent_once_or_held() {
    let mut h = Hearing::new();
    let mut received: Vec<u32> = Vec::new();
    let mut sent: Vec<u32> = Vec::new();
    let mut x: u32 = 7;
    for i in 0..200usize {
        x = x.wrapping_mul(1_664_525).wrapping_add(1_013_904_223);
        let loud = (i / 5) % 3 != 0;
        let b: Vec<u32> = (0..(x >> 24)).map(|k| (k as f32 / 1000.0 + i as f32).to_bits()).collect();
        received.extend_from_slice(&b);
        let loudness: f32 = if loud { 0.5 } else { 0.0 };
        if let Step::Final(u) = h.hear(&config(), &b, loudness.to_bits()) {
            sent.extend_from_slice(&u);
        }
    }
    assert!(!sent.is_empty());
    assert_eq!(sent[..], received[..sent.len()]);
    if let Some(rest) = h.finish() {
        sent.extend_from_slice(&rest);
        assert_eq!(sent, received);
    }
}

#[test]
fn messages_are_told_apart() {
    let mut h = Hearing::new();
    let loud = bytes_of(&block(0.5, 1_000));
    assert!(matches!(
        h.receive(&config(), &Incoming::Binary(loud), &rms),
        Reaction::Continue(Step::Partial(_))
    ));
    let none = |_: &[u32]| -> u32 { panic!("not to be called") };
    assert!(matches!(
        h.receive(&config(), &Incoming::Binary(vec![1, 2, 3]), &none),
        Reaction::Continue(Step::Wait)
    ));
    assert!(matches!(h.receive(&config(), &Incoming::Other, &none), Reaction::Continue(Step::Wait)));
    assert!(matches!(h.receive(&config(), &Incoming::Close, &none), Reaction::Stop));
    assert_eq!(h.finish().unwrap().len(), 1_000);
}

#[test]
fn transcripts_become_messages() {
    match reply::<String>(Ok("你好".to_string()), true) {
        Some(SttMsg::Final { text }) => assert_eq!(text, "你好"),
        _ => panic!(),
    }
    match reply::<String>(Ok("你".to_string()), false) {
        Some(SttMsg::Partial { text }) => assert_eq!(text, "你"),
        _ => panic!(),
    }
    assert!(reply::<String>(Ok(String::new()), true).is_none());
    assert!(reply(Err("failed".to_string()), true).is_none());
}

#[test]
fn a_password_closes_the_gate() {
    assert!(gate(None).is_none());
    let g = gate(Some("pw".to_string())).unwrap();
    assert_eq!(g.user, "stt");
    assert_eq!(g.password, "pw");
}
