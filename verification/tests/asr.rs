use speech2text::asr::{
    resolve_files, transcript_line, Backend, LoadError, ModelFiles, ModelInput, ModelSource,
    Recognizer, TranscribeError, CHUNK_SAMPLES, SEARCH_SAMPLES,
};
use speech2text::audio::split_segments;
use speech2text::ctc::Logits;
use speech2text::features::NUM_MEL;
use speech2text::meta::{Entries, MetaError};
use speech2text::vocab::TokensError;
use std::cell::RefCell;
use std::num::ParseFloatError;
use std::path::PathBuf;

const VOCAB: &str = "<blank> 0\n你 1\n好 2\n\u{2581}hi 3\n<|zh|> 4\n";

fn strings(v: &[&str]) -> Vec<String> {
    v.iter().map(|s| s.to_string()).collect()
}

fn entries(m: usize) -> Vec<(String, String)> {
    let mean = vec!["-1"; m * NUM_MEL].join(",");
    let stddev = vec!["2"; m * NUM_MEL].join(",");
    let size = format!("{m}");
    [
        ("lfr_window_size", size.as_str()),
        ("lfr_window_shift", "2"),
        ("normalize_samples", "0"),
        ("neg_mean", mean.as_str()),
        ("inv_stddev", stddev.as_str()),
        ("with_itn", "14"),
        ("without_itn", "15"),
        ("lang_zh", "3"),
        ("lang_en", "4"),
    ]
    .iter()
    .map(|(k, v)| (k.to_string(), v.to_string()))
    .collect()
}

type Loaded = Result<Recognizer<f32>, LoadError<ParseFloatError, String>>;

fn assemble(inputs: &[&str], outputs: &[&str], all: &Vec<(String, String)>, file: Result<&str, &str>) -> Loaded {
    Recognizer::assemble(
        strings(inputs),
        strings(outputs),
        &Entries::Listed(all),
        &|s: &str| s.parse::<f32>(),
        &|| match file {
            Ok(f) => Ok(f.to_string()),
            Err(e) => Err(e.to_string()),
        },
    )
}

fn recognizer() -> Recognizer<f32> {
    match assemble(&["x", "len", "lang", "norm", "extra"], &["logits", "aux"], &entries(3), Ok(VOCAB)) {
        Ok(r) => r,
        Err(_) => panic!(),
    }
}

fn error(r: Loaded) -> LoadError<ParseFloatError, String> {
    match r {
        Err(e) => e,
        Ok(_) => panic!(),
    }
}

#[test]
fn a_model_is_put_together() {
    let rec = recognizer();
    assert_eq!(rec.input_names, strings(&["x", "len", "lang", "norm", "extra"]));
    assert_eq!(rec.output_name, "logits");
    assert_eq!(rec.tokens, strings(&["<blank>", "你", "好", "\u{2581}hi", "<|zh|>"]));
    assert_eq!(rec.meta.lfr_m, 3);
    assert!(rec.is_runnable());
    assert_eq!(rec.find_language("zh"), Some(3));
    assert_eq!(rec.find_language("fr"), None);
    assert_eq!(rec.known_languages(), strings(&["zh", "en"]));
}

#[test]
fn faults_are_found_in_order() {
    let good = entries(3);
    let bad: Vec<(String, String)> = good.iter().filter(|e| e.0 != "with_itn").cloned().collect();
    assert!(matches!(error(assemble(&[], &[], &bad, Err("io"))), LoadError::NoOutputs));
    assert!(matches!(
        error(assemble(&[], &["o"], &bad, Err("io"))),
        LoadError::Meta(MetaError::Missing(_))
    ));
    match error(assemble(&[], &["o"], &good, Err("io"))) {
        LoadError::Unread(e) => assert_eq!(e, "io"),
        _ => panic!(),
    }
    match error(assemble(&[], &["o"], &good, Ok("oops"))) {
        LoadError::Tokens(TokensError::Malformed(line)) => assert_eq!(line, "oops"),
        _ => panic!(),
    }
}

#[test]
fn a_model_that_cannot_be_run_is_told() {
    let few = assemble(&["x", "len", "lang"], &["o"], &entries(3), Ok(VOCAB)).unwrap_or_else(|_| panic!());
    assert!(!few.is_runnable());
    let mut short = recognizer();
    short.meta.neg_mean.pop();
    assert!(!short.is_runnable());
    let mut still = recognizer();
    still.meta.lfr_n = 0;
    assert!(!still.is_runnable());
    let mut huge = recognizer();
    huge.meta.lfr_m = usize::MAX;
    assert!(!huge.is_runnable());
}

/// The scores whose best path is `path`.
fn along(path: &[usize]) -> Logits {
    let mut values: Vec<u32> = Vec::new();
    for &p in path {
        for i in 0..5usize {
            values.push((if i == p { 1.0f32 } else { 0.0 }).to_bits());
        }
    }
    Logits { shape: vec![1, path.len() as i64, 5], values }
}

/// One frame for every 400 samples, whose first value is the first sample of the frame.
fn filter(s: &[f32]) -> Option<Vec<Vec<f32>>> {
    let mut rows = Vec::new();
    for c in s.chunks_exact(400) {
        rows.push(vec![c[0]; NUM_MEL]);
    }
    Some(rows)
}

fn multiply(x: f32, scale: u32) -> f32 {
    x * f32::from_bits(scale)
}

fn normalise(x: f32, mean: f32, stddev: f32) -> f32 {
    (x + mean) * stddev
}

fn energy(w: &[f32]) -> u32 {
    w.iter().map(|x| x * x).sum::<f32>().to_bits()
}

#[test]
fn one_chunk_goes_from_samples_to_text() {
    let rec = recognizer();
    let seen: RefCell<Vec<ModelInput<f32>>> = RefCell::new(Vec::new());
    let backend = Backend {
        zero: 0.0f32,
        multiply,
        filter,
        normalise,
        run: |input: &ModelInput<f32>| -> Result<Logits, String> {
            seen.borrow_mut().push(ModelInput {
                x_name: input.x_name.clone(),
                x_shape: input.x_shape.clone(),
                x: input.x.clone(),
                length_name: input.length_name.clone(),
                length: input.length,
                language_name: input.language_name.clone(),
                language: input.language,
                textnorm_name: input.textnorm_name.clone(),
                textnorm: input.textnorm,
                output_name: input.output_name.clone(),
            });
            Ok(along(&[4, 0, 1, 1, 0, 1, 2, 3, 3, 0]))
        },
    };
    let mut samples: Vec<f32> = vec![0.0; 1_200];
    samples[0] = 1.0 / 32768.0;
    samples[400] = 2.0 / 32768.0;
    samples[800] = 3.0 / 32768.0;
    let text = rec.run_chunk(&samples, 3, 14, &backend).unwrap();
    assert_eq!(text, "你你好 hi");
    let calls = seen.borrow();
    assert_eq!(calls.len(), 1);
    let input = &calls[0];
    // Three frames stacked by threes every two frames: two stacked frames.
    assert_eq!(input.x_shape, vec![1, 2, 3 * NUM_MEL as i64]);
    assert_eq!(input.length, 2);
    assert_eq!(input.x.len(), 2 * 3 * NUM_MEL);
    let firsts: Vec<f32> = (0..6).map(|j| input.x[j * NUM_MEL]).collect();
    assert_eq!(firsts, vec![0.0, 0.0, 2.0, 2.0, 4.0, 4.0]);
    assert_eq!(input.language, 3);
    assert_eq!(input.textnorm, 14);
    assert_eq!(
        [&input.x_name, &input.length_name, &input.language_name, &input.textnorm_name],
        ["x", "len", "lang", "norm"]
    );
    assert_eq!(input.output_name, "logits");
}

#[test]
fn too_few_samples_are_not_run() {
    let rec = recognizer();
    let backend = Backend {
        zero: 0.0f32,
        multiply,
        filter,
        normalise,
        run: |_: &ModelInput<f32>| -> Result<Logits, String> { panic!("not to be called") },
    };
    assert_eq!(rec.run_chunk(&[0.5; 399], 3, 14, &backend).unwrap(), "");
    assert_eq!(rec.transcribe(&[], "zh", true, energy, &backend).unwrap(), "");
}

#[test]
fn a_long_recording_is_transcribed_in_segments() {
    let rec = recognizer();
    let lengths: RefCell<Vec<(i64, i32, i32)>> = RefCell::new(Vec::new());
    let backend = Backend {
        zero: 0.0f32,
        multiply,
        filter,
        normalise,
        run: |input: &ModelInput<f32>| -> Result<Logits, String> {
            lengths.borrow_mut().push((input.x_shape[1], input.language, input.textnorm));
            let n = lengths.borrow().len();
            Ok(along(if n == 2 { &[0, 4] } else { &[1, 2] }))
        },
    };
    let samples: Vec<f32> = (0..700_000).map(|i| ((i * 37) % 1000) as f32 / 1000.0).collect();
    let segments = split_segments(&samples, CHUNK_SAMPLES, SEARCH_SAMPLES, energy);
    assert_eq!(segments.len(), 4);
    let text = rec.transcribe(&samples, "en", false, energy, &backend).unwrap();
    // The second segment holds nothing but a special token.
    assert_eq!(text, "你好你好你好");
    let wanted: Vec<(i64, i32, i32)> = segments
        .iter()
        .map(|&(start, end)| (((end - start) / 400).div_ceil(2) as i64, 4, 15))
        .collect();
    assert_eq!(*lengths.borrow(), wanted);
}

#[test]
fn a_failing_model_ends_the_transcription() {
    let rec = recognizer();
    let calls: RefCell<usize> = RefCell::new(0);
    let backend = Backend {
        zero: 0.0f32,
        multiply,
        filter,
        normalise,
        run: |_: &ModelInput<f32>| -> Result<Logits, String> {
            *calls.borrow_mut() += 1;
            if *calls.borrow() == 2 {
                Err("out of memory".to_string())
            } else {
                Ok(along(&[1]))
            }
        },
    };
    let samples: Vec<f32> = vec![0.25; 700_000];
    match rec.transcribe(&samples, "zh", true, energy, &backend) {
        Err(TranscribeError::Model(e)) => assert_eq!(e, "out of memory"),
        _ => panic!(),
    }
    assert_eq!(*calls.borrow(), 2);
}

#[test]
fn an_unknown_language_is_refused() {
    let rec = recognizer();
    let backend = Backend {
        zero: 0.0f32,
        multiply,
        filter,
        normalise,
        run: |_: &ModelInput<f32>| -> Result<Logits, String> { panic!("not to be called") },
    };
    let samples: Vec<f32> = vec![0.25; 1_000];
    match rec.transcribe(&samples, "ja", true, energy, &backend) {
        Err(TranscribeError::UnsupportedLanguage { language, known }) => {
            assert_eq!(language, "ja");
            assert_eq!(known, strings(&["zh", "en"]));
        }
        _ => panic!(),
    }
    assert!(matches!(
        rec.transcribe_once(&samples, "", true, &backend),
        Err(TranscribeError::UnsupportedLanguage { .. })
    ));
}

#[test]
fn an_unknown_language_is_refused_by_any_model() {
    let mut rec = recognizer();
    rec.meta.lfr_n = 0;
    let backend = Backend {
        zero: 0.0f32,
        multiply,
        filter,
        normalise,
        run: |_: &ModelInput<f32>| -> Result<Logits, String> { panic!("not to be called") },
    };
    let samples: Vec<f32> = vec![0.25; 1_000];
    assert!(!rec.is_runnable());
    assert!(matches!(
        rec.transcribe(&samples, "ja", true, energy, &backend),
        Err(TranscribeError::UnsupportedLanguage { .. })
    ));
    assert!(matches!(
        rec.transcribe_once(&samples, "ja", true, &backend),
        Err(TranscribeError::UnsupportedLanguage { .. })
    ));
}

#[test]
fn a_short_recording_is_one_chunk() {
    let rec = recognizer();
    let backend = Backend {
        zero: 0.0f32,
        multiply,
        filter,
        normalise,
        run: |input: &ModelInput<f32>| -> Result<Logits, String> {
            Ok(along(if input.textnorm == 14 { &[1] } else { &[2] }))
        },
    };
    let samples: Vec<f32> = vec![0.25; 5_000];
    assert_eq!(rec.transcribe(&samples, "zh", true, energy, &backend).unwrap(), "你");
    assert_eq!(rec.transcribe_once(&samples, "zh", true, &backend).unwrap(), "你");
    assert_eq!(rec.transcribe_once(&samples, "zh", false, &backend).unwrap(), "好");
}

#[test]
fn a_failing_filter_bank_gives_no_text() {
    let rec = recognizer();
    let backend = Backend {
        zero: 0.0f32,
        multiply,
        filter: |_: &[f32]| -> Option<Vec<Vec<f32>>> { None },
        normalise,
        run: |_: &ModelInput<f32>| -> Result<Logits, String> { panic!("not to be called") },
    };
    assert_eq!(rec.run_chunk(&[0.5; 4_000], 3, 14, &backend).unwrap(), "");
}

#[test]
fn a_model_is_not_run_without_frames() {
    let mut rec = recognizer();
    rec.meta.lfr_n = 0;
    rec.input_names.clear();
    assert!(!rec.is_runnable());
    for rows in [None, Some(Vec::<Vec<f32>>::new())] {
        let backend = Backend {
            zero: 0.0f32,
            multiply,
            filter: |_: &[f32]| -> Option<Vec<Vec<f32>>> { rows.clone() },
            normalise,
            run: |_: &ModelInput<f32>| -> Result<Logits, String> { panic!("not to be called") },
        };
        let samples: Vec<f32> = vec![0.25; 1_000];
        assert_eq!(rec.run_chunk(&samples, 3, 14, &backend).unwrap(), "");
        assert_eq!(rec.transcribe(&samples, "zh", true, energy, &backend).unwrap(), "");
        assert_eq!(rec.transcribe_once(&samples, "zh", true, &backend).unwrap(), "");
    }
}

#[test]
fn files_are_found_by_precision_and_source() {
    match resolve_files(ModelSource::Local(PathBuf::from("/m")), true) {
        ModelFiles::InDirectory { directory, model, tokens } => {
            assert_eq!(directory, PathBuf::from("/m"));
            assert_eq!(model, "model.onnx");
            assert_eq!(tokens, "tokens.txt");
        }
        _ => panic!(),
    }
    match resolve_files(ModelSource::HuggingFace, false) {
        ModelFiles::InRepository { repository, model, tokens } => {
            assert_eq!(repository, "csukuangfj/sherpa-onnx-sense-voice-zh-en-ja-ko-yue-2024-07-17");
            assert_eq!(model, "model.int8.onnx");
            assert_eq!(tokens, "tokens.txt");
        }
        _ => panic!(),
    }
}

#[test]
fn a_directory_is_the_source_where_given() {
    assert!(matches!(ModelSource::from_directory(None), ModelSource::HuggingFace));
    match ModelSource::from_directory(Some(PathBuf::from("d"))) {
        ModelSource::Local(dir) => assert_eq!(dir, PathBuf::from("d")),
        _ => panic!(),
    }
}

#[test]
fn a_transcript_ends_its_line() {
    assert_eq!(transcript_line("你好"), "你好\n");
    assert_eq!(transcript_line(""), "\n");
}
