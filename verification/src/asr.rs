//! The recogniser: what is loaded with a model, and the way from samples to text.
use ort::session::Session;
use std::path::PathBuf;
use vstd::prelude::*;
use vstd::slice::slice_subrange;

use crate::audio;
use crate::ctc;
use crate::ctc::Logits;
use crate::features;
use crate::features::{Fbank, FRAME_LENGTH, NUM_MEL};
use crate::meta;
use crate::meta::{Entries, Meta, MetaError};
use crate::text;
use crate::vocab;
use crate::vocab::TokensError;

verus! {

/// The repository that models are downloaded from.
pub const HF_REPO: &'static str = "csukuangfj/sherpa-onnx-sense-voice-zh-en-ja-ko-yue-2024-07-17";

/// Length of the segments of long recordings: 15 s.
pub const CHUNK_SAMPLES: usize = 240_000;

/// How far a cut may be moved to a quiet place: 2 s.
pub const SEARCH_SAMPLES: usize = 32_000;

/// A path of the file system, opaque here.
#[verifier::external_type_specification]
#[verifier::external_body]
pub struct ExPathBuf(PathBuf);

/// Where to obtain the model from.
pub enum ModelSource {
    /// Download from Hugging Face, and keep it there.
    HuggingFace,
    /// Load it from a local directory.
    Local(PathBuf),
}

impl ModelSource {
    /// The model of a local directory where one is given, else the one to download.
    pub fn from_directory(directory: Option<PathBuf>) -> (source: Self)
        ensures
            source == (match directory {
                Some(dir) => ModelSource::Local(dir),
                None => ModelSource::HuggingFace,
            }),
    {
        match directory {
            Some(dir) => ModelSource::Local(dir),
            None => ModelSource::HuggingFace,
        }
    }
}

/// The files to load, and where they are.
pub enum ModelFiles {
    /// Files of a directory; without `model` in it, nothing can be loaded.
    InDirectory { directory: PathBuf, model: String, tokens: String },
    /// Files of a repository.
    InRepository { repository: String, model: String, tokens: String },
}

/// The name of the model file.
pub open spec fn model_file(fp32: bool) -> Seq<char> {
    if fp32 {
        "model.onnx"@
    } else {
        "model.int8.onnx"@
    }
}

/// Says which files to load: the model in full precision or quantised, and its vocabulary.
pub fn resolve_files(source: ModelSource, fp32: bool) -> (files: ModelFiles)
    ensures
        match source {
            ModelSource::Local(dir) => files matches ModelFiles::InDirectory {
                directory,
                model,
                tokens,
            } && directory == dir && model@ == model_file(fp32) && tokens@ == "tokens.txt"@,
            ModelSource::HuggingFace => files matches ModelFiles::InRepository {
                repository,
                model,
                tokens,
            } && repository@ == HF_REPO@ && model@ == model_file(fp32) && tokens@
                == "tokens.txt"@,
        },
{
    let model: String = if fp32 {
        "model.onnx".to_owned()
    } else {
        "model.int8.onnx".to_owned()
    };
    let tokens: String = "tokens.txt".to_owned();
    match source {
        ModelSource::Local(directory) => ModelFiles::InDirectory { directory, model, tokens },
        ModelSource::HuggingFace => ModelFiles::InRepository {
            repository: HF_REPO.to_owned(),
            model,
            tokens,
        },
    }
}

/// The names of the inputs of the model that a session has loaded, in order.
pub uninterp spec fn session_inputs(session: Session) -> Seq<Seq<char>>;

/// The names of the outputs of the model that a session has loaded, in order.
pub uninterp spec fn session_outputs(session: Session) -> Seq<Seq<char>>;

/// `Session::inputs` lists the inputs of the model in order, of which the names are taken.
#[verifier::external_body]
fn input_names(session: &Session) -> (names: Vec<String>)
    ensures
        text::views(names@) == session_inputs(*session),
{
    session.inputs().iter().map(|i| i.name().to_string()).collect()
}

/// `Session::outputs` lists the outputs of the model in order, of which the names are taken.
#[verifier::external_body]
fn output_names(session: &Session) -> (names: Vec<String>)
    ensures
        text::views(names@) == session_outputs(*session),
{
    session.outputs().iter().map(|o| o.name().to_string()).collect()
}

/// What is loaded with a model.
pub struct Recognizer<T> {
    pub input_names: Vec<String>,
    pub output_name: String,
    pub tokens: Vec<String>,
    pub meta: Meta<T>,
    pub fbank: Fbank,
}

/// Why a model cannot be used. `E` is the error of a number, `X` that of reading a file.
#[derive(Debug)]
pub enum LoadError<E, X> {
    /// The model has no outputs.
    NoOutputs,
    /// Its metadata cannot be used.
    Meta(MetaError<E>),
    /// Its vocabulary was not read.
    Unread(X),
    /// Its vocabulary has a line at fault.
    Tokens(TokensError),
}

/// Whether the table of a vocabulary can be held.
pub open spec fn tokens_fit(file: Seq<char>) -> bool {
    vocab::all_entries(vocab::entry_lines(file)) ==> vocab::largest_id(
        vocab::entries(vocab::entry_lines(file)),
    ) < usize::MAX
}

/// Whether `tokens` is the table of a vocabulary that `read` may return.
pub open spec fn is_table_read<X, R: Fn() -> Result<String, X>>(
    read: R,
    tokens: Seq<Seq<char>>,
) -> bool {
    exists|file: String|
        #![trigger call_ensures(read, (), Ok::<String, X>(file))]
        call_ensures(read, (), Ok::<String, X>(file)) && vocab::all_entries(
            vocab::entry_lines(file@),
        ) && tokens == vocab::table(vocab::entries(vocab::entry_lines(file@)))
}

/// Whether a vocabulary that `read` may return has its first fault in `line`.
pub open spec fn is_fault_read<X, R: Fn() -> Result<String, X>>(
    read: R,
    line: Seq<char>,
) -> bool {
    exists|file: String, i: int|
        #![trigger call_ensures(read, (), Ok::<String, X>(file)), vocab::is_first_fault(
            vocab::entry_lines(file@),
            i,
        )]
        call_ensures(read, (), Ok::<String, X>(file)) && vocab::is_first_fault(
            vocab::entry_lines(file@),
            i,
        ) && vocab::entry_lines(file@)[i] == line
}

/// What a model with these outputs and these metadata entries gives: outputs first, then
/// metadata, then the vocabulary.
pub open spec fn is_loaded<T, E, X, P: Fn(&str) -> Result<T, E>, R: Fn() -> Result<String, X>>(
    inputs: Seq<Seq<char>>,
    outputs: Seq<Seq<char>>,
    entries: Map<Seq<char>, Seq<char>>,
    parse: P,
    read: R,
    r: Result<Recognizer<T>, LoadError<E, X>>,
) -> bool {
    match r {
        Ok(rec) => {
            &&& outputs.len() > 0
            &&& text::views(rec.input_names@) == inputs
            &&& rec.output_name@ == outputs[0]
            &&& meta::is_meta(entries, parse, rec.meta)
            &&& is_table_read(read, text::views(rec.tokens@))
        },
        Err(LoadError::NoOutputs) => outputs.len() == 0,
        Err(LoadError::Meta(MetaError::Unreadable(_))) => false,
        Err(LoadError::Meta(e)) => {
            &&& outputs.len() > 0
            &&& meta::is_meta_error::<T, E, P>(entries, parse, e)
        },
        Err(LoadError::Unread(x)) => {
            &&& outputs.len() > 0
            &&& exists|m: Meta<T>| #[trigger] meta::is_meta(entries, parse, m)
            &&& call_ensures(read, (), Err::<String, X>(x))
        },
        Err(LoadError::Tokens(e)) => {
            &&& outputs.len() > 0
            &&& exists|m: Meta<T>| #[trigger] meta::is_meta(entries, parse, m)
            &&& match e {
                TokensError::Malformed(l) => is_fault_read(read, l@) && vocab::is_malformed(l@),
                TokensError::BadId { line, id } => {
                    &&& is_fault_read(read, line@)
                    &&& !vocab::is_malformed(line@)
                    &&& id@ == vocab::id_text(line@)
                },
            }
        },
    }
}

impl<T> Recognizer<T> {
    /// Puts together what is loaded with a model from the names of its inputs and outputs, its
    /// metadata and its vocabulary. `parse` reads one number, `read` the vocabulary file.
    pub fn assemble<E, X, P: Fn(&str) -> Result<T, E>, R: Fn() -> Result<String, X>>(
        inputs: Vec<String>,
        outputs: Vec<String>,
        entries: &Entries<'_>,
        parse: &P,
        read: &R,
    ) -> (r: Result<Self, LoadError<E, X>>)
        requires
            forall|s: &str| #[trigger] call_requires(*parse, (s,)),
            call_requires(*read, ()),
            forall|file: String| #[trigger]
                call_ensures(*read, (), Ok::<String, X>(file)) ==> tokens_fit(file@),
        ensures
            is_loaded(
                text::views(inputs@),
                text::views(outputs@),
                entries.all(),
                *parse,
                *read,
                r,
            ),
    {
        if outputs.len() == 0 {
            return Err(LoadError::NoOutputs);
        }
        let output_name = outputs[0].clone();
        let meta = match meta::interpret(entries, parse) {
            Ok(meta) => meta,
            Err(e) => {
                return Err(LoadError::Meta(e));
            },
        };
        let file = match read() {
            Ok(file) => file,
            Err(x) => {
                return Err(LoadError::Unread(x));
            },
        };
        match vocab::load_tokens(file.as_str()) {
            Ok(tokens) => Ok(
                Recognizer { input_names: inputs, output_name, tokens, meta, fbank: Fbank::new() },
            ),
            Err(e) => Err(LoadError::Tokens(e)),
        }
    }

    /// Puts together what is loaded with the model of a session.
    pub fn load<E, X, P: Fn(&str) -> Result<T, E>, R: Fn() -> Result<String, X>>(
        session: &Session,
        parse: &P,
        read: &R,
    ) -> (r: Result<Self, LoadError<E, X>>)
        requires
            forall|s: &str| #[trigger] call_requires(*parse, (s,)),
            call_requires(*read, ()),
            forall|file: String| #[trigger]
                call_ensures(*read, (), Ok::<String, X>(file)) ==> tokens_fit(file@),
        ensures
            match r {
                Err(LoadError::Meta(MetaError::Unreadable(_))) => session_outputs(*session).len()
                    > 0,
                _ => is_loaded(
                    session_inputs(*session),
                    session_outputs(*session),
                    meta::session_entries(*session),
                    *parse,
                    *read,
                    r,
                ),
            },
    {
        let inputs = input_names(session);
        let outputs = output_names(session);
        if outputs.len() == 0 {
            return Err(LoadError::NoOutputs);
        }
        match meta::session_metadata(session) {
            Err(e) => Err(LoadError::Meta(MetaError::Unreadable(e))),
            Ok(metadata) => Self::assemble(
                inputs,
                outputs,
                &Entries::Model(&metadata),
                parse,
                read,
            ),
        }
    }
}

/// What the model is run on: the tensors, each under the name of its input.
pub struct ModelInput<T> {
    pub x_name: String,
    pub x_shape: Vec<i64>,
    pub x: Vec<T>,
    pub length_name: String,
    pub length: i32,
    pub language_name: String,
    pub language: i32,
    pub textnorm_name: String,
    pub textnorm: i32,
    pub output_name: String,
}

/// The operations on numbers that the way from samples to text needs.
pub struct Backend<T, S, K, N, R> {
    /// The number zero.
    pub zero: T,
    /// Multiplies a number by the one with the given bits.
    pub multiply: S,
    /// Computes the filter bank of samples, one row per frame.
    pub filter: K,
    /// Normalises a number by the negated mean and the inverse standard deviation.
    pub normalise: N,
    /// Runs the model.
    pub run: R,
}

/// The rows of a matrix, one behind the other.
pub open spec fn flat<T>(rows: Seq<Vec<T>>) -> Seq<T>
    decreases rows.len(),
{
    if rows.len() == 0 {
        Seq::empty()
    } else {
        flat(rows.drop_last()) + rows.last()@
    }
}

/// Whether `input` hands these frames, this language and this kind of text to the model.
pub open spec fn is_input<T>(
    rec: Recognizer<T>,
    frames: Seq<Vec<T>>,
    language: i32,
    textnorm: i32,
    input: ModelInput<T>,
) -> bool {
    &&& input.x_name@ == rec.input_names@[0]@
    &&& input.x_shape@ == seq![1i64, frames.len() as i64, frames[0]@.len() as i64]
    &&& input.x@ == flat(frames)
    &&& input.length_name@ == rec.input_names@[1]@
    &&& input.length == frames.len() as i32
    &&& input.language_name@ == rec.input_names@[2]@
    &&& input.language == language
    &&& input.textnorm_name@ == rec.input_names@[3]@
    &&& input.textnorm == textnorm
    &&& input.output_name@ == rec.output_name@
}

/// The text that the model's output is decoded to.
pub open spec fn decoded<T>(rec: Recognizer<T>, logits: Logits) -> Seq<char> {
    text::trim(
        vocab::joined(
            text::views(rec.tokens@),
            ctc::collapse(logits.best_path(), rec.meta.blank_id),
        ),
    )
}

/// Whether `frames` may be the frames that the model is run on for `samples`.
pub open spec fn are_model_frames<
    T,
    E,
    S: Fn(T, u32) -> T,
    K: Fn(&[T]) -> Option<Vec<Vec<T>>>,
    N: Fn(T, T, T) -> T,
    R: Fn(&ModelInput<T>) -> Result<Logits, E>,
>(
    rec: Recognizer<T>,
    backend: Backend<T, S, K, N, R>,
    samples: Seq<T>,
    frames: Seq<Vec<T>>,
) -> bool {
    exists|feats: Seq<[T; NUM_MEL]>, stacked: Seq<Vec<T>>|
        features::are_features(
            samples,
            rec.meta.sample_scale,
            backend.zero,
            backend.multiply,
            backend.filter,
            feats,
        ) && #[trigger] features::is_stacked(
            feats,
            rec.meta.lfr_m as int,
            rec.meta.lfr_n as int,
            stacked,
        ) && features::is_normalised(
            stacked,
            rec.meta.neg_mean@,
            rec.meta.inv_stddev@,
            backend.normalise,
            frames,
        )
}

/// Whether the model, run on these frames, may have returned `out`.
pub open spec fn is_run<
    T,
    E,
    S: Fn(T, u32) -> T,
    K: Fn(&[T]) -> Option<Vec<Vec<T>>>,
    N: Fn(T, T, T) -> T,
    R: Fn(&ModelInput<T>) -> Result<Logits, E>,
>(
    rec: Recognizer<T>,
    backend: Backend<T, S, K, N, R>,
    frames: Seq<Vec<T>>,
    language: i32,
    textnorm: i32,
    out: Result<Logits, E>,
) -> bool {
    exists|input: ModelInput<T>|
        is_input(rec, frames, language, textnorm, input) && #[trigger] call_ensures(
            backend.run,
            (&input,),
            out,
        )
}

/// Whether `r` may be what one chunk gives: no text where there are no frames, else what the
/// model's output is decoded to, or its error.
pub open spec fn is_chunk<
    T,
    E,
    S: Fn(T, u32) -> T,
    K: Fn(&[T]) -> Option<Vec<Vec<T>>>,
    N: Fn(T, T, T) -> T,
    R: Fn(&ModelInput<T>) -> Result<Logits, E>,
>(
    rec: Recognizer<T>,
    backend: Backend<T, S, K, N, R>,
    samples: Seq<T>,
    language: i32,
    textnorm: i32,
    r: Result<Seq<char>, E>,
) -> bool {
    exists|frames: Seq<Vec<T>>|
        #[trigger] are_model_frames(rec, backend, samples, frames) && if frames.len() == 0 {
            r == Ok::<Seq<char>, E>(Seq::empty())
        } else {
            match r {
                Ok(s) => exists|logits: Logits|
                    #[trigger] is_run(
                        rec,
                        backend,
                        frames,
                        language,
                        textnorm,
                        Ok::<Logits, E>(logits),
                    ) && s == decoded(rec, logits),
                Err(e) => is_run(rec, backend, frames, language, textnorm, Err::<Logits, E>(e)),
            }
        }
}

/// The contents of a result.
pub open spec fn result_view<E>(r: Result<String, E>) -> Result<Seq<char>, E> {
    match r {
        Ok(s) => Ok(s@),
        Err(e) => Err(e),
    }
}

/// Texts, one behind the other.
pub open spec fn concat(texts: Seq<Seq<char>>) -> Seq<char>
    decreases texts.len(),
{
    if texts.len() == 0 {
        Seq::empty()
    } else {
        concat(texts.drop_last()) + texts.last()
    }
}

/// Whether the texts of all segments, or of those before the first that failed, lead to `r`.
pub open spec fn is_transcript<
    T,
    E,
    S: Fn(T, u32) -> T,
    K: Fn(&[T]) -> Option<Vec<Vec<T>>>,
    N: Fn(T, T, T) -> T,
    R: Fn(&ModelInput<T>) -> Result<Logits, E>,
>(
    rec: Recognizer<T>,
    backend: Backend<T, S, K, N, R>,
    samples: Seq<T>,
    language: i32,
    textnorm: i32,
    segments: Seq<(usize, usize)>,
    texts: Seq<Seq<char>>,
    r: Result<Seq<char>, E>,
) -> bool {
    &&& texts.len() <= segments.len()
    &&& forall|i: int|
        0 <= i < texts.len() ==> is_chunk(
            rec,
            backend,
            samples.subrange(segments[i].0 as int, segments[i].1 as int),
            language,
            textnorm,
            Ok::<Seq<char>, E>(#[trigger] texts[i]),
        )
    &&& match r {
        Ok(s) => texts.len() == segments.len() && s == concat(texts),
        Err(e) => {
            &&& texts.len() < segments.len()
            &&& is_chunk(
                rec,
                backend,
                samples.subrange(
                    segments[texts.len() as int].0 as int,
                    segments[texts.len() as int].1 as int,
                ),
                language,
                textnorm,
                Err::<Seq<char>, E>(e),
            )
        },
    }
}

/// Whether `r` may be what a recording gives: its segments transcribed one behind the other.
pub open spec fn is_transcription<
    T,
    E,
    S: Fn(T, u32) -> T,
    K: Fn(&[T]) -> Option<Vec<Vec<T>>>,
    N: Fn(T, T, T) -> T,
    R: Fn(&ModelInput<T>) -> Result<Logits, E>,
    F: Fn(&[T]) -> u32,
>(
    rec: Recognizer<T>,
    backend: Backend<T, S, K, N, R>,
    samples: Seq<T>,
    energy: F,
    language: i32,
    textnorm: i32,
    r: Result<Seq<char>, E>,
) -> bool {
    exists|segments: Seq<(usize, usize)>, texts: Seq<Seq<char>>|
        audio::is_split(
            samples,
            CHUNK_SAMPLES as int,
            SEARCH_SAMPLES as int,
            energy,
            segments,
        ) && #[trigger] is_transcript(
            rec,
            backend,
            samples,
            language,
            textnorm,
            segments,
            texts,
            r,
        )
}

/// The id of a language among those that a model knows.
pub open spec fn language_id(known: Seq<(Seq<char>, int)>, name: Seq<char>) -> Option<int>
    decreases known.len(),
{
    if known.len() == 0 {
        None
    } else if known[0].0 == name {
        Some(known[0].1)
    } else {
        language_id(known.drop_first(), name)
    }
}

/// The id that asks for inverse text normalisation, or for none.
pub open spec fn textnorm_id<T>(meta: Meta<T>, itn: bool) -> i32 {
    if itn {
        meta.with_itn
    } else {
        meta.without_itn
    }
}

/// What is written to a transcript file: the text and the end of its line.
pub fn transcript_line(text: &str) -> (line: String)
    ensures
        line@ == text@ + seq!['\n'],
{
    let mut line: String = text.to_owned();
    line.push('\n');
    line
}

/// Why speech is not transcribed.
#[derive(Debug)]
pub enum TranscribeError<E> {
    /// The model does not know the language; it knows `known`.
    UnsupportedLanguage { language: String, known: Vec<String> },
    /// The model failed.
    Model(E),
}

/// Whether `r` says that the model does not know the language, and which it knows.
pub open spec fn is_unsupported<T, E>(
    rec: Recognizer<T>,
    language: Seq<char>,
    r: Result<String, TranscribeError<E>>,
) -> bool {
    match r {
        Err(TranscribeError::UnsupportedLanguage { language: l, known }) => {
            &&& l@ == language
            &&& known@.len() == rec.meta.lang_ids@.len()
            &&& forall|i: int|
                0 <= i < known@.len() ==> (#[trigger] known@[i])@ == rec.meta.lang_ids@[i].0@
        },
        _ => false,
    }
}

/// Whether the model was asked.
pub open spec fn is_answered<E>(r: Result<String, TranscribeError<E>>) -> bool {
    r is Ok || r->Err_0 is Model
}

/// What the model answered: text, or its error.
pub open spec fn answer<E>(r: Result<String, TranscribeError<E>>) -> Result<Seq<char>, E> {
    match r {
        Ok(s) => Ok(s@),
        Err(e) => Err(e->Model_0),
    }
}

/// Whether the model can be run: it has four inputs, and its metadata describes the stacking
/// of frames and every dimension of a stacked frame.
pub open spec fn can_run<T>(rec: Recognizer<T>) -> bool {
    &&& rec.input_names@.len() >= 4
    &&& rec.meta.lfr_m >= 1
    &&& rec.meta.lfr_n >= 1
    &&& rec.meta.lfr_m * NUM_MEL <= rec.meta.neg_mean@.len()
    &&& rec.meta.lfr_m * NUM_MEL <= rec.meta.inv_stddev@.len()
}

/// Whether the filter bank may give frames for `samples`, so that the model is run on them.
pub open spec fn may_have_frames<
    T,
    E,
    S: Fn(T, u32) -> T,
    K: Fn(&[T]) -> Option<Vec<Vec<T>>>,
    N: Fn(T, T, T) -> T,
    R: Fn(&ModelInput<T>) -> Result<Logits, E>,
>(rec: Recognizer<T>, backend: Backend<T, S, K, N, R>, samples: Seq<T>) -> bool {
    exists|feats: Seq<[T; NUM_MEL]>|
        feats.len() > 0 && #[trigger] features::are_features(
            samples,
            rec.meta.sample_scale,
            backend.zero,
            backend.multiply,
            backend.filter,
            feats,
        )
}

/// Whether the filter bank may give frames for some part of a recording.
pub open spec fn some_part_may_have_frames<
    T,
    E,
    S: Fn(T, u32) -> T,
    K: Fn(&[T]) -> Option<Vec<Vec<T>>>,
    N: Fn(T, T, T) -> T,
    R: Fn(&ModelInput<T>) -> Result<Logits, E>,
>(rec: Recognizer<T>, backend: Backend<T, S, K, N, R>, samples: Seq<T>) -> bool {
    exists|start: int, end: int|
        0 <= start <= end <= samples.len() && #[trigger] may_have_frames(
            rec,
            backend,
            samples.subrange(start, end),
        )
}

/// Whether the operations accept whatever the way from samples to text hands to them, and the
/// model's output has the shape that it says.
pub open spec fn is_usable<
    T,
    E,
    S: Fn(T, u32) -> T,
    K: Fn(&[T]) -> Option<Vec<Vec<T>>>,
    N: Fn(T, T, T) -> T,
    R: Fn(&ModelInput<T>) -> Result<Logits, E>,
>(backend: Backend<T, S, K, N, R>) -> bool {
    &&& forall|x: T, scale: u32| #[trigger] call_requires(backend.multiply, (x, scale))
    &&& forall|s: &[T]| s@.len() >= FRAME_LENGTH ==> #[trigger] call_requires(backend.filter, (s,))
    &&& forall|x: T, m: T, d: T| #[trigger] call_requires(backend.normalise, (x, m, d))
    &&& forall|input: ModelInput<T>| #[trigger] call_requires(backend.run, (&input,))
    &&& forall|input: ModelInput<T>, logits: Logits| #[trigger]
        call_ensures(backend.run, (&input,), Ok::<Logits, E>(logits)) ==> logits.wf()
}

/// Puts the rows of a matrix one behind the other.
fn flatten<T: Copy>(rows: &Vec<Vec<T>>) -> (r: Vec<T>)
    ensures
        r@ == flat(rows@),
{
    let mut r: Vec<T> = Vec::new();
    let mut i: usize = 0;
    assert(rows@.take(0) == Seq::<Vec<T>>::empty());
    while i < rows.len()
        invariant
            i <= rows@.len(),
            r@ == flat(rows@.take(i as int)),
        decreases rows@.len() - i,
    {
        let ghost before = r@;
        assert(rows@.take(i + 1).drop_last() == rows@.take(i as int));
        let mut k: usize = 0;
        while k < rows[i].len()
            invariant
                i < rows@.len(),
                k <= rows@[i as int]@.len(),
                r@ == before + rows@[i as int]@.take(k as int),
            decreases rows@[i as int]@.len() - k,
        {
            r.push(rows[i][k]);
            k = k + 1;
            assert(rows@[i as int]@.take(k as int) == rows@[i as int]@.take(k - 1).push(
                rows@[i as int]@[k - 1],
            ));
        }
        assert(rows@[i as int]@.take(k as int) == rows@[i as int]@);
        i = i + 1;
    }
    assert(rows@.take(i as int) == rows@);
    r
}

impl<T: Copy> Recognizer<T> {
    /// Whether the model can be run.
    pub fn is_runnable(&self) -> (r: bool)
        ensures
            r == can_run(*self),
    {
        let m: usize = self.meta.lfr_m;
        let mean: usize = self.meta.neg_mean.len();
        let stddev: usize = self.meta.inv_stddev.len();
        self.input_names.len() >= 4 && m >= 1 && self.meta.lfr_n >= 1 && m <= mean / NUM_MEL && m
            <= stddev / NUM_MEL
    }

    /// The id of a language.
    pub fn find_language(&self, language: &str) -> (r: Option<i32>)
        ensures
            match r {
                Some(id) => language_id(meta::language_views(self.meta.lang_ids@), language@)
                    == Some(id as int),
                None => language_id(meta::language_views(self.meta.lang_ids@), language@) is None,
            },
    {
        let wanted = language.to_owned();
        let ghost known = meta::language_views(self.meta.lang_ids@);
        let mut i: usize = 0;
        assert(known.skip(0) == known);
        while i < self.meta.lang_ids.len()
            invariant
                i <= self.meta.lang_ids@.len(),
                wanted@ == language@,
                known == meta::language_views(self.meta.lang_ids@),
                language_id(known, language@) == language_id(known.skip(i as int), language@),
            decreases self.meta.lang_ids@.len() - i,
        {
            assert(known.skip(i as int).drop_first() == known.skip(i + 1));
            assert(known.skip(i as int)[0] == known[i as int]);
            if self.meta.lang_ids[i].0 == wanted {
                return Some(self.meta.lang_ids[i].1);
            }
            i = i + 1;
        }
        None
    }

    /// The names of the languages that the model knows.
    pub fn known_languages(&self) -> (names: Vec<String>)
        ensures
            names@.len() == self.meta.lang_ids@.len(),
            forall|i: int|
                0 <= i < names@.len() ==> (#[trigger] names@[i])@ == self.meta.lang_ids@[i].0@,
    {
        let mut names: Vec<String> = Vec::new();
        let mut i: usize = 0;
        while i < self.meta.lang_ids.len()
            invariant
                i <= self.meta.lang_ids@.len(),
                names@.len() == i,
                forall|j: int|
                    0 <= j < i ==> (#[trigger] names@[j])@ == self.meta.lang_ids@[j].0@,
            decreases self.meta.lang_ids@.len() - i,
        {
            names.push(self.meta.lang_ids[i].0.clone());
            i = i + 1;
        }
        names
    }

    /// Transcribes one chunk: features, stacking, normalisation, the model, decoding.
    pub fn run_chunk<
        E,
        S: Fn(T, u32) -> T,
        K: Fn(&[T]) -> Option<Vec<Vec<T>>>,
        N: Fn(T, T, T) -> T,
        R: Fn(&ModelInput<T>) -> Result<Logits, E>,
    >(
        &self,
        samples: &[T],
        language: i32,
        textnorm: i32,
        backend: &Backend<T, S, K, N, R>,
    ) -> (r: Result<String, E>)
        requires
            may_have_frames(*self, *backend, samples@) ==> can_run(*self),
            is_usable(*backend),
        ensures
            is_chunk(*self, *backend, samples@, language, textnorm, result_view(r)),
    {
        let feats = self.fbank.compute(
            samples,
            self.meta.sample_scale,
            backend.zero,
            &backend.multiply,
            &backend.filter,
        );
        assert(feats@.len() > 0 ==> may_have_frames(*self, *backend, samples@));
        let dimensions: usize = self.meta.neg_mean.len();
        assert(feats@.len() > 0 ==> self.meta.lfr_m * NUM_MEL <= dimensions);
        let mut frames = features::apply_lfr(
            feats.as_slice(),
            self.meta.lfr_m,
            self.meta.lfr_n,
        );
        let ghost stacked = frames@;
        assert forall|i: int| 0 <= i < stacked.len() implies (#[trigger] stacked[i])@.len()
            <= self.meta.neg_mean@.len() && stacked[i]@.len() <= self.meta.inv_stddev@.len() by {
            assert(feats@.len() > 0);
        }
        features::apply_cmvn(
            &mut frames,
            self.meta.neg_mean.as_slice(),
            self.meta.inv_stddev.as_slice(),
            &backend.normalise,
        );
        assert(are_model_frames(*self, *backend, samples@, frames@));
        if frames.len() == 0 {
            return Ok(String::new());
        }
        assert(feats@.len() > 0);
        let mut x_shape: Vec<i64> = Vec::new();
        x_shape.push(1);
        x_shape.push(#[verifier::truncate] (frames.len() as i64));
        x_shape.push(#[verifier::truncate] (frames[0].len() as i64));
        let input = ModelInput {
            x_name: self.input_names[0].clone(),
            x_shape,
            x: flatten(&frames),
            length_name: self.input_names[1].clone(),
            length: #[verifier::truncate] (frames.len() as i32),
            language_name: self.input_names[2].clone(),
            language,
            textnorm_name: self.input_names[3].clone(),
            textnorm,
            output_name: self.output_name.clone(),
        };
        assert(input.x_shape@ == seq![
            1i64,
            frames@.len() as i64,
            frames@[0]@.len() as i64,
        ]);
        assert(is_input(*self, frames@, language, textnorm, input));
        match (backend.run)(&input) {
            Err(e) => {
                assert(is_run(
                    *self,
                    *backend,
                    frames@,
                    language,
                    textnorm,
                    Err::<Logits, E>(e),
                ));
                Err(e)
            },
            Ok(logits) => {
                assert(is_run(
                    *self,
                    *backend,
                    frames@,
                    language,
                    textnorm,
                    Ok::<Logits, E>(logits),
                ));
                let ids = ctc::greedy(&logits, self.meta.blank_id);
                Ok(vocab::detokenize(&self.tokens, &ids))
            },
        }
    }

    /// Transcribes a full recording, segment by segment. `energy` returns the bits of the
    /// energy of a window of samples.
    pub fn transcribe<
        E,
        S: Fn(T, u32) -> T,
        K: Fn(&[T]) -> Option<Vec<Vec<T>>>,
        N: Fn(T, T, T) -> T,
        R: Fn(&ModelInput<T>) -> Result<Logits, E>,
        F: Fn(&[T]) -> u32,
    >(
        &self,
        samples: &[T],
        language: &str,
        itn: bool,
        energy: F,
        backend: &Backend<T, S, K, N, R>,
    ) -> (r: Result<String, TranscribeError<E>>)
        requires
            language_id(meta::language_views(self.meta.lang_ids@), language@) is Some
                && some_part_may_have_frames(*self, *backend, samples@) ==> can_run(*self),
            is_usable(*backend),
            forall|w: &[T]| w@.len() == audio::WINDOW ==> #[trigger] call_requires(energy, (w,)),
        ensures
            match language_id(meta::language_views(self.meta.lang_ids@), language@) {
                None => is_unsupported(*self, language@, r),
                Some(id) => is_answered(r) && is_transcription(
                    *self,
                    *backend,
                    samples@,
                    energy,
                    id as i32,
                    textnorm_id(self.meta, itn),
                    answer(r),
                ),
            },
    {
        let id: i32 = match self.find_language(language) {
            Some(id) => id,
            None => {
                return Err(
                    TranscribeError::UnsupportedLanguage {
                        language: language.to_owned(),
                        known: self.known_languages(),
                    },
                );
            },
        };
        let textnorm: i32 = if itn {
            self.meta.with_itn
        } else {
            self.meta.without_itn
        };
        let segments = audio::split_segments(samples, CHUNK_SAMPLES, SEARCH_SAMPLES, energy);
        let mut pieces = String::new();
        let ghost mut texts = Seq::<Seq<char>>::empty();
        let mut i: usize = 0;
        while i < segments.len()
            invariant
                i <= segments@.len(),
                some_part_may_have_frames(*self, *backend, samples@) ==> can_run(*self),
                is_usable(*backend),
                audio::is_split(
                    samples@,
                    CHUNK_SAMPLES as int,
                    SEARCH_SAMPLES as int,
                    energy,
                    segments@,
                ),
                language_id(meta::language_views(self.meta.lang_ids@), language@) == Some(
                    id as int,
                ),
                textnorm == textnorm_id(self.meta, itn),
                texts.len() == i,
                pieces@ == concat(texts),
                forall|j: int|
                    0 <= j < i ==> is_chunk(
                        *self,
                        *backend,
                        samples@.subrange(segments@[j].0 as int, segments@[j].1 as int),
                        id,
                        textnorm,
                        Ok::<Seq<char>, E>(#[trigger] texts[j]),
                    ),
            decreases segments@.len() - i,
        {
            let (start, end) = segments[i];
            proof {
                audio::segments_lie_in_the_recording(samples@.len() as int, segments@, i as int);
            }
            let chunk = slice_subrange(samples, start, end);
            assert(chunk@ == samples@.subrange(start as int, end as int));
            match self.run_chunk(chunk, id, textnorm, backend) {
                Err(e) => {
                    let r: Result<String, TranscribeError<E>> = Err(TranscribeError::Model(e));
                    assert(is_transcript(
                        *self,
                        *backend,
                        samples@,
                        id,
                        textnorm,
                        segments@,
                        texts,
                        answer(r),
                    ));
                    return r;
                },
                Ok(s) => {
                    if !s.as_str().is_empty() {
                        pieces.append(s.as_str());
                    }
                    proof {
                        let before = texts;
                        texts = texts.push(s@);
                        assert(texts.drop_last() == before);
                        assert(pieces@ == concat(texts));
                    }
                },
            }
            i = i + 1;
        }
        let r: Result<String, TranscribeError<E>> = Ok(pieces);
        assert(is_transcript(
            *self,
            *backend,
            samples@,
            id,
            textnorm,
            segments@,
            texts,
            answer(r),
        ));
        r
    }

    /// Transcribes one utterance as a single chunk.
    pub fn transcribe_once<
        E,
        S: Fn(T, u32) -> T,
        K: Fn(&[T]) -> Option<Vec<Vec<T>>>,
        N: Fn(T, T, T) -> T,
        R: Fn(&ModelInput<T>) -> Result<Logits, E>,
    >(
        &self,
        samples: &[T],
        language: &str,
        itn: bool,
        backend: &Backend<T, S, K, N, R>,
    ) -> (r: Result<String, TranscribeError<E>>)
        requires
            language_id(meta::language_views(self.meta.lang_ids@), language@) is Some
                && may_have_frames(*self, *backend, samples@) ==> can_run(*self),
            is_usable(*backend),
        ensures
            match language_id(meta::language_views(self.meta.lang_ids@), language@) {
                None => is_unsupported(*self, language@, r),
                Some(id) => is_answered(r) && is_chunk(
                    *self,
                    *backend,
                    samples@,
                    id as i32,
                    textnorm_id(self.meta, itn),
                    answer(r),
                ),
            },
    {
        let id: i32 = match self.find_language(language) {
            Some(id) => id,
            None => {
                return Err(
                    TranscribeError::UnsupportedLanguage {
                        language: language.to_owned(),
                        known: self.known_languages(),
                    },
                );
            },
        };
        let textnorm: i32 = if itn {
            self.meta.with_itn
        } else {
            self.meta.without_itn
        };
        match self.run_chunk(samples, id, textnorm, backend) {
            Ok(s) => Ok(s),
            Err(e) => Err(TranscribeError::Model(e)),
        }
    }
}

/// Too few samples for one frame give no text.
pub proof fn too_few_samples_give_no_text<
    T,
    E,
    S: Fn(T, u32) -> T,
    K: Fn(&[T]) -> Option<Vec<Vec<T>>>,
    N: Fn(T, T, T) -> T,
    R: Fn(&ModelInput<T>) -> Result<Logits, E>,
>(
    rec: Recognizer<T>,
    backend: Backend<T, S, K, N, R>,
    samples: Seq<T>,
    language: i32,
    textnorm: i32,
    r: Result<Seq<char>, E>,
)
    requires
        is_chunk(rec, backend, samples, language, textnorm, r),
        samples.len() < FRAME_LENGTH,
    ensures
        r == Ok::<Seq<char>, E>(Seq::empty()),
{
}

/// A recording no longer than one segment is transcribed as a single chunk.
pub proof fn short_recordings_are_one_chunk<
    T,
    E,
    S: Fn(T, u32) -> T,
    K: Fn(&[T]) -> Option<Vec<Vec<T>>>,
    N: Fn(T, T, T) -> T,
    R: Fn(&ModelInput<T>) -> Result<Logits, E>,
    F: Fn(&[T]) -> u32,
>(
    rec: Recognizer<T>,
    backend: Backend<T, S, K, N, R>,
    samples: Seq<T>,
    energy: F,
    language: i32,
    textnorm: i32,
    r: Result<Seq<char>, E>,
)
    requires
        is_transcription(rec, backend, samples, energy, language, textnorm, r),
        0 < samples.len() <= CHUNK_SAMPLES,
    ensures
        is_chunk(rec, backend, samples, language, textnorm, r),
{
    let (segments, texts) = choose|segments: Seq<(usize, usize)>, texts: Seq<Seq<char>>|
        audio::is_split(
            samples,
            CHUNK_SAMPLES as int,
            SEARCH_SAMPLES as int,
            energy,
            segments,
        ) && #[trigger] is_transcript(
            rec,
            backend,
            samples,
            language,
            textnorm,
            segments,
            texts,
            r,
        );
    audio::short_recordings_are_not_cut(
        samples,
        CHUNK_SAMPLES as int,
        SEARCH_SAMPLES as int,
        energy,
        segments,
    );
    assert(samples.subrange(0, samples.len() as int) == samples);
    if r is Ok {
        assert(texts.drop_last() == Seq::<Seq<char>>::empty());
        assert(concat(texts.drop_last()) == Seq::<char>::empty());
        assert(concat(texts) == texts[0]);
    }
}

/// A recording without samples has no text.
pub proof fn nothing_gives_no_text<
    T,
    E,
    S: Fn(T, u32) -> T,
    K: Fn(&[T]) -> Option<Vec<Vec<T>>>,
    N: Fn(T, T, T) -> T,
    R: Fn(&ModelInput<T>) -> Result<Logits, E>,
    F: Fn(&[T]) -> u32,
>(
    rec: Recognizer<T>,
    backend: Backend<T, S, K, N, R>,
    energy: F,
    language: i32,
    textnorm: i32,
    r: Result<Seq<char>, E>,
)
    requires
        is_transcription(rec, backend, Seq::empty(), energy, language, textnorm, r),
    ensures
        r == Ok::<Seq<char>, E>(Seq::empty()),
{
    let (segments, texts) = choose|segments: Seq<(usize, usize)>, texts: Seq<Seq<char>>|
        audio::is_split(
            Seq::empty(),
            CHUNK_SAMPLES as int,
            SEARCH_SAMPLES as int,
            energy,
            segments,
        ) && #[trigger] is_transcript(
            rec,
            backend,
            Seq::empty(),
            language,
            textnorm,
            segments,
            texts,
            r,
        );
    assert(segments.len() == 0);
    assert(texts.len() == 0);
}

/// The text of a chunk has no white space at its ends.
pub proof fn text_is_trimmed<T>(rec: Recognizer<T>, logits: Logits)
    ensures
        text::trim(decoded(rec, logits)) == decoded(rec, logits),
{
    text::trim_is_idempotent(
        vocab::joined(
            text::views(rec.tokens@),
            ctc::collapse(logits.best_path(), rec.meta.blank_id),
        ),
    );
}

proof fn first_language(known: Seq<(Seq<char>, int)>, name: Seq<char>)
    ensures
        match language_id(known, name) {
            Some(id) => exists|i: int| 0 <= i < known.len() && #[trigger] known[i] == (name, id),
            None => forall|i: int| 0 <= i < known.len() ==> (#[trigger] known[i]).0 != name,
        },
    decreases known.len(),
{
    if known.len() > 0 && known[0].0 != name {
        let rest = known.drop_first();
        first_language(rest, name);
        match language_id(rest, name) {
            Some(id) => {
                let i = choose|i: int| 0 <= i < rest.len() && #[trigger] rest[i] == (name, id);
                assert(known[i + 1] == (name, id));
            },
            None => {
                assert forall|i: int| 0 <= i < known.len() implies (#[trigger] known[i]).0
                    != name by {
                    if i > 0 {
                        assert(rest[i - 1] == known[i]);
                    }
                }
            },
        }
    } else if known.len() > 0 {
        assert(known[0] == (name, known[0].1));
    }
}

/// Whether `pair` is one of the first `k` languages with the id that the metadata has for it.
spec fn is_declared(entries: Map<Seq<char>, Seq<char>>, k: nat, pair: (Seq<char>, int)) -> bool {
    exists|i: int|
        0 <= i < k && #[trigger] meta::language_at(entries, i) == Some(pair.1) && pair.0
            == meta::language(i)
}

proof fn languages_listed(entries: Map<Seq<char>, Seq<char>>, k: nat)
    requires
        k <= meta::LANGUAGES,
    ensures
        forall|j: int|
            0 <= j < meta::languages_up_to(entries, k).len() ==> is_declared(
                entries,
                k,
                #[trigger] meta::languages_up_to(entries, k)[j],
            ),
        forall|i: int|
            0 <= i < k && #[trigger] meta::language_at(entries, i) is Some
                ==> meta::languages_up_to(entries, k).contains(
                (meta::language(i), meta::language_at(entries, i)->0),
            ),
    decreases k,
{
    if k > 0 {
        let before = meta::languages_up_to(entries, (k - 1) as nat);
        let now = meta::languages_up_to(entries, k);
        languages_listed(entries, (k - 1) as nat);
        assert forall|j: int| 0 <= j < now.len() implies is_declared(
            entries,
            k,
            #[trigger] now[j],
        ) by {
            if j < before.len() {
                assert(now[j] == before[j]);
                assert(is_declared(entries, (k - 1) as nat, before[j]));
                let i = choose|i: int|
                    0 <= i < k - 1 && #[trigger] meta::language_at(entries, i) == Some(
                        before[j].1,
                    ) && before[j].0 == meta::language(i);
                assert(meta::language_at(entries, i) == Some(now[j].1));
            } else {
                assert(meta::language_at(entries, k - 1) == Some(now[j].1));
            }
        }
        assert forall|i: int|
            0 <= i < k && #[trigger] meta::language_at(entries, i) is Some implies now.contains(
            (meta::language(i), meta::language_at(entries, i)->0),
        ) by {
            let pair = (meta::language(i), meta::language_at(entries, i)->0);
            if i < k - 1 {
                assert(before.contains(pair));
                let j = choose|j: int| 0 <= j < before.len() && before[j] == pair;
                assert(now[j] == pair);
            } else {
                assert(now[before.len() as int] == pair);
            }
        }
    }
}

proof fn languages_differ(i: int, j: int)
    requires
        0 <= i < meta::LANGUAGES,
        0 <= j < meta::LANGUAGES,
        meta::language(i) == meta::language(j),
    ensures
        i == j,
{
    reveal_strlit("auto");
    reveal_strlit("zh");
    reveal_strlit("en");
    reveal_strlit("ja");
    reveal_strlit("ko");
    reveal_strlit("yue");
    assert("auto"@[0] == 'a');
    assert("zh"@[0] == 'z');
    assert("en"@[0] == 'e');
    assert("ja"@[0] == 'j');
    assert("ko"@[0] == 'k');
    assert("yue"@[0] == 'y');
    assert(meta::language(i)[0] == meta::language(j)[0]);
}

/// The languages that can be asked for are `auto`, `zh`, `en`, `ja`, `ko` and `yue`, as far as
/// the metadata has an id for them, and each stands for that id.
pub proof fn languages_are_those_declared<T, E, P: Fn(&str) -> Result<T, E>>(
    entries: Map<Seq<char>, Seq<char>>,
    parse: P,
    meta: Meta<T>,
    name: Seq<char>,
)
    requires
        meta::is_meta(entries, parse, meta),
    ensures
        forall|i: int|
            0 <= i < meta::LANGUAGES && name == #[trigger] meta::language(i) ==> language_id(
                meta::language_views(meta.lang_ids@),
                name,
            ) == meta::language_at(entries, i),
        (forall|i: int| 0 <= i < meta::LANGUAGES ==> name != #[trigger] meta::language(i))
            ==> language_id(meta::language_views(meta.lang_ids@), name) is None,
{
    let known = meta::language_views(meta.lang_ids@);
    first_language(known, name);
    languages_listed(entries, meta::LANGUAGES as nat);
    assert(known == meta::languages_up_to(entries, meta::LANGUAGES as nat));
    match language_id(known, name) {
        Some(id) => {
            let j = choose|j: int| 0 <= j < known.len() && #[trigger] known[j] == (name, id);
            assert(is_declared(entries, meta::LANGUAGES as nat, known[j]));
            let w = choose|w: int|
                0 <= w < meta::LANGUAGES && #[trigger] meta::language_at(entries, w) == Some(id)
                    && name == meta::language(w);
            assert forall|i: int|
                0 <= i < meta::LANGUAGES && name == #[trigger] meta::language(i) implies i
                == w by {
                languages_differ(i, w);
            }
        },
        None => {
            assert forall|i: int|
                0 <= i < meta::LANGUAGES && name == #[trigger] meta::language(
                    i,
                ) implies meta::language_at(entries, i) is None by {
                if meta::language_at(entries, i) is Some {
                    let pair = (meta::language(i), meta::language_at(entries, i)->0);
                    assert(known.contains(pair));
                    let j = choose|j: int| 0 <= j < known.len() && known[j] == pair;
                    assert(known[j].0 == name);
                }
            }
        },
    }
}

/// A language is known by its own name: the id of each of the six names is the integer that the
/// metadata holds under `lang_` and that very name, and no other name has one.
pub proof fn a_language_is_known_by_its_own_name<T, E, P: Fn(&str) -> Result<T, E>>(
    entries: Map<Seq<char>, Seq<char>>,
    parse: P,
    meta: Meta<T>,
    name: Seq<char>,
)
    requires
        meta::is_meta(entries, parse, meta),
    ensures
        ({
            let named = name == "auto"@ || name == "zh"@ || name == "en"@ || name == "ja"@ || name
                == "ko"@ || name == "yue"@;
            let id = language_id(meta::language_views(meta.lang_ids@), name);
            &&& named ==> id == meta::int_at(entries, "lang_"@ + name)
            &&& !named ==> id is None
        }),
{
    languages_are_those_declared(entries, parse, meta, name);
    assert(meta::language(0) == "auto"@);
    assert(meta::language(1) == "zh"@);
    assert(meta::language(2) == "en"@);
    assert(meta::language(3) == "ja"@);
    assert(meta::language(4) == "ko"@);
    assert(meta::language(5) == "yue"@);
}

/// A name has the id that stands beside it in the list of languages, the first where it stands
/// there more than once.
pub proof fn a_language_has_the_id_beside_its_name(
    known: Seq<(Seq<char>, int)>,
    name: Seq<char>,
    k: int,
)
    requires
        0 <= k <= known.len(),
        forall|i: int| 0 <= i < k ==> (#[trigger] known[i]).0 != name,
        k < known.len() ==> known[k].0 == name,
    ensures
        k < known.len() ==> language_id(known, name) == Some(known[k].1),
        k == known.len() ==> language_id(known, name) is None,
    decreases known.len(),
{
    if known.len() > 0 && k > 0 {
        let rest = known.drop_first();
        assert(known[0].0 != name);
        assert forall|i: int| 0 <= i < k - 1 implies (#[trigger] rest[i]).0 != name by {
            assert(rest[i] == known[i + 1]);
        }
        if k < known.len() {
            assert(rest[k - 1] == known[k]);
        }
        a_language_has_the_id_beside_its_name(rest, name, k - 1);
    }
}

/// Inverse text normalisation is asked for by the id that the model has for it.
pub proof fn normalisation_is_asked_for_by_its_id<T>(meta: Meta<T>)
    ensures
        textnorm_id(meta, true) == meta.with_itn,
        textnorm_id(meta, false) == meta.without_itn,
{
}

/// Segments last 15 s, and cuts are looked for within 2 s.
pub proof fn segments_are_measured_in_seconds()
    ensures
        CHUNK_SAMPLES == 15 * 16_000,
        SEARCH_SAMPLES == 2 * 16_000,
{
}

/// A transcript keeps the order of its texts: it is that of the first ones and then that of the
/// others, and one text is its own transcript.
pub proof fn a_transcript_keeps_the_order_of_its_texts(
    first: Seq<Seq<char>>,
    others: Seq<Seq<char>>,
    text: Seq<char>,
)
    ensures
        concat(Seq::<Seq<char>>::empty()) == Seq::<char>::empty(),
        concat(seq![text]) == text,
        concat(first + others) == concat(first) + concat(others),
    decreases others.len(),
{
    let one = seq![text];
    assert(one.drop_last() == Seq::<Seq<char>>::empty());
    assert(concat(one.drop_last()) == Seq::<char>::empty());
    assert(concat(one) == text);
    if others.len() == 0 {
        assert(first + others == first);
        assert(concat(first) + concat(others) == concat(first));
    } else {
        a_transcript_keeps_the_order_of_its_texts(first, others.drop_last(), text);
        assert((first + others).drop_last() == first + others.drop_last());
        assert(concat(first + others) == concat(first) + concat(others));
    }
}

/// The text of each segment stands behind those of the segments before it and before those of
/// the segments behind it.
pub proof fn a_text_stands_in_its_place(texts: Seq<Seq<char>>, i: int)
    requires
        0 <= i < texts.len(),
    ensures
        concat(texts) == concat(texts.take(i)) + texts[i] + concat(texts.skip(i + 1)),
{
    let before = texts.take(i);
    let behind = texts.skip(i + 1);
    a_transcript_keeps_the_order_of_its_texts(before, seq![texts[i]], texts[i]);
    a_transcript_keeps_the_order_of_its_texts(before + seq![texts[i]], behind, texts[i]);
    assert(before + seq![texts[i]] + behind == texts);
}

/// A recording is transcribed segment by segment: its text is that of the chunks, one for every
/// segment of about 15 s in order; where a chunk fails, those before it did not, and its error
/// is the answer.
pub proof fn a_recording_is_transcribed_in_order<
    T,
    E,
    S: Fn(T, u32) -> T,
    K: Fn(&[T]) -> Option<Vec<Vec<T>>>,
    N: Fn(T, T, T) -> T,
    R: Fn(&ModelInput<T>) -> Result<Logits, E>,
    F: Fn(&[T]) -> u32,
>(
    rec: Recognizer<T>,
    backend: Backend<T, S, K, N, R>,
    samples: Seq<T>,
    energy: F,
    language: i32,
    textnorm: i32,
    r: Result<Seq<char>, E>,
)
    requires
        is_transcription(rec, backend, samples, energy, language, textnorm, r),
    ensures
        exists|segments: Seq<(usize, usize)>, texts: Seq<Seq<char>>|
            {
                &&& #[trigger] audio::is_split(samples, 240_000, 32_000, energy, segments)
                &&& forall|i: int|
                    0 <= i < texts.len() && i < segments.len() ==> is_chunk(
                        rec,
                        backend,
                        samples.subrange(segments[i].0 as int, segments[i].1 as int),
                        language,
                        textnorm,
                        Ok::<Seq<char>, E>(#[trigger] texts[i]),
                    )
                &&& r matches Ok(s) ==> texts.len() == segments.len() && s == #[trigger] concat(texts)
                &&& r matches Err(e) ==> texts.len() < segments.len() && is_chunk(
                    rec,
                    backend,
                    samples.subrange(
                        segments[texts.len() as int].0 as int,
                        segments[texts.len() as int].1 as int,
                    ),
                    language,
                    textnorm,
                    Err::<Seq<char>, E>(e),
                )
            },
{
    let (segments, texts) = choose|segments: Seq<(usize, usize)>, texts: Seq<Seq<char>>|
        audio::is_split(
            samples,
            CHUNK_SAMPLES as int,
            SEARCH_SAMPLES as int,
            energy,
            segments,
        ) && #[trigger] is_transcript(
            rec,
            backend,
            samples,
            language,
            textnorm,
            segments,
            texts,
            r,
        );
    assert(audio::is_split(samples, 240_000, 32_000, energy, segments));
    assert(concat(texts) == concat(texts));
}

proof fn flat_row<T>(rows: Seq<Vec<T>>, dim: int, i: int, d: int)
    requires
        forall|k: int| 0 <= k < rows.len() ==> (#[trigger] rows[k])@.len() == dim,
        0 <= i < rows.len(),
        0 <= d < dim,
    ensures
        flat(rows).len() == rows.len() * dim,
        i * dim + d < flat(rows).len(),
        0 <= i * dim + d,
        flat(rows)[i * dim + d] == rows[i]@[d],
    decreases rows.len(),
{
    let rest = rows.drop_last();
    let n = rest.len() as int;
    assert forall|k: int| 0 <= k < rest.len() implies (#[trigger] rest[k])@.len() == dim by {
        assert(rest[k] == rows[k]);
    }
    flat_length(rest, dim);
    assert(rows[n]@.len() == dim);
    assert(n * dim + dim == (n + 1) * dim) by (nonlinear_arith);
    if i < n {
        flat_row(rest, dim, i, d);
        assert(rest[i] == rows[i]);
    }
    assert(0 <= i * dim) by (nonlinear_arith)
        requires
            0 <= i,
            0 < dim,
    ;
}

proof fn flat_length<T>(rows: Seq<Vec<T>>, dim: int)
    requires
        forall|k: int| 0 <= k < rows.len() ==> (#[trigger] rows[k])@.len() == dim,
    ensures
        flat(rows).len() == rows.len() * dim,
    decreases rows.len(),
{
    if rows.len() > 0 {
        let rest = rows.drop_last();
        assert forall|k: int| 0 <= k < rest.len() implies (#[trigger] rest[k])@.len() == dim by {
            assert(rest[k] == rows[k]);
        }
        flat_length(rest, dim);
        let n = rest.len() as int;
        assert(rows[n]@.len() == dim);
        assert(n * dim + dim == (n + 1) * dim) by (nonlinear_arith);
    } else {
        assert(0 * dim == 0);
    }
}

/// The model is handed its frames one behind the other, under the name of its first input and
/// with their number and length for a shape; their number, the language and the kind of text
/// under the names of the next three; and what is read is its first output.
pub proof fn the_model_is_handed_its_frames_in_order<T>(
    rec: Recognizer<T>,
    frames: Seq<Vec<T>>,
    dim: int,
    language: i32,
    textnorm: i32,
    input: ModelInput<T>,
    i: int,
    d: int,
)
    requires
        is_input(rec, frames, language, textnorm, input),
        forall|k: int| 0 <= k < frames.len() ==> (#[trigger] frames[k])@.len() == dim,
        0 <= i < frames.len() <= 0x7FFF_FFFF,
        0 <= d < dim <= 0x7FFF_FFFF_FFFF_FFFF,
    ensures
        input.x_shape@.len() == 3,
        input.x_shape@[0] == 1,
        input.x_shape@[1] == frames.len(),
        input.x_shape@[2] == dim,
        input.x@.len() == frames.len() * dim,
        input.x@[i * dim + d] == frames[i]@[d],
        input.length == frames.len(),
        input.language == language,
        input.textnorm == textnorm,
        input.x_name@ == rec.input_names@[0]@,
        input.length_name@ == rec.input_names@[1]@,
        input.language_name@ == rec.input_names@[2]@,
        input.textnorm_name@ == rec.input_names@[3]@,
        input.output_name@ == rec.output_name@,
{
    flat_row(frames, dim, i, d);
    assert(frames[0]@.len() == dim);
}

/// What the model is run on is made of the features of the samples at the model's own scale: the
/// value at `j * 80 + d` of frame `i` is that of dimension `d` of the frame `j` places on in
/// window `i`, normalised by the statistics of its own place.
pub proof fn model_frames_are_made_of_features<
    T,
    E,
    S: Fn(T, u32) -> T,
    K: Fn(&[T]) -> Option<Vec<Vec<T>>>,
    N: Fn(T, T, T) -> T,
    R: Fn(&ModelInput<T>) -> Result<Logits, E>,
>(
    rec: Recognizer<T>,
    backend: Backend<T, S, K, N, R>,
    samples: Seq<T>,
    frames: Seq<Vec<T>>,
    i: int,
    j: int,
    d: int,
)
    requires
        are_model_frames(rec, backend, samples, frames),
        rec.meta.lfr_n >= 1,
        0 <= i < frames.len(),
        0 <= j < rec.meta.lfr_m,
        0 <= d < 80,
    ensures
        exists|feats: Seq<[T; NUM_MEL]>|
            {
                let at = i * rec.meta.lfr_n + j - (rec.meta.lfr_m - 1) / 2;
                let place = if at < 0 {
                    0
                } else if at < feats.len() {
                    at
                } else {
                    feats.len() - 1
                };
                &&& #[trigger] features::are_features(
                    samples,
                    rec.meta.sample_scale,
                    backend.zero,
                    backend.multiply,
                    backend.filter,
                    feats,
                )
                &&& (frames.len() - 1) * rec.meta.lfr_n < feats.len() <= frames.len()
                    * rec.meta.lfr_n
                &&& frames[i]@.len() == rec.meta.lfr_m * 80
                &&& call_ensures(
                    backend.normalise,
                    (
                        feats[place]@[d],
                        rec.meta.neg_mean@[j * 80 + d],
                        rec.meta.inv_stddev@[j * 80 + d],
                    ),
                    frames[i]@[j * 80 + d],
                )
            },
{
    let m = rec.meta.lfr_m as int;
    let n = rec.meta.lfr_n as int;
    let (feats, stacked) = choose|feats: Seq<[T; NUM_MEL]>, stacked: Seq<Vec<T>>|
        features::are_features(
            samples,
            rec.meta.sample_scale,
            backend.zero,
            backend.multiply,
            backend.filter,
            feats,
        ) && #[trigger] features::is_stacked(
            feats,
            rec.meta.lfr_m as int,
            rec.meta.lfr_n as int,
            stacked,
        ) && features::is_normalised(
            stacked,
            rec.meta.neg_mean@,
            rec.meta.inv_stddev@,
            backend.normalise,
            frames,
        );
    features::stacked_frames_hold_their_neighbours(feats, m, n, stacked, i, j, d);
    features::stacked_frames_cover_all_frames(feats, m, n, stacked);
    features::a_dimension_has_its_own_statistics(
        stacked,
        rec.meta.neg_mean@,
        rec.meta.inv_stddev@,
        backend.normalise,
        frames,
        i,
        j * 80 + d,
    );
}

/// The text of a chunk is empty where it has no frames. Else the model was run once, on these
/// frames and with this language and this kind of text, and the text is what its best tokens,
/// repeats and blanks left out, spell, without white space at the ends.
pub proof fn a_chunk_is_what_the_model_spells<
    T,
    E,
    S: Fn(T, u32) -> T,
    K: Fn(&[T]) -> Option<Vec<Vec<T>>>,
    N: Fn(T, T, T) -> T,
    R: Fn(&ModelInput<T>) -> Result<Logits, E>,
>(
    rec: Recognizer<T>,
    backend: Backend<T, S, K, N, R>,
    samples: Seq<T>,
    language: i32,
    textnorm: i32,
    s: Seq<char>,
)
    requires
        is_chunk(rec, backend, samples, language, textnorm, Ok::<Seq<char>, E>(s)),
    ensures
        (s == Seq::<char>::empty() && exists|frames: Seq<Vec<T>>|
            frames.len() == 0 && #[trigger] are_model_frames(rec, backend, samples, frames))
            || exists|frames: Seq<Vec<T>>, input: ModelInput<T>, logits: Logits|
            {
                &&& frames.len() > 0
                &&& #[trigger] are_model_frames(rec, backend, samples, frames)
                &&& #[trigger] call_ensures(backend.run, (&input,), Ok::<Logits, E>(logits))
                &&& is_input(rec, frames, language, textnorm, input)
                &&& s == text::trim(
                    vocab::joined(
                        text::views(rec.tokens@),
                        ctc::collapse(logits.best_path(), rec.meta.blank_id),
                    ),
                )
            },
{
    let frames = choose|frames: Seq<Vec<T>>|
        #[trigger] are_model_frames(rec, backend, samples, frames) && (if frames.len() == 0 {
            s == Seq::<char>::empty()
        } else {
            exists|logits: Logits|
                #[trigger] is_run(
                    rec,
                    backend,
                    frames,
                    language,
                    textnorm,
                    Ok::<Logits, E>(logits),
                ) && s == decoded(rec, logits)
        });
    if frames.len() > 0 {
        let logits = choose|logits: Logits|
            #[trigger] is_run(
                rec,
                backend,
                frames,
                language,
                textnorm,
                Ok::<Logits, E>(logits),
            ) && s == decoded(rec, logits);
        let input = choose|input: ModelInput<T>|
            is_input(rec, frames, language, textnorm, input) && #[trigger] call_ensures(
                backend.run,
                (&input,),
                Ok::<Logits, E>(logits),
            );
        assert(call_ensures(backend.run, (&input,), Ok::<Logits, E>(logits)));
    }
}

/// A chunk fails only where it has frames and the model, run on them with this language and this
/// kind of text, returned that error.
pub proof fn a_chunk_fails_as_the_model_does<
    T,
    E,
    S: Fn(T, u32) -> T,
    K: Fn(&[T]) -> Option<Vec<Vec<T>>>,
    N: Fn(T, T, T) -> T,
    R: Fn(&ModelInput<T>) -> Result<Logits, E>,
>(
    rec: Recognizer<T>,
    backend: Backend<T, S, K, N, R>,
    samples: Seq<T>,
    language: i32,
    textnorm: i32,
    e: E,
)
    requires
        is_chunk(rec, backend, samples, language, textnorm, Err::<Seq<char>, E>(e)),
    ensures
        exists|frames: Seq<Vec<T>>, input: ModelInput<T>|
            {
                &&& frames.len() > 0
                &&& #[trigger] are_model_frames(rec, backend, samples, frames)
                &&& #[trigger] call_ensures(backend.run, (&input,), Err::<Logits, E>(e))
                &&& is_input(rec, frames, language, textnorm, input)
            },
{
    let frames = choose|frames: Seq<Vec<T>>|
        #[trigger] are_model_frames(rec, backend, samples, frames) && frames.len() > 0 && is_run(
            rec,
            backend,
            frames,
            language,
            textnorm,
            Err::<Logits, E>(e),
        );
    let input = choose|input: ModelInput<T>|
        is_input(rec, frames, language, textnorm, input) && #[trigger] call_ensures(
            backend.run,
            (&input,),
            Err::<Logits, E>(e),
        );
    assert(call_ensures(backend.run, (&input,), Err::<Logits, E>(e)));
}

/// The model in full precision is `model.onnx`, the quantised one `model.int8.onnx`.
pub proof fn models_are_named_by_their_precision()
    ensures
        model_file(true) == "model.onnx"@,
        model_file(false) == "model.int8.onnx"@,
{
}

/// A loaded recogniser has the names of the model's inputs in order, that of its first output,
/// what its metadata says, and the table of the vocabulary that was read.
pub proof fn a_recogniser_is_made_of_its_model<
    T,
    E,
    X,
    P: Fn(&str) -> Result<T, E>,
    R: Fn() -> Result<String, X>,
>(
    inputs: Seq<Seq<char>>,
    outputs: Seq<Seq<char>>,
    entries: Map<Seq<char>, Seq<char>>,
    parse: P,
    read: R,
    rec: Recognizer<T>,
    i: int,
)
    requires
        is_loaded(
            inputs,
            outputs,
            entries,
            parse,
            read,
            Ok::<Recognizer<T>, LoadError<E, X>>(rec),
        ),
        0 <= i < inputs.len(),
    ensures
        outputs.len() > 0,
        rec.input_names@.len() == inputs.len(),
        rec.input_names@[i]@ == inputs[i],
        rec.output_name@ == outputs[0],
        meta::is_meta(entries, parse, rec.meta),
        exists|file: String| #[trigger]
            call_ensures(read, (), Ok::<String, X>(file)) && text::views(rec.tokens@)
                == vocab::table(vocab::entries(vocab::entry_lines(file@))),
{
    assert(text::views(rec.input_names@)[i] == rec.input_names@[i]@);
    assert(text::views(rec.input_names@).len() == rec.input_names@.len());
}

/// Why a model is refused: it has no outputs; its metadata is at fault, which is only looked at
/// where it has; its vocabulary was not read, or has a fault, which is only looked at where its
/// metadata has none.
pub proof fn a_model_is_refused_for_its_first_fault<
    T,
    E,
    X,
    P: Fn(&str) -> Result<T, E>,
    R: Fn() -> Result<String, X>,
>(
    inputs: Seq<Seq<char>>,
    outputs: Seq<Seq<char>>,
    entries: Map<Seq<char>, Seq<char>>,
    parse: P,
    read: R,
    error: LoadError<E, X>,
)
    requires
        is_loaded(
            inputs,
            outputs,
            entries,
            parse,
            read,
            Err::<Recognizer<T>, LoadError<E, X>>(error),
        ),
    ensures
        outputs.len() == 0 <==> error is NoOutputs,
        error matches LoadError::Meta(e) ==> meta::is_meta_error::<T, E, P>(entries, parse, e),
        error is Unread || error is Tokens ==> exists|m: Meta<T>| #[trigger]
            meta::is_meta(entries, parse, m),
        error matches LoadError::Unread(x) ==> call_ensures(read, (), Err::<String, X>(x)),
        error matches LoadError::Tokens(TokensError::Malformed(line)) ==> exists|
            file: String,
            i: int,
        |
            {
                &&& #[trigger] call_ensures(read, (), Ok::<String, X>(file))
                &&& #[trigger] vocab::is_first_fault(vocab::entry_lines(file@), i)
                &&& vocab::entry_lines(file@)[i] == line@
                &&& vocab::is_malformed(line@)
            },
        error matches LoadError::Tokens(TokensError::BadId { line, id: _ }) ==> exists|
            file: String,
            i: int,
        |
            {
                &&& #[trigger] call_ensures(read, (), Ok::<String, X>(file))
                &&& #[trigger] vocab::is_first_fault(vocab::entry_lines(file@), i)
                &&& vocab::entry_lines(file@)[i] == line@
                &&& !vocab::is_malformed(line@)
            },
{
}

/// A language that the model does not know is named in the answer, with those that it knows.
pub proof fn an_unknown_language_is_named<T, E>(
    rec: Recognizer<T>,
    language: Seq<char>,
    r: Result<String, TranscribeError<E>>,
)
    requires
        is_unsupported(rec, language, r),
    ensures
        r matches Err(TranscribeError::UnsupportedLanguage { language: l, known }) && l@ == language
            && known@.len() == rec.meta.lang_ids@.len() && forall|i: int|
            0 <= i < known@.len() ==> (#[trigger] known@[i])@ == rec.meta.lang_ids@[i].0@,
{
}

/// The model is asked or it is not; its text and its error are the answer as they are.
pub proof fn answers_are_passed_on<E>(r: Result<String, TranscribeError<E>>)
    ensures
        is_answered(r) <==> !(r matches Err(TranscribeError::UnsupportedLanguage { .. })),
        r matches Ok(s) ==> answer(r) == Ok::<Seq<char>, E>(s@),
        r matches Err(TranscribeError::Model(e)) ==> answer(r) == Err::<Seq<char>, E>(e),
{
}

/// A model can be run that has four inputs and statistics for every dimension of a stacked
/// frame, of which there are 80 for each of its frames.
pub proof fn models_with_all_statistics_can_be_run<T>(rec: Recognizer<T>)
    ensures
        can_run(rec) <==> rec.input_names@.len() >= 4 && rec.meta.lfr_m >= 1 && rec.meta.lfr_n >= 1
            && 80 * rec.meta.lfr_m <= rec.meta.neg_mean@.len() && 80 * rec.meta.lfr_m
            <= rec.meta.inv_stddev@.len(),
{
}

/// The text of a chunk and its error are handed on as they are.
pub proof fn results_are_handed_on<E>(text: String, e: E)
    ensures
        result_view(Ok::<String, E>(text)) == Ok::<Seq<char>, E>(text@),
        result_view(Err::<String, E>(e)) == Err::<Seq<char>, E>(e),
{
}

} // verus!
