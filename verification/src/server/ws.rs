//! One stream: blocks of samples come in, and utterances go to the recogniser, in part while
//! they are spoken and whole once they end.
use vstd::prelude::*;
use vstd::slice::slice_to_vec;

use super::VadConfig;
use crate::app::SttMsg;
use crate::asr;
use crate::asr::{Backend, ModelInput, Recognizer};
use crate::ctc::Logits;
use crate::order;

verus! {

/// Fewer samples than one frame of the filter bank give no features: the recogniser is not
/// asked about them.
pub const MIN_SAMPLES: usize = 400;

/// The word that four bytes hold, the lowest byte first.
pub open spec fn word(b: Seq<u8>, i: int) -> int {
    b[i] + b[i + 1] * 0x100 + b[i + 2] * 0x1_0000 + b[i + 3] * 0x100_0000
}

/// The words of a message, four bytes each; bytes left over are passed over.
pub open spec fn words(bytes: Seq<u8>) -> Seq<u32> {
    Seq::new(bytes.len() / 4, |k: int| word(bytes, 4 * k) as u32)
}

/// Reads the bits of the samples of a message.
pub fn samples_of(bytes: &[u8]) -> (samples: Vec<u32>)
    ensures
        samples@ == words(bytes@),
{
    let mut samples: Vec<u32> = Vec::new();
    let len: usize = bytes.len();
    let count: usize = len / 4;
    let mut k: usize = 0;
    while k < count
        invariant
            k <= count,
            count == bytes@.len() / 4,
            len == bytes@.len(),
            samples@ == words(bytes@).take(k as int),
        decreases count - k,
    {
        let i: usize = 4 * k;
        let w: u32 = bytes[i] as u32 + bytes[i + 1] as u32 * 0x100 + bytes[i + 2] as u32 * 0x1_0000
            + bytes[i + 3] as u32 * 0x100_0000;
        samples.push(w);
        k = k + 1;
        assert(words(bytes@).take(k as int) == words(bytes@).take(k - 1).push(
            words(bytes@)[k - 1],
        ));
    }
    assert(words(bytes@).take(count as int) == words(bytes@));
    samples
}

/// What was heard since the last utterance ended.
pub struct Hearing {
    /// The samples, speech and silence alike.
    buf: Vec<u32>,
    /// Silence since speech was last heard.
    trailing_silence: usize,
    /// Samples since the last partial result.
    since_partial: usize,
    /// Whether speech was heard.
    speech: bool,
}

/// What was heard since the last utterance ended, as values.
#[verifier::ext_equal]
pub struct Heard {
    pub buf: Seq<u32>,
    pub trailing_silence: nat,
    pub since_partial: nat,
    pub speech: bool,
}

/// What is sent to the recogniser.
pub enum Step {
    /// Nothing.
    Wait,
    /// The utterance so far.
    Partial(Vec<u32>),
    /// A whole utterance.
    Final(Vec<u32>),
}

/// What is sent to the recogniser, as values.
pub enum Sent {
    Wait,
    Partial(Seq<u32>),
    Final(Seq<u32>),
}

impl View for Step {
    type V = Sent;

    open spec fn view(&self) -> Sent {
        match *self {
            Step::Wait => Sent::Wait,
            Step::Partial(buf) => Sent::Partial(buf@),
            Step::Final(buf) => Sent::Final(buf@),
        }
    }
}

/// Nothing heard yet.
pub open spec fn quiet() -> Heard {
    Heard { buf: Seq::empty(), trailing_silence: 0, since_partial: 0, speech: false }
}

/// What was heard once a block of a given loudness is added.
pub open spec fn with_block(
    heard: Heard,
    config: VadConfig,
    block: Seq<u32>,
    loudness: u32,
) -> Heard {
    let loud = order::below(config.threshold, loudness);
    Heard {
        buf: heard.buf + block,
        trailing_silence: if loud {
            0
        } else if heard.speech {
            heard.trailing_silence + block.len()
        } else {
            heard.trailing_silence
        },
        since_partial: heard.since_partial + block.len(),
        speech: heard.speech || loud,
    }
}

/// Whether the utterance ends: speech was heard, and enough silence followed it or it is as
/// long as it may be.
pub open spec fn ends(heard: Heard, config: VadConfig) -> bool {
    heard.speech && (heard.trailing_silence >= config.silence_needed || heard.buf.len()
        >= config.max_samples)
}

/// Whether a partial result is due: speech was heard, long enough ago, in enough samples.
pub open spec fn partial_is_due(heard: Heard, config: VadConfig) -> bool {
    heard.speech && heard.since_partial >= config.partial_every && heard.buf.len() >= MIN_SAMPLES
}

/// What remains heard after a block.
pub open spec fn after(heard: Heard, config: VadConfig, block: Seq<u32>, loudness: u32) -> Heard {
    let now = with_block(heard, config, block, loudness);
    if ends(now, config) {
        quiet()
    } else if partial_is_due(now, config) {
        Heard { since_partial: 0, ..now }
    } else {
        now
    }
}

/// What is sent after a block: an utterance that ends, unless it is too short to be
/// transcribed, or what there is of one in progress.
pub open spec fn sent(heard: Heard, config: VadConfig, block: Seq<u32>, loudness: u32) -> Sent {
    let now = with_block(heard, config, block, loudness);
    if ends(now, config) {
        if now.buf.len() >= MIN_SAMPLES {
            Sent::Final(now.buf)
        } else {
            Sent::Wait
        }
    } else if partial_is_due(now, config) {
        Sent::Partial(now.buf)
    } else {
        Sent::Wait
    }
}

/// What always holds between blocks: silence and pause are part of what was heard; an
/// utterance in progress has not ended.
pub open spec fn is_steady(heard: Heard, config: VadConfig) -> bool {
    &&& heard.trailing_silence <= heard.buf.len()
    &&& heard.since_partial <= heard.buf.len()
    &&& !heard.speech ==> heard.trailing_silence == 0
    &&& !ends(heard, config)
}

/// A message from the page.
pub enum Incoming {
    /// Samples.
    Binary(Vec<u8>),
    /// The stream ends.
    Close,
    /// Anything else.
    Other,
}

/// What a message leads to.
pub enum Reaction {
    /// The stream goes on, after this step.
    Continue(Step),
    /// The stream ends.
    Stop,
}

/// Whether `loudness`, called on the samples of a block, may return the bits `l`.
pub open spec fn measures<F: Fn(&[u32]) -> u32>(loudness: F, block: Seq<u32>, l: u32) -> bool {
    exists|b: &[u32]| b@ == block && #[trigger] call_ensures(loudness, (b,), l)
}

/// Copies what was heard.
fn copied(buf: &Vec<u32>) -> (r: Vec<u32>)
    ensures
        r@ == buf@,
{
    slice_to_vec(buf.as_slice())
}

impl View for Hearing {
    type V = Heard;

    closed spec fn view(&self) -> Heard {
        Heard {
            buf: self.buf@,
            trailing_silence: self.trailing_silence as nat,
            since_partial: self.since_partial as nat,
            speech: self.speech,
        }
    }
}

impl Hearing {
    /// The counters are part of what was heard.
    pub open spec fn wf(&self) -> bool {
        &&& self@.trailing_silence <= self@.buf.len()
        &&& self@.since_partial <= self@.buf.len()
    }

    /// Nothing heard yet.
    pub fn new() -> (r: Self)
        ensures
            r.wf(),
            r@ == quiet(),
    {
        Hearing { buf: Vec::new(), trailing_silence: 0, since_partial: 0, speech: false }
    }

    /// Hears one block of samples whose loudness has the given bits.
    pub fn hear(&mut self, config: &VadConfig, block: &[u32], loudness: u32) -> (step: Step)
        requires
            old(self).wf(),
        ensures
            final(self).wf(),
            final(self)@ == after(old(self)@, *config, block@, loudness),
            step@ == sent(old(self)@, *config, block@, loudness),
    {
        let ghost before = self@;
        let ghost now = with_block(before, *config, block@, loudness);
        let mut i: usize = 0;
        while i < block.len()
            invariant
                i <= block@.len(),
                self.buf@ == before.buf + block@.take(i as int),
                self.trailing_silence == before.trailing_silence,
                self.since_partial == before.since_partial,
                self.speech == before.speech,
            decreases block@.len() - i,
        {
            self.buf.push(block[i]);
            i = i + 1;
            assert(block@.take(i as int) == block@.take(i - 1).push(block@[i - 1]));
        }
        assert(block@.take(i as int) == block@);
        let len: usize = self.buf.len();
        if order::less(config.threshold, loudness) {
            self.speech = true;
            self.trailing_silence = 0;
        } else if self.speech {
            self.trailing_silence = self.trailing_silence + block.len();
        }
        self.since_partial = self.since_partial + block.len();
        assert(self@ == now);
        if self.speech && (self.trailing_silence >= config.silence_needed || len
            >= config.max_samples) {
            let utterance = copied(&self.buf);
            self.buf = Vec::new();
            self.trailing_silence = 0;
            self.since_partial = 0;
            self.speech = false;
            assert(self@ == quiet());
            if len >= MIN_SAMPLES {
                Step::Final(utterance)
            } else {
                Step::Wait
            }
        } else if self.speech && self.since_partial >= config.partial_every && len >= MIN_SAMPLES {
            self.since_partial = 0;
            Step::Partial(copied(&self.buf))
        } else {
            Step::Wait
        }
    }

    /// Takes one message. `loudness` returns the bits of the loudness of a block.
    pub fn receive<F: Fn(&[u32]) -> u32>(
        &mut self,
        config: &VadConfig,
        message: &Incoming,
        loudness: &F,
    ) -> (reaction: Reaction)
        requires
            old(self).wf(),
            forall|b: &[u32]| b@.len() > 0 ==> #[trigger] call_requires(*loudness, (b,)),
        ensures
            final(self).wf(),
            match *message {
                Incoming::Binary(bytes) => {
                    let block = words(bytes@);
                    if block.len() == 0 {
                        &&& reaction matches Reaction::Continue(step) && step@ == Sent::Wait
                        &&& final(self)@ == old(self)@
                    } else {
                        exists|l: u32| #[trigger]
                            measures(*loudness, block, l) && final(self)@ == after(
                                old(self)@,
                                *config,
                                block,
                                l,
                            ) && (reaction matches Reaction::Continue(step) && step@ == sent(
                                old(self)@,
                                *config,
                                block,
                                l,
                            ))
                    }
                },
                Incoming::Close => reaction is Stop && final(self)@ == old(self)@,
                Incoming::Other => {
                    &&& reaction matches Reaction::Continue(step) && step@ == Sent::Wait
                    &&& final(self)@ == old(self)@
                },
            },
    {
        match message {
            Incoming::Binary(bytes) => {
                let block = samples_of(bytes.as_slice());
                if block.len() == 0 {
                    Reaction::Continue(Step::Wait)
                } else {
                    let l: u32 = loudness(block.as_slice());
                    assert(measures(*loudness, block@, l));
                    Reaction::Continue(self.hear(config, block.as_slice(), l))
                }
            },
            Incoming::Close => Reaction::Stop,
            Incoming::Other => Reaction::Continue(Step::Wait),
        }
    }

    /// What is left to send as a last line when the stream ends.
    pub fn finish(self) -> (rest: Option<Vec<u32>>)
        ensures
            match rest {
                Some(buf) => self@.speech && self@.buf.len() >= MIN_SAMPLES && buf@ == self@.buf,
                None => !(self@.speech && self@.buf.len() >= MIN_SAMPLES),
            },
    {
        if self.speech && self.buf.len() >= MIN_SAMPLES {
            Some(self.buf)
        } else {
            None
        }
    }
}

/// The message that a transcript is sent as; none where the recogniser failed or heard
/// nothing.
pub fn reply<E>(text: Result<String, E>, whole: bool) -> (msg: Option<SttMsg>)
    ensures
        match text {
            Err(_) => msg is None,
            Ok(t) => if t@.len() == 0 {
                msg is None
            } else if whole {
                msg == Some(SttMsg::Final { text: t })
            } else {
                msg == Some(SttMsg::Partial { text: t })
            },
        },
{
    match text {
        Err(_) => None,
        Ok(text) => {
            if text.as_str().is_empty() {
                None
            } else if whole {
                Some(SttMsg::Final { text })
            } else {
                Some(SttMsg::Partial { text })
            }
        },
    }
}

/// Between blocks an utterance in progress has not ended, and the counters are part of it.
pub proof fn hearing_stays_steady(
    heard: Heard,
    config: VadConfig,
    block: Seq<u32>,
    loudness: u32,
)
    requires
        is_steady(heard, config),
    ensures
        is_steady(after(heard, config, block, loudness), config),
{
}

/// Before anything is heard the counters are zero and no utterance is in progress.
pub proof fn quiet_is_steady(config: VadConfig)
    ensures
        is_steady(quiet(), config),
{
}

/// Nothing is sent before speech is heard.
pub proof fn silence_is_not_sent(heard: Heard, config: VadConfig, block: Seq<u32>, loudness: u32)
    requires
        !heard.speech,
        !order::below(config.threshold, loudness),
    ensures
        sent(heard, config, block, loudness) == Sent::Wait,
        after(heard, config, block, loudness).buf == heard.buf + block,
{
}

/// What is heard once all of these blocks came in, each with the bits of its loudness.
pub open spec fn heard_after(config: VadConfig, blocks: Seq<(Seq<u32>, u32)>) -> Heard
    decreases blocks.len(),
{
    if blocks.len() == 0 {
        quiet()
    } else {
        after(
            heard_after(config, blocks.drop_last()),
            config,
            blocks.last().0,
            blocks.last().1,
        )
    }
}

/// The utterances that ended while blocks came in, in order.
pub open spec fn ended(config: VadConfig, blocks: Seq<(Seq<u32>, u32)>) -> Seq<Seq<u32>>
    decreases blocks.len(),
{
    if blocks.len() == 0 {
        Seq::empty()
    } else {
        let before = ended(config, blocks.drop_last());
        let now = with_block(
            heard_after(config, blocks.drop_last()),
            config,
            blocks.last().0,
            blocks.last().1,
        );
        if ends(now, config) {
            before.push(now.buf)
        } else {
            before
        }
    }
}

/// The utterances sent whole for blocks, in order.
pub open spec fn sent_whole(config: VadConfig, blocks: Seq<(Seq<u32>, u32)>) -> Seq<Seq<u32>>
    decreases blocks.len(),
{
    if blocks.len() == 0 {
        Seq::empty()
    } else {
        let before = sent_whole(config, blocks.drop_last());
        match sent(
            heard_after(config, blocks.drop_last()),
            config,
            blocks.last().0,
            blocks.last().1,
        ) {
            Sent::Final(utterance) => before.push(utterance),
            _ => before,
        }
    }
}

/// The utterances that are long enough to be transcribed.
pub open spec fn long_enough(utterances: Seq<Seq<u32>>) -> Seq<Seq<u32>>
    decreases utterances.len(),
{
    if utterances.len() == 0 {
        Seq::empty()
    } else {
        let before = long_enough(utterances.drop_last());
        if utterances.last().len() >= MIN_SAMPLES {
            before.push(utterances.last())
        } else {
            before
        }
    }
}

/// The samples of utterances, one utterance behind the other.
pub open spec fn joined(utterances: Seq<Seq<u32>>) -> Seq<u32>
    decreases utterances.len(),
{
    if utterances.len() == 0 {
        Seq::empty()
    } else {
        joined(utterances.drop_last()) + utterances.last()
    }
}

/// The samples of blocks, one block behind the other.
pub open spec fn received(blocks: Seq<(Seq<u32>, u32)>) -> Seq<u32>
    decreases blocks.len(),
{
    if blocks.len() == 0 {
        Seq::empty()
    } else {
        received(blocks.drop_last()) + blocks.last().0
    }
}

/// No sample is lost, taken twice or moved: the utterances that ended and what is still held
/// are, one behind the other, what was received. Of the utterances that ended, all are sent
/// but those too short to be transcribed.
pub proof fn every_sample_is_sent_or_held(config: VadConfig, blocks: Seq<(Seq<u32>, u32)>)
    ensures
        joined(ended(config, blocks)) + heard_after(config, blocks).buf == received(blocks),
        sent_whole(config, blocks) == long_enough(ended(config, blocks)),
        is_steady(heard_after(config, blocks), config),
    decreases blocks.len(),
{
    let all = ended(config, blocks);
    if blocks.len() == 0 {
        assert(joined(all) + heard_after(config, blocks).buf == received(blocks));
    } else {
        every_sample_is_sent_or_held(config, blocks.drop_last());
        let before = heard_after(config, blocks.drop_last());
        let whole = ended(config, blocks.drop_last());
        let block = blocks.last().0;
        let now = with_block(before, config, block, blocks.last().1);
        assert(joined(whole) + (before.buf + block) == (joined(whole) + before.buf) + block);
        if ends(now, config) {
            assert(all.drop_last() == whole);
            assert(joined(all) + Seq::<u32>::empty() == joined(all));
        }
    }
}

/// Nothing goes to the recogniser that is too short to be transcribed.
pub proof fn what_is_sent_is_long_enough(
    heard: Heard,
    config: VadConfig,
    block: Seq<u32>,
    loudness: u32,
)
    ensures
        match sent(heard, config, block, loudness) {
            Sent::Wait => true,
            Sent::Partial(b) => b.len() >= MIN_SAMPLES,
            Sent::Final(b) => b.len() >= MIN_SAMPLES,
        },
{
}

/// What is sent exceeds the length at which an utterance is ended by less than one block,
/// unless that much was held before speech was heard.
pub proof fn what_is_sent_is_not_too_long(
    heard: Heard,
    config: VadConfig,
    block: Seq<u32>,
    loudness: u32,
)
    requires
        is_steady(heard, config),
        heard.speech || heard.buf.len() < config.max_samples,
    ensures
        match sent(heard, config, block, loudness) {
            Sent::Wait => true,
            Sent::Partial(b) => b.len() < config.max_samples,
            Sent::Final(b) => b.len() < config.max_samples + block.len(),
        },
{
}

/// The bytes of words, four each, the lowest byte first.
pub open spec fn bytes_of_words(samples: Seq<u32>) -> Seq<u8> {
    Seq::new(
        samples.len() * 4,
        |q: int|
            {
                let w = samples[q / 4];
                if q % 4 == 0 {
                    (w % 0x100) as u8
                } else if q % 4 == 1 {
                    (w / 0x100 % 0x100) as u8
                } else if q % 4 == 2 {
                    (w / 0x1_0000 % 0x100) as u8
                } else {
                    (w / 0x100_0000) as u8
                }
            },
    )
}

/// Writes the bits of samples as the bytes of a message.
pub fn bytes_of(samples: &[u32]) -> (bytes: Vec<u8>)
    ensures
        bytes@ == bytes_of_words(samples@),
{
    let mut bytes: Vec<u8> = Vec::new();
    let mut i: usize = 0;
    while i < samples.len()
        invariant
            i <= samples@.len(),
            bytes@.len() == i * 4,
            forall|q: int| 0 <= q < i * 4 ==> #[trigger] bytes@[q] == bytes_of_words(samples@)[q],
        decreases samples@.len() - i,
    {
        let w: u32 = samples[i];
        bytes.push((w % 0x100) as u8);
        bytes.push((w / 0x100 % 0x100) as u8);
        bytes.push((w / 0x1_0000 % 0x100) as u8);
        bytes.push((w / 0x100_0000) as u8);
        i = i + 1;
    }
    assert(bytes@ == bytes_of_words(samples@));
    bytes
}

/// The four bytes of a number, the lowest first, give the number.
proof fn bytes_make_the_number(w: u32)
    ensures
        w % 0x100 + (w / 0x100 % 0x100) * 0x100 + (w / 0x1_0000 % 0x100) * 0x1_0000 + (w
            / 0x100_0000) * 0x100_0000 == w,
        w / 0x100_0000 < 0x100,
{
}

/// The word that stands at the bytes of sample `k` is that sample.
proof fn word_is_read_back(samples: Seq<u32>, k: int)
    requires
        0 <= k < samples.len(),
    ensures
        word(bytes_of_words(samples), 4 * k) == samples[k],
{
    let bytes = bytes_of_words(samples);
    let w = samples[k];
    bytes_make_the_number(w);
    assert(bytes[4 * k] == w % 0x100);
    assert(bytes[4 * k + 1] == w / 0x100 % 0x100);
    assert(bytes[4 * k + 2] == w / 0x1_0000 % 0x100);
    assert(bytes[4 * k + 3] == w / 0x100_0000);
}

/// The samples that the page sends are the samples that the server reads.
pub proof fn samples_are_read_back(samples: Seq<u32>)
    ensures
        words(bytes_of_words(samples)) == samples,
{
    let bytes = bytes_of_words(samples);
    assert forall|k: int| 0 <= k < samples.len() implies #[trigger] words(bytes)[k]
        == samples[k] by {
        word_is_read_back(samples, k);
    }
    assert(words(bytes) == samples);
}

/// While an utterance is in progress it only grows; a partial result is of all of it so far,
/// and once it is sent whole, or passed over because it ended too short, nothing is held.
pub proof fn an_utterance_grows_until_it_is_sent(
    heard: Heard,
    config: VadConfig,
    block: Seq<u32>,
    loudness: u32,
)
    ensures
        match sent(heard, config, block, loudness) {
            Sent::Wait => if ends(with_block(heard, config, block, loudness), config) {
                &&& (heard.buf + block).len() < MIN_SAMPLES
                &&& after(heard, config, block, loudness) == quiet()
            } else {
                after(heard, config, block, loudness).buf == heard.buf + block
            },
            Sent::Partial(b) => {
                &&& b == heard.buf + block
                &&& after(heard, config, block, loudness).buf == b
            },
            Sent::Final(b) => {
                &&& b == heard.buf + block
                &&& after(heard, config, block, loudness) == quiet()
            },
        },
{
}

/// An utterance that is too short to be sent would have given no text.
pub proof fn no_text_is_missed<
    T,
    E,
    S: Fn(T, u32) -> T,
    K: Fn(&[T]) -> Option<Vec<Vec<T>>>,
    N: Fn(T, T, T) -> T,
    R: Fn(&ModelInput<T>) -> Result<Logits, E>,
>(
    rec: Recognizer<T>,
    backend: Backend<T, S, K, N, R>,
    samples: Seq<T>,
    language: i32,
    textnorm: i32,
    r: Result<Seq<char>, E>,
)
    requires
        asr::is_chunk(rec, backend, samples, language, textnorm, r),
        samples.len() < MIN_SAMPLES,
    ensures
        r == Ok::<Seq<char>, E>(Seq::empty()),
{
    asr::too_few_samples_give_no_text(rec, backend, samples, language, textnorm, r);
}

/// The samples of a message are its bytes by fours, the lowest byte of each first; bytes left
/// over count for nothing.
pub proof fn samples_are_four_bytes_each(bytes: Seq<u8>, k: int)
    requires
        0 <= k,
        4 * k + 4 <= bytes.len(),
    ensures
        words(bytes).len() == bytes.len() / 4,
        words(bytes)[k] == bytes[4 * k] + 256 * bytes[4 * k + 1] + 65536 * bytes[4 * k + 2]
            + 16777216 * bytes[4 * k + 3],
{
}

/// What a block leads to. Once speech was heard, with this block or before, the utterance is
/// over where the silence behind it is long enough, or where it is as long as it may be: it is
/// sent whole unless it is shorter than 400 samples, and nothing is held. Else it is held, and
/// sent in part where enough samples came since that was last done.
pub proof fn a_block_ends_continues_or_waits(
    heard: Heard,
    config: VadConfig,
    block: Seq<u32>,
    loudness: u32,
)
    ensures
        ({
            let loud = order::below(config.threshold, loudness);
            let speech = heard.speech || loud;
            let whole = heard.buf + block;
            let silence = if loud {
                0
            } else if heard.speech {
                heard.trailing_silence + block.len()
            } else {
                heard.trailing_silence
            };
            let over = speech && (silence >= config.silence_needed || whole.len()
                >= config.max_samples);
            let due = speech && heard.since_partial + block.len() >= config.partial_every
                && whole.len() >= 400;
            let next = after(heard, config, block, loudness);
            let out = sent(heard, config, block, loudness);
            &&& over && whole.len() >= 400 ==> out == Sent::Final(whole)
            &&& over && whole.len() < 400 ==> out == Sent::Wait
            &&& over ==> next.buf.len() == 0 && next.trailing_silence == 0 && next.since_partial
                == 0 && !next.speech
            &&& !over && due ==> out == Sent::Partial(whole) && next.since_partial == 0
            &&& !over && !due ==> out == Sent::Wait && next.since_partial == heard.since_partial
                + block.len()
            &&& !over ==> next.buf == whole && next.speech == speech && next.trailing_silence
                == silence
        }),
{
}

/// What is heard once blocks came in after `heard`.
pub open spec fn heard_from(
    heard: Heard,
    config: VadConfig,
    blocks: Seq<(Seq<u32>, u32)>,
) -> Heard
    decreases blocks.len(),
{
    if blocks.len() == 0 {
        heard
    } else {
        after(
            heard_from(heard, config, blocks.drop_last()),
            config,
            blocks.last().0,
            blocks.last().1,
        )
    }
}

/// Whether an utterance ends with block `j` and not after the block with which the blocks make
/// up `silence_needed` samples: all of it is sent, unless it is too short, and nothing is held.
spec fn is_over_at(
    heard: Heard,
    config: VadConfig,
    blocks: Seq<(Seq<u32>, u32)>,
    j: int,
) -> bool {
    let whole = heard.buf + received(blocks.take(j + 1));
    &&& j == 0 || received(blocks.take(j)).len() < config.silence_needed
    &&& heard_from(heard, config, blocks.take(j + 1)) == quiet()
    &&& sent(heard_from(heard, config, blocks.take(j)), config, blocks[j].0, blocks[j].1) == if whole.len()
        >= 400 {
        Sent::Final(whole)
    } else {
        Sent::Wait
    }
}

proof fn a_pause_goes_on_or_ends(heard: Heard, config: VadConfig, blocks: Seq<(Seq<u32>, u32)>)
    requires
        heard.speech,
        forall|i: int|
            0 <= i < blocks.len() ==> !order::below(config.threshold, (#[trigger] blocks[i]).1),
    ensures
        (exists|j: int| 0 <= j < blocks.len() && #[trigger] is_over_at(heard, config, blocks, j)) || ({
            let now = heard_from(heard, config, blocks);
            &&& now.speech
            &&& now.buf == heard.buf + received(blocks)
            &&& now.trailing_silence == heard.trailing_silence + received(blocks).len()
            &&& blocks.len() > 0 ==> now.trailing_silence < config.silence_needed
        }),
    decreases blocks.len(),
{
    if blocks.len() == 0 {
        assert(heard.buf + received(blocks) == heard.buf);
    } else {
        let before = blocks.drop_last();
        let n = before.len() as int;
        assert forall|i: int| 0 <= i < before.len() implies !order::below(
            config.threshold,
            (#[trigger] before[i]).1,
        ) by {
            assert(before[i] == blocks[i]);
        }
        a_pause_goes_on_or_ends(heard, config, before);
        if exists|j: int| 0 <= j < before.len() && #[trigger] is_over_at(heard, config, before, j) {
            let j = choose|j: int|
                0 <= j < before.len() && #[trigger] is_over_at(heard, config, before, j);
            assert(before.take(j) == blocks.take(j));
            assert(before.take(j + 1) == blocks.take(j + 1));
            assert(before[j] == blocks[j]);
            assert(is_over_at(heard, config, blocks, j));
        } else {
            let earlier = heard_from(heard, config, before);
            let block = blocks[n].0;
            assert(!order::below(config.threshold, blocks[n].1));
            assert(blocks.take(n) == before);
            assert(blocks.take(n + 1) == blocks);
            assert((heard.buf + received(before)) + block == heard.buf + (received(before) + block));
            a_block_ends_continues_or_waits(earlier, config, block, blocks[n].1);
            let over = earlier.trailing_silence + block.len() >= config.silence_needed
                || earlier.buf.len() + block.len() >= config.max_samples;
            if over {
                assert(heard_from(heard, config, blocks) =~= quiet());
                assert(is_over_at(heard, config, blocks, n));
            }
        }
    }
}

/// A pause ends an utterance: once speech was heard, blocks none of which is louder than the
/// threshold and which together hold `silence_needed` samples end it, no later than with the
/// block that makes up that number, however long it is by then. With that block all of it, and
/// the pause so far, is sent, unless it is shorter than 400 samples, and nothing is held.
pub proof fn a_pause_ends_an_utterance(
    heard: Heard,
    config: VadConfig,
    blocks: Seq<(Seq<u32>, u32)>,
)
    requires
        heard.speech,
        blocks.len() > 0,
        forall|i: int|
            0 <= i < blocks.len() ==> !order::below(config.threshold, (#[trigger] blocks[i]).1),
        received(blocks).len() >= config.silence_needed,
    ensures
        exists|j: int|
            {
                let whole = heard.buf + received(blocks.take(j + 1));
                &&& 0 <= j < blocks.len()
                &&& j == 0 || received(blocks.take(j)).len() < config.silence_needed
                &&& heard_from(heard, config, blocks.take(j + 1)) == quiet()
                &&& sent(
                    heard_from(heard, config, blocks.take(j)),
                    config,
                    (#[trigger] blocks[j]).0,
                    blocks[j].1,
                ) == if whole.len() >= 400 {
                    Sent::Final(whole)
                } else {
                    Sent::Wait
                }
            },
{
    a_pause_goes_on_or_ends(heard, config, blocks);
    let j = choose|j: int|
        0 <= j < blocks.len() && #[trigger] is_over_at(heard, config, blocks, j);
    assert(is_over_at(heard, config, blocks, j));
    assert(blocks[j].0 == blocks[j].0);
}

/// The samples received with blocks and then a further one are those of the blocks and then
/// those of the further one.
pub proof fn samples_are_received_in_order(blocks: Seq<(Seq<u32>, u32)>, block: (Seq<u32>, u32))
    ensures
        received(Seq::<(Seq<u32>, u32)>::empty()) == Seq::<u32>::empty(),
        received(blocks.push(block)) == received(blocks) + block.0,
{
    assert(blocks.push(block).drop_last() == blocks);
}

/// Before anything is heard there are no samples, no speech and nothing to count.
pub proof fn nothing_is_heard_at_first()
    ensures
        quiet().buf == Seq::<u32>::empty(),
        !quiet().speech,
        quiet().trailing_silence == 0,
        quiet().since_partial == 0,
{
}

/// A step is sent as what it is, with all its samples.
pub proof fn steps_are_sent_as_what_they_are(buf: Vec<u32>)
    ensures
        Step::Wait@ == Sent::Wait,
        Step::Partial(buf)@ == Sent::Partial(buf@),
        Step::Final(buf)@ == Sent::Final(buf@),
{
}

/// The loudness of a block is what the measure gives for its samples, all of them in order.
pub proof fn loudness_is_measured_on_the_block<F: Fn(&[u32]) -> u32>(
    loudness: F,
    block: Seq<u32>,
    l: u32,
)
    requires
        measures(loudness, block, l),
    ensures
        exists|b: &[u32]| b@ == block && #[trigger] call_ensures(loudness, (b,), l),
{
}

} // verus!
