//! Decoding and filtering audio files, and cutting long recordings at quiet places.
use std::path::PathBuf;
use vstd::prelude::*;
use vstd::slice::slice_subrange;

use crate::order;
use crate::text;

verus! {

/// Samples per second of all audio handled here.
pub const SAMPLE_RATE: u32 = 16_000;

/// The filter chain that removes noise and brings up speech.
pub const DENOISE_FILTER: &'static str =
    "highpass=f=80,afftdn=nf=-25,speechnorm=e=12.5:r=0.0001,lowpass=f=7800";

/// The filter chain that changes nothing.
pub const PASSTHROUGH_FILTER: &'static str = "anull";

/// Channels of the files written.
pub const WAV_CHANNELS: u16 = 1;

/// Bits per sample of the files written.
pub const WAV_BITS: u16 = 16;

/// Length of the windows whose energy is compared: 20 ms.
pub const WINDOW: usize = 320;

/// Where a window is cut: in its middle.
pub const HALF_WINDOW: usize = 160;

/// Whether `energy`, called on the samples `window`, may return the number with bits `e`.
pub open spec fn heard<T, F: Fn(&[T]) -> u32>(energy: F, window: Seq<T>, e: u32) -> bool {
    exists|w: &[T]| w@ == window && #[trigger] call_ensures(energy, (w,), e)
}

/// The start of the first window compared for a segment that starts at `pos` and should end
/// at `ideal`: `search` samples before `ideal`, but inside the segment.
pub open spec fn first_window(pos: int, ideal: int, search: int) -> int {
    if ideal - search > pos + 1 {
        ideal - search
    } else {
        pos + 1
    }
}

/// The last start that a compared window may have: `search` samples after `ideal`, but such
/// that the window lies in the recording of `n` samples.
pub open spec fn last_window(n: int, ideal: int, search: int) -> int {
    if ideal + search < n - WINDOW {
        ideal + search
    } else {
        n - WINDOW
    }
}

/// How many windows are compared: they stand side by side from `lo`, none starts after `hi`.
pub open spec fn window_count(lo: int, hi: int) -> nat {
    if hi < lo {
        0
    } else {
        ((hi - lo) / (WINDOW as int) + 1) as nat
    }
}

/// Whether window `k` is the quietest: its energy is below the largest finite number, no
/// other is below it, and every earlier energy is above it or not a number.
pub open spec fn quietest(energies: Seq<u32>, k: int) -> bool {
    &&& 0 <= k < energies.len()
    &&& order::below(energies[k], order::LARGEST)
    &&& forall|j: int| 0 <= j < energies.len() ==> !order::below(#[trigger] energies[j], energies[k])
    &&& forall|j: int|
        0 <= j < k ==> order::is_nan(#[trigger] energies[j]) || order::below(
            energies[k],
            energies[j],
        )
}

/// Whether some window has an energy below the largest finite number.
pub open spec fn some_window_is_quiet(energies: Seq<u32>) -> bool {
    exists|k: int| 0 <= k < energies.len() && order::below(#[trigger] energies[k], order::LARGEST)
}

/// Whether `cut` is the place chosen by the energies of the windows that stand side by side
/// from `lo`: the middle of the quietest, or `ideal` where none is quiet.
pub open spec fn is_cut(ideal: int, lo: int, energies: Seq<u32>, cut: int) -> bool {
    if some_window_is_quiet(energies) {
        exists|k: int|
            #[trigger] quietest(energies, k) && cut == lo + k * WINDOW + HALF_WINDOW
    } else {
        cut == ideal
    }
}

/// Whether `energies` are what `energy` returned on the compared windows.
pub open spec fn are_energies<T, F: Fn(&[T]) -> u32>(
    samples: Seq<T>,
    energy: F,
    lo: int,
    hi: int,
    energies: Seq<u32>,
) -> bool {
    &&& energies.len() == window_count(lo, hi)
    &&& forall|k: int|
        0 <= k < energies.len() ==> heard(
            energy,
            samples.subrange(lo + k * WINDOW, lo + k * WINDOW + WINDOW),
            #[trigger] energies[k],
        )
}

/// Whether a segment that starts at `pos` may end at `cut`.
pub open spec fn is_segment_end<T, F: Fn(&[T]) -> u32>(
    samples: Seq<T>,
    target: int,
    search: int,
    energy: F,
    pos: int,
    cut: int,
) -> bool {
    let ideal = pos + target;
    let lo = first_window(pos, ideal, search);
    let hi = last_window(samples.len() as int, ideal, search);
    exists|energies: Seq<u32>|
        #[trigger] are_energies(samples, energy, lo, hi, energies) && is_cut(
            ideal,
            lo,
            energies,
            cut,
        )
}

/// Whether `segments` is a split of the samples: non-empty segments that follow one another
/// from the first sample to the last; each but the last ends where the quietest window near
/// its target length lies; the last is no longer than the target.
pub open spec fn is_split<T, F: Fn(&[T]) -> u32>(
    samples: Seq<T>,
    target: int,
    search: int,
    energy: F,
    segments: Seq<(usize, usize)>,
) -> bool {
    &&& is_partition(samples.len() as int, segments)
    &&& segments.len() > 0 ==> segments.last().0 + target >= samples.len()
    &&& forall|i: int|
        0 <= i < segments.len() - 1 ==> {
            &&& (#[trigger] segments[i]).0 + target < samples.len()
            &&& is_segment_end(
                samples,
                target,
                search,
                energy,
                segments[i].0 as int,
                segments[i].1 as int,
            )
        }
}

/// Chooses the cut from the energies of the windows that stand side by side from `lo`.
pub fn choose_cut(ideal: usize, lo: usize, energies: &Vec<u32>) -> (cut: usize)
    requires
        lo + energies@.len() * WINDOW <= usize::MAX,
    ensures
        is_cut(ideal as int, lo as int, energies@, cut as int),
{
    let mut best: usize = ideal;
    let mut best_energy: u32 = order::LARGEST;
    let mut k: usize = 0;
    let mut start: usize = lo;
    let ghost mut at: int = -1;
    while k < energies.len()
        invariant
            k <= energies@.len(),
            start == lo + k * WINDOW,
            lo + energies@.len() * WINDOW <= usize::MAX,
            at == -1 ==> best == ideal && best_energy == order::LARGEST && forall|j: int|
                0 <= j < k ==> !order::below(#[trigger] energies@[j], order::LARGEST),
            at != -1 ==> {
                &&& 0 <= at < k
                &&& best_energy == energies@[at]
                &&& best == lo + at * WINDOW + HALF_WINDOW
                &&& quietest(energies@.take(k as int), at)
            },
        decreases energies@.len() - k,
    {
        let e: u32 = energies[k];
        let ghost before = energies@.take(k as int);
        let ghost after = energies@.take(k + 1);
        assert(after == before.push(e));
        if order::less(e, best_energy) {
            best_energy = e;
            best = start + HALF_WINDOW;
            proof {
                if at != -1 {
                    assert forall|j: int| 0 <= j < after.len() implies !order::below(
                        #[trigger] after[j],
                        after[k as int],
                    ) by {
                        if j < k {
                            assert(after[j] == before[j]);
                        }
                    }
                    assert forall|j: int| 0 <= j < k implies order::is_nan(#[trigger] after[j])
                        || order::below(after[k as int], after[j]) by {
                        assert(after[j] == before[j]);
                        assert(!order::below(before[j], before[at]));
                    }
                } else {
                    assert forall|j: int| 0 <= j < k implies order::is_nan(#[trigger] after[j])
                        || order::below(after[k as int], after[j]) by {
                        assert(after[j] == energies@[j]);
                    }
                }
                at = k as int;
                assert(quietest(after, at));
            }
        } else {
            proof {
                if at != -1 {
                    assert forall|j: int| 0 <= j < after.len() implies !order::below(
                        #[trigger] after[j],
                        after[at],
                    ) by {
                        if j < k {
                            assert(after[j] == before[j]);
                        }
                    }
                    assert forall|j: int| 0 <= j < at implies order::is_nan(#[trigger] after[j])
                        || order::below(after[at], after[j]) by {
                        assert(after[j] == before[j]);
                    }
                    assert(quietest(after, at));
                }
            }
        }
        k = k + 1;
        start = start + WINDOW;
    }
    proof {
        assert(energies@.take(k as int) == energies@);
        if at != -1 {
            assert(order::below(energies@[at], order::LARGEST));
        }
    }
    best
}

/// Measures the windows that stand side by side from `lo`, none of which starts after `hi`.
fn window_energies<T, F: Fn(&[T]) -> u32>(
    samples: &[T],
    lo: usize,
    hi: usize,
    energy: &F,
) -> (energies: Vec<u32>)
    requires
        hi + WINDOW <= samples@.len(),
        forall|w: &[T]| w@.len() == WINDOW ==> #[trigger] call_requires(*energy, (w,)),
    ensures
        are_energies(samples@, *energy, lo as int, hi as int, energies@),
        energies@.len() > 0 ==> lo + energies@.len() * WINDOW <= hi + WINDOW,
{
    let n: usize = samples.len();
    let mut energies: Vec<u32> = Vec::new();
    let mut c: usize = lo;
    while c <= hi
        invariant
            n == samples@.len(),
            hi + WINDOW <= n,
            forall|w: &[T]| w@.len() == WINDOW ==> #[trigger] call_requires(*energy, (w,)),
            c == lo + energies@.len() * WINDOW,
            energies@.len() == 0 || c <= hi + WINDOW,
            forall|k: int|
                0 <= k < energies@.len() ==> heard(
                    *energy,
                    samples@.subrange(lo + k * WINDOW, lo + k * WINDOW + WINDOW),
                    #[trigger] energies@[k],
                ),
        decreases n - c,
    {
        let window = slice_subrange(samples, c, c + WINDOW);
        let e: u32 = energy(window);
        assert(heard(*energy, samples@.subrange(c as int, c + WINDOW), e));
        energies.push(e);
        c = c + WINDOW;
    }
    energies
}

/// A cut lies inside the segment that it ends and inside the recording.
proof fn cut_lies_inside(n: int, pos: int, ideal: int, search: int, energies: Seq<u32>, cut: int)
    requires
        0 <= pos < ideal < n,
        WINDOW <= n,
        0 <= search,
        energies.len() == window_count(
            first_window(pos, ideal, search),
            last_window(n, ideal, search),
        ),
        is_cut(ideal, first_window(pos, ideal, search), energies, cut),
    ensures
        pos < cut < n,
{
    let lo = first_window(pos, ideal, search);
    let hi = last_window(n, ideal, search);
    if some_window_is_quiet(energies) {
        let k = choose|k: int|
            #[trigger] quietest(energies, k) && cut == lo + k * WINDOW + HALF_WINDOW;
        assert(lo + k * WINDOW <= hi);
    }
}

/// Finds where a segment that starts at `pos` ends.
fn find_cut<T, F: Fn(&[T]) -> u32>(
    samples: &[T],
    target: usize,
    search: usize,
    energy: &F,
    pos: usize,
) -> (cut: usize)
    requires
        target >= 1,
        pos + target < samples@.len(),
        WINDOW <= samples@.len(),
        forall|w: &[T]| w@.len() == WINDOW ==> #[trigger] call_requires(*energy, (w,)),
    ensures
        pos < cut < samples@.len(),
        is_segment_end(
            samples@,
            target as int,
            search as int,
            *energy,
            pos as int,
            cut as int,
        ),
{
    let n: usize = samples.len();
    let ideal: usize = pos + target;
    let lo: usize = if ideal.saturating_sub(search) > pos + 1 {
        ideal.saturating_sub(search)
    } else {
        pos + 1
    };
    let hi: usize = if ideal.saturating_add(search) < n - WINDOW {
        ideal.saturating_add(search)
    } else {
        n - WINDOW
    };
    assert(lo == first_window(pos as int, ideal as int, search as int));
    assert(hi == last_window(n as int, ideal as int, search as int));
    let energies = window_energies(samples, lo, hi, energy);
    let cut: usize = choose_cut(ideal, lo, &energies);
    proof {
        cut_lies_inside(
            n as int,
            pos as int,
            ideal as int,
            search as int,
            energies@,
            cut as int,
        );
    }
    cut
}

/// Splits a recording into segments of about `target` samples. Each cut is moved to the
/// middle of the quietest window that starts within `search` samples of where the segment
/// should end, so that words are less likely to be severed. `energy` returns the bits of the
/// energy of a window.
pub fn split_segments<T, F: Fn(&[T]) -> u32>(
    samples: &[T],
    target: usize,
    search: usize,
    energy: F,
) -> (segments: Vec<(usize, usize)>)
    requires
        samples@.len() > 0 ==> target >= 1,
        target < samples@.len() ==> WINDOW <= samples@.len(),
        forall|w: &[T]| w@.len() == WINDOW ==> #[trigger] call_requires(energy, (w,)),
    ensures
        is_split(samples@, target as int, search as int, energy, segments@),
{
    let n: usize = samples.len();
    let mut segments: Vec<(usize, usize)> = Vec::new();
    let mut pos: usize = 0;
    while pos < n && target < n - pos
        invariant
            n == samples@.len(),
            n > 0 ==> target >= 1,
            target < n ==> WINDOW <= n,
            forall|w: &[T]| w@.len() == WINDOW ==> #[trigger] call_requires(energy, (w,)),
            n == 0 || pos < n,
            is_partition(pos as int, segments@),
            forall|i: int|
                0 <= i < segments@.len() ==> {
                    &&& (#[trigger] segments@[i]).0 + target < n
                    &&& is_segment_end(
                        samples@,
                        target as int,
                        search as int,
                        energy,
                        segments@[i].0 as int,
                        segments@[i].1 as int,
                    )
                },
        decreases n - pos,
    {
        let cut: usize = find_cut(samples, target, search, &energy, pos);
        segments.push((pos, cut));
        pos = cut;
    }
    if pos < n {
        segments.push((pos, n));
    }
    segments
}

/// Segments that follow one another from the first sample of `n` to the last.
pub open spec fn is_partition(n: int, segments: Seq<(usize, usize)>) -> bool {
    &&& segments.len() == 0 <==> n == 0
    &&& segments.len() > 0 ==> segments[0].0 == 0 && segments.last().1 == n
    &&& forall|i: int| 0 <= i < segments.len() ==> (#[trigger] segments[i]).0 < segments[i].1
    &&& forall|i: int|
        0 <= i < segments.len() - 1 ==> (#[trigger] segments[i]).1 == segments[i + 1].0
}

/// No segment reaches beyond the recording.
pub proof fn segments_lie_in_the_recording(n: int, segments: Seq<(usize, usize)>, i: int)
    requires
        is_partition(n, segments),
        0 <= i < segments.len(),
    ensures
        segments[i].0 < segments[i].1 <= n,
    decreases segments.len() - i,
{
    if i < segments.len() - 1 {
        segments_lie_in_the_recording(n, segments, i + 1);
    }
}

/// The samples of the segments, one segment behind the other.
pub open spec fn rejoined<T>(samples: Seq<T>, segments: Seq<(usize, usize)>) -> Seq<T>
    decreases segments.len(),
{
    if segments.len() == 0 {
        Seq::empty()
    } else {
        rejoined(samples, segments.drop_last()) + samples.subrange(
            segments.last().0 as int,
            segments.last().1 as int,
        )
    }
}

proof fn first_segments_rejoined<T>(samples: Seq<T>, segments: Seq<(usize, usize)>, k: int)
    requires
        is_partition(samples.len() as int, segments),
        0 < k <= segments.len(),
    ensures
        rejoined(samples, segments.take(k)) == samples.take(segments[k - 1].1 as int),
    decreases k,
{
    let first = segments.take(k);
    assert(first.drop_last() == segments.take(k - 1));
    segments_lie_in_the_recording(samples.len() as int, segments, k - 1);
    let (start, end) = segments[k - 1];
    if k == 1 {
        assert(segments.take(0) == Seq::<(usize, usize)>::empty());
        assert(rejoined(samples, segments.take(0)) == Seq::<T>::empty());
    } else {
        first_segments_rejoined(samples, segments, k - 1);
        assert(segments[k - 2].1 == segments[k - 1].0);
    }
    assert(rejoined(samples, first) == samples.take(end as int));
}

/// A split loses no sample, takes none twice and keeps their order.
pub proof fn split_keeps_every_sample<T, F: Fn(&[T]) -> u32>(
    samples: Seq<T>,
    target: int,
    search: int,
    energy: F,
    segments: Seq<(usize, usize)>,
)
    requires
        is_split(samples, target, search, energy, segments),
    ensures
        is_partition(samples.len() as int, segments),
        rejoined(samples, segments) == samples,
{
    if segments.len() > 0 {
        first_segments_rejoined(samples, segments, segments.len() as int);
        assert(segments.take(segments.len() as int) == segments);
        assert(samples.take(samples.len() as int) == samples);
    } else {
        assert(samples == Seq::<T>::empty());
    }
}

/// How the channels of a source are described: by its layout where the decoder knows one, else
/// by their number, which is taken to be at least one.
pub open spec fn layout_text(layout_bits: u64, channels: u16) -> Seq<char> {
    if layout_bits != 0 {
        "channel_layout=0x"@ + text::hexadecimal(layout_bits as nat)
    } else {
        "channels="@ + text::decimal(
            if channels == 0 {
                1
            } else {
                channels as nat
            },
        )
    }
}

/// Describes the frames of a decoder to the source of a filter graph.
pub fn source_args(
    time_base: &str,
    rate: u32,
    sample_fmt: &str,
    layout_bits: u64,
    channels: u16,
) -> (args: String)
    ensures
        args@ == "time_base="@ + time_base@ + ":sample_rate="@ + text::decimal(rate as nat)
            + ":sample_fmt="@ + sample_fmt@ + ":"@ + layout_text(layout_bits, channels),
{
    let mut args: String = "time_base=".to_owned();
    args.append(time_base);
    args.append(":sample_rate=");
    text::push_decimal(&mut args, rate as u64);
    args.append(":sample_fmt=");
    args.append(sample_fmt);
    args.append(":");
    let ghost before = args@;
    if layout_bits != 0 {
        args.append("channel_layout=0x");
        text::push_hexadecimal(&mut args, layout_bits);
    } else {
        args.append("channels=");
        text::push_decimal(
            &mut args,
            if channels == 0 {
                1
            } else {
                channels as u64
            },
        );
    }
    assert(args@ == before + layout_text(layout_bits, channels));
    args
}

/// The filter chain that a file is decoded through: the one asked for, then whatever brings its
/// output to one channel of 32-bit floating-point numbers at [`SAMPLE_RATE`].
pub fn full_filter(filter: &str) -> (spec: String)
    ensures
        spec@ == filter@ + ",aresample="@ + text::decimal(SAMPLE_RATE as nat)
            + ",aformat=sample_fmts=flt:channel_layouts=mono"@,
{
    let mut spec: String = filter.to_owned();
    spec.append(",aresample=");
    text::push_decimal(&mut spec, SAMPLE_RATE as u64);
    spec.append(",aformat=sample_fmts=flt:channel_layouts=mono");
    spec
}

/// The filter chain for transcription: the one asked for where noise is to be removed, else the
/// one that changes nothing.
pub fn transcription_filter(denoise: bool, filter: String) -> (chosen: String)
    ensures
        chosen@ == if denoise {
            filter@
        } else {
            PASSTHROUGH_FILTER@
        },
{
    if denoise {
        filter
    } else {
        PASSTHROUGH_FILTER.to_owned()
    }
}

/// Where the cleaned audio is kept: in the file asked for, where noise is removed at all.
pub fn clean_copy(denoise: bool, keep_clean: Option<PathBuf>) -> (copy: Option<PathBuf>)
    ensures
        copy == (if denoise {
            keep_clean
        } else {
            None
        }),
{
    if denoise {
        keep_clean
    } else {
        None
    }
}

/// What came of the last thing done to decode a file.
pub enum DecodeEvent {
    /// A packet of this stream was read.
    Packet(usize),
    /// There are no more packets.
    EndOfFile,
    /// The decoder took a packet, or the end of the file.
    Sent,
    /// The decoder gave a frame.
    Frame,
    /// The decoder has no frame now.
    NoFrame,
    /// The filter graph took the frame, and its output was collected.
    Filtered,
    /// The filter graph was flushed, and its output was collected.
    Flushed,
}

/// What to do next to decode a file.
#[derive(PartialEq, Eq, Structural, Clone, Copy, Debug)]
pub enum DecodeAction {
    /// Read a packet.
    ReadPacket,
    /// Hand the packet to the decoder.
    SendPacket,
    /// Ask the decoder for a frame.
    ReceiveFrame,
    /// Hand the frame to the filter graph, and collect its output.
    Filter,
    /// Tell the decoder that the file has ended.
    SendEnd,
    /// Flush the filter graph, and collect its output.
    Flush,
    /// Nothing: all samples are collected.
    Finish,
}

/// How far the decoding of one stream of a file is.
pub struct Decoding {
    /// The stream that is decoded.
    pub stream: usize,
    /// Whether the file has ended.
    pub ended: bool,
}

/// What to do after an event.
pub open spec fn next_action(decoding: Decoding, event: DecodeEvent) -> DecodeAction {
    match event {
        DecodeEvent::Packet(stream) => if stream == decoding.stream {
            DecodeAction::SendPacket
        } else {
            DecodeAction::ReadPacket
        },
        DecodeEvent::EndOfFile => DecodeAction::SendEnd,
        DecodeEvent::Sent => DecodeAction::ReceiveFrame,
        DecodeEvent::Frame => DecodeAction::Filter,
        DecodeEvent::Filtered => DecodeAction::ReceiveFrame,
        DecodeEvent::NoFrame => if decoding.ended {
            DecodeAction::Flush
        } else {
            DecodeAction::ReadPacket
        },
        DecodeEvent::Flushed => DecodeAction::Finish,
    }
}

impl Decoding {
    /// The beginning of the decoding of a stream; the first thing to do is to read a packet.
    pub fn new(stream: usize) -> (r: Self)
        ensures
            r == (Decoding { stream, ended: false }),
    {
        Decoding { stream, ended: false }
    }

    /// Says what to do after an event: packets of other streams are passed over, every packet
    /// is decoded to all its frames, every frame is filtered, and once the file has ended the
    /// decoder is emptied before the filter graph is flushed.
    pub fn next(&mut self, event: DecodeEvent) -> (action: DecodeAction)
        ensures
            action == next_action(*old(self), event),
            final(self).stream == old(self).stream,
            final(self).ended == (old(self).ended || event is EndOfFile),
    {
        match event {
            DecodeEvent::Packet(stream) => {
                if stream == self.stream {
                    DecodeAction::SendPacket
                } else {
                    DecodeAction::ReadPacket
                }
            },
            DecodeEvent::EndOfFile => {
                self.ended = true;
                DecodeAction::SendEnd
            },
            DecodeEvent::Sent => DecodeAction::ReceiveFrame,
            DecodeEvent::Frame => DecodeAction::Filter,
            DecodeEvent::Filtered => DecodeAction::ReceiveFrame,
            DecodeEvent::NoFrame => {
                if self.ended {
                    DecodeAction::Flush
                } else {
                    DecodeAction::ReadPacket
                }
            },
            DecodeEvent::Flushed => DecodeAction::Finish,
        }
    }
}

/// Whether an event is what may come of an action.
pub open spec fn answers(action: DecodeAction, event: DecodeEvent) -> bool {
    match action {
        DecodeAction::ReadPacket => event is Packet || event is EndOfFile,
        DecodeAction::SendPacket => event is Sent,
        DecodeAction::SendEnd => event is Sent,
        DecodeAction::ReceiveFrame => event is Frame || event is NoFrame,
        DecodeAction::Filter => event is Filtered,
        DecodeAction::Flush => event is Flushed,
        DecodeAction::Finish => false,
    }
}

/// What to do after events.
pub open spec fn action_after(stream: usize, events: Seq<DecodeEvent>) -> DecodeAction {
    if events.len() == 0 {
        DecodeAction::ReadPacket
    } else {
        next_action(
            Decoding { stream, ended: has_ended(events.drop_last()) },
            events.last(),
        )
    }
}

/// Whether the file has ended after events.
pub open spec fn has_ended(events: Seq<DecodeEvent>) -> bool
    decreases events.len(),
{
    events.len() > 0 && (events.last() is EndOfFile || has_ended(events.drop_last()))
}

/// Whether every event is what came of the action before it.
pub open spec fn is_run(stream: usize, events: Seq<DecodeEvent>) -> bool
    decreases events.len(),
{
    events.len() > 0 ==> {
        &&& is_run(stream, events.drop_last())
        &&& answers(action_after(stream, events.drop_last()), events.last())
    }
}

/// How many frames the decoder gave.
pub open spec fn frames_given(events: Seq<DecodeEvent>) -> nat
    decreases events.len(),
{
    if events.len() == 0 {
        0
    } else if events.last() is Frame {
        frames_given(events.drop_last()) + 1
    } else {
        frames_given(events.drop_last())
    }
}

/// How many frames the filter graph took.
pub open spec fn frames_filtered(events: Seq<DecodeEvent>) -> nat
    decreases events.len(),
{
    if events.len() == 0 {
        0
    } else if events.last() is Filtered {
        frames_filtered(events.drop_last()) + 1
    } else {
        frames_filtered(events.drop_last())
    }
}

/// Once the file has ended, no packet is read or handed to the decoder any more; before that,
/// the filter graph is not flushed and decoding is not finished.
pub proof fn the_end_of_the_file_comes_once(stream: usize, events: Seq<DecodeEvent>)
    requires
        is_run(stream, events),
    ensures
        has_ended(events) ==> action_after(stream, events) != DecodeAction::ReadPacket
            && action_after(stream, events) != DecodeAction::SendPacket,
        !has_ended(events) ==> action_after(stream, events) != DecodeAction::SendEnd
            && action_after(stream, events) != DecodeAction::Flush && action_after(stream, events)
            != DecodeAction::Finish,
    decreases events.len(),
{
    if events.len() > 0 {
        the_end_of_the_file_comes_once(stream, events.drop_last());
    }
}

/// Every frame that the decoder gives is filtered, and filtered once: before the next is asked
/// for, before the filter graph is flushed, and before decoding is finished.
pub proof fn every_frame_is_filtered(stream: usize, events: Seq<DecodeEvent>)
    requires
        is_run(stream, events),
    ensures
        frames_given(events) == frames_filtered(events) + if action_after(stream, events)
            == DecodeAction::Filter {
            1nat
        } else {
            0nat
        },
    decreases events.len(),
{
    if events.len() > 0 {
        every_frame_is_filtered(stream, events.drop_last());
    }
}

/// Decoding is finished right after the filter graph is flushed, and the filter graph is
/// flushed right after the decoder has no frame left.
pub proof fn the_graph_is_flushed_last(stream: usize, events: Seq<DecodeEvent>)
    requires
        is_run(stream, events),
        action_after(stream, events) == DecodeAction::Finish,
    ensures
        events.len() >= 2,
        events.last() == DecodeEvent::Flushed,
        events[events.len() - 2] == DecodeEvent::NoFrame,
        has_ended(events),
{
    the_end_of_the_file_comes_once(stream, events);
    let before = events.drop_last();
    assert(action_after(stream, before) == DecodeAction::Flush);
    assert(before.len() > 0);
    assert(before.last() == events[events.len() - 2]);
}

/// A segment that is cut ends near its target length: at it, or within the search distance and
/// half a window of it.
pub proof fn cuts_are_near_the_target<T, F: Fn(&[T]) -> u32>(
    samples: Seq<T>,
    target: int,
    search: int,
    energy: F,
    segments: Seq<(usize, usize)>,
    i: int,
)
    requires
        is_split(samples, target, search, energy, segments),
        0 <= i < segments.len(),
        0 <= search,
        0 <= target,
    ensures
        i < segments.len() - 1 ==> segments[i].1 - segments[i].0 <= target + search + HALF_WINDOW,
        i < segments.len() - 1 ==> segments[i].1 - segments[i].0 == target || segments[i].1
            - segments[i].0 >= target - search + HALF_WINDOW,
        i == segments.len() - 1 ==> segments[i].1 - segments[i].0 <= target,
{
    let n = samples.len() as int;
    if i < segments.len() - 1 {
        let pos = segments[i].0 as int;
        let cut = segments[i].1 as int;
        let ideal = pos + target;
        let lo = first_window(pos, ideal, search);
        let hi = last_window(n, ideal, search);
        assert(is_segment_end(samples, target, search, energy, pos, cut));
        let energies = choose|energies: Seq<u32>|
            #[trigger] are_energies(samples, energy, lo, hi, energies) && is_cut(
                ideal,
                lo,
                energies,
                cut,
            );
        if some_window_is_quiet(energies) {
            let k = choose|k: int|
                #[trigger] quietest(energies, k) && cut == lo + k * WINDOW + HALF_WINDOW;
            assert(lo + k * WINDOW <= hi);
        }
    }
}

/// Whether `energy` returns one energy for each window.
pub open spec fn is_determined<T, F: Fn(&[T]) -> u32>(energy: F) -> bool {
    forall|w: Seq<T>, a: u32, b: u32| #[trigger]
        heard(energy, w, a) && #[trigger] heard(energy, w, b) ==> a == b
}

proof fn cut_is_unique<T, F: Fn(&[T]) -> u32>(
    samples: Seq<T>,
    target: int,
    search: int,
    energy: F,
    pos: int,
    a: int,
    b: int,
)
    requires
        is_determined(energy),
        is_segment_end(samples, target, search, energy, pos, a),
        is_segment_end(samples, target, search, energy, pos, b),
    ensures
        a == b,
{
    let ideal = pos + target;
    let lo = first_window(pos, ideal, search);
    let hi = last_window(samples.len() as int, ideal, search);
    let ea = choose|e: Seq<u32>|
        #[trigger] are_energies(samples, energy, lo, hi, e) && is_cut(ideal, lo, e, a);
    let eb = choose|e: Seq<u32>|
        #[trigger] are_energies(samples, energy, lo, hi, e) && is_cut(ideal, lo, e, b);
    assert(ea.len() == eb.len());
    assert forall|k: int| 0 <= k < ea.len() implies ea[k] == eb[k] by {
        let w = samples.subrange(lo + k * WINDOW, lo + k * WINDOW + WINDOW);
        assert(heard(energy, w, ea[k]));
        assert(heard(energy, w, eb[k]));
    }
    assert(ea == eb);
    if some_window_is_quiet(ea) {
        let ka = choose|k: int| #[trigger] quietest(ea, k) && a == lo + k * WINDOW + HALF_WINDOW;
        let kb = choose|k: int| #[trigger] quietest(eb, k) && b == lo + k * WINDOW + HALF_WINDOW;
        if ka < kb {
            assert(order::is_nan(ea[ka]) || order::below(ea[kb], ea[ka]));
            assert(!order::below(ea[kb], ea[ka]));
        }
        if kb < ka {
            assert(order::is_nan(ea[kb]) || order::below(ea[ka], ea[kb]));
            assert(!order::below(ea[ka], ea[kb]));
        }
    }
}

proof fn splits_agree<T, F: Fn(&[T]) -> u32>(
    samples: Seq<T>,
    target: int,
    search: int,
    energy: F,
    a: Seq<(usize, usize)>,
    b: Seq<(usize, usize)>,
    k: int,
)
    requires
        is_determined(energy),
        is_split(samples, target, search, energy, a),
        is_split(samples, target, search, energy, b),
        0 <= k <= a.len(),
    ensures
        k <= b.len(),
        forall|i: int| 0 <= i < k ==> #[trigger] a[i] == b[i],
        0 < k < a.len() ==> k < b.len() && a[k].0 == b[k].0,
        k == a.len() ==> k == b.len(),
    decreases k,
{
    if k > 0 {
        splits_agree(samples, target, search, energy, a, b, k - 1);
        let i = k - 1;
        assert(i < b.len()) by {
            if i == 0 {
                assert(samples.len() > 0);
            }
        }
        assert(a[i].0 == b[i].0);
        if i < a.len() - 1 && i < b.len() - 1 {
            cut_is_unique(
                samples,
                target,
                search,
                energy,
                a[i].0 as int,
                a[i].1 as int,
                b[i].1 as int,
            );
        }
    }
}

/// Where `energy` returns one energy for each window, a recording is split in one way.
pub proof fn a_split_is_determined<T, F: Fn(&[T]) -> u32>(
    samples: Seq<T>,
    target: int,
    search: int,
    energy: F,
    a: Seq<(usize, usize)>,
    b: Seq<(usize, usize)>,
)
    requires
        is_determined(energy),
        is_split(samples, target, search, energy, a),
        is_split(samples, target, search, energy, b),
    ensures
        a == b,
{
    splits_agree(samples, target, search, energy, a, b, a.len() as int);
    assert(a == b);
}

/// The segments behind the first, counted from where it ends.
pub open spec fn behind_the_first(segments: Seq<(usize, usize)>) -> Seq<(usize, usize)> {
    Seq::new(
        (segments.len() - 1) as nat,
        |i: int|
            (
                (segments[i + 1].0 - segments[0].1) as usize,
                (segments[i + 1].1 - segments[0].1) as usize,
            ),
    )
}

proof fn later_segments_start_behind_the_first(n: int, segments: Seq<(usize, usize)>, i: int)
    requires
        is_partition(n, segments),
        0 < i < segments.len(),
    ensures
        segments[0].1 <= segments[i].0 < segments[i].1,
    decreases i,
{
    assert(segments[i - 1].1 == segments[i - 1 + 1].0);
    if i > 1 {
        later_segments_start_behind_the_first(n, segments, i - 1);
    }
}

/// Where a segment ends depends on nothing before it.
proof fn a_cut_moves_with_the_recording<T, F: Fn(&[T]) -> u32>(
    samples: Seq<T>,
    target: int,
    search: int,
    energy: F,
    pos: int,
    cut: int,
    e: int,
)
    requires
        0 <= e <= pos,
        e <= samples.len(),
        is_segment_end(samples, target, search, energy, pos, cut),
    ensures
        is_segment_end(samples.skip(e), target, search, energy, pos - e, cut - e),
{
    let ideal = pos + target;
    let lo = first_window(pos, ideal, search);
    let hi = last_window(samples.len() as int, ideal, search);
    let rest = samples.skip(e);
    let ideal2 = (pos - e) + target;
    let lo2 = first_window(pos - e, ideal2, search);
    let hi2 = last_window(rest.len() as int, ideal2, search);
    assert(lo2 == lo - e && hi2 == hi - e);
    let energies = choose|energies: Seq<u32>|
        #[trigger] are_energies(samples, energy, lo, hi, energies) && is_cut(
            ideal,
            lo,
            energies,
            cut,
        );
    assert forall|k: int| 0 <= k < energies.len() implies heard(
        energy,
        rest.subrange(lo2 + k * WINDOW, lo2 + k * WINDOW + WINDOW),
        #[trigger] energies[k],
    ) by {
        assert(lo + k * WINDOW <= hi);
        assert(rest.subrange(lo2 + k * WINDOW, lo2 + k * WINDOW + WINDOW)
            =~= samples.subrange(lo + k * WINDOW, lo + k * WINDOW + WINDOW));
    }
    assert(are_energies(rest, energy, lo2, hi2, energies));
    if some_window_is_quiet(energies) {
        let k = choose|k: int|
            #[trigger] quietest(energies, k) && cut == lo + k * WINDOW + HALF_WINDOW;
        assert(quietest(energies, k) && cut - e == lo2 + k * WINDOW + HALF_WINDOW);
    }
    assert(is_cut(ideal2, lo2, energies, cut - e));
}

/// Cuts behind the first depend only on the audio behind it: the segments behind the first are
/// a split of the rest of the recording.
pub proof fn later_cuts_depend_on_what_follows<T, F: Fn(&[T]) -> u32>(
    samples: Seq<T>,
    target: int,
    search: int,
    energy: F,
    segments: Seq<(usize, usize)>,
)
    requires
        is_split(samples, target, search, energy, segments),
        segments.len() >= 2,
    ensures
        is_split(
            samples.skip(segments[0].1 as int),
            target,
            search,
            energy,
            behind_the_first(segments),
        ),
{
    let n = samples.len() as int;
    let e = segments[0].1 as int;
    let rest = samples.skip(e);
    let later = behind_the_first(segments);
    segments_lie_in_the_recording(n, segments, 0);
    assert forall|i: int| 0 <= i < later.len() implies (#[trigger] later[i]).0 == segments[i + 1].0
        - e && later[i].1 == segments[i + 1].1 - e && later[i].0 < later[i].1 by {
        later_segments_start_behind_the_first(n, segments, i + 1);
    }
    assert(segments[0].1 == segments[1].0);
    assert(later.last().1 == rest.len());
    assert forall|i: int| 0 <= i < later.len() - 1 implies (#[trigger] later[i]).1 == later[i
        + 1].0 by {
        assert(segments[i + 1].1 == segments[i + 1 + 1].0);
    }
    assert(is_partition(rest.len() as int, later));
    assert forall|i: int| 0 <= i < later.len() - 1 implies (#[trigger] later[i]).0 + target
        < rest.len() && is_segment_end(
        rest,
        target,
        search,
        energy,
        later[i].0 as int,
        later[i].1 as int,
    ) by {
        let s = segments[i + 1];
        later_segments_start_behind_the_first(n, segments, i + 1);
        a_cut_moves_with_the_recording(
            samples,
            target,
            search,
            energy,
            s.0 as int,
            s.1 as int,
            e,
        );
    }
}

/// Where `energy` returns one energy for each window, splitting what follows the first segment
/// gives the segments behind the first.
pub proof fn the_rest_is_split_alike<T, F: Fn(&[T]) -> u32>(
    samples: Seq<T>,
    target: int,
    search: int,
    energy: F,
    segments: Seq<(usize, usize)>,
    rest: Seq<(usize, usize)>,
)
    requires
        is_determined(energy),
        is_split(samples, target, search, energy, segments),
        segments.len() >= 2,
        is_split(samples.skip(segments[0].1 as int), target, search, energy, rest),
    ensures
        rest == behind_the_first(segments),
{
    later_cuts_depend_on_what_follows(samples, target, search, energy, segments);
    a_split_is_determined(
        samples.skip(segments[0].1 as int),
        target,
        search,
        energy,
        rest,
        behind_the_first(segments),
    );
}

/// A recording no longer than the target is one segment.
pub proof fn short_recordings_are_not_cut<T, F: Fn(&[T]) -> u32>(
    samples: Seq<T>,
    target: int,
    search: int,
    energy: F,
    segments: Seq<(usize, usize)>,
)
    requires
        is_split(samples, target, search, energy, segments),
        0 < samples.len() <= target,
    ensures
        segments.len() == 1,
        segments[0].0 == 0,
        segments[0].1 == samples.len(),
{
    if segments.len() > 1 {
        assert(segments[0].0 + target < samples.len());
    }
}

/// There are 16 000 samples to a second; windows last 20 ms and are cut in their middle.
pub proof fn lengths_are_times()
    ensures
        SAMPLE_RATE == 16_000,
        WINDOW * 50 == SAMPLE_RATE,
        HALF_WINDOW * 2 == WINDOW,
{
}

/// The segments of a split begin with the first sample, end with the last and leave no gap. All
/// but the last start more than the target before the end; the last is not longer than that.
pub proof fn segments_follow_one_another<T, F: Fn(&[T]) -> u32>(
    samples: Seq<T>,
    target: int,
    search: int,
    energy: F,
    segments: Seq<(usize, usize)>,
    i: int,
)
    requires
        is_split(samples, target, search, energy, segments),
        0 <= i < segments.len(),
    ensures
        samples.len() > 0,
        i == 0 ==> segments[i].0 == 0,
        segments[i].0 < segments[i].1 <= samples.len(),
        i + 1 < segments.len() ==> segments[i].1 == segments[i + 1].0 && segments[i].0 + target
            < samples.len(),
        i + 1 == segments.len() ==> segments[i].1 == samples.len() && segments[i].0 + target
            >= samples.len(),
{
    segments_lie_in_the_recording(samples.len() as int, segments, i);
}

/// A recording with samples has segments.
pub proof fn a_recording_has_segments<T, F: Fn(&[T]) -> u32>(
    samples: Seq<T>,
    target: int,
    search: int,
    energy: F,
    segments: Seq<(usize, usize)>,
)
    requires
        is_split(samples, target, search, energy, segments),
    ensures
        segments.len() == 0 <==> samples.len() == 0,
{
}

/// A segment is cut in the middle of the first of the quietest windows. The windows compared
/// stand side by side, 320 samples each, from `search` samples before its target length, but
/// inside the segment, to `search` samples behind it, but inside the recording. Of a window that
/// starts at `start` and whose energy is finite, that says: the cut is in the middle of such a
/// window, whose energy is no larger, and smaller where it is the later one.
pub proof fn a_cut_is_in_the_quietest_window<T, F: Fn(&[T]) -> u32>(
    samples: Seq<T>,
    target: int,
    search: int,
    energy: F,
    segments: Seq<(usize, usize)>,
    i: int,
    start: int,
    window: &[T],
    e: u32,
    chosen: &[T],
    least: u32,
)
    requires
        is_split(samples, target, search, energy, segments),
        0 <= i < segments.len() - 1,
        forall|v: &[T], w: &[T], a: u32, b: u32|
            v@ == w@ && #[trigger] call_ensures(energy, (v,), a) && #[trigger] call_ensures(
                energy,
                (w,),
                b,
            ) ==> a == b,
        segments[i].0 + target - search <= start <= segments[i].0 + target + search,
        segments[i].0 + 1 <= start <= samples.len() - 320,
        (segments[i].0 + target - search >= segments[i].0 + 1) ==> (start - (segments[i].0 + target
            - search)) % 320 == 0,
        (segments[i].0 + target - search < segments[i].0 + 1) ==> (start - (segments[i].0 + 1)) % 320
            == 0,
        window@ == samples.subrange(start, start + 320),
        call_ensures(energy, (window,), e),
        order::below(e, 0x7F7F_FFFF),
        chosen@ == samples.subrange(segments[i].1 - 160, segments[i].1 + 160),
        call_ensures(energy, (chosen,), least),
    ensures
        (segments[i].1 - 160 - start) % 320 == 0,
        segments[i].0 + target - search <= segments[i].1 - 160 <= segments[i].0 + target + search,
        segments[i].0 + 1 <= segments[i].1 - 160 <= samples.len() - 320,
        order::below(least, 0x7F7F_FFFF),
        !order::below(e, least),
        start < segments[i].1 - 160 ==> order::below(least, e),
{
    let pos = segments[i].0 as int;
    let cut = segments[i].1 as int;
    let ideal = pos + target;
    let lo = first_window(pos, ideal, search);
    let hi = last_window(samples.len() as int, ideal, search);
    assert(is_segment_end(samples, target, search, energy, pos, cut));
    let energies = choose|energies: Seq<u32>|
        #[trigger] are_energies(samples, energy, lo, hi, energies) && is_cut(
            ideal,
            lo,
            energies,
            cut,
        );
    let k = (start - lo) / 320;
    assert(start == lo + k * 320);
    assert(0 <= k < energies.len());
    assert(heard(
        energy,
        samples.subrange(lo + k * WINDOW, lo + k * WINDOW + WINDOW),
        energies[k],
    ));
    assert(energies[k] == e);
    assert(some_window_is_quiet(energies));
    let c = choose|c: int|
        #[trigger] quietest(energies, c) && cut == lo + c * WINDOW + HALF_WINDOW;
    assert(heard(
        energy,
        samples.subrange(lo + c * WINDOW, lo + c * WINDOW + WINDOW),
        energies[c],
    ));
    assert(energies[c] == least);
    assert(!order::below(energies[k], energies[c]));
    if k < c {
        assert(order::is_nan(energies[k]) || order::below(energies[c], energies[k]));
    }
}

/// Where no window that is compared has a finite energy below the largest number, and where
/// there is none to compare, a segment is cut at its target length.
pub proof fn without_a_quiet_window_the_cut_is_at_the_target<T, F: Fn(&[T]) -> u32>(
    samples: Seq<T>,
    target: int,
    search: int,
    energy: F,
    segments: Seq<(usize, usize)>,
    i: int,
)
    requires
        is_split(samples, target, search, energy, segments),
        0 <= i < segments.len() - 1,
        forall|start: int, end: int, window: &[T], e: u32|
            segments[i].0 + target - search <= start <= segments[i].0 + target + search
                && segments[i].0 + 1 <= start && end == start + 320 <= samples.len() && (target - search
                >= 1 ==> (start - (segments[i].0 + target - search)) % 320 == 0) && (target - search
                < 1 ==> (start - (segments[i].0 + 1)) % 320 == 0) && window@
                == #[trigger] samples.subrange(start, end) && #[trigger] call_ensures(
                energy,
                (window,),
                e,
            ) ==> !order::below(e, 0x7F7F_FFFF),
    ensures
        segments[i].1 == segments[i].0 + target,
{
    let pos = segments[i].0 as int;
    let cut = segments[i].1 as int;
    let ideal = pos + target;
    let lo = first_window(pos, ideal, search);
    let hi = last_window(samples.len() as int, ideal, search);
    assert(is_segment_end(samples, target, search, energy, pos, cut));
    let energies = choose|energies: Seq<u32>|
        #[trigger] are_energies(samples, energy, lo, hi, energies) && is_cut(
            ideal,
            lo,
            energies,
            cut,
        );
    if some_window_is_quiet(energies) {
        let k = choose|k: int|
            0 <= k < energies.len() && order::below(#[trigger] energies[k], order::LARGEST);
        let start = lo + k * 320;
        assert(start <= hi);
        let end = start + 320;
        assert(heard(energy, samples.subrange(start, end), energies[k]));
        let w = choose|w: &[T]|
            w@ == samples.subrange(start, end) && #[trigger] call_ensures(energy, (w,), energies[k]);
        assert(false);
    }
}

/// A source is described by the mask of its layout, in hexadecimal, where it has one, and by the
/// number of its channels, at least one, where it has none.
pub proof fn sources_are_described_by_layout_or_channels(layout_bits: u64, channels: u16)
    ensures
        layout_bits != 0 ==> layout_text(layout_bits, channels) == "channel_layout=0x"@
            + text::hexadecimal(layout_bits as nat),
        layout_bits == 0 && channels > 0 ==> layout_text(layout_bits, channels) == "channels="@
            + text::decimal(channels as nat),
        layout_bits == 0 && channels == 0 ==> layout_text(layout_bits, channels) == "channels="@
            + text::decimal(1),
{
}

/// In a run, a packet is handed to the decoder exactly where it is of the stream that is
/// decoded; any other is passed over for the next.
pub proof fn packets_of_the_stream_alone_are_decoded(
    stream: usize,
    events: Seq<DecodeEvent>,
    other: usize,
)
    requires
        is_run(stream, events),
    ensures
        action_after(stream, events.push(DecodeEvent::Packet(stream))) == DecodeAction::SendPacket,
        other != stream ==> action_after(stream, events.push(DecodeEvent::Packet(other)))
            == DecodeAction::ReadPacket,
        action_after(stream, events) == DecodeAction::SendPacket ==> events.len() > 0
            && events.last() == DecodeEvent::Packet(stream),
{
    assert(events.push(DecodeEvent::Packet(stream)).drop_last() == events);
    assert(events.push(DecodeEvent::Packet(other)).drop_last() == events);
}

/// After a packet, the decoder is asked for frames until it has none, and only then is another
/// packet read or, after the end of the file, the filter graph flushed.
pub proof fn the_decoder_is_emptied_first(stream: usize, events: Seq<DecodeEvent>)
    requires
        is_run(stream, events),
        events.len() > 0,
    ensures
        events.last() is Sent || events.last() is Filtered ==> action_after(stream, events)
            == DecodeAction::ReceiveFrame,
        events.last() is Frame ==> action_after(stream, events) == DecodeAction::Filter,
        events.last() is EndOfFile ==> action_after(stream, events) == DecodeAction::SendEnd,
        events.last() is NoFrame && !events.contains(DecodeEvent::EndOfFile) ==> action_after(
            stream,
            events,
        ) == DecodeAction::ReadPacket,
        events.last() is NoFrame && events.contains(DecodeEvent::EndOfFile) ==> action_after(
            stream,
            events,
        ) == DecodeAction::Flush,
        events.last() is Flushed ==> action_after(stream, events) == DecodeAction::Finish,
{
    ended_where_the_end_came(events.drop_last());
    let before = events.drop_last();
    if before.contains(DecodeEvent::EndOfFile) {
        let i = choose|i: int| 0 <= i < before.len() && before[i] == DecodeEvent::EndOfFile;
        assert(events[i] == DecodeEvent::EndOfFile);
    }
    if events.last() is NoFrame && events.contains(DecodeEvent::EndOfFile) {
        let i = choose|i: int| 0 <= i < events.len() && events[i] == DecodeEvent::EndOfFile;
        assert(before[i] == DecodeEvent::EndOfFile);
    }
}

proof fn ended_where_the_end_came(events: Seq<DecodeEvent>)
    ensures
        has_ended(events) <==> events.contains(DecodeEvent::EndOfFile),
    decreases events.len(),
{
    if events.len() > 0 {
        let before = events.drop_last();
        ended_where_the_end_came(before);
        if before.contains(DecodeEvent::EndOfFile) {
            let i = choose|i: int| 0 <= i < before.len() && before[i] == DecodeEvent::EndOfFile;
            assert(events[i] == DecodeEvent::EndOfFile);
        }
        if events.last() is EndOfFile {
            assert(events[events.len() - 1] == DecodeEvent::EndOfFile);
        }
        if events.contains(DecodeEvent::EndOfFile) && !(events.last() is EndOfFile) {
            let i = choose|i: int| 0 <= i < events.len() && events[i] == DecodeEvent::EndOfFile;
            assert(before[i] == DecodeEvent::EndOfFile);
        }
    }
}

} // verus!
