//! The acoustic front-end around the filter bank: scaling the samples for it, stacking its
//! frames at a low frame rate, and normalising the stacked frames.
use vstd::prelude::*;

use crate::order;

verus! {

/// Mel bins per frame of the filter bank.
pub const NUM_MEL: usize = 80;

/// Samples that one frame of the filter bank needs: 25 ms.
pub const FRAME_LENGTH: usize = 400;

/// The filter bank, one vector of [`NUM_MEL`] values per frame.
pub struct Fbank;

/// Whether `scaled` are the samples as the filter bank takes them: as they are for a scale of
/// one, else each multiplied by the number with the bits `scale`.
pub open spec fn is_scaled<T, S: Fn(T, u32) -> T>(
    samples: Seq<T>,
    scale: u32,
    multiply: S,
    scaled: Seq<T>,
) -> bool {
    if scale == order::ONE {
        scaled == samples
    } else {
        &&& scaled.len() == samples.len()
        &&& forall|i: int|
            0 <= i < samples.len() ==> call_ensures(
                multiply,
                (samples[i], scale),
                #[trigger] scaled[i],
            )
    }
}

/// Whether `filter`, called on the samples `scaled`, may return `rows`.
pub open spec fn filtered<T, K: Fn(&[T]) -> Option<Vec<Vec<T>>>>(
    filter: K,
    scaled: Seq<T>,
    rows: Option<Vec<Vec<T>>>,
) -> bool {
    exists|s: &[T]| s@ == scaled && #[trigger] call_ensures(filter, (s,), rows)
}

/// The frame made of a row: its first [`NUM_MEL`] values, filled up with `zero`.
pub open spec fn frame_of<T>(row: Seq<T>, zero: T) -> Seq<T> {
    Seq::new(
        NUM_MEL as nat,
        |d: int|
            if d < row.len() {
                row[d]
            } else {
                zero
            },
    )
}

/// Whether `frames` are the frames made of the rows; none where the filter bank failed.
pub open spec fn are_frames<T>(
    rows: Option<Vec<Vec<T>>>,
    zero: T,
    frames: Seq<[T; NUM_MEL]>,
) -> bool {
    match rows {
        None => frames.len() == 0,
        Some(rows) => {
            &&& frames.len() == rows@.len()
            &&& forall|i: int|
                0 <= i < frames.len() ==> (#[trigger] frames[i])@ == frame_of(rows@[i]@, zero)
        },
    }
}

/// Whether `frames` may be the features of `samples`.
pub open spec fn are_features<T, S: Fn(T, u32) -> T, K: Fn(&[T]) -> Option<Vec<Vec<T>>>>(
    samples: Seq<T>,
    scale: u32,
    zero: T,
    multiply: S,
    filter: K,
    frames: Seq<[T; NUM_MEL]>,
) -> bool {
    if samples.len() < FRAME_LENGTH {
        frames.len() == 0
    } else {
        exists|scaled: Seq<T>, rows: Option<Vec<Vec<T>>>|
            is_scaled(samples, scale, multiply, scaled) && #[trigger] filtered(filter, scaled, rows)
                && are_frames(rows, zero, frames)
    }
}

/// Copies one row into a frame.
fn to_frame<T: Copy>(row: &Vec<T>, zero: T) -> (frame: [T; NUM_MEL])
    ensures
        frame@ == frame_of(row@, zero),
{
    let mut frame: [T; NUM_MEL] = [zero; NUM_MEL];
    let mut d: usize = 0;
    while d < NUM_MEL && d < row.len()
        invariant
            d <= NUM_MEL,
            d <= row@.len(),
            frame@ == frame_of(row@.take(d as int), zero),
        decreases NUM_MEL - d,
    {
        frame[d] = row[d];
        d = d + 1;
        assert(frame@ =~= frame_of(row@.take(d as int), zero));
    }
    assert(frame@ =~= frame_of(row@, zero));
    frame
}

impl Fbank {
    /// A filter bank.
    pub fn new() -> (r: Self)
        ensures
            r == Fbank,
    {
        Fbank
    }

    /// The features of `samples`, one frame per row that `filter` returns; none for fewer
    /// samples than one frame needs, nor where `filter` fails.
    ///
    /// `scale` holds the bits of a number: one where the model takes samples in `[-1, 1]`, else
    /// what `multiply` brings each sample with to the range that the model was trained on.
    pub fn compute<T: Copy, S: Fn(T, u32) -> T, K: Fn(&[T]) -> Option<Vec<Vec<T>>>>(
        &self,
        samples: &[T],
        scale: u32,
        zero: T,
        multiply: &S,
        filter: &K,
    ) -> (frames: Vec<[T; NUM_MEL]>)
        requires
            forall|x: T| #[trigger] call_requires(*multiply, (x, scale)),
            forall|s: &[T]| s@.len() >= FRAME_LENGTH ==> #[trigger] call_requires(*filter, (s,)),
        ensures
            are_features(samples@, scale, zero, *multiply, *filter, frames@),
    {
        let mut frames: Vec<[T; NUM_MEL]> = Vec::new();
        if samples.len() < FRAME_LENGTH {
            return frames;
        }
        let mut scaled: Vec<T> = Vec::new();
        let mut i: usize = 0;
        while i < samples.len()
            invariant
                i <= samples@.len(),
                scaled@.len() == i,
                forall|x: T| #[trigger] call_requires(*multiply, (x, scale)),
                scale == order::ONE ==> scaled@ == samples@.take(i as int),
                scale != order::ONE ==> forall|j: int|
                    0 <= j < i ==> call_ensures(
                        *multiply,
                        (samples@[j], scale),
                        #[trigger] scaled@[j],
                    ),
            decreases samples@.len() - i,
        {
            if scale == order::ONE {
                scaled.push(samples[i]);
            } else {
                scaled.push(multiply(samples[i], scale));
            }
            i = i + 1;
            assert(scale == order::ONE ==> scaled@ =~= samples@.take(i as int));
        }
        assert(samples@.take(i as int) == samples@);
        assert(is_scaled(samples@, scale, *multiply, scaled@));
        let rows = filter(scaled.as_slice());
        assert(filtered(*filter, scaled@, rows));
        match &rows {
            None => {},
            Some(rows) => {
                let mut r: usize = 0;
                while r < rows.len()
                    invariant
                        r <= rows@.len(),
                        frames@.len() == r,
                        forall|j: int|
                            0 <= j < r ==> (#[trigger] frames@[j])@ == frame_of(rows@[j]@, zero),
                    decreases rows@.len() - r,
                {
                    frames.push(to_frame(&rows[r], zero));
                    r = r + 1;
                }
            },
        }
        frames
    }
}

/// The frame that stands at place `i` once `pad` copies of the first frame are put in front
/// and the last frame is repeated without end.
pub open spec fn padded<T>(feats: Seq<[T; NUM_MEL]>, pad: int, i: int) -> Seq<T> {
    if i < pad {
        feats[0]@
    } else if i - pad < feats.len() {
        feats[i - pad]@
    } else {
        feats.last()@
    }
}

/// Stacked frame `i`: the `m` padded frames from `i * n` on, one behind the other.
pub open spec fn stacked<T>(feats: Seq<[T; NUM_MEL]>, m: int, n: int, i: int) -> Seq<T> {
    Seq::new(
        (m * NUM_MEL) as nat,
        |q: int|
            padded(feats, (m - 1) / 2, i * n + q / (NUM_MEL as int))[q % (NUM_MEL as int)],
    )
}

/// The number of stacked frames: one for every `n` frames, the last of which may be fewer.
pub open spec fn stacked_count(len: int, n: int) -> int {
    (len + n - 1) / n
}

/// Whether `out` are the frames stacked by windows of `m` frames every `n` frames.
pub open spec fn is_stacked<T>(
    feats: Seq<[T; NUM_MEL]>,
    m: int,
    n: int,
    out: Seq<Vec<T>>,
) -> bool {
    if feats.len() == 0 {
        out.len() == 0
    } else {
        &&& out.len() == stacked_count(feats.len() as int, n)
        &&& forall|i: int|
            0 <= i < out.len() ==> (#[trigger] out[i])@ == stacked(feats, m, n, i)
    }
}

/// The place in `feats` of the padded frame `base + j`.
fn padded_index(base: usize, j: usize, pad: usize, len: usize) -> (r: usize)
    requires
        len >= 1,
    ensures
        r < len,
        base + j < pad ==> r == 0,
        pad <= base + j < pad + len ==> r == base + j - pad,
        base + j >= pad + len ==> r == len - 1,
{
    if j < pad && base < pad - j {
        0
    } else {
        let k: usize = if j < pad {
            base - (pad - j)
        } else {
            base.saturating_add(j - pad)
        };
        if k < len {
            k
        } else {
            len - 1
        }
    }
}

/// Joins the `m` padded frames from `base` on.
fn stack_row<T: Copy>(feats: &[[T; NUM_MEL]], base: usize, m: usize, pad: usize) -> (row: Vec<T>)
    requires
        feats@.len() >= 1,
        m * NUM_MEL <= usize::MAX,
    ensures
        row@ == Seq::new(
            (m * NUM_MEL) as nat,
            |q: int|
                padded(feats@, pad as int, base + q / (NUM_MEL as int))[q % (NUM_MEL as int)],
        ),
{
    let mut row: Vec<T> = Vec::new();
    let mut j: usize = 0;
    while j < m
        invariant
            j <= m,
            feats@.len() >= 1,
            m * NUM_MEL <= usize::MAX,
            row@.len() == j * NUM_MEL,
            forall|q: int|
                0 <= q < j * NUM_MEL ==> #[trigger] row@[q] == padded(
                    feats@,
                    pad as int,
                    base + q / (NUM_MEL as int),
                )[q % (NUM_MEL as int)],
        decreases m - j,
    {
        let r: usize = padded_index(base, j, pad, feats.len());
        let ghost frame = padded(feats@, pad as int, base + j);
        assert(feats@[r as int]@ == frame);
        let mut d: usize = 0;
        while d < NUM_MEL
            invariant
                j < m,
                d <= NUM_MEL,
                r < feats@.len(),
                feats@[r as int]@ == frame,
                frame == padded(feats@, pad as int, base + j),
                row@.len() == j * NUM_MEL + d,
                forall|q: int|
                    0 <= q < j * NUM_MEL + d ==> #[trigger] row@[q] == padded(
                        feats@,
                        pad as int,
                        base + q / (NUM_MEL as int),
                    )[q % (NUM_MEL as int)],
            decreases NUM_MEL - d,
        {
            row.push(feats[r][d]);
            d = d + 1;
        }
        j = j + 1;
    }
    row
}

/// Low-frame-rate stacking: puts `(m - 1) / 2` copies of the first frame in front, then joins
/// `m` consecutive frames every `n` frames, repeating the last frame to fill the last window.
pub fn apply_lfr<T: Copy>(feats: &[[T; NUM_MEL]], m: usize, n: usize) -> (out: Vec<Vec<T>>)
    requires
        feats@.len() > 0 ==> 1 <= m && 1 <= n && m * NUM_MEL <= usize::MAX,
    ensures
        is_stacked(feats@, m as int, n as int, out@),
{
    let mut out: Vec<Vec<T>> = Vec::new();
    if feats.len() == 0 {
        return out;
    }
    let len: usize = feats.len();
    let pad: usize = (m - 1) / 2;
    let count: usize = (len - 1) / n + 1;
    assert(count == stacked_count(len as int, n as int)) by (nonlinear_arith)
        requires
            n >= 1,
            len >= 1,
            count == (len - 1) / (n as int) + 1,
    ;
    let mut i: usize = 0;
    while i < count
        invariant
            i <= count,
            len == feats@.len(),
            len >= 1,
            m >= 1,
            n >= 1,
            m * NUM_MEL <= usize::MAX,
            pad == (m - 1) / 2,
            count == (len - 1) / (n as int) + 1,
            out@.len() == i,
            forall|k: int|
                0 <= k < i ==> (#[trigger] out@[k])@ == stacked(feats@, m as int, n as int, k),
        decreases count - i,
    {
        assert(i * n <= len - 1) by (nonlinear_arith)
            requires
                i < (len - 1) / (n as int) + 1,
                n >= 1,
                len >= 1,
        ;
        let row = stack_row(feats, i * n, m, pad);
        assert(row@ =~= stacked(feats@, m as int, n as int, i as int));
        out.push(row);
        i = i + 1;
    }
    out
}

/// Whether `after` are the frames `before` with every value normalised by the statistics of
/// its own dimension.
pub open spec fn is_normalised<T, F: Fn(T, T, T) -> T>(
    before: Seq<Vec<T>>,
    neg_mean: Seq<T>,
    inv_stddev: Seq<T>,
    normalise: F,
    after: Seq<Vec<T>>,
) -> bool {
    &&& after.len() == before.len()
    &&& forall|i: int|
        0 <= i < after.len() ==> (#[trigger] after[i])@.len() == before[i]@.len()
    &&& forall|i: int, k: int|
        0 <= i < after.len() && 0 <= k < after[i]@.len() ==> call_ensures(
            normalise,
            (before[i]@[k], neg_mean[k], inv_stddev[k]),
            #[trigger] after[i]@[k],
        )
}

/// Normalises every value `x` in place to `normalise(x, neg_mean[k], inv_stddev[k])`, where
/// `k` is its dimension.
pub fn apply_cmvn<T: Copy, F: Fn(T, T, T) -> T>(
    feats: &mut Vec<Vec<T>>,
    neg_mean: &[T],
    inv_stddev: &[T],
    normalise: &F,
)
    requires
        forall|i: int|
            0 <= i < old(feats)@.len() ==> (#[trigger] old(feats)@[i])@.len() <= neg_mean@.len()
                && old(feats)@[i]@.len() <= inv_stddev@.len(),
        forall|x: T, m: T, s: T| #[trigger] call_requires(*normalise, (x, m, s)),
    ensures
        is_normalised(old(feats)@, neg_mean@, inv_stddev@, *normalise, final(feats)@),
{
    let mut i: usize = 0;
    while i < feats.len()
        invariant
            i <= feats@.len(),
            feats@.len() == old(feats)@.len(),
            forall|j: int|
                0 <= j < old(feats)@.len() ==> (#[trigger] old(feats)@[j])@.len()
                    <= neg_mean@.len() && old(feats)@[j]@.len() <= inv_stddev@.len(),
            forall|x: T, m: T, s: T| #[trigger] call_requires(*normalise, (x, m, s)),
            forall|j: int|
                0 <= j < feats@.len() ==> (#[trigger] feats@[j])@.len() == old(feats)@[j]@.len(),
            forall|j: int| i <= j < feats@.len() ==> #[trigger] feats@[j] == old(feats)@[j],
            forall|j: int, k: int|
                0 <= j < i && 0 <= k < feats@[j]@.len() ==> call_ensures(
                    *normalise,
                    (old(feats)@[j]@[k], neg_mean@[k], inv_stddev@[k]),
                    #[trigger] feats@[j]@[k],
                ),
        decreases feats@.len() - i,
    {
        let ghost before = feats@;
        let mut frame: Vec<T> = Vec::new();
        let mut k: usize = 0;
        let len: usize = feats[i].len();
        while k < len
            invariant
                i < feats@.len(),
                feats@ == before,
                len == before[i as int]@.len(),
                len <= neg_mean@.len(),
                len <= inv_stddev@.len(),
                k <= len,
                frame@.len() == k,
                forall|x: T, m: T, s: T| #[trigger] call_requires(*normalise, (x, m, s)),
                forall|q: int|
                    0 <= q < k ==> call_ensures(
                        *normalise,
                        (before[i as int]@[q], neg_mean@[q], inv_stddev@[q]),
                        #[trigger] frame@[q],
                    ),
            decreases len - k,
        {
            let x = feats[i][k];
            frame.push(normalise(x, neg_mean[k], inv_stddev[k]));
            k = k + 1;
        }
        feats[i] = frame;
        i = i + 1;
    }
}

/// Scaling is applied before the filter bank and nowhere else: features of samples are features,
/// at a scale of one, of the samples scaled.
pub proof fn scaling_comes_first<T, S: Fn(T, u32) -> T, K: Fn(&[T]) -> Option<Vec<Vec<T>>>>(
    samples: Seq<T>,
    scale: u32,
    zero: T,
    multiply: S,
    filter: K,
    frames: Seq<[T; NUM_MEL]>,
)
    requires
        samples.len() >= FRAME_LENGTH,
        are_features(samples, scale, zero, multiply, filter, frames),
    ensures
        exists|scaled: Seq<T>| #[trigger]
            is_scaled(samples, scale, multiply, scaled) && are_features(
                scaled,
                order::ONE,
                zero,
                multiply,
                filter,
                frames,
            ),
{
    let (scaled, rows) = choose|scaled: Seq<T>, rows: Option<Vec<Vec<T>>>|
        is_scaled(samples, scale, multiply, scaled) && #[trigger] filtered(filter, scaled, rows)
            && are_frames(rows, zero, frames);
    assert(scaled.len() == samples.len());
    assert(is_scaled(scaled, order::ONE, multiply, scaled));
    assert(are_features(scaled, order::ONE, zero, multiply, filter, frames));
}

/// Whether two answers of a filter bank have the same contents.
pub open spec fn are_same_rows<T>(a: Option<Vec<Vec<T>>>, b: Option<Vec<Vec<T>>>) -> bool {
    match (a, b) {
        (Some(a), Some(b)) => {
            &&& a@.len() == b@.len()
            &&& forall|i: int| 0 <= i < a@.len() ==> (#[trigger] a@[i])@ == b@[i]@
        },
        (None, None) => true,
        _ => false,
    }
}

/// Where `multiply` and `filter` each give one result for the same numbers, computing features
/// at a scale gives what scaling every sample first and computing at a scale of one gives.
pub proof fn scaling_first_gives_the_same<
    T,
    S: Fn(T, u32) -> T,
    K: Fn(&[T]) -> Option<Vec<Vec<T>>>,
>(
    samples: Seq<T>,
    scale: u32,
    zero: T,
    multiply: S,
    filter: K,
    scaled: Seq<T>,
    a: Seq<[T; NUM_MEL]>,
    b: Seq<[T; NUM_MEL]>,
)
    requires
        forall|x: T, p: T, q: T| #[trigger]
            call_ensures(multiply, (x, scale), p) && #[trigger] call_ensures(
                multiply,
                (x, scale),
                q,
            ) ==> p == q,
        forall|s: Seq<T>, p: Option<Vec<Vec<T>>>, q: Option<Vec<Vec<T>>>| #[trigger]
            filtered(filter, s, p) && #[trigger] filtered(filter, s, q) ==> are_same_rows(p, q),
        is_scaled(samples, scale, multiply, scaled),
        are_features(samples, scale, zero, multiply, filter, a),
        are_features(scaled, order::ONE, zero, multiply, filter, b),
    ensures
        a.len() == b.len(),
        forall|i: int| 0 <= i < a.len() ==> (#[trigger] a[i])@ == b[i]@,
{
    if samples.len() >= FRAME_LENGTH {
        let (sa, ra) = choose|s: Seq<T>, rows: Option<Vec<Vec<T>>>|
            is_scaled(samples, scale, multiply, s) && #[trigger] filtered(filter, s, rows)
                && are_frames(rows, zero, a);
        let (sb, rb) = choose|s: Seq<T>, rows: Option<Vec<Vec<T>>>|
            is_scaled(scaled, order::ONE, multiply, s) && #[trigger] filtered(filter, s, rows)
                && are_frames(rows, zero, b);
        assert forall|i: int| 0 <= i < sa.len() implies sa[i] == scaled[i] by {
            if scale != order::ONE {
                assert(call_ensures(multiply, (samples[i], scale), sa[i]));
                assert(call_ensures(multiply, (samples[i], scale), scaled[i]));
            }
        }
        assert(sa =~= scaled);
        assert(sb == scaled);
        assert(filtered(filter, scaled, ra) && filtered(filter, scaled, rb));
        assert(are_same_rows(ra, rb));
        if let (Some(va), Some(vb)) = (ra, rb) {
            assert forall|i: int| 0 <= i < a.len() implies (#[trigger] a[i])@ == b[i]@ by {
                assert(va@[i]@ == vb@[i]@);
            }
        }
    }
}

/// Every stacked frame has `m` times [`NUM_MEL`] values.
pub proof fn stacked_frames_have_equal_length<T>(
    feats: Seq<[T; NUM_MEL]>,
    m: int,
    n: int,
    out: Seq<Vec<T>>,
    i: int,
)
    requires
        is_stacked(feats, m, n, out),
        m >= 1,
        0 <= i < out.len(),
    ensures
        out[i]@.len() == m * NUM_MEL,
{
}

/// Windows of one frame every frame give the frames back.
pub proof fn single_windows_change_nothing<T>(feats: Seq<[T; NUM_MEL]>, out: Seq<Vec<T>>)
    requires
        is_stacked(feats, 1, 1, out),
    ensures
        out.len() == feats.len(),
        forall|i: int| 0 <= i < out.len() ==> (#[trigger] out[i])@ == feats[i]@,
{
    if feats.len() > 0 {
        assert forall|i: int| 0 <= i < out.len() implies (#[trigger] out[i])@ == feats[i]@ by {
            assert(out[i]@ == stacked(feats, 1, 1, i));
            assert(feats[i]@.len() == NUM_MEL);
            assert(out[i]@ =~= feats[i]@);
        }
    }
}

/// The first stacked frame begins with copies of the first frame.
pub proof fn stacking_begins_with_the_first_frame<T>(
    feats: Seq<[T; NUM_MEL]>,
    m: int,
    n: int,
    j: int,
    d: int,
)
    requires
        feats.len() > 0,
        0 <= j <= (m - 1) / 2,
        0 <= d < NUM_MEL,
        m >= 1,
    ensures
        stacked(feats, m, n, 0)[j * NUM_MEL + d] == feats[0]@[d],
{
    let q = j * NUM_MEL + d;
    assert(q / (NUM_MEL as int) == j);
    assert(q % (NUM_MEL as int) == d);
    assert(0 * n == 0);
}

/// Every value is normalised by the statistics of its own dimension and by no other, and
/// frames keep their number and their lengths.
pub proof fn a_dimension_has_its_own_statistics<T, F: Fn(T, T, T) -> T>(
    before: Seq<Vec<T>>,
    neg_mean: Seq<T>,
    inv_stddev: Seq<T>,
    normalise: F,
    after: Seq<Vec<T>>,
    i: int,
    k: int,
)
    requires
        is_normalised(before, neg_mean, inv_stddev, normalise, after),
        0 <= i < before.len(),
        0 <= k < before[i]@.len(),
    ensures
        after.len() == before.len(),
        after[i]@.len() == before[i]@.len(),
        ({
            let (x, mean, deviation) = (before[i]@[k], neg_mean[k], inv_stddev[k]);
            call_ensures(normalise, (x, mean, deviation), after[i]@[k])
        }),
{
}

/// Where `normalise` is a function, changing the statistics of other dimensions, or the other
/// values, leaves a value as it is.
pub proof fn other_statistics_change_nothing<T, F: Fn(T, T, T) -> T>(
    before: Seq<Vec<T>>,
    neg_mean: Seq<T>,
    inv_stddev: Seq<T>,
    after: Seq<Vec<T>>,
    before2: Seq<Vec<T>>,
    neg_mean2: Seq<T>,
    inv_stddev2: Seq<T>,
    after2: Seq<Vec<T>>,
    normalise: F,
    i: int,
    k: int,
)
    requires
        forall|x: T, m: T, s: T, p: T, q: T| #[trigger]
            call_ensures(normalise, (x, m, s), p) && #[trigger] call_ensures(
                normalise,
                (x, m, s),
                q,
            ) ==> p == q,
        is_normalised(before, neg_mean, inv_stddev, normalise, after),
        is_normalised(before2, neg_mean2, inv_stddev2, normalise, after2),
        0 <= i < before.len(),
        i < before2.len(),
        0 <= k < before[i]@.len(),
        k < before2[i]@.len(),
        before[i]@[k] == before2[i]@[k],
        neg_mean[k] == neg_mean2[k],
        inv_stddev[k] == inv_stddev2[k],
    ensures
        after[i]@[k] == after2[i]@[k],
{
    a_dimension_has_its_own_statistics(before, neg_mean, inv_stddev, normalise, after, i, k);
    a_dimension_has_its_own_statistics(before2, neg_mean2, inv_stddev2, normalise, after2, i, k);
}

/// Part `j` of stacked frame `i` is frame `i * n + j - (m - 1) / 2`, or the first where that
/// lies before all frames, or the last where it lies behind them.
pub proof fn stacked_frames_hold_their_neighbours<T>(
    feats: Seq<[T; NUM_MEL]>,
    m: int,
    n: int,
    out: Seq<Vec<T>>,
    i: int,
    j: int,
    d: int,
)
    requires
        is_stacked(feats, m, n, out),
        feats.len() > 0,
        0 <= i < out.len(),
        0 <= j < m,
        0 <= d < 80,
    ensures
        out[i]@.len() == m * 80,
        ({
            let at = i * n + j - (m - 1) / 2;
            let frame = if at < 0 {
                0
            } else if at < feats.len() {
                at
            } else {
                feats.len() - 1
            };
            out[i]@[j * 80 + d] == feats[frame]@[d]
        }),
{
    let q = j * 80 + d;
    assert(q / 80 == j);
    assert(q % 80 == d);
    assert(0 <= q < m * 80);
    assert(out[i]@ == stacked(feats, m, n, i));
}

/// There are as many stacked frames as it takes to step over all frames, `n` at a time.
pub proof fn stacked_frames_cover_all_frames<T>(
    feats: Seq<[T; NUM_MEL]>,
    m: int,
    n: int,
    out: Seq<Vec<T>>,
)
    requires
        is_stacked(feats, m, n, out),
        n >= 1,
    ensures
        feats.len() <= out.len() * n,
        feats.len() > 0 ==> (out.len() - 1) * n < feats.len(),
{
    let len = feats.len() as int;
    if len > 0 {
        let count = out.len() as int;
        assert(len <= count * n && (count - 1) * n < len) by (nonlinear_arith)
            requires
                n >= 1,
                len >= 1,
                count == (len + n - 1) / n,
        ;
    } else {
        assert(out.len() * n == 0) by (nonlinear_arith)
            requires
                out.len() == 0,
        ;
    }
}

/// The features of samples are the rows that the filter bank returns when it is called once, on
/// every sample in order, scaled: the first 80 values of each row, filled up with zero. There
/// are none for fewer than 400 samples, nor where the filter bank fails.
pub proof fn features_are_rows_of_the_filter_bank<
    T,
    S: Fn(T, u32) -> T,
    K: Fn(&[T]) -> Option<Vec<Vec<T>>>,
>(
    samples: Seq<T>,
    scale: u32,
    zero: T,
    multiply: S,
    filter: K,
    frames: Seq<[T; NUM_MEL]>,
)
    requires
        are_features(samples, scale, zero, multiply, filter, frames),
    ensures
        samples.len() < 400 ==> frames.len() == 0,
        samples.len() >= 400 ==> exists|s: &[T], rows: Option<Vec<Vec<T>>>|
            {
                &&& #[trigger] call_ensures(filter, (s,), rows)
                &&& s@.len() == samples.len()
                &&& scale == 0x3F80_0000 ==> s@ == samples
                &&& scale != 0x3F80_0000 ==> forall|j: int|
                    0 <= j < samples.len() ==> call_ensures(
                        multiply,
                        (samples[j], scale),
                        #[trigger] s@[j],
                    )
                &&& rows is None ==> frames.len() == 0
                &&& rows is Some ==> frames.len() == rows->0@.len() && forall|i: int, d: int|
                    0 <= i < frames.len() && 0 <= d < 80 ==> #[trigger] frames[i]@[d] == if d
                        < rows->0@[i]@.len() {
                        rows->0@[i]@[d]
                    } else {
                        zero
                    }
            },
{
    if samples.len() >= 400 {
        let (scaled, rows) = choose|scaled: Seq<T>, rows: Option<Vec<Vec<T>>>|
            is_scaled(samples, scale, multiply, scaled) && #[trigger] filtered(filter, scaled, rows)
                && are_frames(rows, zero, frames);
        let s = choose|s: &[T]| s@ == scaled && #[trigger] call_ensures(filter, (s,), rows);
        assert(call_ensures(filter, (s,), rows));
        if rows is Some {
            assert forall|i: int, d: int|
                0 <= i < frames.len() && 0 <= d < 80 implies #[trigger] frames[i]@[d] == if d
                < rows->0@[i]@.len() {
                rows->0@[i]@[d]
            } else {
                zero
            } by {
                assert(frames[i]@ == frame_of(rows->0@[i]@, zero));
            }
        }
    }
}

} // verus!
