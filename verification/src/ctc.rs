//! Greedy CTC decoding: the best token of every frame, repeats collapsed, blanks dropped.
use vstd::prelude::*;

use crate::order;

verus! {

/// What the model returns: the bits of `frames * vocab` numbers, frame by frame, under the
/// shape `[1, frames, vocab]`.
pub struct Logits {
    pub shape: Vec<i64>,
    pub values: Vec<u32>,
}

impl Logits {
    /// The number of frames.
    pub open spec fn frames(&self) -> nat {
        (self.shape@[1] as usize) as nat
    }

    /// The number of tokens scored in each frame.
    pub open spec fn vocab(&self) -> nat {
        (self.shape@[2] as usize) as nat
    }

    /// The shape has three dimensions, and there are as many numbers as it says.
    pub open spec fn wf(&self) -> bool {
        &&& self.shape@.len() >= 3
        &&& self.shape@[1] >= 0
        &&& self.frames() * self.vocab() <= self.values@.len()
    }

    /// The scores of frame `t`.
    pub open spec fn row(&self, t: int) -> Seq<u32> {
        self.values@.subrange(t * self.vocab(), t * self.vocab() + self.vocab())
    }

    /// The best token of every frame.
    pub open spec fn best_path(&self) -> Seq<usize> {
        Seq::new(self.frames(), |t: int| best(self.row(t)) as usize)
    }

    /// Whether the shape has three dimensions and there are as many numbers as it says.
    pub fn is_well_formed(&self) -> (r: bool)
        ensures
            r == self.wf(),
    {
        if self.shape.len() < 3 || self.shape[1] < 0 {
            return false;
        }
        let frames: usize = #[verifier::truncate] (self.shape[1] as usize);
        let vocab: usize = #[verifier::truncate] (self.shape[2] as usize);
        assert(frames * vocab <= 0xFFFF_FFFF_FFFF_FFFF * 0xFFFF_FFFF_FFFF_FFFF)
            by (nonlinear_arith)
            requires
                frames <= 0xFFFF_FFFF_FFFF_FFFF,
                vocab <= 0xFFFF_FFFF_FFFF_FFFF,
        ;
        frames as u128 * vocab as u128 <= self.values.len() as u128
    }
}

/// Whether some score is above the smallest finite number.
pub open spec fn some_score_counts(row: Seq<u32>) -> bool {
    exists|i: int| 0 <= i < row.len() && order::below(order::SMALLEST, #[trigger] row[i])
}

/// Whether `b` is the best token of a frame: its score is above the smallest finite number, no
/// score is above it, and every earlier one is below it or not a number. Where no score is
/// above the smallest finite number, token 0 is.
pub open spec fn is_best(row: Seq<u32>, b: int) -> bool {
    if some_score_counts(row) {
        &&& 0 <= b < row.len()
        &&& order::below(order::SMALLEST, row[b])
        &&& forall|i: int| 0 <= i < row.len() ==> !order::below(row[b], #[trigger] row[i])
        &&& forall|i: int|
            0 <= i < b ==> order::is_nan(#[trigger] row[i]) || order::below(row[i], row[b])
    } else {
        b == 0
    }
}

/// The best token of a frame.
pub open spec fn best(row: Seq<u32>) -> int {
    choose|b: int| is_best(row, b)
}

/// A frame has one best token.
pub proof fn best_is_unique(row: Seq<u32>, a: int, b: int)
    requires
        is_best(row, a),
        is_best(row, b),
    ensures
        a == b,
{
    if some_score_counts(row) {
        if a < b {
            assert(order::is_nan(row[a]) || order::below(row[a], row[b]));
            assert(!order::below(row[a], row[b]));
        }
        if b < a {
            assert(order::is_nan(row[b]) || order::below(row[b], row[a]));
            assert(!order::below(row[b], row[a]));
        }
    }
}

/// Finds the best token among `count` scores from `start` on.
pub fn argmax(values: &Vec<u32>, start: usize, count: usize) -> (b: usize)
    requires
        start + count <= values@.len(),
    ensures
        is_best(values@.subrange(start as int, start + count), b as int),
        b == best(values@.subrange(start as int, start + count)),
        b == 0 || b < count,
{
    let ghost row = values@.subrange(start as int, start + count);
    let len: usize = values.len();
    let mut b: usize = 0;
    let mut b_score: u32 = order::SMALLEST;
    let mut i: usize = 0;
    while i < count
        invariant
            i <= count,
            start + count <= values@.len(),
            values@.len() == len,
            row == values@.subrange(start as int, start + count),
            is_best(row.take(i as int), b as int),
            b == 0 || b < i,
            if some_score_counts(row.take(i as int)) {
                b < i && b_score == row[b as int]
            } else {
                b_score == order::SMALLEST
            },
        decreases count - i,
    {
        let v: u32 = values[start + i];
        let ghost before = row.take(i as int);
        let ghost after = row.take(i + 1);
        assert(after == before.push(v));
        assert(forall|j: int| 0 <= j < i ==> #[trigger] after[j] == before[j]);
        proof {
            if some_score_counts(before) {
                let w = choose|w: int|
                    0 <= w < before.len() && order::below(order::SMALLEST, #[trigger] before[w]);
                assert(order::below(order::SMALLEST, after[w]));
            }
            if order::below(order::SMALLEST, v) {
                assert(order::below(order::SMALLEST, after[i as int]));
            }
        }
        if order::less(b_score, v) {
            proof {
                assert forall|j: int| 0 <= j < i implies order::is_nan(#[trigger] after[j])
                    || order::below(after[j], v) by {
                    if some_score_counts(before) {
                        assert(!order::below(before[b as int], before[j]));
                    } else {
                        assert(!order::below(order::SMALLEST, before[j]));
                    }
                }
            }
            b = i;
            b_score = v;
            assert(is_best(after, b as int));
        } else {
            assert(some_score_counts(after) ==> some_score_counts(before)) by {
                if some_score_counts(after) && !some_score_counts(before) {
                    let w = choose|w: int|
                        0 <= w < after.len() && order::below(order::SMALLEST, #[trigger] after[w]);
                    assert(w < i ==> order::below(order::SMALLEST, before[w]));
                }
            }
            assert(is_best(after, b as int));
        }
        i = i + 1;
    }
    assert(row.take(count as int) == row);
    proof {
        best_is_unique(row, b as int, best(row));
    }
    b
}

/// Whether the token of frame `t` is kept: it is not blank and differs from the one before.
pub open spec fn kept(path: Seq<usize>, blank: usize, t: int) -> bool {
    path[t] != blank && (t == 0 || path[t] != path[t - 1])
}

/// The tokens that are kept, in order.
pub open spec fn collapse(path: Seq<usize>, blank: usize) -> Seq<usize>
    decreases path.len(),
{
    if path.len() == 0 {
        Seq::empty()
    } else {
        let rest = collapse(path.drop_last(), blank);
        if kept(path, blank, path.len() - 1) {
            rest.push(path.last())
        } else {
            rest
        }
    }
}

/// Decodes the model's output to token ids.
pub fn greedy(logits: &Logits, blank: usize) -> (ids: Vec<usize>)
    requires
        logits.wf(),
    ensures
        ids@ == collapse(logits.best_path(), blank),
{
    let vocab: usize = #[verifier::truncate] (logits.shape[2] as usize);
    let frames: usize = #[verifier::truncate] (logits.shape[1] as usize);
    let ghost path = logits.best_path();
    let len: usize = logits.values.len();
    let mut ids: Vec<usize> = Vec::new();
    let mut prev: usize = usize::MAX;
    let mut t: usize = 0;
    let mut start: usize = 0;
    assert(path.take(0) == Seq::<usize>::empty());
    while t < frames
        invariant
            logits.wf(),
            logits.values@.len() == len,
            vocab == logits.vocab(),
            frames == logits.frames(),
            path == logits.best_path(),
            t <= frames,
            start == t * vocab,
            ids@ == collapse(path.take(t as int), blank),
            t == 0 ==> prev == usize::MAX,
            t > 0 ==> prev == path[t - 1],
        decreases frames - t,
    {
        assert(start + vocab <= logits.values@.len()) by (nonlinear_arith)
            requires
                start == t * vocab,
                t < frames,
                frames * vocab <= logits.values@.len(),
        ;
        let b: usize = argmax(&logits.values, start, vocab);
        assert(logits.row(t as int) == logits.values@.subrange(start as int, start + vocab));
        assert(path[t as int] == b);
        let ghost after = path.take(t + 1);
        assert(after.drop_last() == path.take(t as int));
        if b != blank && b != prev {
            ids.push(b);
        }
        assert(ids@ == collapse(after, blank)) by {
            assert(after.last() == b);
            if t > 0 {
                assert(after[t - 1] == path[t - 1]);
            }
        }
        prev = b;
        start = start + vocab;
        assert(start == (t + 1) * vocab) by (nonlinear_arith)
            requires
                start == t * vocab + vocab,
        ;
        t = t + 1;
    }
    assert(path.take(frames as int) == path);
    ids
}

/// No blank is ever decoded.
pub proof fn blanks_are_dropped(path: Seq<usize>, blank: usize)
    ensures
        !collapse(path, blank).contains(blank),
    decreases path.len(),
{
    if path.len() > 0 {
        blanks_are_dropped(path.drop_last(), blank);
        let rest = collapse(path.drop_last(), blank);
        if kept(path, blank, path.len() - 1) {
            assert forall|i: int| 0 <= i < rest.len() + 1 implies rest.push(path.last())[i]
                != blank by {
                if i < rest.len() {
                    assert(rest[i] != blank);
                }
            }
        }
    }
}

/// A blank separates: what stands before it and what stands behind it are decoded on their
/// own, so that a token on both sides of it is decoded twice.
pub proof fn blank_separates(a: Seq<usize>, b: Seq<usize>, blank: usize)
    ensures
        collapse(a + seq![blank] + b, blank) == collapse(a, blank) + collapse(b, blank),
    decreases b.len(),
{
    let head = a + seq![blank];
    assert(head.drop_last() == a);
    assert(collapse(head, blank) == collapse(a, blank));
    if b.len() == 0 {
        assert(head + b == head);
        assert(collapse(a, blank) + collapse(b, blank) == collapse(a, blank));
    } else {
        blank_separates(a, b.drop_last(), blank);
        assert((head + b).drop_last() == head + b.drop_last());
        let last = (head + b).len() - 1;
        assert((head + b)[last] == b.last());
        if b.len() > 1 {
            assert((head + b)[last - 1] == b[b.len() - 2]);
        } else {
            assert((head + b)[last - 1] == blank);
        }
        assert(collapse(head + b, blank) == collapse(a, blank) + collapse(b, blank));
    }
}

/// A frame repeated is decoded as the frame once.
pub proof fn repeats_are_collapsed(a: Seq<usize>, x: usize, b: Seq<usize>, blank: usize)
    ensures
        collapse(a + seq![x, x] + b, blank) == collapse(a + seq![x] + b, blank),
    decreases b.len(),
{
    let once = a + seq![x];
    let twice = a + seq![x, x];
    if b.len() == 0 {
        assert(twice.drop_last() == once);
        assert(twice[twice.len() - 2] == x);
        assert(twice + b == twice);
        assert(once + b == once);
    } else {
        repeats_are_collapsed(a, x, b.drop_last(), blank);
        assert((twice + b).drop_last() == twice + b.drop_last());
        assert((once + b).drop_last() == once + b.drop_last());
        let n = (once + b).len() - 1;
        assert((once + b)[n] == b.last());
        assert((twice + b)[n + 1] == b.last());
        if b.len() > 1 {
            assert((once + b)[n - 1] == b[b.len() - 2]);
            assert((twice + b)[n] == b[b.len() - 2]);
        } else {
            assert((once + b)[n - 1] == x);
            assert((twice + b)[n] == x);
        }
    }
}

/// Without blanks in the path, no token is decoded twice in a row.
pub proof fn no_token_repeats_without_a_blank(path: Seq<usize>, blank: usize)
    requires
        !path.contains(blank),
    ensures
        forall|i: int|
            0 < i < collapse(path, blank).len() ==> #[trigger] collapse(path, blank)[i] != collapse(
                path,
                blank,
            )[i - 1],
        path.len() > 0 ==> collapse(path, blank).len() > 0 && collapse(path, blank).last()
            == path.last(),
    decreases path.len(),
{
    if path.len() > 0 {
        assert forall|x: usize| path.drop_last().contains(x) implies path.contains(x) by {
            let i = choose|i: int| 0 <= i < path.drop_last().len() && path.drop_last()[i] == x;
            assert(path[i] == x);
        }
        no_token_repeats_without_a_blank(path.drop_last(), blank);
        assert(path[path.len() - 1] != blank);
        let rest = collapse(path.drop_last(), blank);
        if path.len() > 1 {
            assert(rest.last() == path[path.len() - 2]);
        }
    }
}

/// Every frame has a best token.
pub proof fn a_best_token_exists(row: Seq<u32>)
    ensures
        is_best(row, best(row)),
        best(row) == 0 || best(row) < row.len(),
    decreases row.len(),
{
    if row.len() == 0 {
        assert(is_best(row, 0));
    } else {
        let rest = row.drop_last();
        let last = row.len() - 1;
        a_best_token_exists(rest);
        let b = best(rest);
        assert(forall|i: int| 0 <= i < last ==> #[trigger] row[i] == rest[i]);
        if some_score_counts(rest) {
            assert(order::below(order::SMALLEST, row[b]));
            if order::below(row[b], row[last]) {
                assert forall|i: int| 0 <= i < last implies order::is_nan(#[trigger] row[i])
                    || order::below(row[i], row[last]) by {
                    assert(!order::below(rest[b], rest[i]));
                }
                assert(is_best(row, last));
            } else {
                assert forall|i: int| 0 <= i < row.len() implies !order::below(
                    row[b],
                    #[trigger] row[i],
                ) by {
                    if i < last {
                        assert(!order::below(rest[b], rest[i]));
                    }
                }
                assert forall|i: int| 0 <= i < b implies order::is_nan(#[trigger] row[i])
                    || order::below(row[i], row[b]) by {
                    assert(row[i] == rest[i]);
                }
                assert(is_best(row, b));
            }
        } else if order::below(order::SMALLEST, row[last]) {
            assert forall|i: int| 0 <= i < last implies order::is_nan(#[trigger] row[i])
                || order::below(row[i], row[last]) by {
                assert(!order::below(order::SMALLEST, rest[i]));
            }
            assert(is_best(row, last));
        } else {
            assert forall|i: int| 0 <= i < row.len() implies !order::below(
                order::SMALLEST,
                #[trigger] row[i],
            ) by {
                if i < last {
                    assert(!order::below(order::SMALLEST, rest[i]));
                }
            }
            assert(is_best(row, 0));
        }
    }
}

/// One more frame adds its token to those decoded, unless it is blank or the token of the frame
/// before; no frames decode to nothing.
pub proof fn a_frame_adds_its_token(path: Seq<usize>, x: usize, blank: usize)
    ensures
        collapse(Seq::<usize>::empty(), blank) == Seq::<usize>::empty(),
        x == blank ==> collapse(path.push(x), blank) == collapse(path, blank),
        path.len() > 0 && path.last() == x ==> collapse(path.push(x), blank) == collapse(
            path,
            blank,
        ),
        x != blank && (path.len() == 0 || path.last() != x) ==> collapse(path.push(x), blank)
            == collapse(path, blank).push(x),
{
    assert(path.push(x).drop_last() == path);
}

/// The best path names one token for every frame. Where some score `w` of frame `t` is above
/// the smallest finite number, that token's score is; no score of the frame is above it, and
/// every score before it is below it or not a number.
pub proof fn the_best_token_scores_highest(logits: Logits, t: int, w: int, v: int)
    requires
        logits.wf(),
        0 <= t < logits.shape@[1],
        logits.shape@[1] <= usize::MAX,
        0 <= w < logits.shape@[2] <= usize::MAX,
        0 <= v < logits.shape@[2],
        order::below(0xFF7F_FFFF, logits.values@[t * logits.shape@[2] + w]),
    ensures
        logits.best_path().len() == logits.shape@[1],
        ({
            let vocab = logits.shape@[2];
            let b = logits.best_path()[t] as int;
            &&& 0 <= b < vocab
            &&& order::below(0xFF7F_FFFF, logits.values@[t * vocab + b])
            &&& !order::below(logits.values@[t * vocab + b], logits.values@[t * vocab + v])
            &&& v < b ==> order::is_nan(logits.values@[t * vocab + v]) || order::below(
                logits.values@[t * vocab + v],
                logits.values@[t * vocab + b],
            )
        }),
{
    let row = frame_row(logits, t);
    a_best_token_exists(row);
    assert(order::below(order::SMALLEST, row[w]));
    assert(some_score_counts(row));
    assert(logits.best_path()[t] == best(row) as usize);
    assert(row[v] == logits.values@[t * logits.shape@[2] + v]);
    assert(row[best(row)] == logits.values@[t * logits.shape@[2] + best(row)]);
}

/// Where no score of a frame is above the smallest finite number, its token is token 0.
pub proof fn without_scores_token_0_is_best(logits: Logits, t: int)
    requires
        logits.wf(),
        0 <= t < logits.shape@[1],
        logits.shape@[1] <= usize::MAX,
        0 <= logits.shape@[2] <= usize::MAX,
        forall|w: int|
            0 <= w < logits.shape@[2] ==> !order::below(
                0xFF7F_FFFF,
                #[trigger] logits.values@[t * logits.shape@[2] + w],
            ),
    ensures
        logits.best_path()[t] == 0,
{
    let row = frame_row(logits, t);
    a_best_token_exists(row);
    assert forall|i: int| 0 <= i < row.len() implies !order::below(
        order::SMALLEST,
        #[trigger] row[i],
    ) by {
        assert(row[i] == logits.values@[t * logits.shape@[2] + i]);
    }
    assert(!some_score_counts(row));
    assert(logits.best_path()[t] == best(row) as usize);
}

/// The scores of frame `t`, which stand one frame behind the other.
proof fn frame_row(logits: Logits, t: int) -> (row: Seq<u32>)
    requires
        logits.wf(),
        0 <= t < logits.shape@[1],
        logits.shape@[1] <= usize::MAX,
        0 <= logits.shape@[2] <= usize::MAX,
    ensures
        row == logits.row(t),
        row.len() == logits.shape@[2],
        logits.frames() == logits.shape@[1],
        logits.vocab() == logits.shape@[2],
        forall|i: int|
            0 <= i < row.len() ==> #[trigger] row[i] == logits.values@[t * logits.shape@[2] + i],
{
    let vocab = logits.vocab();
    let frames = logits.frames();
    assert(0 <= t * vocab && t * vocab + vocab <= frames * vocab) by (nonlinear_arith)
        requires
            0 <= t < frames,
    ;
    logits.row(t)
}

/// There have to be a score for every token of every frame, and a shape that says how many.
pub proof fn every_frame_has_all_its_scores(logits: Logits)
    requires
        logits.shape@.len() >= 3,
        0 <= logits.shape@[1] <= usize::MAX,
        0 <= logits.shape@[2] <= usize::MAX,
    ensures
        logits.wf() <==> logits.shape@[1] * logits.shape@[2] <= logits.values@.len(),
{
}

} // verus!
