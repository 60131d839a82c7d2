//! What is decided by the scores of frames. A score is a 32-bit float and stands
//! here as its bits.
use vstd::prelude::*;

use crate::order;
use crate::order::rank;

verus! {

/// The bits of negative infinity, the score of a frame that is not the speech of a
/// speaker.
pub const NO_SCORE: u32 = 0xff80_0000;

/// The key of positive infinity.
pub const HIGHEST: i32 = 0x7f80_0000;

/// The key of negative infinity.
pub const LOWEST: i32 = -0x7f80_0001;

/// The place of a float in the total order of floats, from its bits: the bits are
/// a sign and a size, and of negative numbers the larger in size is the lower.
pub open spec fn order_key(bits: u32) -> i32 {
    if bits < 0x8000_0000 {
        bits as i32
    } else {
        (0x7fff_ffff - bits) as i32
    }
}

/// The place of a float in the total order of floats, from its bits.
pub fn key(bits: u32) -> (r: i32)
    ensures
        r == order_key(bits),
{
    if bits < 0x8000_0000 {
        bits as i32
    } else {
        (0x7fff_ffff - bits as i64) as i32
    }
}

/// Different floats have different places.
pub proof fn keys_tell_scores_apart(a: u32, b: u32)
    ensures
        order_key(a) == order_key(b) <==> a == b,
        order_key(NO_SCORE) == LOWEST,
{
}

/// Whether a score is above zero; no score that is not a number is.
pub open spec fn is_positive(bits: u32) -> bool {
    0 < order_key(bits) <= HIGHEST
}

/// Whether a score is a number that is not above zero, and not negative infinity.
pub open spec fn is_weak(bits: u32) -> bool {
    LOWEST < order_key(bits) <= 0
}

/// Where the score of a frame for a speaker stands: the scores are frame after
/// frame, with one for each of `n` speakers.
pub open spec fn place(n: int, frame: int, speaker: int) -> int {
    frame * n + speaker
}

/// A place is within the scores of `frames` frames.
pub(crate) proof fn lemma_place(n: int, frames: int, frame: int, speaker: int)
    requires
        0 <= frame < frames,
        0 <= speaker < n,
    ensures
        0 <= place(n, frame, speaker) < frames * n,
        0 <= frame * n,
{
    assert(0 <= frame * n && (frame + 1) * n <= frames * n && (frame + 1) * n == frame * n + n)
        by (nonlinear_arith)
        requires
            0 <= frame < frames,
            0 < n,
    ;
}

/// Two places are the same only for the same frame and speaker.
pub(crate) proof fn lemma_places_differ(n: int, f: int, s: int, g: int, t: int)
    requires
        0 <= s < n,
        0 <= t < n,
        place(n, f, s) == place(n, g, t),
    ensures
        f == g,
        s == t,
{
    assert(f == g) by (nonlinear_arith)
        requires
            0 <= s < n,
            0 <= t < n,
            f * n + s == g * n + t,
    ;
}

/// How many of the first `frames` frames have a positive score for a speaker.
pub open spec fn positives(scores: Seq<u32>, n: int, speaker: int, frames: int) -> nat
    decreases frames,
{
    if frames <= 0 {
        0
    } else {
        positives(scores, n, speaker, frames - 1) + if is_positive(
            scores[place(n, frames - 1, speaker)],
        ) {
            1nat
        } else {
            0nat
        }
    }
}

fn count_positive(scores: &Vec<u32>, n: usize, speaker: usize, frames: usize) -> (r: usize)
    requires
        scores@.len() == frames * n,
        speaker < n,
    ensures
        r == positives(scores@, n as int, speaker as int, frames as int),
{
    let size = scores.len();
    let mut count: usize = 0;
    for f in 0..frames
        invariant
            scores@.len() == size,
            size == frames * n,
            speaker < n,
            count <= f,
            count == positives(scores@, n as int, speaker as int, f as int),
    {
        proof {
            lemma_place(n as int, frames as int, f as int, speaker as int);
        }
        let at = key(scores[f * n + speaker]);
        if 0 < at && at <= HIGHEST {
            count += 1;
        }
    }
    count
}

/// The scores with those speakers that have `enough` positive ones rid of the
/// weak ones.
pub open spec fn kept_score(scores: Seq<u32>, n: int, frames: int, enough: int, f: int, s: int) -> u32 {
    let bits = scores[place(n, f, s)];
    if positives(scores, n, s, frames) >= enough && is_weak(bits) {
        NO_SCORE
    } else {
        bits
    }
}

fn drop_weak(scores: &mut Vec<u32>, n: usize, frames: usize, speaker: usize)
    requires
        old(scores)@.len() == frames * n,
        speaker < n,
    ensures
        final(scores)@.len() == old(scores)@.len(),
        forall|f: int, s: int|
            0 <= f < frames && 0 <= s < n ==> #[trigger] final(scores)@[place(n as int, f, s)] == if s
                == speaker && is_weak(old(scores)@[place(n as int, f, s)]) {
                NO_SCORE
            } else {
                old(scores)@[place(n as int, f, s)]
            },
{
    let ghost before = scores@;
    let size = scores.len();
    for g in 0..frames
        invariant
            before.len() == size,
            size == frames * n,
            scores@.len() == size,
            speaker < n,
            forall|f: int, s: int|
                0 <= f < frames && 0 <= s < n ==> #[trigger] scores@[place(n as int, f, s)] == if f
                    < g && s == speaker && is_weak(before[place(n as int, f, s)]) {
                    NO_SCORE
                } else {
                    before[place(n as int, f, s)]
                },
    {
        proof {
            lemma_place(n as int, frames as int, g as int, speaker as int);
            assert(scores@[place(n as int, g as int, speaker as int)] == before[place(
                n as int,
                g as int,
                speaker as int,
            )]);
        }
        let ghost now = scores@;
        let i = g * n + speaker;
        let at = key(scores[i]);
        if LOWEST < at && at <= 0 {
            scores.set(i, NO_SCORE);
        }
        proof {
            assert forall|f: int, s: int| 0 <= f < frames && 0 <= s < n implies #[trigger] scores@[place(
                n as int,
                f,
                s,
            )] == if f < g + 1 && s == speaker && is_weak(before[place(n as int, f, s)]) {
                NO_SCORE
            } else {
                before[place(n as int, f, s)]
            } by {
                lemma_place(n as int, frames as int, f, s);
                assert(now[place(n as int, f, s)] == if f < g && s == speaker && is_weak(
                    before[place(n as int, f, s)],
                ) {
                    NO_SCORE
                } else {
                    before[place(n as int, f, s)]
                });
                if place(n as int, f, s) == i {
                    lemma_places_differ(n as int, f, s, g as int, speaker as int);
                }
            }
        }
    }
}

proof fn lemma_same_positives(a: Seq<u32>, b: Seq<u32>, n: int, s: int, frames: int)
    requires
        forall|f: int| 0 <= f < frames ==> a[place(n, f, s)] == #[trigger] b[place(n, f, s)],
    ensures
        positives(a, n, s, frames) == positives(b, n, s, frames),
    decreases frames,
{
    if frames > 0 {
        lemma_same_positives(a, b, n, s, frames - 1);
        assert(a[place(n, frames - 1, s)] == b[place(n, frames - 1, s)]);
    }
}

/// Drops the weak scores of every speaker that has `enough` positive ones.
pub fn drop_weak_scores(scores: &mut Vec<u32>, n: usize, frames: usize, enough: usize)
    requires
        old(scores)@.len() == frames * n,
    ensures
        final(scores)@.len() == old(scores)@.len(),
        forall|f: int, s: int|
            0 <= f < frames && 0 <= s < n ==> #[trigger] final(scores)@[place(n as int, f, s)]
                == kept_score(old(scores)@, n as int, frames as int, enough as int, f, s),
{
    let ghost before = scores@;
    for speaker in 0..n
        invariant
            before.len() == frames * n,
            scores@.len() == before.len(),
            forall|f: int, s: int|
                0 <= f < frames && 0 <= s < n ==> #[trigger] scores@[place(n as int, f, s)] == if s
                    < speaker {
                    kept_score(before, n as int, frames as int, enough as int, f, s)
                } else {
                    before[place(n as int, f, s)]
                },
    {
        let count = count_positive(scores, n, speaker, frames);
        proof {
            assert forall|f: int| 0 <= f < frames implies scores@[place(
                n as int,
                f,
                speaker as int,
            )] == #[trigger] before[place(n as int, f, speaker as int)] by {
                assert(scores@[place(n as int, f, speaker as int)] == before[place(
                    n as int,
                    f,
                    speaker as int,
                )]);
            }
            lemma_same_positives(scores@, before, n as int, speaker as int, frames as int);
        }
        if count >= enough {
            drop_weak(scores, n, frames, speaker);
        }
    }
}

/// The keys of a speaker's scores, frame after frame.
pub open spec fn speaker_keys(scores: Seq<u32>, n: int, frames: int, speaker: int) -> Seq<i32> {
    Seq::new(frames as nat, |f: int| order_key(scores[place(n, f, speaker)]))
}

/// The `count` frames with the highest scores for a speaker, or all where there
/// are fewer.
pub open spec fn strongest_frames(
    scores: Seq<u32>,
    n: int,
    frames: int,
    speaker: int,
    count: int,
) -> Seq<int> {
    let order = order::ranked(speaker_keys(scores, n, frames, speaker));
    if count < frames {
        order.take(count)
    } else {
        order
    }
}

/// The `count` frames with the highest scores for a speaker, or all where there
/// are fewer, from the highest down and those of equal scores in their order.
pub fn strongest(scores: &Vec<u32>, n: usize, frames: usize, speaker: usize, count: usize) -> (r: Vec<
    usize,
>)
    requires
        scores@.len() == frames * n,
        speaker < n,
    ensures
        order::numbers(r@) == strongest_frames(
            scores@,
            n as int,
            frames as int,
            speaker as int,
            count as int,
        ),
{
    let size = scores.len();
    let mut keys: Vec<i32> = Vec::new();
    for f in 0..frames
        invariant
            scores@.len() == size,
            size == frames * n,
            speaker < n,
            keys@ == speaker_keys(scores@, n as int, f as int, speaker as int),
    {
        proof {
            lemma_place(n as int, frames as int, f as int, speaker as int);
        }
        keys.push(key(scores[f * n + speaker]));
        proof {
            assert(keys@ =~= speaker_keys(scores@, n as int, f + 1, speaker as int));
        }
    }
    let mut order = rank(keys.as_slice());
    proof {
        order::lemma_ranked(keys@);
    }
    let ghost all = order@;
    if count < frames {
        order.truncate(count);
        proof {
            assert(order::numbers(order@) =~= order::numbers(all).take(count as int));
        }
    }
    order
}

/// As many frames are boosted as were asked for, or all; each is one of the
/// frames, none comes twice, and no other frame scores higher than one of them.
pub proof fn the_strongest_come_first(
    scores: Seq<u32>,
    n: int,
    frames: int,
    speaker: int,
    count: int,
)
    requires
        0 <= count,
        0 <= frames,
    ensures
        ({
            let picked = strongest_frames(scores, n, frames, speaker, count);
            let keys = speaker_keys(scores, n, frames, speaker);
            &&& picked.len() == if count < frames {
                count
            } else {
                frames
            }
            &&& picked.no_duplicates()
            &&& forall|i: int|
                0 <= i < picked.len() ==> 0 <= #[trigger] picked[i] < frames
            &&& forall|i: int, f: int|
                0 <= i < picked.len() && 0 <= f < frames && !picked.contains(f)
                    ==> #[trigger] order::ranks(keys, picked[i], f)
        }),
{
    let picked = strongest_frames(scores, n, frames, speaker, count);
    let keys = speaker_keys(scores, n, frames, speaker);
    let order = order::ranked(keys);
    order::lemma_ranked(keys);
    assert forall|i: int| 0 <= i < picked.len() implies 0 <= #[trigger] picked[i] < frames by {
        assert(order.contains(order[i]));
    }
    assert forall|i: int, f: int|
        0 <= i < picked.len() && 0 <= f < frames && !picked.contains(
            f,
        ) implies #[trigger] order::ranks(keys, picked[i], f) by {
        assert(order.contains(f));
        let j = choose|j: int| 0 <= j < order.len() && order[j] == f;
        if j < picked.len() {
            assert(picked[j] == f);
        }
        assert(order::ranks(keys, order[i], order[j]));
    }
}

/// The places are in the order of the floats: a negative one, whose first bit is set,
/// before one that is not, and of two with the same sign the larger in size further from
/// zero.
pub proof fn keys_are_in_the_order_of_the_floats(a: u32, b: u32)
    ensures
        order_key(a) < order_key(b) <==> if a < 0x8000_0000 {
            b < 0x8000_0000 && a < b
        } else {
            b < 0x8000_0000 || b < a
        },
        order_key(a) == 0x7f80_0000 <==> a == 0x7f80_0000,
        order_key(a) == -0x7f80_0001 <==> a == 0xff80_0000,
{
}

/// The frames before `frames` that have a score above zero for a speaker.
spec fn heard_frames(scores: Seq<u32>, n: int, speaker: int, frames: int) -> Set<int> {
    vstd::set_lib::set_int_range(0, frames).filter(
        |f: int| 0 < scores[f * n + speaker] <= 0x7f80_0000,
    )
}

proof fn lemma_positives(scores: Seq<u32>, n: int, speaker: int, frames: int)
    requires
        0 <= frames,
    ensures
        heard_frames(scores, n, speaker, frames).finite(),
        positives(scores, n, speaker, frames) == heard_frames(scores, n, speaker, frames).len(),
    decreases frames,
{
    vstd::set_lib::lemma_int_range(0, frames);
    let all = heard_frames(scores, n, speaker, frames);
    if frames > 0 {
        let rest = heard_frames(scores, n, speaker, frames - 1);
        lemma_positives(scores, n, speaker, frames - 1);
        let bits = scores[(frames - 1) * n + speaker];
        if 0 < bits <= 0x7f80_0000 {
            assert(all =~= rest.insert(frames - 1));
        } else {
            assert(all =~= rest);
        }
    } else {
        assert(all =~= Set::<int>::empty());
    }
}

/// Where enough frames are heard above zero for a speaker, its scores that are not above
/// zero are dropped, minus zero among them. All other scores stay, and so do those that
/// are not numbers.
pub proof fn weak_scores_go_where_enough_are_heard(
    scores: Seq<u32>,
    n: int,
    frames: int,
    enough: int,
    f: int,
    s: int,
)
    requires
        0 <= frames,
    ensures
        ({
            let bits = scores[f * n + s];
            let weak = bits == 0 || 0x8000_0000 <= bits < 0xff80_0000;
            let heard = vstd::set_lib::set_int_range(0, frames).filter(
                |g: int| 0 < scores[g * n + s] <= 0x7f80_0000,
            );
            let after = kept_score(scores, n, frames, enough, f, s);
            &&& weak && heard.len() >= enough ==> after == 0xff80_0000
            &&& !(weak && heard.len() >= enough) ==> after == bits
        }),
{
    lemma_positives(scores, n, s, frames);
    assert(heard_frames(scores, n, s, frames) =~= vstd::set_lib::set_int_range(0, frames).filter(
        |g: int| 0 < scores[g * n + s] <= 0x7f80_0000,
    ));
}

/// The frames that are boosted come from the highest score down, those of equal scores
/// in their order, and no frame that is left out has a higher score than one of them.
pub proof fn the_strongest_come_from_the_highest_down(
    scores: Seq<u32>,
    n: int,
    frames: int,
    speaker: int,
    count: int,
    i: int,
    other: int,
)
    requires
        0 <= count,
        0 <= frames,
        0 <= i < strongest_frames(scores, n, frames, speaker, count).len(),
        0 <= other < frames,
        forall|j: int|
            0 <= j <= i ==> #[trigger] strongest_frames(scores, n, frames, speaker, count)[j]
                != other,
    ensures
        strongest_frames(scores, n, frames, speaker, count).len() == vstd::math::min(count, frames),
        ({
            let frame = strongest_frames(scores, n, frames, speaker, count)[i];
            let high = order_key(scores[frame * n + speaker]);
            let low = order_key(scores[other * n + speaker]);
            &&& 0 <= frame < frames
            &&& high > low || (high == low && frame < other)
        }),
{
    let keys = speaker_keys(scores, n, frames, speaker);
    let order = order::ranked(keys);
    order::lemma_ranked(keys);
    assert(order.contains(order[i]));
    assert(order.contains(other));
    let j = choose|j: int| 0 <= j < order.len() && order[j] == other;
    if j <= i {
        assert(strongest_frames(scores, n, frames, speaker, count)[j] == other);
    }
    assert(order::ranks(keys, order[i], order[j]));
}

} // verus!
