//! The memory of a speaker model: the speaker cache and the latest frames.
use vstd::prelude::*;

use crate::nemotron::scores;
use crate::nemotron::scores::{key, HIGHEST, LOWEST};
use crate::order;
use crate::order::rank;

verus! {

/// The sizes of a speaker model.
#[derive(Clone, Copy)]
pub struct Sizes {
    /// The numbers of a frame.
    pub hidden_size: usize,
    /// The outputs of the model for a frame, each with a number for every speaker.
    pub subsampling_factor: usize,
    pub num_speakers: usize,
    /// The frames of a chunk, and those after it that the model sees too.
    pub chunk_length: usize,
    pub chunk_right_context: usize,
    /// How many of the latest frames are kept aside.
    pub fifo_length: usize,
    /// How many frames at least go to the speaker cache at a time.
    pub speaker_cache_update_period: usize,
    /// How many frames the speaker cache is compressed to.
    pub speaker_cache_length: usize,
    /// The slots of silence that every speaker has in it.
    pub silence_frames_per_speaker: usize,
}

/// What a [`Cache`] holds: the frames of the speaker cache and the probabilities of
/// the speakers in them, and the latest frames.
#[verifier::ext_equal]
pub struct CacheView<T> {
    pub cached: nat,
    pub embeds: Seq<T>,
    pub probs: Seq<T>,
    pub waiting: nat,
    pub fifo: Seq<T>,
    pub compressed: bool,
}

/// The memory of a speaker model. A frame is a row of `hidden_size` numbers, and
/// its probabilities a row of `num_speakers`.
pub struct Cache<T> {
    sizes: Sizes,
    silence: Vec<T>,
    zero: T,
    cached: usize,
    embeds: Vec<T>,
    probs: Vec<T>,
    waiting: usize,
    fifo: Vec<T>,
    compressed: bool,
}

impl<T> View for Cache<T> {
    type V = CacheView<T>;

    closed spec fn view(&self) -> CacheView<T> {
        CacheView {
            cached: self.cached as nat,
            embeds: self.embeds@,
            probs: self.probs@,
            waiting: self.waiting as nat,
            fifo: self.fifo@,
            compressed: self.compressed,
        }
    }
}

/// How many of `waiting` frames move to the speaker cache: none while they are
/// within the length kept aside, and else at least those beyond it.
pub open spec fn moved_frames(sizes: Sizes, waiting: int) -> int {
    if waiting <= sizes.fifo_length {
        0
    } else {
        let beyond = waiting - sizes.fifo_length;
        let wanted = if beyond < sizes.speaker_cache_update_period {
            sizes.speaker_cache_update_period as int
        } else {
            beyond
        };
        if wanted < waiting {
            wanted
        } else {
            waiting
        }
    }
}

/// Part of a list, from one row to before another.
pub open spec fn rows<T>(list: Seq<T>, width: int, start: int, end: int) -> Seq<T> {
    list.subrange(start * width, end * width)
}

impl<T> CacheView<T> {
    /// Whether the lists are as long as the frames that they hold.
    pub open spec fn fits(self, sizes: Sizes) -> bool {
        &&& self.embeds.len() == self.cached * sizes.hidden_size
        &&& self.probs.len() == self.cached * sizes.num_speakers
        &&& self.fifo.len() == self.waiting * sizes.hidden_size
    }

    /// The frames that go into a step before those of the chunk.
    pub open spec fn remembered(self) -> Seq<T> {
        self.embeds + self.fifo
    }

    /// The memory after a step on `input`, which holds what is remembered and then
    /// a chunk of `chunk` frames. `probs` are the probabilities of the frames in
    /// `input`; those of frames in a compressed cache stay as they were.
    pub open spec fn pushed(
        self,
        sizes: Sizes,
        input: Seq<T>,
        probs: Seq<T>,
        chunk: int,
    ) -> CacheView<T> {
        let h = sizes.hidden_size as int;
        let n = sizes.num_speakers as int;
        let before = self.cached + self.waiting;
        let fifo = self.fifo + rows(input, h, before as int, before + chunk);
        let waiting = self.waiting + chunk;
        let moved = moved_frames(sizes, waiting);
        if moved == 0 {
            CacheView { waiting: waiting as nat, fifo, ..self }
        } else {
            CacheView {
                cached: (self.cached + moved) as nat,
                embeds: self.embeds + rows(fifo, h, 0, moved),
                probs: (if self.compressed {
                    self.probs
                } else {
                    rows(probs, n, 0, self.cached as int)
                }) + rows(probs, n, self.cached as int, self.cached + moved),
                waiting: (waiting - moved) as nat,
                fifo: rows(fifo, h, moved, waiting),
                compressed: self.compressed,
            }
        }
    }
}

pub(crate) fn append<T: Copy>(out: &mut Vec<T>, list: &[T], start: usize, end: usize)
    requires
        start <= end <= list@.len(),
    ensures
        final(out)@ == old(out)@ + list@.subrange(start as int, end as int),
{
    let ghost before = out@;
    for i in start..end
        invariant
            start <= end <= list@.len(),
            out@ == before + list@.subrange(start as int, i as int),
    {
        out.push(list[i]);
        proof {
            assert(out@ =~= before + list@.subrange(start as int, i + 1));
        }
    }
    proof {
        assert(before + list@.subrange(start as int, start as int) =~= before);
    }
}

/// A row within rows ends within them.
pub(crate) proof fn lemma_rows(width: int, a: int, b: int)
    requires
        0 <= a <= b,
        0 <= width,
    ensures
        0 <= a * width <= b * width,
        b * width - a * width == (b - a) * width,
        width > 0 ==> b <= b * width,
{
    assert(0 <= a * width <= b * width && b * width - a * width == (b - a) * width && (width > 0
        ==> b <= b * width)) by (nonlinear_arith)
        requires
            0 <= a <= b,
            0 <= width,
    ;
}

impl<T: Copy> Cache<T> {
    pub closed spec fn sizes(&self) -> Sizes {
        self.sizes
    }

    /// The frame of silence.
    pub closed spec fn silence(&self) -> Seq<T> {
        self.silence@
    }

    /// The probability of a speaker in a frame of silence.
    pub closed spec fn zero(&self) -> T {
        self.zero
    }

    /// Whether the lists are as long as the frames that they hold.
    pub open spec fn wf(&self) -> bool {
        &&& self.sizes().hidden_size > 0
        &&& self.sizes().num_speakers > 0
        &&& self.silence().len() == self.sizes().hidden_size
        &&& self@.fits(self.sizes())
    }

    /// A memory of nothing. `silence` is a frame of silence, and `zero` the
    /// probability that a speaker is heard in it.
    pub fn new(sizes: Sizes, silence: Vec<T>, zero: T) -> (r: Cache<T>)
        requires
            sizes.hidden_size > 0,
            sizes.num_speakers > 0,
            silence@.len() == sizes.hidden_size,
        ensures
            r.wf(),
            r.sizes() == sizes,
            r.silence() == silence@,
            r.zero() == zero,
            r@ == (CacheView {
                cached: 0,
                embeds: Seq::<T>::empty(),
                probs: Seq::<T>::empty(),
                waiting: 0,
                fifo: Seq::<T>::empty(),
                compressed: false,
            }),
    {
        Cache {
            sizes,
            silence,
            zero,
            cached: 0,
            embeds: Vec::new(),
            probs: Vec::new(),
            waiting: 0,
            fifo: Vec::new(),
            compressed: false,
        }
    }

    /// The sizes of the speaker model.
    pub fn get_sizes(&self) -> (r: Sizes)
        ensures
            r == self.sizes(),
    {
        self.sizes
    }

    /// How many frames the speaker cache holds.
    pub fn cached(&self) -> (r: usize)
        ensures
            r == self@.cached,
    {
        self.cached
    }

    /// How many of the latest frames are kept aside.
    pub fn waiting(&self) -> (r: usize)
        ensures
            r == self@.waiting,
    {
        self.waiting
    }

    /// The probabilities of the frames in the speaker cache.
    pub fn probabilities(&self) -> (r: &Vec<T>)
        ensures
            r@ == self@.probs,
    {
        &self.probs
    }

    /// The frames that go into a step before those of the chunk.
    pub fn embeds(&self) -> (r: Vec<T>)
        ensures
            r@ == self@.remembered(),
    {
        let mut all: Vec<T> = Vec::new();
        append(&mut all, self.embeds.as_slice(), 0, self.embeds.len());
        append(&mut all, self.fifo.as_slice(), 0, self.fifo.len());
        proof {
            assert(all@ =~= self.embeds@ + self.fifo@);
        }
        all
    }

    /// Takes in a chunk after a step: its frames wait, and the oldest that wait
    /// move to the speaker cache when there are too many. Tells whether the speaker
    /// cache has outgrown its length and is to be compressed.
    pub fn update(&mut self, input: &[T], probs: &[T], chunk_frames: usize) -> (r: bool)
        requires
            old(self).wf(),
            (old(self)@.cached + old(self)@.waiting + chunk_frames) * old(self).sizes().hidden_size
                <= input@.len(),
            moved_frames(old(self).sizes(), old(self)@.waiting + chunk_frames) > 0 ==> (old(
                self,
            )@.cached + old(self)@.waiting + chunk_frames) * old(self).sizes().num_speakers
                <= probs@.len(),
        ensures
            final(self).wf(),
            final(self).sizes() == old(self).sizes(),
            final(self).silence() == old(self).silence(),
            final(self).zero() == old(self).zero(),
            final(self)@ == old(self)@.pushed(
                old(self).sizes(),
                input@,
                probs@,
                chunk_frames as int,
            ),
            r == (moved_frames(old(self).sizes(), old(self)@.waiting + chunk_frames) > 0
                && final(self)@.cached > old(self).sizes().speaker_cache_length),
    {
        let h = self.sizes.hidden_size;
        let n = self.sizes.num_speakers;
        let ghost view = self@;
        let size = input.len();
        let room = probs.len();
        proof {
            let all = self.cached + self.waiting + chunk_frames;
            lemma_rows(h as int, self.cached + self.waiting, all);
            lemma_rows(n as int, self.cached as int, all);
            lemma_rows(h as int, self.waiting as int, all);
            assert(all <= size);
        }
        let before = self.cached + self.waiting;
        append(&mut self.fifo, input, before * h, (before + chunk_frames) * h);
        let waiting = self.waiting + chunk_frames;
        let ghost fifo = self.fifo@;
        proof {
            lemma_rows(h as int, self.waiting as int, waiting as int);
            assert(fifo.len() == waiting * h);
        }
        let moved = if waiting <= self.sizes.fifo_length {
            0
        } else {
            let beyond = waiting - self.sizes.fifo_length;
            let wanted = if beyond < self.sizes.speaker_cache_update_period {
                self.sizes.speaker_cache_update_period
            } else {
                beyond
            };
            if wanted < waiting {
                wanted
            } else {
                waiting
            }
        };
        self.waiting = waiting;
        if moved == 0 {
            return false;
        }
        let cached = self.cached;
        let length = self.fifo.len();
        proof {
            lemma_rows(h as int, moved as int, waiting as int);
            lemma_rows(h as int, cached as int, cached + moved);
            lemma_rows(n as int, cached as int, cached + moved);
            lemma_rows(n as int, cached + moved, before + chunk_frames);
        }
        if !self.compressed {
            let mut fresh: Vec<T> = Vec::new();
            append(&mut fresh, probs, 0, cached * n);
            self.probs = fresh;
            proof {
                assert(self.probs@ =~= rows(probs@, n as int, 0, cached as int));
            }
        }
        append(&mut self.probs, probs, cached * n, (cached + moved) * n);
        append(&mut self.embeds, self.fifo.as_slice(), 0, moved * h);
        let mut rest: Vec<T> = Vec::new();
        append(&mut rest, self.fifo.as_slice(), moved * h, length);
        self.fifo = rest;
        self.waiting = waiting - moved;
        self.cached = cached + moved;
        proof {
            assert(self.fifo@ =~= rows(fifo, h as int, moved as int, waiting as int));
            assert(rows(fifo, h as int, 0, moved as int) =~= fifo.subrange(0, moved * h));
        }
        self.cached > self.sizes.speaker_cache_length
    }
}

/// The keys that the slots of a compression are ordered by: speaker after speaker,
/// a slot for each of `frames` frames and then its slots of silence, which rank
/// with the highest.
pub open spec fn slot_keys(scores: Seq<u32>, n: int, frames: int, silence: int) -> Seq<i32> {
    let slots = frames + silence;
    Seq::new(
        (n * slots) as nat,
        |i: int|
            if i % slots < frames {
                scores::order_key(scores[scores::place(n, i % slots, i / slots)])
            } else {
                HIGHEST
            },
    )
}

/// Whether a slot is among the `length` first in rank, and has a score.
pub open spec fn is_chosen(keys: Seq<i32>, length: int, slot: int) -> bool {
    order::ranked(keys).take(length).contains(slot) && keys[slot] != LOWEST
}

/// The chosen slots before `end`, in their order.
pub open spec fn chosen_slots(keys: Seq<i32>, length: int, end: int) -> Seq<int>
    decreases end,
{
    if end <= 0 {
        Seq::empty()
    } else if is_chosen(keys, length, end - 1) {
        chosen_slots(keys, length, end - 1).push(end - 1)
    } else {
        chosen_slots(keys, length, end - 1)
    }
}

/// The frame of a slot, or `frames` where it is one of silence.
pub open spec fn slot_frame(slot: int, frames: int, silence: int) -> int {
    let frame = slot % (frames + silence);
    if frame < frames {
        frame
    } else {
        frames
    }
}

/// The frames that a compression to `length` keeps: those of the chosen slots, in
/// the order of the slots, and silence for what is missing. The number of frames
/// stands for silence.
pub open spec fn kept_frames(
    scores: Seq<u32>,
    n: int,
    frames: int,
    silence: int,
    length: int,
) -> Seq<int> {
    let keys = slot_keys(scores, n, frames, silence);
    let chosen = chosen_slots(keys, length, keys.len() as int);
    chosen.map_values(|slot: int| slot_frame(slot, frames, silence)) + Seq::new(
        (length - chosen.len()) as nat,
        |i: int| frames,
    )
}

/// The rows of `list` for `frames`, and `filler` for every frame that it lacks.
pub open spec fn gathered<T>(
    list: Seq<T>,
    width: int,
    filler: Seq<T>,
    count: int,
    frames: Seq<int>,
) -> Seq<T>
    decreases frames.len(),
{
    if frames.len() == 0 {
        Seq::empty()
    } else {
        gathered(list, width, filler, count, frames.drop_last()) + if frames.last() < count {
            rows(list, width, frames.last(), frames.last() + 1)
        } else {
            filler
        }
    }
}

/// The chosen slots are in rising order, each is chosen, and they are all of them.
proof fn lemma_chosen(keys: Seq<i32>, length: int, end: int)
    requires
        end <= keys.len(),
    ensures
        forall|i: int|
            0 <= i < chosen_slots(keys, length, end).len() ==> 0 <= #[trigger] chosen_slots(
                keys,
                length,
                end,
            )[i] < end && is_chosen(keys, length, chosen_slots(keys, length, end)[i]),
        forall|i: int, j: int|
            0 <= i < j < chosen_slots(keys, length, end).len() ==> #[trigger] chosen_slots(
                keys,
                length,
                end,
            )[i] < #[trigger] chosen_slots(keys, length, end)[j],
        forall|slot: int|
            0 <= slot < end && is_chosen(keys, length, slot) ==> #[trigger] chosen_slots(
                keys,
                length,
                end,
            ).contains(slot),
    decreases end,
{
    if end > 0 {
        lemma_chosen(keys, length, end - 1);
        let before = chosen_slots(keys, length, end - 1);
        let now = chosen_slots(keys, length, end);
        assert forall|slot: int| 0 <= slot < end && is_chosen(
            keys,
            length,
            slot,
        ) implies #[trigger] now.contains(slot) by {
            if slot < end - 1 {
                assert(before.contains(slot));
                let k = choose|k: int| 0 <= k < before.len() && before[k] == slot;
                assert(now[k] == slot);
            } else {
                assert(now[now.len() - 1] == slot);
            }
        }
    }
}

proof fn lemma_chosen_count(keys: Seq<i32>, length: int, end: int)
    requires
        0 <= length <= keys.len(),
        end <= keys.len(),
    ensures
        chosen_slots(keys, length, end).len() <= length,
{
    let chosen = chosen_slots(keys, length, end);
    let first = order::ranked(keys).take(length);
    order::lemma_ranked(keys);
    lemma_chosen(keys, length, end);
    assert(chosen.no_duplicates());
    chosen.unique_seq_to_set();
    first.unique_seq_to_set();
    assert forall|slot: int| chosen.to_set().contains(slot) implies first.to_set().contains(
        slot,
    ) by {
        let k = choose|k: int| 0 <= k < chosen.len() && chosen[k] == slot;
        assert(is_chosen(keys, length, chosen[k]));
    }
    vstd::set_lib::lemma_len_subset(chosen.to_set(), first.to_set());
}

/// A slot is one of a speaker's, and within the scores where it is not silence.
proof fn lemma_slot(n: int, frames: int, silence: int, slot: int)
    requires
        0 <= slot < n * (frames + silence),
        0 < frames + silence,
        0 <= frames,
        0 <= silence,
    ensures
        0 <= slot % (frames + silence) < frames + silence,
        0 <= slot / (frames + silence) < n,
{
    let slots = frames + silence;
    assert(0 <= slot % slots < slots && 0 <= slot / slots < n) by (nonlinear_arith)
        requires
            0 <= slot < n * slots,
            0 < slots,
    ;
}

fn find_slot_keys(scores: &Vec<u32>, n: usize, frames: usize, silence: usize) -> (r: Vec<i32>)
    requires
        scores@.len() == frames * n,
        n * (frames + silence) <= usize::MAX,
        0 < frames + silence <= usize::MAX,
    ensures
        r@ == slot_keys(scores@, n as int, frames as int, silence as int),
{
    let size = scores.len();
    let slots = frames + silence;
    let total = n * slots;
    let mut keys: Vec<i32> = Vec::new();
    for i in 0..total
        invariant
            scores@.len() == size,
            size == frames * n,
            slots == frames + silence,
            slots > 0,
            total == n * slots,
            keys@.len() == i,
            forall|k: int|
                0 <= k < i ==> keys@[k] == #[trigger] slot_keys(
                    scores@,
                    n as int,
                    frames as int,
                    silence as int,
                )[k],
    {
        proof {
            lemma_slot(n as int, frames as int, silence as int, i as int);
        }
        let f = i % slots;
        let s = i / slots;
        if f < frames {
            proof {
                scores::lemma_place(n as int, frames as int, f as int, s as int);
            }
            keys.push(key(scores[f * n + s]));
        } else {
            keys.push(HIGHEST);
        }
    }
    proof {
        assert(keys@ =~= slot_keys(scores@, n as int, frames as int, silence as int));
    }
    keys
}

fn mark_first(order: &Vec<usize>, length: usize) -> (r: Vec<bool>)
    requires
        length <= order@.len(),
        forall|i: int| 0 <= i < order@.len() ==> #[trigger] order@[i] < order@.len(),
    ensures
        r@.len() == order@.len(),
        forall|i: int|
            0 <= i < r@.len() ==> #[trigger] r@[i] == order::numbers(order@).take(
                length as int,
            ).contains(i),
{
    let mut marks: Vec<bool> = Vec::new();
    let total = order.len();
    for i in 0..total
        invariant
            marks@.len() == i,
            forall|k: int| 0 <= k < i ==> !#[trigger] marks@[k],
    {
        marks.push(false);
    }
    let ghost places = order::numbers(order@);
    for k in 0..length
        invariant
            length <= order@.len(),
            places == order::numbers(order@),
            marks@.len() == order@.len(),
            forall|i: int| 0 <= i < order@.len() ==> #[trigger] order@[i] < order@.len(),
            forall|i: int|
                0 <= i < marks@.len() ==> #[trigger] marks@[i] == places.take(k as int).contains(i),
    {
        let at = order[k];
        let ghost before = marks@;
        marks.set(at, true);
        proof {
            let less = places.take(k as int);
            let more = places.take(k + 1);
            assert(more =~= less.push(places[k as int]));
            assert forall|i: int| 0 <= i < marks@.len() implies #[trigger] marks@[i]
                == more.contains(i) by {
                assert(before[i] == less.contains(i));
                if less.contains(i) {
                    let j = choose|j: int| 0 <= j < less.len() && less[j] == i;
                    assert(more[j] == i);
                }
                if i == at {
                    assert(more[k as int] == i);
                }
                if more.contains(i) && i != at {
                    let j = choose|j: int| 0 <= j < more.len() && more[j] == i;
                    assert(j < k);
                    assert(less[j] == i);
                }
            }
        }
    }
    marks
}

/// The frames that a compression to `length` keeps, the number of frames where it
/// is silence: the most telling ones, speaker after speaker and in their order for
/// each.
pub fn pick(scores: &Vec<u32>, n: usize, frames: usize, silence: usize, length: usize) -> (r: Vec<
    usize,
>)
    requires
        scores@.len() == frames * n,
        0 < frames + silence <= usize::MAX,
        length <= n * (frames + silence) <= usize::MAX,
    ensures
        order::numbers(r@) == kept_frames(
            scores@,
            n as int,
            frames as int,
            silence as int,
            length as int,
        ),
{
    let slots = frames + silence;
    let keys = find_slot_keys(scores, n, frames, silence);
    let order = rank(keys.as_slice());
    proof {
        order::lemma_ranked(keys@);
        assert forall|i: int| 0 <= i < order@.len() implies #[trigger] order@[i] < order@.len() by {
            assert(order::numbers(order@)[i] == order@[i]);
            assert(order::ranked(keys@).contains(order::numbers(order@)[i]));
        }
        lemma_chosen_count(keys@, length as int, keys@.len() as int);
    }
    let marks = mark_first(&order, length);
    let mut out: Vec<usize> = Vec::new();
    let total = keys.len();
    for i in 0..total
        invariant
            slots == frames + silence,
            slots > 0,
            total == keys@.len(),
            marks@.len() == total,
            order::numbers(order@) == order::ranked(keys@),
            forall|k: int|
                0 <= k < marks@.len() ==> #[trigger] marks@[k] == order::numbers(order@).take(
                    length as int,
                ).contains(k),
            order::numbers(out@) == chosen_slots(keys@, length as int, i as int).map_values(
                |slot: int| slot_frame(slot, frames as int, silence as int),
            ),
    {
        let ghost before = out@;
        proof {
            assert(marks@[i as int] == order::ranked(keys@).take(length as int).contains(i as int));
        }
        if marks[i] && keys[i] != LOWEST {
            let f = i % slots;
            let frame = if f < frames {
                f
            } else {
                frames
            };
            out.push(frame);
            proof {
                assert(order::numbers(out@) =~= order::numbers(before).push(frame as int));
                assert(order::numbers(out@) =~= chosen_slots(
                    keys@,
                    length as int,
                    i + 1,
                ).map_values(|slot: int| slot_frame(slot, frames as int, silence as int)));
            }
        }
    }
    let ghost picked = out@;
    let ghost chosen = chosen_slots(keys@, length as int, keys@.len() as int);
    proof {
        assert(order::numbers(picked).len() == chosen.len());
    }
    while out.len() < length
        invariant
            picked.len() <= out@.len() <= length,
            order::numbers(out@) == order::numbers(picked) + Seq::new(
                (out@.len() - picked.len()) as nat,
                |i: int| frames as int,
            ),
        decreases length - out.len(),
    {
        let ghost before = out@;
        out.push(frames);
        proof {
            assert(order::numbers(out@) =~= order::numbers(before).push(frames as int));
            assert(order::numbers(out@) =~= order::numbers(picked) + Seq::new(
                (out@.len() - picked.len()) as nat,
                |i: int| frames as int,
            ));
        }
    }
    proof {
        assert(order::numbers(out@) =~= kept_frames(
            scores@,
            n as int,
            frames as int,
            silence as int,
            length as int,
        ));
    }
    out
}

fn gather<T: Copy>(
    list: &Vec<T>,
    width: usize,
    filler: &Vec<T>,
    count: usize,
    frames: &Vec<usize>,
) -> (r: Vec<T>)
    requires
        list@.len() == count * width,
    ensures
        r@ == gathered(
            list@,
            width as int,
            filler@,
            count as int,
            order::numbers(frames@),
        ),
{
    let mut out: Vec<T> = Vec::new();
    let size = list.len();
    for i in 0..frames.len()
        invariant
            list@.len() == size,
            size == count * width,
            out@ == gathered(
                list@,
                width as int,
                filler@,
                count as int,
                order::numbers(frames@).take(i as int),
            ),
    {
        let ghost places = order::numbers(frames@);
        let frame = frames[i];
        proof {
            assert(places.take(i + 1).drop_last() =~= places.take(i as int));
            assert(places.take(i + 1).last() == frame);
        }
        if frame < count {
            proof {
                lemma_rows(width as int, frame + 1, count as int);
                lemma_rows(width as int, frame as int, frame + 1);
            }
            append(&mut out, list.as_slice(), frame * width, (frame + 1) * width);
        } else {
            append(&mut out, filler.as_slice(), 0, filler.len());
            proof {
                assert(filler@.subrange(0, filler@.len() as int) =~= filler@);
            }
        }
    }
    proof {
        assert(order::numbers(frames@).take(frames@.len() as int) =~= order::numbers(frames@));
    }
    out
}

proof fn lemma_gathered<T>(list: Seq<T>, width: int, filler: Seq<T>, count: int, frames: Seq<int>)
    requires
        list.len() == count * width,
        filler.len() == width,
        0 <= width,
        forall|i: int| 0 <= i < frames.len() ==> 0 <= #[trigger] frames[i],
    ensures
        gathered(list, width, filler, count, frames).len() == frames.len() * width,
    decreases frames.len(),
{
    if frames.len() > 0 {
        let rest = frames.drop_last();
        assert forall|i: int| 0 <= i < rest.len() implies 0 <= #[trigger] rest[i] by {
            assert(frames[i] >= 0);
        }
        lemma_gathered(list, width, filler, count, rest);
        let last = frames.last();
        assert(last == frames[frames.len() - 1]);
        if last < count {
            lemma_rows(width, last, last + 1);
            lemma_rows(width, last + 1, count);
            assert((last + 1) * width == last * width + width) by (nonlinear_arith);
        }
        assert(rest.len() * width + width == frames.len() * width) by (nonlinear_arith)
            requires
                rest.len() + 1 == frames.len(),
        ;
    }
}

/// As many frames are kept as were asked for, and each is a frame or silence.
proof fn lemma_kept_frames(scores: Seq<u32>, n: int, frames: int, silence: int, length: int)
    requires
        0 <= frames,
        0 <= silence,
        0 < frames + silence,
        0 <= length <= n * (frames + silence),
    ensures
        kept_frames(scores, n, frames, silence, length).len() == length,
        forall|i: int|
            0 <= i < length ==> 0 <= #[trigger] kept_frames(scores, n, frames, silence, length)[i]
                <= frames,
{
    let keys = slot_keys(scores, n, frames, silence);
    lemma_chosen_count(keys, length, keys.len() as int);
    lemma_chosen(keys, length, keys.len() as int);
    let chosen = chosen_slots(keys, length, keys.len() as int);
    let kept = kept_frames(scores, n, frames, silence, length);
    assert forall|i: int| 0 <= i < length implies 0 <= #[trigger] kept[i] <= frames by {
        if i < chosen.len() {
            lemma_slot(n, frames, silence, chosen[i]);
        }
    }
}

impl<T> CacheView<T> {
    /// The memory with the speaker cache compressed to its length by `scores`.
    pub open spec fn compressed_by(
        self,
        sizes: Sizes,
        silence: Seq<T>,
        zero: T,
        scores: Seq<u32>,
    ) -> CacheView<T> {
        let frames = kept_frames(
            scores,
            sizes.num_speakers as int,
            self.cached as int,
            sizes.silence_frames_per_speaker as int,
            sizes.speaker_cache_length as int,
        );
        CacheView {
            cached: sizes.speaker_cache_length as nat,
            embeds: gathered(
                self.embeds,
                sizes.hidden_size as int,
                silence,
                self.cached as int,
                frames,
            ),
            probs: gathered(
                self.probs,
                sizes.num_speakers as int,
                Seq::new(sizes.num_speakers as nat, |i: int| zero),
                self.cached as int,
                frames,
            ),
            compressed: true,
            ..self
        }
    }
}

impl<T: Copy> Cache<T> {
    /// Compresses the speaker cache to its length: the most telling frames stay by
    /// their scores, speaker after speaker and in their order for each, with the
    /// slots of silence that every speaker has.
    pub fn compress(&mut self, scores: &Vec<u32>)
        requires
            old(self).wf(),
            scores@.len() == old(self)@.cached * old(self).sizes().num_speakers,
            0 < old(self)@.cached + old(self).sizes().silence_frames_per_speaker <= usize::MAX,
            old(self).sizes().speaker_cache_length <= old(self).sizes().num_speakers * (old(
                self,
            )@.cached + old(self).sizes().silence_frames_per_speaker) <= usize::MAX,
        ensures
            final(self).wf(),
            final(self).sizes() == old(self).sizes(),
            final(self).silence() == old(self).silence(),
            final(self).zero() == old(self).zero(),
            final(self)@ == old(self)@.compressed_by(
                old(self).sizes(),
                old(self).silence(),
                old(self).zero(),
                scores@,
            ),
    {
        let n = self.sizes.num_speakers;
        let frames = pick(
            scores,
            n,
            self.cached,
            self.sizes.silence_frames_per_speaker,
            self.sizes.speaker_cache_length,
        );
        let mut zeros: Vec<T> = Vec::new();
        for i in 0..n
            invariant
                zeros@ == Seq::new(i as nat, |k: int| self.zero),
        {
            zeros.push(self.zero);
            proof {
                assert(zeros@ =~= Seq::new((i + 1) as nat, |k: int| self.zero));
            }
        }
        proof {
            assert(zeros@ =~= Seq::new(n as nat, |k: int| self.zero));
            lemma_kept_frames(
                scores@,
                n as int,
                self.cached as int,
                self.sizes.silence_frames_per_speaker as int,
                self.sizes.speaker_cache_length as int,
            );
            lemma_gathered(
                self.embeds@,
                self.sizes.hidden_size as int,
                self.silence@,
                self.cached as int,
                order::numbers(frames@),
            );
            lemma_gathered(
                self.probs@,
                n as int,
                zeros@,
                self.cached as int,
                order::numbers(frames@),
            );
        }
        let embeds = gather(
            &self.embeds,
            self.sizes.hidden_size,
            &self.silence,
            self.cached,
            &frames,
        );
        let probs = gather(&self.probs, n, &zeros, self.cached, &frames);
        self.embeds = embeds;
        self.probs = probs;
        self.cached = self.sizes.speaker_cache_length;
        self.compressed = true;
    }
}

/// No more of the latest frames wait than are kept aside.
pub proof fn the_latest_frames_stay_within_their_length<T>(
    memory: CacheView<T>,
    sizes: Sizes,
    input: Seq<T>,
    probs: Seq<T>,
    chunk: int,
)
    requires
        0 <= chunk,
    ensures
        memory.pushed(sizes, input, probs, chunk).waiting <= sizes.fifo_length,
{
}

/// A step forgets nothing: what is remembered after it is what was remembered
/// before it, with the frames of the chunk behind.
pub proof fn a_step_forgets_nothing<T>(
    memory: CacheView<T>,
    sizes: Sizes,
    input: Seq<T>,
    probs: Seq<T>,
    chunk: int,
)
    requires
        memory.fits(sizes),
        0 <= chunk,
        (memory.cached + memory.waiting + chunk) * sizes.hidden_size <= input.len(),
    ensures
        memory.pushed(sizes, input, probs, chunk).remembered() == memory.remembered() + rows(
            input,
            sizes.hidden_size as int,
            (memory.cached + memory.waiting) as int,
            memory.cached + memory.waiting + chunk,
        ),
{
    let h = sizes.hidden_size as int;
    let before = memory.cached + memory.waiting;
    let waiting = memory.waiting + chunk;
    let moved = moved_frames(sizes, waiting);
    lemma_rows(h, before as int, before + chunk);
    lemma_rows(h, memory.waiting as int, waiting);
    lemma_rows(h, moved, waiting);
    let fresh = rows(input, h, before as int, before + chunk);
    let fifo = memory.fifo + fresh;
    assert(fifo.len() == waiting * h);
    if moved == 0 {
        assert(memory.embeds + fifo =~= memory.embeds + memory.fifo + fresh);
    } else {
        lemma_rows(h, 0, moved);
        assert(rows(fifo, h, 0, moved) + rows(fifo, h, moved, waiting) =~= fifo);
        assert(memory.embeds + rows(fifo, h, 0, moved) + rows(fifo, h, moved, waiting)
            =~= memory.embeds + memory.fifo + fresh);
    }
}

/// The speaker cache stays within its length: where a step does not call for a
/// compression it has not outgrown it, and a compression gives it that length.
pub proof fn the_speaker_cache_stays_within_its_length<T>(
    memory: CacheView<T>,
    sizes: Sizes,
    input: Seq<T>,
    probs: Seq<T>,
    chunk: int,
    silence: Seq<T>,
    zero: T,
    scores: Seq<u32>,
)
    requires
        memory.cached <= sizes.speaker_cache_length,
        0 <= chunk,
    ensures
        ({
            let after = memory.pushed(sizes, input, probs, chunk);
            &&& after.cached > sizes.speaker_cache_length ==> moved_frames(
                sizes,
                memory.waiting + chunk,
            ) > 0
            &&& after.compressed_by(sizes, silence, zero, scores).cached
                == sizes.speaker_cache_length
        }),
{
}

/// A compression keeps as many frames as the length asked for, each of them one
/// that was there or silence.
pub proof fn a_compression_keeps_its_length(
    scores: Seq<u32>,
    n: int,
    frames: int,
    silence: int,
    length: int,
)
    requires
        0 <= frames,
        0 <= silence,
        0 < frames + silence,
        0 <= length <= n * (frames + silence),
    ensures
        kept_frames(scores, n, frames, silence, length).len() == length,
        forall|i: int|
            0 <= i < length ==> 0 <= #[trigger] kept_frames(scores, n, frames, silence, length)[i]
                <= frames,
{
    lemma_kept_frames(scores, n, frames, silence, length);
}

/// The chosen slots are grouped by speaker, and those of a speaker are in the order
/// of its frames.
pub proof fn chosen_slots_are_grouped_by_speaker(
    keys: Seq<i32>,
    length: int,
    slots: int,
    i: int,
    j: int,
)
    requires
        0 < slots,
        0 <= i < j < chosen_slots(keys, length, keys.len() as int).len(),
    ensures
        ({
            let a = chosen_slots(keys, length, keys.len() as int)[i];
            let b = chosen_slots(keys, length, keys.len() as int)[j];
            &&& a / slots <= b / slots
            &&& a / slots == b / slots ==> a % slots < b % slots
        }),
{
    lemma_chosen(keys, length, keys.len() as int);
    let a = chosen_slots(keys, length, keys.len() as int)[i];
    let b = chosen_slots(keys, length, keys.len() as int)[j];
    assert(a / slots <= b / slots && (a / slots == b / slots ==> a % slots < b % slots))
        by (nonlinear_arith)
        requires
            0 < slots,
            a < b,
    ;
}

/// A slot that is chosen has a score, and every slot with a score that is not
/// chosen ranks after it.
pub proof fn chosen_slots_are_the_most_telling(
    keys: Seq<i32>,
    length: int,
    chosen: int,
    other: int,
)
    requires
        0 <= length <= keys.len(),
        0 <= chosen < keys.len(),
        0 <= other < keys.len(),
        is_chosen(keys, length, chosen),
        !is_chosen(keys, length, other),
        keys[other] != LOWEST,
    ensures
        keys[chosen] != LOWEST,
        order::ranks(keys, chosen, other),
{
    let order = order::ranked(keys);
    order::lemma_ranked(keys);
    let first = order.take(length);
    let i = choose|i: int| 0 <= i < first.len() && first[i] == chosen;
    assert(order.contains(other));
    let j = choose|j: int| 0 <= j < order.len() && order[j] == other;
    if j < length {
        assert(first[j] == other);
    }
    assert(order::ranks(keys, order[i], order[j]));
}

/// Whether a slot is one of silence.
pub open spec fn is_silence(frames: int, silence: int, slot: int) -> bool {
    slot % (frames + silence) >= frames
}

/// Every speaker keeps its slots of silence, where these are within the length and
/// no score is infinitely high.
pub proof fn every_speaker_keeps_its_silence(
    scores: Seq<u32>,
    n: int,
    frames: int,
    silence: int,
    length: int,
    slot: int,
)
    requires
        0 <= frames,
        0 < silence,
        n * silence <= length <= n * (frames + silence),
        forall|f: int, s: int|
            0 <= f < frames && 0 <= s < n ==> scores::order_key(
                #[trigger] scores[scores::place(n, f, s)],
            ) < HIGHEST,
        0 <= slot < n * (frames + silence),
        is_silence(frames, silence, slot),
    ensures
        is_chosen(slot_keys(scores, n, frames, silence), length, slot),
        slot_frame(slot, frames, silence) == frames,
{
    let keys = slot_keys(scores, n, frames, silence);
    let slots = frames + silence;
    let order = order::ranked(keys);
    order::lemma_ranked(keys);
    lemma_slot(n, frames, silence, slot);
    assert(keys[slot] == HIGHEST);
    assert(order.contains(slot));
    let p = choose|p: int| 0 <= p < order.len() && order[p] == slot;
    let first = order.take(p + 1);
    // Whatever ranks no lower than a slot of silence is one too.
    assert forall|i: int| 0 <= i < first.len() implies 0 <= #[trigger] first[i] < n * slots
        && is_silence(frames, silence, first[i]) by {
        let q = first[i];
        assert(order.contains(order[i]));
        if i < p {
            assert(order::ranks(keys, order[i], order[p]));
        }
        lemma_slot(n, frames, silence, q);
        if q % slots < frames {
            assert(scores::order_key(scores[scores::place(n, q % slots, q / slots)]) < HIGHEST);
        }
    }
    let number = |q: int| scores::place(silence, q / slots, q % slots - frames);
    let numbers = first.map_values(number);
    assert forall|i: int, j: int| 0 <= i < numbers.len() && 0 <= j < numbers.len() && i
        != j implies numbers[i] != numbers[j] by {
        let a = first[i];
        let b = first[j];
        lemma_slot(n, frames, silence, a);
        lemma_slot(n, frames, silence, b);
        assert(a != b);
        if numbers[i] == numbers[j] {
            scores::lemma_places_differ(
                silence,
                a / slots,
                a % slots - frames,
                b / slots,
                b % slots - frames,
            );
            vstd::arithmetic::div_mod::lemma_fundamental_div_mod(a, slots);
            vstd::arithmetic::div_mod::lemma_fundamental_div_mod(b, slots);
        }
    }
    assert(numbers.no_duplicates());
    numbers.unique_seq_to_set();
    let range = vstd::set_lib::set_int_range(0, n * silence);
    assert forall|x: int| numbers.to_set().contains(x) implies range.contains(x) by {
        let i = choose|i: int| 0 <= i < numbers.len() && numbers[i] == x;
        let a = first[i];
        lemma_slot(n, frames, silence, a);
        scores::lemma_place(silence, n, a / slots, a % slots - frames);
    }
    assert(0 <= n * silence) by (nonlinear_arith)
        requires
            0 <= slot < n * slots,
            0 < slots,
            0 < silence,
    ;
    vstd::set_lib::lemma_int_range(0, n * silence);
    vstd::set_lib::lemma_len_subset(numbers.to_set(), range);
    assert(p < length);
    assert(order.take(length)[p] == slot);
}

/// As many frames move to the speaker cache at a step as are beyond the length kept
/// aside, and at least a period of them or all that wait; none where none is beyond it.
/// They are the oldest that wait, and go behind those that are there.
pub proof fn the_oldest_frames_move_when_too_many_wait<T>(
    memory: CacheView<T>,
    sizes: Sizes,
    input: Seq<T>,
    probs: Seq<T>,
    chunk: int,
)
    requires
        memory.fits(sizes),
        0 <= chunk,
        (memory.cached + memory.waiting + chunk) * sizes.hidden_size <= input.len(),
    ensures
        ({
            let after = memory.pushed(sizes, input, probs, chunk);
            let h = sizes.hidden_size as int;
            let all = memory.waiting + chunk;
            let moved = after.cached - memory.cached;
            let before = (memory.cached + memory.waiting) * h;
            &&& after.waiting == all - moved
            &&& after.compressed == memory.compressed
            &&& all <= sizes.fifo_length ==> moved == 0
            &&& all > sizes.fifo_length ==> moved == vstd::math::min(
                vstd::math::max(
                    sizes.speaker_cache_update_period as int,
                    all - sizes.fifo_length,
                ),
                all,
            )
            &&& after.embeds.len() == after.cached * h
            &&& memory.embeds.is_prefix_of(after.embeds)
            &&& after.embeds + after.fifo == memory.embeds + memory.fifo + input.subrange(
                before,
                before + chunk * h,
            )
        }),
{
    let h = sizes.hidden_size as int;
    let after = memory.pushed(sizes, input, probs, chunk);
    let waiting = memory.waiting + chunk;
    let moved = moved_frames(sizes, waiting);
    a_step_forgets_nothing(memory, sizes, input, probs, chunk);
    lemma_rows(h, memory.cached + memory.waiting as int, memory.cached + waiting);
    lemma_rows(h, moved, waiting);
    lemma_rows(h, 0, moved);
    lemma_rows(h, memory.cached as int, memory.cached + moved);
    lemma_rows(h, memory.waiting as int, waiting);
    assert(after.embeds.subrange(0, memory.embeds.len() as int) =~= memory.embeds);
}

/// The probabilities of the frames in the speaker cache are those of the latest step
/// that moved frames there. Once the cache was compressed they stay, and only those of
/// the frames that come behind are of that step.
pub proof fn the_cache_has_the_probabilities_of_its_frames<T>(
    memory: CacheView<T>,
    sizes: Sizes,
    input: Seq<T>,
    probs: Seq<T>,
    chunk: int,
)
    requires
        memory.fits(sizes),
        0 <= chunk,
        (memory.cached + memory.waiting + chunk) * sizes.num_speakers <= probs.len(),
    ensures
        ({
            let after = memory.pushed(sizes, input, probs, chunk);
            let n = sizes.num_speakers as int;
            if after.cached == memory.cached {
                after.probs == memory.probs
            } else {
                &&& after.probs.len() == after.cached * n
                &&& forall|i: int|
                    0 <= i < after.cached * n ==> #[trigger] after.probs[i] == if memory.compressed
                        && i < memory.cached * n {
                        memory.probs[i]
                    } else {
                        probs[i]
                    }
            }
        }),
{
    let n = sizes.num_speakers as int;
    let cached = memory.cached as int;
    let moved = moved_frames(sizes, memory.waiting + chunk);
    lemma_rows(n, 0, cached);
    lemma_rows(n, cached, cached + moved);
    lemma_rows(n, cached + moved, cached + memory.waiting + chunk);
}

/// Row `i` of what was gathered is the row of frame `i`, or the filler where there is no
/// such frame.
proof fn lemma_gathered_row<T>(
    list: Seq<T>,
    width: int,
    filler: Seq<T>,
    count: int,
    frames: Seq<int>,
    i: int,
)
    requires
        list.len() == count * width,
        filler.len() == width,
        0 <= width,
        forall|k: int| 0 <= k < frames.len() ==> 0 <= #[trigger] frames[k],
        0 <= i < frames.len(),
    ensures
        gathered(list, width, filler, count, frames).subrange(i * width, (i + 1) * width)
            == if frames[i] < count {
            list.subrange(frames[i] * width, (frames[i] + 1) * width)
        } else {
            filler
        },
    decreases frames.len(),
{
    let rest = frames.drop_last();
    let all = gathered(list, width, filler, count, frames);
    let less = gathered(list, width, filler, count, rest);
    assert forall|k: int| 0 <= k < rest.len() implies 0 <= #[trigger] rest[k] by {
        assert(frames[k] >= 0);
    }
    lemma_gathered(list, width, filler, count, rest);
    lemma_gathered(list, width, filler, count, frames);
    lemma_rows(width, i, i + 1);
    lemma_rows(width, i + 1, frames.len() as int);
    lemma_rows(width, rest.len() as int, frames.len() as int);
    if i < rest.len() {
        lemma_rows(width, i + 1, rest.len() as int);
        lemma_gathered_row(list, width, filler, count, rest, i);
        assert(all.subrange(i * width, (i + 1) * width) =~= less.subrange(
            i * width,
            (i + 1) * width,
        ));
    } else {
        let last = frames[i];
        if last < count {
            lemma_rows(width, last, last + 1);
            lemma_rows(width, last + 1, count);
        }
        assert(all.subrange(i * width, (i + 1) * width) =~= if last < count {
            list.subrange(last * width, (last + 1) * width)
        } else {
            filler
        });
    }
}

/// The key of a slot, from the score of its frame for its speaker, or the highest where
/// it is one of silence.
proof fn lemma_slot_key(scores: Seq<u32>, n: int, frames: int, silence: int, slot: int)
    requires
        0 <= frames,
        0 <= silence,
        0 < frames + silence,
        0 <= slot < n * (frames + silence),
    ensures
        slot_keys(scores, n, frames, silence).len() == n * (frames + silence),
        slot_keys(scores, n, frames, silence)[slot] == if slot % (frames + silence) < frames {
            scores::order_key(
                scores[(slot % (frames + silence)) * n + slot / (frames + silence)],
            )
        } else {
            0x7f80_0000
        },
{
}

proof fn lemma_room_for_all(keys: Seq<i32>, length: int, slot: int)
    requires
        0 <= length <= keys.len(),
        0 <= slot < keys.len(),
        chosen_slots(keys, length, keys.len() as int).len() < length,
        keys[slot] > LOWEST,
    ensures
        is_chosen(keys, length, slot),
{
    let chosen = chosen_slots(keys, length, keys.len() as int);
    let order = order::ranked(keys);
    let first = order.take(length);
    order::lemma_ranked(keys);
    lemma_chosen(keys, length, keys.len() as int);
    if !is_chosen(keys, length, slot) {
        // Then all of the first rank before it, so that all have a score and are chosen.
        assert(order.contains(slot));
        let p = choose|p: int| 0 <= p < order.len() && order[p] == slot;
        if p < length {
            assert(first[p] == slot);
        }
        assert forall|x: int| first.to_set().contains(x) implies chosen.to_set().contains(x) by {
            let i = choose|i: int| 0 <= i < first.len() && first[i] == x;
            assert(order::ranks(keys, order[i], order[p]));
            assert(order.contains(order[i]));
            assert(is_chosen(keys, length, x));
            assert(chosen.contains(x));
        }
        assert(first.no_duplicates());
        first.unique_seq_to_set();
        assert(chosen.no_duplicates());
        chosen.unique_seq_to_set();
        vstd::set_lib::lemma_len_subset(first.to_set(), chosen.to_set());
    }
}

/// A compression keeps the most telling frames of every speaker, speaker after speaker
/// and in their order for each, with the slots of silence; what is missing to the length
/// is silence, behind. It chooses from the frames and the slots of silence of each of the
/// speakers. `slots` are those that it keeps: in their order, none without a score, none
/// with a lower score than one that it does not keep, of equal scores the earlier, and all
/// that have one where there is room.
pub proof fn a_compression_keeps_the_most_telling_frames(
    scores: Seq<u32>,
    n: int,
    frames: int,
    silence: int,
    length: int,
) -> (slots: Seq<int>)
    requires
        0 <= frames,
        0 <= silence,
        0 < frames + silence,
        0 <= length <= n * (frames + silence),
    ensures
        ({
            let each = frames + silence;
            let key = |slot: int|
                if slot % each < frames {
                    scores::order_key(scores[(slot % each) * n + slot / each])
                } else {
                    0x7f80_0000i32
                };
            &&& slots.len() <= length
            &&& forall|i: int|
                0 <= i < slots.len() ==> 0 <= #[trigger] slots[i] < n * each && key(slots[i])
                    != -0x7f80_0001
            &&& forall|i: int, j: int|
                0 <= i < j < slots.len() ==> #[trigger] slots[i] < #[trigger] slots[j]
            &&& forall|i: int, other: int|
                0 <= i < slots.len() && 0 <= other < n * each && !#[trigger] slots.contains(other)
                    && key(other) != -0x7f80_0001 ==> key(#[trigger] slots[i]) > key(other) || (key(
                    slots[i],
                ) == key(other) && slots[i] < other)
            &&& slots.len() < length ==> forall|other: int|
                0 <= other < n * each && key(other) > -0x7f80_0001 ==> #[trigger] slots.contains(
                    other,
                )
        }),
        kept_frames(scores, n, frames, silence, length).len() == length,
        forall|i: int|
            0 <= i < length ==> #[trigger] kept_frames(scores, n, frames, silence, length)[i]
                == if i < slots.len() {
                vstd::math::min(slots[i] % (frames + silence), frames)
            } else {
                frames
            },
{
    let keys = slot_keys(scores, n, frames, silence);
    let each = frames + silence;
    let slots = chosen_slots(keys, length, keys.len() as int);
    let kept = kept_frames(scores, n, frames, silence, length);
    assert(keys.len() == n * each);
    lemma_kept_frames(scores, n, frames, silence, length);
    lemma_chosen(keys, length, keys.len() as int);
    lemma_chosen_count(keys, length, keys.len() as int);
    let key = |slot: int|
        if slot % each < frames {
            scores::order_key(scores[(slot % each) * n + slot / each])
        } else {
            0x7f80_0000i32
        };
    assert forall|slot: int| 0 <= slot < n * each implies keys[slot] == #[trigger] key(slot) by {
        lemma_slot_key(scores, n, frames, silence, slot);
    }
    assert forall|i: int, other: int|
        0 <= i < slots.len() && 0 <= other < n * each && !#[trigger] slots.contains(other) && key(
            other,
        ) != -0x7f80_0001 implies key(#[trigger] slots[i]) > key(other) || (key(slots[i]) == key(
        other,
    ) && slots[i] < other) by {
        assert(is_chosen(keys, length, slots[i]));
        assert(keys[other] == key(other));
        assert(keys[slots[i]] == key(slots[i]));
        chosen_slots_are_the_most_telling(keys, length, slots[i], other);
        assert(slots.contains(slots[i]));
    }
    if slots.len() < length {
        assert forall|other: int|
            0 <= other < n * each && key(other) > -0x7f80_0001 implies #[trigger] slots.contains(
            other,
        ) by {
            assert(keys[other] == key(other));
            lemma_room_for_all(keys, length, other);
        }
    }
    assert forall|i: int| 0 <= i < slots.len() implies 0 <= #[trigger] slots[i] < n * each && key(
        slots[i],
    ) != -0x7f80_0001 by {
        assert(is_chosen(keys, length, slots[i]));
        assert(keys[slots[i]] == key(slots[i]));
    }
    slots
}

/// A compressed speaker cache has the length asked for, and its frames are those that
/// the compression keeps, with their probabilities; silence has a frame of its own and
/// no speaker. The latest frames stay as they are.
pub proof fn a_compressed_cache_holds_what_was_kept<T>(
    memory: CacheView<T>,
    sizes: Sizes,
    silence: Seq<T>,
    zero: T,
    scores: Seq<u32>,
    i: int,
)
    requires
        memory.fits(sizes),
        silence.len() == sizes.hidden_size,
        0 < memory.cached + sizes.silence_frames_per_speaker,
        sizes.speaker_cache_length <= sizes.num_speakers * (memory.cached
            + sizes.silence_frames_per_speaker),
        0 <= i < sizes.speaker_cache_length,
    ensures
        ({
            let after = memory.compressed_by(sizes, silence, zero, scores);
            let h = sizes.hidden_size as int;
            let n = sizes.num_speakers as int;
            let frame = kept_frames(
                scores,
                n,
                memory.cached as int,
                sizes.silence_frames_per_speaker as int,
                sizes.speaker_cache_length as int,
            )[i];
            &&& after.cached == sizes.speaker_cache_length
            &&& after.compressed
            &&& after.waiting == memory.waiting
            &&& after.fifo == memory.fifo
            &&& 0 <= frame <= memory.cached
            &&& after.embeds.subrange(i * h, (i + 1) * h) == if frame < memory.cached {
                memory.embeds.subrange(frame * h, (frame + 1) * h)
            } else {
                silence
            }
            &&& after.probs.subrange(i * n, (i + 1) * n) == if frame < memory.cached {
                memory.probs.subrange(frame * n, (frame + 1) * n)
            } else {
                Seq::new(n as nat, |k: int| zero)
            }
        }),
{
    let n = sizes.num_speakers as int;
    let frames = kept_frames(
        scores,
        n,
        memory.cached as int,
        sizes.silence_frames_per_speaker as int,
        sizes.speaker_cache_length as int,
    );
    lemma_kept_frames(
        scores,
        n,
        memory.cached as int,
        sizes.silence_frames_per_speaker as int,
        sizes.speaker_cache_length as int,
    );
    lemma_gathered_row(
        memory.embeds,
        sizes.hidden_size as int,
        silence,
        memory.cached as int,
        frames,
        i,
    );
    lemma_gathered_row(
        memory.probs,
        n,
        Seq::new(n as nat, |k: int| zero),
        memory.cached as int,
        frames,
        i,
    );
}

} // verus!
