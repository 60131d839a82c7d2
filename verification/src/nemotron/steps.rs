//! The steps of the speaker model over a recording: chunk after chunk, each with
//! some frames ahead of it and the memory of the frames before.
use vstd::prelude::*;

use crate::nemotron::cache;
use crate::nemotron::cache::{Cache, CacheView, Sizes};

verus! {

/// The end of the chunk that starts at `start`.
pub open spec fn chunk_end(sizes: Sizes, start: int, frames: int) -> int {
    if start + sizes.chunk_length < frames {
        start + sizes.chunk_length
    } else {
        frames
    }
}

/// The end of what the model sees of the frames after a chunk.
pub open spec fn context_end(sizes: Sizes, end: int, frames: int) -> int {
    if end + sizes.chunk_right_context < frames {
        end + sizes.chunk_right_context
    } else {
        frames
    }
}

/// The outputs of a step, from one frame to before another: for each frame
/// `subsampling_factor` rows of `num_speakers`.
pub open spec fn outputs<T>(sizes: Sizes, list: Seq<T>, start: int, end: int) -> Seq<T> {
    cache::rows(list, sizes.subsampling_factor * sizes.num_speakers, start, end)
}

/// The steps were stopped before the end.
#[derive(Debug, PartialEq)]
pub struct Cancelled;

/// How far the steps are.
#[verifier::ext_equal]
pub struct StepsView<T> {
    pub memory: CacheView<T>,
    /// The outputs for the frames so far.
    pub logits: Seq<T>,
    /// How many frames are done.
    pub done: nat,
}

/// The steps of the speaker model over a recording.
pub struct Steps<T> {
    embeds: Vec<T>,
    frames: usize,
    memory: Cache<T>,
    logits: Vec<T>,
    done: usize,
}

impl<T: Copy> View for Steps<T> {
    type V = StepsView<T>;

    closed spec fn view(&self) -> StepsView<T> {
        StepsView { memory: self.memory@, logits: self.logits@, done: self.done as nat }
    }
}

impl<T: Copy> Steps<T> {
    pub closed spec fn sizes(&self) -> Sizes {
        self.memory.sizes()
    }

    pub closed spec fn silence(&self) -> Seq<T> {
        self.memory.silence()
    }

    pub closed spec fn zero(&self) -> T {
        self.memory.zero()
    }

    /// The frames of the recording.
    pub closed spec fn embeds(&self) -> Seq<T> {
        self.embeds@
    }

    /// How many frames the recording has.
    pub open spec fn frames(&self) -> int {
        self.embeds().len() as int / self.sizes().hidden_size as int
    }

    /// Whether the memory is well-formed and there are outputs for every frame that
    /// is done.
    pub closed spec fn wf(&self) -> bool {
        &&& self.memory.wf()
        &&& self.sizes().chunk_length > 0
        &&& self.frames == self.frames()
        &&& self.done <= self.frames
        &&& self.logits@.len() == self.done * (self.sizes().subsampling_factor
            * self.sizes().num_speakers)
    }

    /// The end of the present chunk.
    pub open spec fn end(&self) -> int {
        chunk_end(self.sizes(), self@.done as int, self.frames())
    }

    /// How many frames of the memory come before the present chunk.
    pub open spec fn remembered(&self) -> int {
        (self@.memory.cached + self@.memory.waiting) as int
    }

    /// What goes into the present step: the memory, the chunk and what is seen of
    /// the frames after it.
    pub open spec fn step_input(&self) -> Seq<T> {
        self@.memory.remembered() + cache::rows(
            self.embeds(),
            self.sizes().hidden_size as int,
            self@.done as int,
            context_end(self.sizes(), self.end(), self.frames()),
        )
    }

    /// The steps over a recording of the frames `embeds`. `silence` is a frame of
    /// silence, and `zero` the probability that a speaker is heard in it.
    pub fn new(sizes: Sizes, embeds: Vec<T>, silence: Vec<T>, zero: T) -> (r: Steps<T>)
        requires
            sizes.hidden_size > 0,
            sizes.num_speakers > 0,
            sizes.chunk_length > 0,
            silence@.len() == sizes.hidden_size,
        ensures
            r.wf(),
            r.sizes() == sizes,
            r.silence() == silence@,
            r.zero() == zero,
            r.embeds() == embeds@,
            r@ == (StepsView {
                memory: CacheView {
                    cached: 0,
                    embeds: Seq::<T>::empty(),
                    probs: Seq::<T>::empty(),
                    waiting: 0,
                    fifo: Seq::<T>::empty(),
                    compressed: false,
                },
                logits: Seq::<T>::empty(),
                done: 0,
            }),
    {
        let frames = embeds.len() / sizes.hidden_size;
        Steps {
            embeds,
            frames,
            memory: Cache::new(sizes, silence, zero),
            logits: Vec::new(),
            done: 0,
        }
    }

    /// How many frames are done, and how many there are.
    pub fn progress(&self) -> (r: (usize, usize))
        requires
            self.wf(),
        ensures
            r.0 == self@.done,
            r.1 == self.frames(),
            r.0 <= r.1,
    {
        (self.done, self.frames)
    }

    fn find_end(&self) -> (r: usize)
        requires
            self.wf(),
        ensures
            r == self.end(),
            self.done <= r <= self.frames,
            self.done < self.frames ==> self.done < r,
    {
        let sizes = self.memory.get_sizes();
        if sizes.chunk_length < self.frames - self.done {
            self.done + sizes.chunk_length
        } else {
            self.frames
        }
    }

    /// What goes into the next step, if there is one.
    pub fn input(&self) -> (r: Option<Vec<T>>)
        requires
            self.wf(),
        ensures
            match r {
                Some(input) => self@.done < self.frames() && input@ == self.step_input(),
                None => self@.done == self.frames(),
            },
            r is Some <==> self@.done < self.embeds().len() as int
                / self.sizes().hidden_size as int,
            r matches Some(input) ==> ({
                let h = self.sizes().hidden_size as int;
                let frames = self.embeds().len() as int / h;
                let end = vstd::math::min(self@.done + self.sizes().chunk_length, frames);
                let seen = vstd::math::min(end + self.sizes().chunk_right_context, frames);
                input@ == self@.memory.embeds + self@.memory.fifo + self.embeds().subrange(
                    self@.done * h,
                    seen * h,
                )
            }),
    {
        if self.done == self.frames {
            return None;
        }
        let sizes = self.memory.get_sizes();
        let h = sizes.hidden_size;
        let end = self.find_end();
        let ahead = if sizes.chunk_right_context < self.frames - end {
            end + sizes.chunk_right_context
        } else {
            self.frames
        };
        let size = self.embeds.len();
        proof {
            cache::lemma_rows(h as int, self.done as int, ahead as int);
            cache::lemma_rows(h as int, ahead as int, self.frames as int);
            vstd::arithmetic::div_mod::lemma_fundamental_div_mod(size as int, h as int);
            vstd::arithmetic::mul::lemma_mul_is_commutative(h as int, self.frames as int);
        }
        let mut input = self.memory.embeds();
        cache::append(&mut input, self.embeds.as_slice(), self.done * h, ahead * h);
        Some(input)
    }

    /// What goes into the next step, if there is one. Where there is and it was asked
    /// to stop, the steps are cancelled.
    pub fn next(&self, aborted: bool) -> (r: Result<Option<Vec<T>>, Cancelled>)
        requires
            self.wf(),
        ensures
            match r {
                Ok(Some(input)) => !aborted && self@.done < self.frames() && input@
                    == self.step_input(),
                Ok(None) => self@.done == self.frames(),
                Err(_) => aborted && self@.done < self.frames(),
            },
            r is Err <==> aborted && self@.done < self.embeds().len() as int
                / self.sizes().hidden_size as int,
            r matches Ok(Some(input)) ==> ({
                let h = self.sizes().hidden_size as int;
                let frames = self.embeds().len() as int / h;
                let end = vstd::math::min(self@.done + self.sizes().chunk_length, frames);
                let seen = vstd::math::min(end + self.sizes().chunk_right_context, frames);
                input@ == self@.memory.embeds + self@.memory.fifo + self.embeds().subrange(
                    self@.done * h,
                    seen * h,
                )
            }),
    {
        if aborted && self.done < self.frames {
            return Err(Cancelled);
        }
        Ok(self.input())
    }

    /// How many frames of `input`, which goes into the present step, the model has to
    /// tell of: all but those after the chunk.
    pub fn told_frames(&self, input: &[T]) -> (r: usize)
        requires
            self.wf(),
            self@.done < self.frames(),
            input@ == self.step_input(),
        ensures
            r == self.remembered() + self.end() - self@.done,
            r == self@.memory.cached + self@.memory.waiting + vstd::math::min(
                self.sizes().chunk_length as int,
                self.embeds().len() as int / self.sizes().hidden_size as int - self@.done,
            ),
    {
        let end = self.find_end();
        let size = input.len();
        proof {
            let sizes = self.sizes();
            lemma_input(*self, end as int, context_end(sizes, end as int, self.frames as int));
            cache::lemma_rows(
                sizes.hidden_size as int,
                self.remembered(),
                self.remembered() + end - self.done,
            );
            assert(self.remembered() + end - self.done <= size);
        }
        self.memory.cached() + self.memory.waiting() + (end - self.done)
    }

    /// Takes in what a step on `input` came to: `logits` are its outputs, and
    /// `probs` the probabilities of the speakers in the frames of `input`. Tells
    /// whether the speaker cache is to be compressed.
    pub fn take(&mut self, input: &[T], logits: &[T], probs: &[T]) -> (r: bool)
        requires
            old(self).wf(),
            old(self)@.done < old(self).frames(),
            input@ == old(self).step_input(),
            (old(self).remembered() + old(self).end() - old(self)@.done) * (old(
                self,
            ).sizes().subsampling_factor * old(self).sizes().num_speakers) <= logits@.len(),
            cache::moved_frames(
                old(self).sizes(),
                old(self)@.memory.waiting + old(self).end() - old(self)@.done,
            ) > 0 ==> (old(self).remembered() + old(self).end() - old(self)@.done) * old(
                self,
            ).sizes().num_speakers <= probs@.len(),
        ensures
            final(self).wf(),
            final(self).sizes() == old(self).sizes(),
            final(self).silence() == old(self).silence(),
            final(self).zero() == old(self).zero(),
            final(self).embeds() == old(self).embeds(),
            final(self)@ == (StepsView {
                memory: old(self)@.memory.pushed(
                    old(self).sizes(),
                    input@,
                    probs@,
                    old(self).end() - old(self)@.done,
                ),
                logits: old(self)@.logits + outputs(
                    old(self).sizes(),
                    logits@,
                    old(self).remembered(),
                    old(self).remembered() + old(self).end() - old(self)@.done,
                ),
                done: old(self).end() as nat,
            }),
            final(self)@.done == vstd::math::min(
                old(self)@.done + old(self).sizes().chunk_length,
                old(self).embeds().len() as int / old(self).sizes().hidden_size as int,
            ),
            ({
                let width = old(self).sizes().subsampling_factor
                    * old(self).sizes().num_speakers;
                let before = old(self)@.memory.cached + old(self)@.memory.waiting;
                final(self)@.logits == old(self)@.logits + logits@.subrange(
                    before * width,
                    (before + final(self)@.done - old(self)@.done) * width,
                )
            }),
            r == (cache::moved_frames(
                old(self).sizes(),
                old(self)@.memory.waiting + old(self).end() - old(self)@.done,
            ) > 0 && final(self)@.memory.cached > old(self).sizes().speaker_cache_length),
    {
        let sizes = self.memory.get_sizes();
        let h = sizes.hidden_size;
        let end = self.find_end();
        let chunk = end - self.done;
        let size = input.len();
        let room = logits.len();
        let ghost width = sizes.subsampling_factor * sizes.num_speakers;
        let ghost before = self.remembered();
        proof {
            let ahead = context_end(sizes, end as int, self.frames as int);
            lemma_input(*self, end as int, ahead);
            assert((before + chunk) * h <= size);
            cache::lemma_rows(h as int, before, before + chunk);
            assert(0 <= width) by (nonlinear_arith)
                requires
                    width == sizes.subsampling_factor * sizes.num_speakers,
            ;
            cache::lemma_rows(width, before, before + chunk);
            cache::lemma_rows(width, self.done as int, end as int);
        }
        let total = self.memory.cached() + self.memory.waiting() + chunk;
        let from = total - chunk;
        let factor = sizes.subsampling_factor;
        let n = sizes.num_speakers;
        proof {
            lemma_product(total as int, factor as int, n as int, room as int);
            lemma_product(from as int, factor as int, n as int, room as int);
        }
        cache::append(&mut self.logits, logits, from * factor * n, total * factor * n);
        self.done = end;
        self.memory.update(input, probs, chunk)
    }

    /// How many frames the speaker cache holds.
    pub fn cached(&self) -> (r: usize)
        ensures
            r == self@.memory.cached,
    {
        self.memory.cached()
    }

    /// The probabilities of the speakers in the frames of the speaker cache.
    pub fn probabilities(&self) -> (r: &Vec<T>)
        ensures
            r@ == self@.memory.probs,
    {
        self.memory.probabilities()
    }

    /// Compresses the speaker cache to its length by the scores of its frames.
    pub fn compress(&mut self, scores: &Vec<u32>)
        requires
            old(self).wf(),
            scores@.len() == old(self)@.memory.cached * old(self).sizes().num_speakers,
            0 < old(self)@.memory.cached + old(self).sizes().silence_frames_per_speaker
                <= usize::MAX,
            old(self).sizes().speaker_cache_length <= old(self).sizes().num_speakers * (old(
                self,
            )@.memory.cached + old(self).sizes().silence_frames_per_speaker) <= usize::MAX,
        ensures
            final(self).wf(),
            final(self).sizes() == old(self).sizes(),
            final(self).silence() == old(self).silence(),
            final(self).zero() == old(self).zero(),
            final(self).embeds() == old(self).embeds(),
            final(self)@ == (StepsView {
                memory: old(self)@.memory.compressed_by(
                    old(self).sizes(),
                    old(self).silence(),
                    old(self).zero(),
                    scores@,
                ),
                ..old(self)@
            }),
    {
        self.memory.compress(scores);
    }

    /// The outputs for all frames, once every step is done: for each frame
    /// `subsampling_factor` rows of `num_speakers`.
    pub fn finish(self) -> (r: Vec<T>)
        requires
            self.wf(),
            self@.done == self.frames(),
        ensures
            r@ == self@.logits,
            r@.len() == self.frames() * (self.sizes().subsampling_factor
                * self.sizes().num_speakers),
    {
        self.logits
    }
}

proof fn lemma_product(a: int, b: int, c: int, limit: int)
    requires
        0 <= a,
        0 <= b,
        0 < c,
        a * (b * c) <= limit,
    ensures
        a * b * c == a * (b * c),
        0 <= a * b <= limit,
{
    assert(a * b * c == a * (b * c) && 0 <= a * b <= a * b * c) by (nonlinear_arith)
        requires
            0 <= a,
            0 <= b,
            0 < c,
    ;
}

/// The memory and the chunk are within what goes into a step.
proof fn lemma_input<T: Copy>(steps: Steps<T>, end: int, ahead: int)
    requires
        steps.wf(),
        end == steps.end(),
        ahead == context_end(steps.sizes(), end, steps.frames()),
        steps@.done < steps.frames(),
    ensures
        (steps.remembered() + end - steps@.done) * steps.sizes().hidden_size
            <= steps.step_input().len(),
{
    let h = steps.sizes().hidden_size as int;
    let size = steps.embeds().len() as int;
    let done = steps@.done as int;
    let before = steps.remembered();
    cache::lemma_rows(h, done, ahead);
    cache::lemma_rows(h, ahead, steps.frames());
    cache::lemma_rows(h, end, ahead);
    vstd::arithmetic::div_mod::lemma_fundamental_div_mod(size, h);
    vstd::arithmetic::mul::lemma_mul_is_commutative(h, steps.frames());
    assert((before + end - done) * h == before * h + (end * h - done * h) && before * h
        == steps@.memory.cached * h + steps@.memory.waiting * h) by (nonlinear_arith)
        requires
            before == steps@.memory.cached + steps@.memory.waiting,
    ;
}

/// Every step gets further, to the end of its chunk and no further than the end of
/// the recording.
pub proof fn the_steps_reach_the_end(sizes: Sizes, done: int, frames: int)
    requires
        sizes.chunk_length > 0,
        0 <= done < frames,
    ensures
        done < chunk_end(sizes, done, frames) <= frames,
        chunk_end(sizes, done, frames) - done <= sizes.chunk_length,
        chunk_end(sizes, done, frames) <= context_end(
            sizes,
            chunk_end(sizes, done, frames),
            frames,
        ) <= frames,
{
}

/// What goes into a step is what is remembered, and then the frames from the first one
/// that is not done to the end of the chunk, and behind it as many as the model sees
/// ahead, or as there are.
pub proof fn a_step_sees_its_chunk_and_what_comes_after<T: Copy>(steps: Steps<T>)
    requires
        steps.wf(),
        steps@.done < steps.frames(),
    ensures
        ({
            let h = steps.sizes().hidden_size as int;
            let frames = steps.embeds().len() as int / h;
            let done = steps@.done as int;
            let input = steps.step_input();
            let chunk = vstd::math::min(steps.sizes().chunk_length as int, frames - done);
            let ahead = vstd::math::min(steps.sizes().chunk_right_context as int, frames - done - chunk);
            let memory = steps@.memory.embeds + steps@.memory.fifo;
            &&& input.len() == memory.len() + (chunk + ahead) * h
            &&& memory.is_prefix_of(input)
            &&& forall|i: int|
                0 <= i < (chunk + ahead) * h ==> #[trigger] input[memory.len() + i]
                    == steps.embeds()[done * h + i]
        }),
{
    let h = steps.sizes().hidden_size as int;
    let size = steps.embeds().len() as int;
    let frames = size / h;
    let done = steps@.done as int;
    let end = steps.end();
    let seen = context_end(steps.sizes(), end, frames);
    let memory = steps@.memory.embeds + steps@.memory.fifo;
    let input = steps.step_input();
    cache::lemma_rows(h, done, seen);
    cache::lemma_rows(h, seen, frames);
    vstd::arithmetic::div_mod::lemma_fundamental_div_mod(size, h);
    vstd::arithmetic::mul::lemma_mul_is_commutative(h, frames);
    assert(input.subrange(0, memory.len() as int) =~= memory);
}

} // verus!
