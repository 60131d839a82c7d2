//! A source of audio as it comes in: how loud it was lately, the last seconds of
//! it, and what of it goes into a recording.
use std::collections::VecDeque;

use vstd::prelude::*;

use crate::text;

verus! {

/// The samples of a second and channel, each of two bytes with the lower first.
pub const RATE: u32 = 48_000;

pub const CHANNELS: u32 = 2;

/// The bytes of a second.
pub const SECOND_BYTES: u64 = 192_000;

/// The bytes of a chunk, which lasts 20 milliseconds.
pub const CHUNK_BYTES: usize = 3_840;

/// How many peaks are kept: three seconds of them.
pub const HISTORY: usize = 150;

/// How many bytes are kept, a little more than live captions take at a time, so
/// that these are always there.
pub const RAW_WINDOW_BYTES: usize = 1_152_000;

/// How many chunks lie between two flushes of a recording, so that a crash loses
/// at most a second, and between two times that it is put on the disk itself.
pub const FLUSH_CHUNKS: u64 = 50;

pub const SYNC_CHUNKS: u64 = 1_500;

/// A sample, from its lower and its higher byte.
pub open spec fn sample(low: u8, high: u8) -> int {
    let bits = low + 256 * high;
    if bits < 32768 {
        bits
    } else {
        bits - 65536
    }
}

/// How loud a sample is.
pub open spec fn loudness(low: u8, high: u8) -> int {
    let value = sample(low, high);
    if value < 0 {
        -value
    } else {
        value
    }
}

pub open spec fn greater(a: int, b: int) -> int {
    if a < b {
        b
    } else {
        a
    }
}

/// The loudest of the first `count` samples of a chunk, 0 where there are none.
pub open spec fn chunk_peak(chunk: Seq<u8>, count: int) -> int
    decreases count,
{
    if count <= 0 {
        0
    } else {
        greater(
            chunk_peak(chunk, count - 1),
            loudness(chunk[2 * (count - 1)], chunk[2 * (count - 1) + 1]),
        )
    }
}

fn find_loudness(low: u8, high: u8) -> (r: u16)
    ensures
        r == loudness(low, high),
        r <= 32768,
{
    let bits: u32 = low as u32 + 256 * (high as u32);
    if bits < 32768 {
        bits as u16
    } else {
        (65536 - bits) as u16
    }
}

/// The loudest sample of a chunk, of the 32768 steps that a sample has on either
/// side of zero.
pub fn peak(chunk: &[u8]) -> (r: u16)
    ensures
        r == chunk_peak(chunk@, chunk@.len() as int / 2),
        r <= 32768,
        ({
            let size = |i: int|
                {
                    let bits = chunk@[2 * i] + 256 * chunk@[2 * i + 1];
                    if bits < 32768 {
                        bits
                    } else {
                        65536 - bits
                    }
                };
            &&& forall|i: int| 0 <= i < chunk@.len() as int / 2 ==> #[trigger] size(i) <= r
            &&& r == 0 || exists|i: int|
                0 <= i < chunk@.len() as int / 2 && #[trigger] size(i) == r
        }),
{
    proof {
        a_peak_is_the_loudest_sample(chunk@, chunk@.len() as int / 2);
    }
    let mut loudest: u16 = 0;
    let size = chunk.len();
    let count = size / 2;
    for i in 0..count
        invariant
            size == chunk@.len(),
            count == size / 2,
            loudest == chunk_peak(chunk@, i as int),
            loudest <= 32768,
    {
        let now = find_loudness(chunk[2 * i], chunk[2 * i + 1]);
        if loudest < now {
            loudest = now;
        }
    }
    loudest
}

/// The last `count` items of a list, or all where there are fewer.
pub open spec fn latest<A>(list: Seq<A>, count: int) -> Seq<A> {
    if count < list.len() {
        list.skip(list.len() - count)
    } else {
        list
    }
}

/// The loudest of some peaks, 0 where there are none.
pub open spec fn loudest_of(peaks: Seq<u16>) -> int
    decreases peaks.len(),
{
    if peaks.len() == 0 {
        0
    } else {
        greater(loudest_of(peaks.drop_last()), peaks.last() as int)
    }
}

/// What a [`Source`] holds.
#[verifier::ext_equal]
pub struct SourceView {
    pub levels: Seq<u16>,
    pub raw: Seq<u8>,
    pub paused: bool,
    pub recording: bool,
}

/// A source of audio as it comes in.
pub struct Source {
    levels: VecDeque<u16>,
    raw: VecDeque<u8>,
    paused: bool,
    recording: bool,
}

impl View for Source {
    type V = SourceView;

    closed spec fn view(&self) -> SourceView {
        SourceView {
            levels: self.levels@,
            raw: self.raw@,
            paused: self.paused,
            recording: self.recording,
        }
    }
}

/// What is to be done with a chunk.
#[derive(Clone, Copy, Debug, PartialEq, Eq, Structural)]
pub struct Todo {
    /// Write it to the recording.
    pub write: bool,
    /// Then flush the recording.
    pub flush: bool,
    /// Then put the recording on the disk itself.
    pub sync: bool,
}

impl SourceView {
    /// Whether there are as many peaks as are kept, and no more bytes.
    pub open spec fn fits(self) -> bool {
        self.levels.len() == HISTORY && self.raw.len() <= RAW_WINDOW_BYTES
    }

    /// The source after a chunk. Pausing stops neither the peaks nor the bytes.
    pub open spec fn after(self, chunk: Seq<u8>) -> SourceView {
        SourceView {
            levels: self.levels.drop_first().push(
                chunk_peak(chunk, chunk.len() as int / 2) as u16,
            ),
            raw: latest(self.raw + chunk, RAW_WINDOW_BYTES as int),
            ..self
        }
    }
}

fn drop_front(bytes: &mut VecDeque<u8>, count: usize)
    requires
        count <= old(bytes)@.len(),
    ensures
        final(bytes)@ == old(bytes)@.skip(count as int),
{
    let ghost before = bytes@;
    for i in 0..count
        invariant
            count <= before.len(),
            bytes@ == before.skip(i as int),
    {
        let _ = bytes.pop_front();
        proof {
            assert(bytes@ =~= before.skip(i + 1));
        }
    }
    proof {
        assert(before.skip(0) =~= before);
    }
}

impl Source {
    /// Whether there are as many peaks as are kept, and no more bytes.
    pub open spec fn wf(&self) -> bool {
        self@.fits()
    }

    /// A source that was silent so far and is not recorded.
    pub fn new() -> (r: Source)
        ensures
            r.wf(),
            r@ == (SourceView {
                levels: Seq::new(HISTORY as nat, |i: int| 0u16),
                raw: Seq::<u8>::empty(),
                paused: false,
                recording: false,
            }),
    {
        let mut levels: VecDeque<u16> = VecDeque::new();
        for i in 0..HISTORY
            invariant
                levels@ == Seq::new(i as nat, |k: int| 0u16),
        {
            levels.push_back(0);
            proof {
                assert(levels@ =~= Seq::new((i + 1) as nat, |k: int| 0u16));
            }
        }
        Source { levels, raw: VecDeque::new(), paused: false, recording: false }
    }

    /// Takes in a chunk, the `count`th of the stream.
    pub fn push(&mut self, chunk: &[u8], count: u64) -> (r: Todo)
        requires
            old(self).wf(),
        ensures
            final(self).wf(),
            final(self)@ == old(self)@.after(chunk@),
            r.write == (old(self)@.recording && !old(self)@.paused),
            r.flush == (r.write && count % FLUSH_CHUNKS == 0),
            r.sync == (r.write && count % SYNC_CHUNKS == 0),
            r.flush == (old(self)@.recording && !old(self)@.paused && count % 50 == 0),
            r.sync == (old(self)@.recording && !old(self)@.paused && count % 1_500 == 0),
    {
        let ghost view = self@;
        let _ = self.levels.pop_front();
        self.levels.push_back(peak(chunk));
        proof {
            assert(self.levels@ =~= view.after(chunk@).levels);
        }
        for i in 0..chunk.len()
            invariant
                self.raw@ == view.raw + chunk@.take(i as int),
                self.levels@ == view.after(chunk@).levels,
                self.paused == view.paused,
                self.recording == view.recording,
        {
            self.raw.push_back(chunk[i]);
            proof {
                assert(self.raw@ =~= view.raw + chunk@.take(i + 1));
            }
        }
        proof {
            assert(chunk@.take(chunk@.len() as int) =~= chunk@);
        }
        let length = self.raw.len();
        if length > RAW_WINDOW_BYTES {
            drop_front(&mut self.raw, length - RAW_WINDOW_BYTES);
        }
        let write = self.recording && !self.paused;
        Todo {
            write,
            flush: write && count % FLUSH_CHUNKS == 0,
            sync: write && count % SYNC_CHUNKS == 0,
        }
    }

    /// From now on the stream goes into a recording.
    pub fn start_recording(&mut self)
        ensures
            final(self)@ == (SourceView { recording: true, paused: false, ..old(self)@ }),
    {
        self.recording = true;
        self.paused = false;
    }

    /// While paused, nothing goes into the recording.
    pub fn set_paused(&mut self, paused: bool)
        ensures
            final(self)@ == (SourceView { paused, ..old(self)@ }),
    {
        self.paused = paused;
    }

    /// The stream goes into no recording any more. Tells whether it went into one,
    /// which is then to be flushed.
    pub fn stop_recording(&mut self) -> (r: bool)
        ensures
            final(self)@ == (SourceView { recording: false, ..old(self)@ }),
            r == old(self)@.recording,
    {
        let was = self.recording;
        self.recording = false;
        was
    }

    /// The peaks of the last chunks, the oldest first.
    pub fn levels(&self) -> (r: Vec<u16>)
        ensures
            r@ == self@.levels,
    {
        let mut out: Vec<u16> = Vec::new();
        for i in 0..self.levels.len()
            invariant
                out@ == self.levels@.take(i as int),
        {
            out.push(self.levels[i]);
        }
        out
    }

    /// The loudest of the last `n` peaks, so that a slower reader does not miss a
    /// short burst.
    pub fn recent_peak(&self, n: usize) -> (r: u16)
        ensures
            r == loudest_of(latest(self@.levels, n as int)),
            forall|i: int|
                self@.levels.len() - n <= i < self@.levels.len() && 0 <= i
                    ==> #[trigger] self@.levels[i] <= r,
            r == 0 || exists|i: int|
                self@.levels.len() - n <= i < self@.levels.len() && 0 <= i
                    && #[trigger] self@.levels[i] == r,
    {
        let length = self.levels.len();
        let start = if n < length {
            length - n
        } else {
            0
        };
        let ghost recent = latest(self.levels@, n as int);
        proof {
            assert(recent =~= self.levels@.skip(start as int));
        }
        let mut loudest: u16 = 0;
        for i in start..length
            invariant
                start <= length,
                length == self.levels@.len(),
                recent == self.levels@.skip(start as int),
                loudest == loudest_of(recent.take(i - start)),
        {
            proof {
                assert(recent.take(i + 1 - start).drop_last() =~= recent.take(i - start));
                assert(recent.take(i + 1 - start).last() == self.levels@[i as int]);
            }
            let now = self.levels[i];
            if loudest < now {
                loudest = now;
            }
        }
        proof {
            assert(recent.take(length - start) =~= recent);
            lemma_loudest_of(recent);
            assert forall|i: int|
                self@.levels.len() - n <= i < self@.levels.len() && 0
                    <= i implies #[trigger] self@.levels[i] <= loudest by {
                assert(self@.levels[i] == recent[i - start]);
            }
            if loudest != 0 {
                let k = choose|k: int|
                    0 <= k < recent.len() && #[trigger] recent[k] == loudest_of(recent);
                assert(self@.levels[start + k] == loudest);
            }
        }
        loudest
    }

    /// The last `secs` seconds of bytes, the oldest first, or as much as there is.
    pub fn recent_raw(&self, secs: u32) -> (r: Vec<u8>)
        ensures
            r@ == latest(self@.raw, SECOND_BYTES * secs),
            r@.len() == vstd::math::min(192_000 * secs, self@.raw.len() as int),
            r@.is_suffix_of(self@.raw),
    {
        let want: u64 = SECOND_BYTES * (secs as u64);
        let length = self.raw.len();
        let start = if want < length as u64 {
            length - want as usize
        } else {
            0
        };
        let mut out: Vec<u8> = Vec::new();
        for i in start..length
            invariant
                start <= length,
                length == self.raw@.len(),
                out@ == self.raw@.subrange(start as int, i as int),
        {
            out.push(self.raw[i]);
            proof {
                assert(out@ =~= self.raw@.subrange(start as int, i + 1));
            }
        }
        proof {
            assert(out@ =~= latest(self.raw@, SECOND_BYTES * secs));
            assert(self.raw@.subrange(self.raw@.len() - out@.len(), self.raw@.len() as int)
                =~= out@);
        }
        out
    }
}

/// The arguments of the program that captures a device.
pub open spec fn capture_arguments(device: Seq<char>) -> Seq<Seq<char>> {
    seq![
        "--raw"@,
        "--format=s16le"@,
        "--rate=48000"@,
        "--channels=2"@,
        "--latency-msec=20"@,
        "-d"@,
        device,
    ]
}

/// The arguments of the program that captures `device`, a source name of
/// PulseAudio.
pub fn capture(device: &str) -> (r: Vec<String>)
    ensures
        text::texts(r@) == capture_arguments(device@),
{
    let mut out: Vec<String> = Vec::new();
    out.push("--raw".to_owned());
    out.push("--format=s16le".to_owned());
    out.push("--rate=48000".to_owned());
    out.push("--channels=2".to_owned());
    out.push("--latency-msec=20".to_owned());
    out.push("-d".to_owned());
    out.push(device.to_owned());
    proof {
        assert(text::texts(out@) =~= capture_arguments(device@));
    }
    out
}

/// A source after some chunks.
pub open spec fn after_chunks(source: SourceView, chunks: Seq<Seq<u8>>) -> SourceView
    decreases chunks.len(),
{
    if chunks.len() == 0 {
        source
    } else {
        after_chunks(source, chunks.drop_last()).after(chunks.last())
    }
}

/// All bytes of some chunks.
pub open spec fn chunk_bytes(chunks: Seq<Seq<u8>>) -> Seq<u8>
    decreases chunks.len(),
{
    if chunks.len() == 0 {
        Seq::empty()
    } else {
        chunk_bytes(chunks.drop_last()) + chunks.last()
    }
}

/// The bytes that a source holds are always the last of all that came in, whether
/// it was paused or not, and the peaks are as many as ever.
pub proof fn a_source_holds_the_last_of_the_stream(source: SourceView, chunks: Seq<Seq<u8>>)
    requires
        source.fits(),
    ensures
        after_chunks(source, chunks).fits(),
        after_chunks(source, chunks).raw == latest(
            source.raw + chunk_bytes(chunks),
            RAW_WINDOW_BYTES as int,
        ),
        after_chunks(source, chunks).paused == source.paused,
        after_chunks(source, chunks).recording == source.recording,
    decreases chunks.len(),
{
    if chunks.len() == 0 {
        assert(source.raw + chunk_bytes(chunks) =~= source.raw);
    } else {
        let before = after_chunks(source, chunks.drop_last());
        a_source_holds_the_last_of_the_stream(source, chunks.drop_last());
        let limit = RAW_WINDOW_BYTES as int;
        let all = source.raw + chunk_bytes(chunks.drop_last());
        assert(source.raw + chunk_bytes(chunks) =~= all + chunks.last());
        assert(latest(latest(all, limit) + chunks.last(), limit) =~= latest(
            all + chunks.last(),
            limit,
        ));
    }
}

/// As soon as enough came in, the last seconds are exactly as long as asked for, up
/// to the six that are kept.
pub proof fn recent_seconds_are_whole(source: SourceView, secs: int)
    requires
        source.fits(),
        0 <= secs,
        SECOND_BYTES * secs <= source.raw.len(),
    ensures
        latest(source.raw, SECOND_BYTES * secs).len() == SECOND_BYTES * secs,
        secs <= 6,
{
}

/// The peak of a chunk is how far its samples are from zero at most: none is further, and
/// where it is not zero one is as far. A sample is a signed number of sixteen bits, the
/// lower eight first.
pub proof fn a_peak_is_the_loudest_sample(chunk: Seq<u8>, count: int)
    requires
        0 <= count,
        2 * count <= chunk.len(),
    ensures
        ({
            let peak = chunk_peak(chunk, count);
            let size = |i: int|
                {
                    let bits = chunk[2 * i] + 256 * chunk[2 * i + 1];
                    if bits < 32768 {
                        bits
                    } else {
                        65536 - bits
                    }
                };
            &&& 0 <= peak <= 32768
            &&& forall|i: int| 0 <= i < count ==> #[trigger] size(i) <= peak
            &&& peak == 0 || exists|i: int| 0 <= i < count && #[trigger] size(i) == peak
        }),
    decreases count,
{
    let size = |i: int|
        {
            let bits = chunk[2 * i] + 256 * chunk[2 * i + 1];
            if bits < 32768 {
                bits
            } else {
                65536 - bits
            }
        };
    if count > 0 {
        a_peak_is_the_loudest_sample(chunk, count - 1);
        let before = chunk_peak(chunk, count - 1);
        let peak = chunk_peak(chunk, count);
        assert(size(count - 1) == loudness(chunk[2 * (count - 1)], chunk[2 * (count - 1) + 1]));
        if peak != before {
            assert(size(count - 1) == peak);
        } else if peak != 0 {
            let i = choose|i: int| 0 <= i < count - 1 && #[trigger] size(i) == before;
            assert(size(i) == peak);
        }
    }
}

proof fn lemma_loudest_of(peaks: Seq<u16>)
    ensures
        0 <= loudest_of(peaks) <= u16::MAX,
        forall|i: int| 0 <= i < peaks.len() ==> #[trigger] peaks[i] <= loudest_of(peaks),
        loudest_of(peaks) == 0 || exists|i: int|
            0 <= i < peaks.len() && #[trigger] peaks[i] == loudest_of(peaks),
    decreases peaks.len(),
{
    if peaks.len() > 0 {
        let less = peaks.drop_last();
        lemma_loudest_of(less);
        assert forall|i: int| 0 <= i < peaks.len() implies #[trigger] peaks[i] <= loudest_of(
            peaks,
        ) by {
            if i < less.len() {
                assert(less[i] == peaks[i]);
            }
        }
        if loudest_of(peaks) != 0 {
            if loudest_of(peaks) == loudest_of(less) {
                let i = choose|i: int| 0 <= i < less.len() && #[trigger] less[i] == loudest_of(less);
                assert(peaks[i] == loudest_of(peaks));
            } else {
                assert(peaks[peaks.len() - 1] == loudest_of(peaks));
            }
        }
    }
}

/// A source keeps the peak of every chunk for as many chunks as it keeps peaks, and of the
/// bytes the last six seconds; neither depends on whether it is recorded or paused.
pub proof fn a_chunk_comes_last(source: SourceView, chunk: Seq<u8>)
    requires
        source.fits(),
    ensures
        ({
            let after = source.after(chunk);
            let all = source.raw + chunk;
            &&& after.levels.len() == 150
            &&& forall|i: int| 0 <= i < 149 ==> #[trigger] after.levels[i] == source.levels[i + 1]
            &&& after.levels[149] == chunk_peak(chunk, chunk.len() as int / 2)
            &&& after.raw.len() == vstd::math::min(all.len() as int, 1_152_000)
            &&& after.raw.is_suffix_of(all)
            &&& after.recording == source.recording
            &&& after.paused == source.paused
        }),
{
    let all = source.raw + chunk;
    let after = source.after(chunk);
    a_peak_is_the_loudest_sample(chunk, chunk.len() as int / 2);
    assert(all.subrange(all.len() - after.raw.len(), all.len() as int) =~= after.raw);
}

/// The program that captures a device gives raw samples of sixteen bits, the lower byte
/// first, 48000 a second for each of two channels, in chunks of a fiftieth of a second.
pub proof fn a_device_is_captured_raw(device: Seq<char>)
    ensures
        capture_arguments(device) == seq![
            "--raw"@,
            "--format=s16le"@,
            "--rate=48000"@,
            "--channels=2"@,
            "--latency-msec=20"@,
            "-d"@,
            device,
        ],
        RATE == 48_000,
        CHANNELS == 2,
        CHUNK_BYTES * 50 == 48_000 * 2 * 2,
        SECOND_BYTES == 48_000 * 2 * 2,
{
}

} // verus!
