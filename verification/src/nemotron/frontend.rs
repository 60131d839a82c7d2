//! Which samples of a recording are in a frame of its spectrum, and which frames
//! go into a call of the frontend.
use vstd::prelude::*;

verus! {

/// The samples between two frames.
pub const HOP: usize = 160;

/// The samples of a frame, with those that the window leaves out.
pub const N_FFT: usize = 512;

/// The samples that the window leaves in.
pub const WIN: usize = 400;

/// The frequencies of a frame.
pub const BINS: usize = 257;

/// The frames that the frontend stacks into one.
pub const STACK: usize = 8;

/// The frames of a call of the frontend at most, so that the spectrum of a long
/// recording is never in memory all at once.
pub const FRONTEND_BLOCK: usize = 32768;

/// How many frames the spectrum of `samples` samples has.
pub open spec fn frame_count(samples: int) -> int {
    1 + samples / HOP as int
}

/// How many frames the spectrum of `samples` samples has.
pub fn spectrum_frames(samples: usize) -> (r: usize)
    ensures
        r == frame_count(samples as int),
{
    1 + samples / HOP
}

/// The sample that stands at place `i` of a frame, if there is one: half a frame
/// of padding comes before the first sample, and padding follows the last.
pub open spec fn sample_of(samples: int, frame: int, i: int) -> Option<int> {
    let place = frame * HOP + i - N_FFT as int / 2;
    if 0 <= place < samples {
        Some(place)
    } else {
        None
    }
}

/// The sample that stands at place `i` of a frame of `samples` samples, if there
/// is one.
pub fn sample_place(samples: usize, frame: usize, i: usize) -> (r: Option<usize>)
    requires
        frame < frame_count(samples as int),
        i < N_FFT,
    ensures
        match r {
            Some(place) => sample_of(samples as int, frame as int, i as int) == Some(place as int),
            None => sample_of(samples as int, frame as int, i as int) is None,
        },
{
    let start = frame * HOP;
    let place = if i >= 256 {
        let ahead = i - 256;
        if ahead > usize::MAX - start {
            return None;
        }
        start + ahead
    } else {
        let back = 256 - i;
        if back > start {
            return None;
        }
        start - back
    };
    if place < samples {
        Some(place)
    } else {
        None
    }
}

/// Where the window, which is centred in a frame, weighs place `i` of it, if it
/// leaves it in.
pub open spec fn window_of(i: int) -> Option<int> {
    let place = i - (N_FFT - WIN) / 2;
    if 0 <= place < WIN {
        Some(place)
    } else {
        None
    }
}

/// Where the window weighs place `i` of a frame, if it leaves it in.
pub fn window_place(i: usize) -> (r: Option<usize>)
    ensures
        match r {
            Some(place) => window_of(i as int) == Some(place as int),
            None => window_of(i as int) is None,
        },
{
    let offset = (N_FFT - WIN) / 2;
    if i < offset || i >= offset + WIN {
        None
    } else {
        Some(i - offset)
    }
}

/// The frames of a call of the frontend.
#[derive(Clone, Copy, Debug, PartialEq, Eq, Structural)]
pub struct Block {
    pub start: usize,
    pub end: usize,
    /// The frames with those that fill up the last stack.
    pub rows: usize,
    /// How many of the rows are frames that samples fill.
    pub valid: usize,
}

/// The end of the block of frames that starts at `start`.
pub open spec fn block_end(frames: int, start: int) -> int {
    if start + FRONTEND_BLOCK < frames {
        start + FRONTEND_BLOCK
    } else {
        frames
    }
}

/// `frames` with those that fill up the last stack.
pub open spec fn stacked(frames: int) -> int {
    (frames + STACK - 1) / (STACK as int) * STACK
}

/// How many of `rows` rows from `start` on are frames that samples fill.
pub open spec fn valid_rows(samples: int, start: int, rows: int) -> int {
    let left = samples / HOP as int - start;
    if left < 0 {
        0
    } else if left < rows {
        left
    } else {
        rows
    }
}

/// The block of frames that starts at `start`, if there are frames left.
pub fn next_block(samples: usize, start: usize) -> (r: Option<Block>)
    ensures
        r is None <==> start >= frame_count(samples as int),
        r matches Some(block) ==> {
            &&& block.start == start
            &&& block.end == block_end(frame_count(samples as int), start as int)
            &&& block.rows == stacked(block.end - block.start)
            &&& block.valid == valid_rows(samples as int, start as int, block.rows as int)
        },
{
    let frames = spectrum_frames(samples);
    if start >= frames {
        return None;
    }
    let end = if FRONTEND_BLOCK < frames - start {
        start + FRONTEND_BLOCK
    } else {
        frames
    };
    let rows = (end - start + 7) / 8 * 8;
    let full = samples / HOP;
    let left = if full > start {
        full - start
    } else {
        0
    };
    let valid = if left < rows {
        left
    } else {
        rows
    };
    Some(Block { start, end, rows, valid })
}

/// The blocks take up every frame once, each at most as many as a call takes, in
/// whole stacks.
pub proof fn blocks_cover_the_frames(samples: int, start: int)
    requires
        0 <= samples,
        0 <= start < frame_count(samples),
    ensures
        ({
            let frames = frame_count(samples);
            let end = block_end(frames, start);
            &&& start < end <= frames
            &&& end - start <= FRONTEND_BLOCK
            &&& stacked(end - start) % STACK as int == 0
            &&& end - start <= stacked(end - start) < end - start + STACK
        }),
{
}

/// How many of `available` outputs there are for the frames of `samples` samples,
/// with one for each of `n` speakers.
pub fn kept_outputs(samples: usize, n: usize, available: usize) -> (r: usize)
    ensures
        r == if frame_count(samples as int) * n < available {
            frame_count(samples as int) * n
        } else {
            available as int
        },
        r == vstd::math::min((1 + samples as int / 160) * n, available as int),
{
    match spectrum_frames(samples).checked_mul(n) {
        Some(wanted) => if wanted < available {
            wanted
        } else {
            available
        },
        None => available,
    }
}

/// A recording has a frame for every 160 samples that it has, and one more.
pub proof fn a_frame_starts_every_hop(samples: int, frames: int)
    requires
        0 <= samples,
    ensures
        frame_count(samples) == frames <==> (frames - 1) * 160 <= samples < frames * 160,
{
}

/// A frame of 512 places is centred on its first sample, 160 for each frame before it:
/// sample `place` stands as far from place 256 as it is from that one.
pub proof fn a_frame_is_centred(samples: int, frame: int, i: int, place: int)
    ensures
        sample_of(samples, frame, i) == Some(place) <==> 0 <= place < samples && place - frame * 160
            == i - 256,
        sample_of(samples, frame, i) is None <==> !(0 <= frame * 160 + i - 256 < samples),
{
    assert(frame * HOP == frame * 160);
}

/// The window weighs 400 of the 512 places of a frame, as many before its middle as
/// behind it.
pub proof fn the_window_is_centred(i: int, place: int)
    ensures
        window_of(i) == Some(place) <==> 0 <= place < 400 && i - place == 56,
        window_of(i) is None <==> i < 56 || i >= 456,
        window_of(i) is Some <==> window_of(511 - i) is Some,
{
}

/// A call of the frontend goes on to 32768 frames further or to the last one, in the
/// fewest whole stacks of 8. A row is a frame that samples fill where 160 samples follow
/// the start of that frame.
pub proof fn a_block_has_the_next_frames(samples: int, start: int, row: int)
    requires
        0 <= samples,
        0 <= start < frame_count(samples),
    ensures
        ({
            let frames = 1 + samples / 160;
            let end = block_end(frame_count(samples), start);
            let rows = stacked(end - start);
            &&& end == vstd::math::min(start + 32768, frames)
            &&& rows % 8 == 0
            &&& end - start <= rows < end - start + 8
            &&& 0 <= row ==> (row < valid_rows(samples, start, rows) <==> row < rows && (start + row
                + 1) * 160 <= samples)
        }),
{
    blocks_cover_the_frames(samples, start);
}

} // verus!
