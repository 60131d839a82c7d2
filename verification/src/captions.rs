//! Live captions: a preview, off by default, of what is said during a recording.
//! Each line is made from the last seconds of both tracks alone, with no memory of
//! the line before.
use vstd::prelude::*;
use vstd::string::StringExecFns;

use crate::text;

verus! {

/// How many seconds a caption is made from.
pub const WINDOW_SECS: u32 = 5;

/// How many milliseconds lie before each window.
pub const INTERVAL: u64 = 1_500;

/// How many threads make captions, few so as not to get in the way of the
/// recording.
pub const THREADS: i32 = 2;

pub const NO_MODEL: &'static str =
    "Live captions need the speech model; download it above first.";

/// A caption session.
pub struct Captions {
    running: bool,
    paused: bool,
}

/// What a [`Captions`] knows.
pub struct CaptionsView {
    pub running: bool,
    pub paused: bool,
}

impl View for Captions {
    type V = CaptionsView;

    closed spec fn view(&self) -> CaptionsView {
        CaptionsView { running: self.running, paused: self.paused }
    }
}

impl Captions {
    /// Starts captions where the speech model is there; it is never downloaded for
    /// them.
    pub fn start(model: bool) -> (r: Result<Captions, &'static str>)
        ensures
            match r {
                Ok(captions) => model && captions@ == (CaptionsView {
                    running: true,
                    paused: false,
                }),
                Err(error) => !model && error@ == NO_MODEL@,
            },
            r matches Err(error) ==> error@
                == "Live captions need the speech model; download it above first."@,
    {
        if model {
            Ok(Captions { running: true, paused: false })
        } else {
            Err(NO_MODEL)
        }
    }

    /// Pausing the recording pauses captions too; resuming picks them up again.
    pub fn set_paused(&mut self, paused: bool)
        ensures
            final(self)@ == (CaptionsView { paused, ..old(self)@ }),
    {
        self.paused = paused;
    }

    /// Ends the session.
    pub fn stop(&mut self)
        ensures
            final(self)@ == (CaptionsView { running: false, ..old(self)@ }),
    {
        self.running = false;
    }

    /// Whether the session goes on.
    pub fn running(&self) -> (r: bool)
        ensures
            r == self@.running,
    {
        self.running
    }

    /// Whether a window is to be taken now.
    pub fn listens(&self) -> (r: bool)
        ensures
            r == (self@.running && !self@.paused),
    {
        self.running && !self.paused
    }
}

/// A part of what was recognised in a window.
pub struct Segment {
    /// Whether it is likely enough to be speech.
    pub speech: bool,
    /// What it says, where that could be read.
    pub text: Option<String>,
}

/// What the speech among some segments says, one part after the other.
pub open spec fn spoken_text(segments: Seq<Segment>) -> Seq<char>
    decreases segments.len(),
{
    if segments.len() == 0 {
        Seq::empty()
    } else {
        let before = spoken_text(segments.drop_last());
        let segment = segments.last();
        match segment.text {
            Some(part) => if !segment.speech {
                before
            } else if before.len() > 0 {
                before + " "@ + text::trimmed(part@)
            } else {
                text::trimmed(part@)
            },
            None => before,
        }
    }
}

/// The caption of a window, if any speech is in it.
pub open spec fn caption(segments: Seq<Segment>) -> Option<Seq<char>> {
    let line = text::trimmed(spoken_text(segments));
    if line.len() == 0 {
        None
    } else {
        Some(line)
    }
}

/// The caption of a window from what was recognised in it; none where it turned out
/// to hold no speech.
pub fn decode(segments: &Vec<Segment>) -> (r: Option<String>)
    ensures
        text::owned(r) == caption(segments@),
{
    let mut line = String::new();
    for i in 0..segments.len()
        invariant
            line@ == spoken_text(segments@.take(i as int)),
    {
        proof {
            assert(segments@.take(i + 1).drop_last() =~= segments@.take(i as int));
            assert(segments@.take(i + 1).last() == segments@[i as int]);
        }
        if segments[i].speech {
            if let Some(part) = &segments[i].text {
                if !line.as_str().is_empty() {
                    line.push(' ');
                    proof {
                        reveal_strlit(" ");
                        assert(line@ =~= spoken_text(segments@.take(i as int)) + " "@);
                    }
                }
                let ghost before = line@;
                line = line.concat(text::trim(part.as_str()));
                proof {
                    assert(before.len() == 0 ==> line@ =~= text::trimmed(part@));
                }
            }
        }
    }
    proof {
        assert(segments@.take(segments@.len() as int) =~= segments@);
    }
    let caption = text::trim(line.as_str());
    if caption.is_empty() {
        None
    } else {
        Some(caption.to_owned())
    }
}

/// Without speech there is no caption.
pub proof fn without_speech_there_is_no_caption(segments: Seq<Segment>)
    requires
        forall|i: int| 0 <= i < segments.len() ==> !(#[trigger] segments[i]).speech,
    ensures
        caption(segments) is None,
{
    lemma_no_speech(segments);
}

proof fn lemma_no_speech(segments: Seq<Segment>)
    requires
        forall|i: int| 0 <= i < segments.len() ==> !(#[trigger] segments[i]).speech,
    ensures
        spoken_text(segments).len() == 0,
    decreases segments.len(),
{
    if segments.len() > 0 {
        assert(!segments[segments.len() - 1].speech);
        assert forall|i: int| 0 <= i < segments.drop_last().len() implies !(
        #[trigger] segments.drop_last()[i]).speech by {
            assert(!segments[i].speech);
        }
        lemma_no_speech(segments.drop_last());
    }
}

/// What some segments say and then others.
proof fn lemma_spoken_text(a: Seq<Segment>, segment: Segment, b: Seq<Segment>)
    requires
        !segment.speech || segment.text is None,
    ensures
        spoken_text(a + seq![segment] + b) == spoken_text(a + b),
    decreases b.len(),
{
    let all = a + seq![segment] + b;
    if b.len() > 0 {
        let less = b.drop_last();
        lemma_spoken_text(a, segment, less);
        assert(all.drop_last() =~= a + seq![segment] + less);
        assert((a + b).drop_last() =~= a + less);
        assert(all.last() == (a + b).last());
    } else {
        assert(all.drop_last() =~= a);
        assert(a + b =~= a);
    }
}

/// A segment that is not likely to be speech, or could not be read, does not matter.
pub proof fn only_speech_is_shown(a: Seq<Segment>, segment: Segment, b: Seq<Segment>)
    requires
        !segment.speech || segment.text is None,
    ensures
        caption(a + seq![segment] + b) == caption(a + b),
{
    lemma_spoken_text(a, segment, b);
}

proof fn lemma_spoken_parts(segments: Seq<Segment>, parts: Seq<Seq<char>>)
    requires
        segments.len() == parts.len(),
        forall|i: int|
            0 <= i < segments.len() ==> (#[trigger] segments[i]).speech && segments[i].text is Some
                && text::trimmed(segments[i].text.unwrap()@) == parts[i] && parts[i].len() > 0,
    ensures
        spoken_text(segments) == text::joined(parts, " "@),
        segments.len() > 0 ==> spoken_text(segments).len() > 0 && spoken_text(segments)[0]
            == parts[0][0] && spoken_text(segments).last() == parts.last().last(),
    decreases segments.len(),
{
    if segments.len() > 0 {
        let less = segments.drop_last();
        let fewer = parts.drop_last();
        assert forall|i: int| 0 <= i < less.len() implies (#[trigger] less[i]).speech
            && less[i].text is Some && text::trimmed(less[i].text.unwrap()@) == fewer[i]
            && fewer[i].len() > 0 by {
            assert(less[i] == segments[i]);
        }
        lemma_spoken_parts(less, fewer);
        assert(segments[segments.len() - 1].speech);
        if less.len() == 0 {
            assert(parts[0] == parts.last());
        }
    }
}

/// What is said in the segments of a window is its caption: part after part, each without
/// the white space around it, and a space between.
pub proof fn a_caption_has_every_part_of_the_speech(
    segments: Seq<Segment>,
    parts: Seq<Seq<char>>,
)
    requires
        segments.len() > 0,
        segments.len() == parts.len(),
        forall|i: int|
            0 <= i < segments.len() ==> (#[trigger] segments[i]).speech && segments[i].text is Some
                && text::trimmed(segments[i].text.unwrap()@) == parts[i] && parts[i].len() > 0,
    ensures
        caption(segments) == Some(text::joined(parts, " "@)),
{
    lemma_spoken_parts(segments, parts);
    let line = spoken_text(segments);
    assert(segments[0].speech);
    assert(segments[segments.len() - 1].speech);
    text::lemma_trimmed(segments[0].text.unwrap()@);
    text::lemma_trimmed(segments[segments.len() - 1].text.unwrap()@);
    assert(text::trimmed_start(line) == line);
    assert(text::trimmed_end(line) == line);
}

/// A caption is made of the last five seconds, which are always kept, every one and a half
/// seconds.
pub proof fn a_window_for_captions_is_always_kept()
    ensures
        WINDOW_SECS == 5,
        INTERVAL == 1_500,
        192_000 * WINDOW_SECS <= crate::audio::RAW_WINDOW_BYTES,
{
}

/// What is said in a segment goes behind what was said before it, with a space between
/// where anything was, even where nothing is left of it without the white space around.
pub proof fn a_part_goes_behind_what_was_said(segments: Seq<Segment>, part: String)
    ensures
        ({
            let segment = Segment { speech: true, text: Some(part) };
            let before = spoken_text(segments);
            let line = spoken_text(segments.push(segment));
            &&& before.len() > 0 ==> line == before + " "@ + text::trimmed(part@)
            &&& before.len() == 0 ==> line == text::trimmed(part@)
            &&& caption(segments.push(segment)) == if text::trimmed(line).len() > 0 {
                Some(text::trimmed(line))
            } else {
                None
            }
        }),
{
    let segment = Segment { speech: true, text: Some(part) };
    assert(segments.push(segment).drop_last() =~= segments);
}

} // verus!
