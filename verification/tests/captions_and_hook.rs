use meeting_recorder::captions::{decode, Captions, Segment};
use meeting_recorder::hook::{configured, report, run, Ended};

fn segment(speech: bool, text: Option<&str>) -> Segment {
    Segment { speech, text: text.map(str::to_owned) }
}

#[test]
fn captions_need_the_speech_model() {
    assert_eq!(
        Captions::start(false).err(),
        Some("Live captions need the speech model; download it above first.")
    );
    let mut captions = Captions::start(true).ok().unwrap();
    assert!(captions.running() && captions.listens());
    captions.set_paused(true);
    assert!(captions.running() && !captions.listens());
    captions.set_paused(false);
    assert!(captions.listens());
    captions.stop();
    assert!(!captions.running() && !captions.listens());
}

#[test]
fn a_caption_is_the_speech_of_a_window() {
    assert_eq!(
        decode(&vec![
            segment(true, Some(" Hello ")),
            segment(false, Some("music")),
            segment(true, None),
            segment(true, Some("there.\n")),
        ]),
        Some("Hello there.".to_owned())
    );
    assert_eq!(
        decode(&vec![segment(true, Some("a")), segment(true, Some(" ")), segment(true, Some("b"))]),
        Some("a  b".to_owned())
    );
    assert_eq!(decode(&vec![segment(false, Some("a")), segment(true, Some(" "))]), None);
    assert_eq!(decode(&vec![]), None);
}

#[test]
fn a_configured_command_gets_the_folder() {
    assert_eq!(configured(&None), None);
    let command = configured(&Some("notes --add".to_owned()));
    assert_eq!(
        run(command.as_deref()),
        Some(vec!["-c".to_owned(), "notes --add \"$1\"".to_owned(), "sh".to_owned()])
    );
    assert_eq!(run(None), None);
}

#[test]
fn a_command_that_fails_is_told_of() {
    let text = || "why".to_owned();
    assert_eq!(report("app", &Ended::Success), None);
    assert_eq!(
        report("app", &Ended::Failed(text())),
        Some("app: after_transcript exited with why".to_owned())
    );
    assert_eq!(
        report("app", &Ended::Lost(text())),
        Some("app: after_transcript: why".to_owned())
    );
    assert_eq!(
        report("app", &Ended::NotRun(text())),
        Some("app: could not run after_transcript: why".to_owned())
    );
}
