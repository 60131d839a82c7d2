use std::collections::VecDeque;
use std::time::Duration;

use meeting_recorder::bar_widget::{
    any_on, can_offer, enable, enabled, listing, run, should_offer, words, Listed, Offer, Place,
    Reply, Step,
};
use meeting_recorder::command::Output;
use meeting_recorder::json::read_list;

/// Enables the widget against canned replies; returns the calls and the time
/// waited.
fn scenario(replies: Vec<Result<&str, &str>>) -> (Result<(), String>, Vec<String>, Duration) {
    let mut replies: VecDeque<_> = replies.into();
    let mut calls = Vec::new();
    let mut slept = Duration::ZERO;
    let (mut enabling, mut step) = enable();
    let result = loop {
        let reply = match step {
            Step::Run(call) => {
                calls.push(words(call).join(" "));
                Reply::Answer(
                    replies
                        .pop_front()
                        .expect("unexpected command")
                        .map(str::to_owned)
                        .map_err(str::to_owned),
                )
            }
            Step::Wait(pause) => {
                slept += Duration::from_millis(pause);
                Reply::Waited
            }
            Step::Done(result) => break result,
        };
        step = enabling.next(reply);
    };
    assert!(replies.is_empty());
    (result, calls, slept)
}

const FOUND: &str = r#"[{"id":"jankeesvw.meeting-recorder","enabled":false}]"#;
const ON_THE_BAR: &str = r#"[{"id":"jankeesvw.meeting-recorder","enabled":true}]"#;
const NOT_RESPONDING: &str = "omarchy: omarchy-plugin-enable: omarchy-shell is not responding";
const ENABLE: &str = "omarchy plugin enable jankeesvw.meeting-recorder --section right";

#[test]
fn an_enable_that_times_out_but_lands_counts_as_added() {
    let (result, calls, slept) = scenario(vec![
        Ok(""),
        Ok(FOUND),
        Err(NOT_RESPONDING),
        Err(NOT_RESPONDING),
        Ok(FOUND),
        Ok(ON_THE_BAR),
    ]);
    assert_eq!(result, Ok(()));
    assert_eq!(slept, Duration::from_secs(1));
    assert_eq!(calls.iter().filter(|call| *call == ENABLE).count(), 1);
}

#[test]
fn an_enable_that_never_lands_keeps_its_error() {
    let mut replies = vec![Ok(""), Ok(FOUND), Err(NOT_RESPONDING)];
    replies.extend(vec![Ok(FOUND); 20]);
    let (result, calls, slept) = scenario(replies);
    assert_eq!(result, Err(NOT_RESPONDING.to_owned()));
    assert_eq!(slept, Duration::from_millis(9500));
    assert_eq!(calls.iter().filter(|call| *call == ENABLE).count(), 1);
}

#[test]
fn a_widget_already_on_the_bar_is_left_alone() {
    let (result, calls, _) = scenario(vec![Ok(""), Ok(ON_THE_BAR)]);
    assert_eq!(result, Ok(()));
    assert!(calls
        .iter()
        .all(|call| !call.starts_with("omarchy plugin enable")));
}

#[test]
fn the_shell_says_whether_it_is_on_the_bar() {
    let answer = |text: &'static str| Ok(text.to_owned());
    assert_eq!(enabled(&answer(ON_THE_BAR)), Some(true));
    assert_eq!(enabled(&answer(FOUND)), Some(false));
    assert_eq!(enabled(&answer("[]")), Some(false));
    assert_eq!(enabled(&Err("no shell".to_owned())), None);
}

#[test]
fn waits_for_discovery_before_enabling() {
    let (result, calls, slept) = scenario(vec![
        Ok(""),
        Ok("[]"),
        Ok(r#"[{"id":"other.plugin"}]"#),
        Ok(FOUND),
        Ok("Enabled"),
    ]);
    assert_eq!(result, Ok(()));
    assert_eq!(slept, Duration::from_millis(200));
    assert_eq!(
        calls,
        [
            "omarchy-shell shell rescanPlugins",
            "omarchy-shell shell listPlugins",
            "omarchy-shell shell listPlugins",
            "omarchy-shell shell listPlugins",
            "omarchy plugin enable jankeesvw.meeting-recorder --section right",
        ]
    );
}

#[test]
fn already_discovered_plugin_needs_no_sleep() {
    let (result, _, slept) = scenario(vec![Ok(""), Ok(FOUND), Ok("Enabled")]);
    assert_eq!(result, Ok(()));
    assert_eq!(slept, Duration::ZERO);
}

#[test]
fn missing_plugin_times_out_without_enabling() {
    let mut replies = vec![Ok("")];
    replies.extend(vec![Ok("[]"); 50]);
    let (result, calls, slept) = scenario(replies);
    assert!(result.unwrap_err().contains("did not discover"));
    assert_eq!(slept, Duration::from_millis(4900));
    assert!(calls.iter().all(|call| call.starts_with("omarchy-shell ")));
}

#[test]
fn command_failures_are_preserved() {
    for replies in [
        vec![Err("shell unavailable")],
        vec![Ok(""), Err("shell unavailable")],
    ] {
        let expected = replies.last().unwrap().as_ref().unwrap_err().to_string();
        let (result, _, slept) = scenario(replies);
        assert_eq!(result, Err(expected));
        assert_eq!(slept, Duration::ZERO);
    }
}

#[test]
fn malformed_plugin_list_is_reported_without_enabling() {
    for output in ["not JSON", "{}"] {
        let (result, calls, slept) = scenario(vec![Ok(""), Ok(output)]);
        assert!(result.unwrap_err().contains("Could not read"));
        assert_eq!(calls.len(), 2);
        assert_eq!(slept, Duration::ZERO);
    }
}

#[test]
fn the_first_listing_of_the_widget_decides_whether_to_enable_it() {
    let twice = r#"[{"id":"jankeesvw.meeting-recorder"},{"id":"jankeesvw.meeting-recorder","enabled":true}]"#;
    assert_eq!(enabled(&Ok(twice.to_owned())), Some(true));
    let (result, calls, _) = scenario(vec![Ok(""), Ok(twice), Ok("Enabled")]);
    assert_eq!(result, Ok(()));
    assert_eq!(calls[2], ENABLE);
}

#[test]
fn a_list_tells_how_the_widget_is_listed() {
    let list = |text: &str| read_list(text).ok().unwrap();
    for (text, listed, on) in [
        (FOUND, Listed::Off, false),
        (ON_THE_BAR, Listed::On, true),
        ("[]", Listed::Missing, false),
        (r#"[1,{"id":"other","enabled":true}]"#, Listed::Missing, false),
        (r#"[{"id":"jankeesvw.meeting-recorder","enabled":1}]"#, Listed::Off, false),
    ] {
        assert_eq!(listing(&list(text)), listed);
        assert_eq!(any_on(&list(text)), on);
    }
}

#[test]
fn the_wording_of_a_parse_error_is_passed_on() {
    let (result, _, _) = scenario(vec![Ok(""), Ok("not JSON")]);
    assert_eq!(
        result,
        Err("Could not read the shell's plugin list: expected ident at line 1 column 2".to_owned())
    );
    assert_eq!(enabled(&Ok("not JSON".to_owned())), None);
}

#[test]
fn a_failed_command_names_its_program() {
    let output = |success: bool, stdout: &[u8], stderr: &[u8]| {
        Ok(Output { success, stdout: stdout.to_vec(), stderr: stderr.to_vec() })
    };
    assert_eq!(run("omarchy", &output(true, b" out \n", b"")), Ok(" out \n".to_owned()));
    assert_eq!(
        run("omarchy", &output(false, b" out \n", b" err \n")),
        Err("omarchy: err".to_owned())
    );
    assert_eq!(
        run("omarchy", &output(false, b" out \n", b" \n")),
        Err("omarchy: out".to_owned())
    );
    assert_eq!(
        run("omarchy", &output(false, b"", b"")),
        Err("omarchy: failed".to_owned())
    );
    assert_eq!(
        run("omarchy", &Err("not found".to_owned())),
        Err("omarchy: not found".to_owned())
    );
}

#[test]
fn the_widget_is_offered_once_and_only_where_it_can_be_linked() {
    assert!(can_offer(false, true, true, Place::Nothing));
    assert!(can_offer(false, true, true, Place::Ours));
    assert!(!can_offer(false, true, true, Place::Other));
    assert!(!can_offer(true, true, true, Place::Nothing));
    assert!(!can_offer(false, false, true, Place::Nothing));
    assert!(!can_offer(false, true, false, Place::Nothing));
    assert_eq!(should_offer(true, None), Offer { make: true, settle: false });
    assert_eq!(should_offer(true, Some(false)), Offer { make: true, settle: false });
    assert_eq!(should_offer(true, Some(true)), Offer { make: false, settle: true });
    assert_eq!(should_offer(false, Some(true)), Offer { make: false, settle: false });
}
