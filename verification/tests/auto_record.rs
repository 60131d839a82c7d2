use meeting_recorder::auto_record::service::{
    arguments, enabled, set_enabled, systemctl, unit_file, Call, Job,
};
use meeting_recorder::auto_record::start::{Reply, Start, Task};
use meeting_recorder::auto_record::watch::{mode, outcome_line, Mode, Watcher};
use meeting_recorder::auto_record::{Seen, SUPPRESSION_SECS};
use meeting_recorder::command::Output;
use meeting_recorder::json::{read, Json};
use meeting_recorder::meeting_detection::{detect, window_link, Client, DetectedMeeting};
use meeting_recorder::room_identity::Uri;

/// Splits a launch link, which has no user, port or query.
fn split(link: &str) -> Option<Uri> {
    let rest = link.strip_prefix("https://")?;
    let (host, path) = rest.split_at(rest.find('/')?);
    Some(Uri {
        scheme: "https".to_owned(),
        userinfo: None,
        host: Some(host.to_owned()),
        port: -1,
        path: path.to_owned(),
    })
}

fn window(members: &[(&str, &str)]) -> Client {
    let info = Json::Object(
        members
            .iter()
            .map(|(key, value)| (key.to_string(), Json::Text(value.to_string())))
            .collect(),
    );
    let launch = window_link(&info).and_then(|link| split(&link));
    Client { info, launch }
}

fn web(code: &str) -> Client {
    window(&[
        ("address", "0x1"),
        ("class", "chromium"),
        ("title", &format!("Meet - {code} - Chromium")),
    ])
}

/// A look at the windows at a time that does not matter.
fn look(seen: &mut Seen, clients: &[Client]) -> Option<DetectedMeeting> {
    look_at(seen, clients, 1_000)
}

fn look_at(seen: &mut Seen, clients: &[Client], now: i64) -> Option<DetectedMeeting> {
    seen.update_at(clients, None, "", now)
}

#[test]
fn starts_a_stable_meeting_once_even_after_tab_switch_or_restart() {
    let mut seen = Seen::new();
    let m = || web("abc-defg-hij");
    assert!(look(&mut seen, &[m()]).is_none());
    assert!(look(&mut seen, &[m()]).is_some());
    let other_tab = window(&[
        ("address", "0x1"),
        ("class", "chromium"),
        ("title", "Inbox - Chromium"),
    ]);
    assert!(look(&mut seen, &[other_tab]).is_none());
    let mut seen = Seen::restore_at(&seen.saved("session"), "session", 1_000);
    assert!(look(&mut seen, &[m()]).is_none());
    assert!(look(&mut seen, &[m()]).is_none());
}

#[test]
fn another_meet_code_or_reopened_window_can_start() {
    let mut seen = Seen::new();
    look(&mut seen, &[web("abc-defg-hij")]);
    look(&mut seen, &[web("abc-defg-hij")]);
    assert!(look(&mut seen, &[web("klm-nopq-rst")]).is_none());
    assert!(look(&mut seen, &[web("klm-nopq-rst")]).is_some());
    look(&mut seen, &[]);
    assert!(look(&mut seen, &[web("klm-nopq-rst")]).is_none());
    assert!(look(&mut seen, &[web("klm-nopq-rst")]).is_some());
}

#[test]
fn different_named_meetings_in_one_browser_window_can_start() {
    let mut seen = Seen::new();
    look(&mut seen, &[web("First planning call")]);
    assert!(look(&mut seen, &[web("First planning call")]).is_some());
    let mut seen = Seen::restore_at(&seen.saved("session"), "session", 1_000);
    assert!(look(&mut seen, &[web("Next planning call")]).is_none());
    assert!(look(&mut seen, &[web("Next planning call")]).is_some());
    assert!(look(&mut seen, &[web("Next planning call")]).is_none());
    // Switching back to a previously handled call must not restart it.
    assert!(look(&mut seen, &[web("First planning call")]).is_none());
}

#[test]
fn suppression_expires_after_two_hours_without_sliding_on_observation() {
    let mut seen = Seen::new();
    let clients = [web("Daily meeting")];
    assert!(look_at(&mut seen, &clients, 100).is_none());
    assert!(look_at(&mut seen, &clients, 102).is_some());
    assert!(look_at(&mut seen, &clients, 102 + SUPPRESSION_SECS - 1).is_none());
    // Expiry still requires two stable observations before another attempt.
    assert!(look_at(&mut seen, &clients, 102 + SUPPRESSION_SECS).is_none());
    assert!(look_at(&mut seen, &clients, 104 + SUPPRESSION_SECS).is_some());
    assert!(look_at(&mut seen, &clients, 106 + SUPPRESSION_SECS).is_none());
}

#[test]
fn restarts_preserve_expiry_and_drop_expired_entries() {
    let clients = [web("Daily meeting")];
    let mut seen = Seen::new();
    look_at(&mut seen, &clients, 100);
    look_at(&mut seen, &clients, 102);
    let saved = seen.saved("session");
    let mut restored = Seen::restore_at(&saved, "session", 200);
    assert!(look_at(&mut restored, &clients, 102 + SUPPRESSION_SECS - 1).is_none());
    assert!(look_at(&mut restored, &clients, 102 + SUPPRESSION_SECS).is_none());
    assert!(look_at(&mut restored, &clients, 104 + SUPPRESSION_SECS).is_some());
    assert_eq!(
        Seen::restore_at(&saved, "session", 102 + SUPPRESSION_SECS).suppressed(),
        0
    );
}

#[test]
fn old_state_migrates_once_and_invalid_expiries_are_ignored() {
    let old = r#"{"session":"session","handled":{"call":"0x1","bad":{"window":"0x1","expires_at":"invalid"}}}"#;
    let seen = Seen::restore_at(old, "session", 100);
    assert_eq!(seen.suppressed(), 1);
    assert_eq!(seen.suppressed_until("call"), Some(100 + SUPPRESSION_SECS));
    let restored = Seen::restore_at(&seen.saved("session"), "session", 200);
    assert_eq!(restored.suppressed_until("call"), Some(100 + SUPPRESSION_SECS));
}

#[test]
fn same_title_rooms_are_distinct_and_renames_do_not_restart() {
    for (first, second) in [
        (
            "chrome-meet.google.com__abc-defg-hij-Default",
            "chrome-meet.google.com__klm-nopq-rst-Default",
        ),
        (
            "chrome-app.zoom.us__wc_join_12345678901-Default",
            "chrome-app.zoom.us__wc_join_98765432109-Default",
        ),
    ] {
        let client = |class: &str, title: &str| {
            window(&[("address", "0x1"), ("class", class), ("title", title)])
        };
        let mut seen = Seen::new();
        assert!(look_at(&mut seen, &[client(first, "Daily sync")], 100).is_none());
        assert!(look_at(&mut seen, &[client(first, "Daily sync")], 102).is_some());
        assert!(look_at(&mut seen, &[client(first, "Renamed sync")], 104).is_none());
        assert!(look_at(&mut seen, &[client(second, "Daily sync")], 106).is_none());
        assert!(look_at(&mut seen, &[client(second, "Daily sync")], 108).is_some());
    }
}

#[test]
fn upgrading_fallback_suppression_preserves_deadline() {
    let client = || web("abc-defg-hij");
    let detected = detect(&client()).unwrap();
    let kept = format!(
        r#"{{"session":"session","handled":{{"{}":{{"window":"{}","expires_at":200}}}}}}"#,
        detected.fallback_key, detected.window
    );
    let mut seen = Seen::restore_at(&kept, "session", 50);
    assert_eq!(seen.suppressed_until(&detected.fallback_key), Some(200));
    assert!(look_at(&mut seen, &[client()], 100).is_none());
    assert_eq!(seen.suppressed_until(&detected.fallback_key), None);
    assert_eq!(seen.suppressed_until(&detected.key), Some(200));
}

#[test]
fn ambiguous_windows_never_auto_start() {
    let a = || {
        window(&[
            ("address", "0x2"),
            ("class", "chromium"),
            ("title", "Meet - abc-defg-hij - Chromium"),
        ])
    };
    let b = || web("klm-nopq-rst");
    let mut seen = Seen::new();
    for _ in 0..3 {
        assert!(look(&mut seen, &[a(), b()]).is_none());
    }
}

#[test]
fn new_session_does_not_inherit_window_addresses() {
    let mut seen = Seen::new();
    look(&mut seen, &[web("abc-defg-hij")]);
    look(&mut seen, &[web("abc-defg-hij")]);
    assert_eq!(Seen::restore_at(&seen.saved("old"), "new", 1_000).suppressed(), 0);
    assert_eq!(Seen::restore_at("broken JSON", "new", 1_000).suppressed(), 0);
}

#[test]
fn a_kept_time_is_never_later_than_two_hours_ahead() {
    let kept = r#"{"session":"s","handled":{"call":{"window":"0x1","expires_at":999999}}}"#;
    let seen = Seen::restore_at(kept, "s", 100);
    assert_eq!(seen.suppressed_until("call"), Some(100 + SUPPRESSION_SECS));
    assert_eq!(
        Seen::restore_at(kept, "s", i64::MAX - 5).suppressed_until("call"),
        None
    );
}

#[test]
fn what_is_saved_is_a_document() {
    let mut seen = Seen::new();
    assert_eq!(seen.saved("s"), r#"{"handled":{},"session":"s"}"#);
    look_at(&mut seen, &[web("Call")], 0);
    look_at(&mut seen, &[web("Call")], 0);
    assert_eq!(
        seen.saved("s"),
        r#"{"handled":{"0x1:Google Meet:Call":{"expires_at":7200,"window":"0x1"}},"session":"s"}"#
    );
}

#[test]
fn a_document_is_restored_as_it_was() {
    let mut seen = Seen::new();
    look_at(&mut seen, &[web("Call")], 0);
    look_at(&mut seen, &[web("Call")], 0);
    let document = seen.document("s");
    let restored = Seen::restored_from(&Some(document), "s", 1);
    assert_eq!(restored.suppressed_until("0x1:Google Meet:Call"), Some(7200));
    assert_eq!(Seen::restored_from(&None, "s", 1).suppressed(), 0);
    let odd = Some(read(r#"{"session":"s","handled":[]}"#).unwrap());
    assert_eq!(Seen::restored_from(&odd, "s", 1).suppressed(), 0);
}

fn status(state: &str) -> Reply {
    Reply::Status(Ok(read(&format!(r#"{{"state":"{state}"}}"#)).unwrap()))
}

fn output(success: bool, stderr: &[u8]) -> Result<Output, String> {
    Ok(Output { success, stdout: vec![], stderr: stderr.to_vec() })
}

/// What a start comes to with these replies, with the times that it asked, opened
/// and sent, and the milliseconds that it waited.
fn start_with(replies: Vec<Reply>) -> (Result<(), String>, [usize; 3], u64) {
    let mut replies = replies.into_iter();
    let mut counts = [0, 0, 0];
    let mut waited = 0;
    let (mut start, mut task) = Start::new();
    loop {
        let reply = match task {
            Task::Wait(pause) => {
                waited += pause;
                Reply::Waited
            }
            Task::Done(result) => {
                assert!(replies.next().is_none());
                return (result, counts, waited);
            }
            Task::Ask => {
                counts[0] += 1;
                replies.next().unwrap()
            }
            Task::Open => {
                counts[1] += 1;
                replies.next().unwrap()
            }
            Task::Send => {
                counts[2] += 1;
                replies.next().unwrap()
            }
        };
        task = start.next(reply);
    }
}

#[test]
fn an_open_recorder_gets_the_command() {
    let (result, counts, waited) =
        start_with(vec![status("idle"), Reply::Sent(true), status("recording")]);
    assert_eq!((result, counts, waited), (Ok(()), [2, 0, 1], 0));
    let (result, counts, waited) = start_with(vec![
        status("done"),
        Reply::Sent(true),
        status("idle"),
        status("paused"),
    ]);
    assert_eq!((result, counts, waited), (Ok(()), [3, 0, 1], 200));
}

#[test]
fn a_busy_recorder_is_left_alone() {
    for state in ["recording", "paused", "transcribing", ""] {
        let (result, counts, _) = start_with(vec![status(state)]);
        assert_eq!(
            result,
            Err("Recorder is busy; leaving the existing recording unchanged".to_owned())
        );
        assert_eq!(counts, [1, 0, 0]);
    }
}

#[test]
fn a_closed_recorder_is_opened_first() {
    let no = || Reply::Status(Err("no socket".to_owned()));
    let (result, counts, waited) = start_with(vec![
        no(),
        Reply::Opened(output(true, b"")),
        no(),
        status("idle"),
        Reply::Sent(true),
        status("recording"),
    ]);
    assert_eq!((result, counts, waited), (Ok(()), [4, 1, 1], 500));

    let mut replies = vec![no(), Reply::Opened(output(true, b""))];
    replies.extend((0..20).map(|_| no()));
    let (result, counts, waited) = start_with(replies);
    assert_eq!(result, Err("Recorder did not become ready: no socket".to_owned()));
    assert_eq!((counts, waited), ([21, 1, 0], 5000));

    let (result, _, _) = start_with(vec![no(), Reply::Opened(output(false, b" no unit \n"))]);
    assert_eq!(result, Err("Could not open the recorder: no unit".to_owned()));
    let (result, _, _) = start_with(vec![no(), Reply::Opened(Err("no systemd".to_owned()))]);
    assert_eq!(result, Err("no systemd".to_owned()));
}

#[test]
fn a_start_that_does_not_take_says_so() {
    let (result, _, _) = start_with(vec![status("idle"), Reply::Sent(false)]);
    assert_eq!(result, Err("Could not send the recording command".to_owned()));
    let mut replies = vec![status("idle"), Reply::Sent(true)];
    replies.extend((0..5).map(|_| status("idle")));
    let (result, counts, waited) = start_with(replies);
    assert_eq!(
        result,
        Err("Recording did not start; check the recorder window".to_owned())
    );
    assert_eq!((counts, waited), ([6, 0, 1], 1000));
    let (result, _, _) = start_with(vec![
        status("idle"),
        Reply::Sent(true),
        Reply::Status(Err("gone".to_owned())),
    ]);
    assert_eq!(result, Err("gone".to_owned()));
}

#[test]
fn the_command_line_has_two_forms() {
    assert!(matches!(mode(&[]), Mode::Watch));
    assert!(matches!(mode(&["--check".to_owned()]), Mode::Check));
    assert!(matches!(mode(&["--help".to_owned()]), Mode::Usage));
    assert!(matches!(mode(&["--check".to_owned(), "--check".to_owned()]), Mode::Usage));
}

#[test]
fn a_watcher_saves_before_it_starts_and_complains_once() {
    assert_eq!(
        Watcher::new("", "", 0).err().unwrap(),
        "Automatic recording requires a Hyprland session"
    );
    let mut watcher = Watcher::new("", "s", 0).ok().unwrap();
    let windows = || Ok(vec![web("Call")]);
    let first = watcher.look(&windows(), None, 100);
    assert_eq!(first.save.as_deref(), Some(r#"{"handled":{},"session":"s"}"#));
    assert!(first.start.is_none() && first.complain.is_none());
    let failed = watcher.look(&Err("gone".to_owned()), None, 101);
    assert_eq!(failed.complain.as_deref(), Some("gone"));
    assert!(failed.save.is_none() && failed.start.is_none());
    assert!(watcher.look(&Err("gone".to_owned()), None, 102).complain.is_none());
    // The failed queries did not count as looks.
    let second = watcher.look(&windows(), None, 103);
    let saved = second.save.unwrap();
    assert_eq!(second.start.unwrap().title.as_deref(), Some("Call"));
    assert_eq!(
        Seen::restore_at(&saved, "s", 103).suppressed_until("0x1:Google Meet:Call"),
        Some(103 + SUPPRESSION_SECS)
    );
    let third = watcher.look(&windows(), None, 104);
    assert!(third.save.is_none() && third.start.is_none());
    assert_eq!(watcher.look(&Err("gone".to_owned()), None, 105).complain.as_deref(), Some("gone"));

    let mut again = Watcher::new(&saved, "s", 106).ok().unwrap();
    for now in 107..110 {
        let steps = again.look(&windows(), None, now);
        assert!(steps.save.is_none() && steps.start.is_none());
    }
}

#[test]
fn the_outcome_of_a_start_is_told() {
    assert_eq!(outcome_line("Zoom", &Ok(())), "Automatic recording started (Zoom)");
    assert_eq!(
        outcome_line("Zoom", &Err("no".to_owned())),
        "Automatic recording: no"
    );
}

#[test]
fn calls_of_systemctl_succeed_or_say_why() {
    assert_eq!(systemctl(&output(true, b"warning")), Ok(()));
    assert_eq!(systemctl(&output(false, b" no bus \n")), Err("no bus".to_owned()));
    assert_eq!(systemctl(&Err("not found".to_owned())), Err("not found".to_owned()));
    assert!(enabled(&Ok(())));
    assert!(!enabled(&Err("disabled".to_owned())));
    assert_eq!(
        arguments(Call::IsEnabled),
        ["is-enabled", "--quiet", "omarchy-meeting-recorder-auto-record.service"]
    );
}

#[test]
fn paths_are_escaped_in_the_unit_file() {
    let unit = unit_file(r#"/opt/a "b"\c$d%e"#);
    assert!(unit.contains("ExecStart=\"/opt/a \\\"b\\\"\\\\c$$d%%e\" auto-record\n"));
    assert!(unit.starts_with("[Unit]\nDescription=Automatically record meeting windows\n"));
    assert!(unit.ends_with("[Install]\nWantedBy=graphical-session.target\n"));
}

#[test]
fn switching_on_takes_every_step_and_is_undone_where_the_last_fails() {
    let program = Ok(Some("/usr/bin/recorder".to_owned()));
    let steps = |results: [Result<(), String>; 4]| {
        let (mut switch, mut job) = set_enabled(true, true, &program);
        let mut names = vec![];
        let mut results = results.into_iter();
        loop {
            let result = match job {
                Job::Write(text) => {
                    assert_eq!(text, unit_file("/usr/bin/recorder"));
                    names.push("write".to_owned());
                    results.next().unwrap()
                }
                Job::Systemctl(call) => {
                    names.push(arguments(call)[0].clone());
                    results.next().unwrap_or(Err("undone".to_owned()))
                }
                Job::Done(result) => return (result, names),
            };
            job = switch.next(result);
        }
    };
    let ok = || Ok(());
    let (result, names) = steps([ok(), ok(), ok(), ok()]);
    assert_eq!(result, Ok(()));
    assert_eq!(names, ["write", "import-environment", "daemon-reload", "enable"]);
    let (result, names) = steps([ok(), ok(), ok(), Err("no".to_owned())]);
    assert_eq!(result, Err("no".to_owned()));
    assert_eq!(names, ["write", "import-environment", "daemon-reload", "enable", "disable"]);
    let (result, names) = steps([ok(), Err("env".to_owned()), ok(), ok()]);
    assert_eq!(result, Err("env".to_owned()));
    assert_eq!(names, ["write", "import-environment"]);
}

#[test]
fn switching_on_is_refused_with_a_reason() {
    let why = |hyprland: bool, program: Result<Option<String>, String>| {
        match set_enabled(true, hyprland, &program).1 {
            Job::Done(Err(error)) => error,
            _ => panic!("not refused"),
        }
    };
    let good = || Ok(Some("/usr/bin/recorder".to_owned()));
    assert_eq!(why(false, good()), "Automatic recording requires Hyprland");
    assert_eq!(why(true, Err("no exe".to_owned())), "no exe");
    assert_eq!(why(true, Ok(None)), "The application path is not valid UTF-8");
    assert_eq!(why(true, Ok(Some("/a\nb".to_owned()))), "Invalid application path");
}

#[test]
fn switching_off_is_one_call() {
    let (mut switch, job) = set_enabled(false, false, &Ok(None));
    assert!(matches!(job, Job::Systemctl(Call::Disable)));
    assert!(matches!(
        switch.next(Err("no".to_owned())),
        Job::Done(Err(error)) if error == "no"
    ));
}
