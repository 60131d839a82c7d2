use meeting_recorder::actions::{
    audio_file, find_url, last_line, load, parse, run, shell_call, unquote, variables, Action,
    Meeting,
};
use meeting_recorder::command::Output;

#[test]
fn reads_actions_and_skips_the_rest() {
    let config = r#"
model = "large-v3-turbo"  # not an action

[[action]]
name = "Copy to Obsidian"
command = "~/.local/bin/meeting-to-obsidian"

[[action]]
name = 'Publish'   # a comment
command = 'publish "$1" --secret'

[[action]]
name = "No command, ignored"

[other]
name = "not an action"
"#;
    assert_eq!(
        parse(config),
        [
            Action {
                name: "Copy to Obsidian".into(),
                command: "~/.local/bin/meeting-to-obsidian".into(),
            },
            Action {
                name: "Publish".into(),
                command: "publish \"$1\" --secret".into(),
            },
        ]
    );
}

#[test]
fn a_link_in_the_output_is_found() {
    assert_eq!(
        find_url("Published: https://gist.github.com/abc123."),
        Some("https://gist.github.com/abc123".into())
    );
    assert_eq!(
        find_url("Saved obsidian://open?vault=Writing&file=Meetings%2FWeekly"),
        Some("obsidian://open?vault=Writing&file=Meetings%2FWeekly".into())
    );
    assert_eq!(find_url("Copied to the vault"), None);
}

#[test]
fn marks_behind_a_link_are_dropped() {
    assert_eq!(find_url("(http://a.b/c).\"'"), None);
    assert_eq!(find_url("see http://a.b/c).\"',"), Some("http://a.b/c".into()));
    assert_eq!(find_url("x https://a http://b"), Some("https://a".into()));
}

#[test]
fn values_are_unquoted() {
    assert_eq!(unquote("'it''s'"), "it");
    assert_eq!(unquote("'open"), "open");
    assert_eq!(unquote(r#""a\"b\\c\nd\te\x" behind"#), "a\"b\\c\nd\tex");
    assert_eq!(unquote("\"open"), "open");
    assert_eq!(unquote("\"end\\"), "end");
    assert_eq!(unquote("plain value  # comment"), "plain value");
    assert_eq!(unquote(""), "");
}

#[test]
fn an_action_may_be_the_last_thing_in_the_file_and_lines_may_end_in_two_characters() {
    let actions = parse("[[action]]\r\nname = a\r\ncommand = b = c\r\nother = d\r\nname = e");
    assert_eq!(
        actions,
        [Action { name: "e".into(), command: "b = c".into() }]
    );
    assert_eq!(actions[0].clone(), actions[0]);
    assert_eq!(parse("name = a\ncommand = b"), []);
    assert_eq!(parse("[[action]]\nname = a\n[x]\ncommand = b"), []);
}

#[test]
fn without_a_file_there_are_no_actions() {
    assert_eq!(load(None), []);
    assert_eq!(load(Some("[[action]]\nname=a\ncommand=b")).len(), 1);
}

#[test]
fn the_last_full_line_is_shown() {
    assert_eq!(last_line("first\n  second  \n\n \t\n"), Some("second".into()));
    assert_eq!(last_line("\n \n"), None);
    let long = "x".repeat(300);
    assert_eq!(last_line(&long), Some("x".repeat(200)));
}

fn output(success: bool, stdout: &[u8], stderr: &[u8]) -> Result<Output, String> {
    Ok(Output { success, stdout: stdout.to_vec(), stderr: stderr.to_vec() })
}

#[test]
fn a_run_ends_with_its_last_line() {
    let ended = run(&output(true, b"working\nDone: https://a.b/c.\n", b"noise"), "exit status: 0");
    let outcome = ended.ok().unwrap();
    assert_eq!(outcome.message, "Done: https://a.b/c.");
    assert_eq!(outcome.url, Some("https://a.b/c".into()));
    let silent = run(&output(true, b" \n", b"noise"), "exit status: 0").ok().unwrap();
    assert_eq!(silent.message, "Done");
    assert_eq!(silent.url, None);
}

#[test]
fn a_run_that_fails_says_why() {
    let why = |output: Result<Output, String>| run(&output, "exit status: 3").err().unwrap();
    assert_eq!(why(output(false, b"out\n", b"err\nlast err\n")), "last err");
    assert_eq!(why(output(false, b"out\n", b"\n")), "out");
    assert_eq!(why(output(false, b"", b"")), "exited with exit status: 3");
    assert_eq!(why(Err("no sh".into())), "no sh");
    // What is not UTF-8 is shown with a replacement character.
    assert_eq!(why(output(false, b"", b"caf\xe9")), "caf\u{fffd}");
}

#[test]
fn a_meeting_is_told_in_variables() {
    let meeting = Meeting {
        title: "Weekly".into(),
        date: "2026-09-25 14:30".into(),
        started_at: -5,
        duration_secs: 1830,
        language: "en".into(),
        speakers: vec!["Maya".into(), "Tom".into()],
    };
    let pairs = variables(&meeting);
    let expected = [
        ("MEETING_TITLE", "Weekly"),
        ("MEETING_DATE", "2026-09-25 14:30"),
        ("MEETING_STARTED_AT", "-5"),
        ("MEETING_DURATION", "1830"),
        ("MEETING_LANGUAGE", "en"),
        ("MEETING_SPEAKERS", "Maya\nTom"),
    ];
    assert_eq!(pairs.len(), expected.len());
    for (pair, (name, value)) in pairs.iter().zip(expected) {
        assert_eq!((pair.0.as_str(), pair.1.as_str()), (name, value));
    }
}

#[test]
fn the_mixed_audio_comes_first() {
    assert_eq!(audio_file(true, true, true), Some("audio.ogg"));
    assert_eq!(audio_file(false, true, true), Some("mic.ogg"));
    assert_eq!(audio_file(false, false, true), Some("computer.ogg"));
    assert_eq!(audio_file(false, false, false), None);
}

#[test]
fn an_action_runs_through_the_shell() {
    let action = Action {
        name: "Publish".to_owned(),
        command: "publish \"$1\" --secret".to_owned(),
    };
    assert_eq!(shell_call(&action), ["sh", "-c", "publish \"$1\" --secret", "meeting-action"]);
}
