use meeting_recorder::command::Output;
use meeting_recorder::json::Json;
use meeting_recorder::meeting_detection::{
    browser, browser_title, check, clients, detect, generic, meet_code, suggested_title, unique,
    window_link, Client,
};
use meeting_recorder::room_identity::Uri;

/// Splits a launch link, which has no user, port or query.
fn split(link: &str) -> Option<Uri> {
    let rest = link.strip_prefix("https://")?;
    let (host, path) = rest.split_at(rest.find('/')?);
    Some(Uri {
        scheme: "https".to_owned(),
        userinfo: None,
        host: Some(host.to_owned()),
        port: -1,
        path: path.to_owned(),
    })
}

fn client(class: &str, title: &str) -> Client {
    let info = Json::Object(vec![
        ("address".to_owned(), Json::Text("0x1".to_owned())),
        ("class".to_owned(), Json::Text(class.to_owned())),
        ("title".to_owned(), Json::Text(title.to_owned())),
    ]);
    let launch = window_link(&info).and_then(|link| split(&link));
    Client { info, launch }
}

#[test]
fn zoom_topic_and_native_fallback() {
    assert_eq!(
        detect(&client(
            "chrome-app.zoom.us__wc_join_123-Default",
            "Team Sync"
        ))
        .unwrap()
        .title
        .as_deref(),
        Some("Team Sync")
    );
    assert_eq!(
        detect(&client("zoom", "Planning - Zoom Meeting"))
            .unwrap()
            .title
            .as_deref(),
        Some("Planning")
    );
    assert_eq!(detect(&client("zoom", "Zoom Meeting")).unwrap().title, None);
    assert!(detect(&client("chromium", "Zoom docs")).is_none());
}

#[test]
fn google_meet_web_app_and_visible_browser_tab() {
    for (class, title, expected) in [
        (
            "chrome-meet.google.com__-Default",
            "Design review",
            Some("Design review"),
        ),
        ("chromium", "Meet - abc-defg-hij - Chromium", None),
        (
            "google-chrome",
            "Design review - Google Meet - Google Chrome",
            Some("Design review"),
        ),
        ("firefox", "Meet - abc-defg-hij — Mozilla Firefox", None),
    ] {
        let m = detect(&client(class, title)).unwrap();
        assert_eq!(m.provider, "Google Meet");
        assert_eq!(m.title.as_deref(), expected);
    }
    assert!(detect(&client("terminal", "Meet - abc-defg-hij")).is_none());
}

#[test]
fn home_join_waiting_and_ended_screens_are_ignored() {
    for title in [
        "",
        "Zoom",
        "Zoom Workplace",
        "Join a Meeting",
        "Waiting for the host",
        "Ready to join?",
        "You left the meeting",
        "Google Meet",
        "Meet",
        "Sign in - Google Meet",
        "meet.google.com/abc-defg-hij",
        "Meet - ",
        "Bad\nTitle",
    ] {
        for class in [
            "chrome-meet.google.com__-Default",
            "chrome-app.zoom.us__wc_join_123-Default",
        ] {
            assert!(detect(&client(class, title)).is_none(), "{class}: {title}");
        }
    }
}

#[test]
fn codes_and_ambiguous_windows_are_not_used_as_names() {
    assert!(meet_code("abc-defg-hij"));
    assert!(!meet_code("abc-def-hijk"));
    let a = || client("chromium", "Meet - abc-defg-hij");
    let b = client("zoom", "Zoom Meeting");
    assert!(unique(&[a(), b]).is_none());
    assert!(unique(&[a()]).is_some());
}

#[test]
fn current_meet_code_overrides_launch_room() {
    let meeting = detect(&client(
        "chrome-meet.google.com__abc-defg-hij-Default",
        "Meet - klm-nopq-rst",
    ))
    .unwrap();
    assert_eq!(meeting.room.unwrap().id, "klm-nopq-rst");
}

#[test]
fn manual_titles_win_and_stale_suggestions_clear() {
    assert_eq!(suggested_title("", None, Some("Call")), Some("Call".into()));
    assert_eq!(suggested_title("My name", None, Some("Call")), None);
    assert_eq!(
        suggested_title("Edited name", Some("Call"), Some("Next")),
        None
    );
    assert_eq!(
        suggested_title("Call", Some("Call"), Some("Next")),
        Some("Next".into())
    );
    assert_eq!(suggested_title("Call", Some("Call"), None), Some("".into()));
}

#[test]
fn a_suggestion_that_stays_the_same_changes_nothing() {
    assert_eq!(suggested_title("Call", Some("Call"), Some("Call")), None);
    assert_eq!(suggested_title("", None, None), None);
}

#[test]
fn keys_tell_of_the_room_or_the_name() {
    let named = detect(&client("chromium", "Weekly - Google Meet")).unwrap();
    assert_eq!(named.key, "0x1:Google Meet:Weekly");
    assert_eq!(named.fallback_key, named.key);
    assert_eq!(named.window, "0x1");
    let coded = detect(&client("chromium", "Meet - abc-defg-hij")).unwrap();
    assert_eq!(coded.key, "0x1:Google Meet:room:abc-defg-hij");
    assert_eq!(coded.fallback_key, "0x1:Google Meet:abc-defg-hij");
    let app = detect(&client("chrome-app.zoom.us__wc_join_12345678901-D", "Call")).unwrap();
    assert_eq!(app.key, "0x1:Zoom:room:12345678901");
    assert_eq!(app.fallback_key, "0x1:Zoom:chrome-app.zoom.us__wc_join_12345678901-D");
}

#[test]
fn names_are_cut_short() {
    let long = format!("{} - Zoom Meeting", "é".repeat(300));
    let meeting = detect(&client("zoom.real", &long)).unwrap();
    assert_eq!(meeting.title, Some("é".repeat(200)));
}

#[test]
fn titles_and_classes_are_recognised() {
    assert_eq!(browser_title("Inbox - Chromium"), "Inbox");
    assert_eq!(browser_title("Inbox — Firefox"), "Inbox");
    assert_eq!(browser_title("Inbox - Safari"), "Inbox - Safari");
    assert!(browser("Google-Chrome"));
    assert!(!browser("safari"));
    assert!(generic("You've left the meeting now"));
    assert!(generic("LOADING…"));
    assert!(!generic("Weekly"));
}

#[test]
fn windows_without_a_class_an_address_or_a_title_are_no_meetings() {
    for missing in ["address", "class", "title"] {
        let members = [("address", "0x1"), ("class", "zoom"), ("title", "Zoom Meeting")];
        let info = Json::Object(
            members
                .into_iter()
                .filter(|(key, _)| *key != missing)
                .map(|(key, value)| (key.to_owned(), Json::Text(value.to_owned())))
                .collect(),
        );
        assert!(detect(&Client { info, launch: None }).is_none());
    }
}

fn output(success: bool, stdout: &[u8], stderr: &[u8]) -> Result<Output, String> {
    Ok(Output { success, stdout: stdout.to_vec(), stderr: stderr.to_vec() })
}

#[test]
fn the_windows_are_listed_or_it_is_said_why_not() {
    let windows = clients(&output(true, br#"[{"class":"zoom"},1]"#, b"")).unwrap();
    assert_eq!(windows.len(), 2);
    assert_eq!(windows[0].text_member("class"), Some("zoom"));
    let why = |output: Result<Output, String>| clients(&output).err().unwrap();
    assert_eq!(why(Err("gone".to_owned())), "Could not query Hyprland: gone");
    assert_eq!(why(output(false, b"", b" no socket \n")), "hyprctl: no socket");
    assert_eq!(
        why(output(true, b"{}", b"")),
        "Invalid Hyprland window list: invalid type: map, expected a sequence at line 1 column 0"
    );
}

#[test]
fn meetings_are_reported_with_provider_and_title() {
    let windows = [
        client("zoom", "Planning - Zoom Meeting"),
        client("terminal", "shell"),
        client("chromium", "Meet - abc-defg-hij"),
    ];
    assert_eq!(
        check(&windows),
        r#"[{"provider":"Zoom","title":"Planning"},{"provider":"Google Meet","title":null}]"#
    );
    assert_eq!(check(&[]), "[]");
}
