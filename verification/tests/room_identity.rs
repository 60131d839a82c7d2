use meeting_recorder::json::{read, Json};
use meeting_recorder::meeting_detection::{detect, window_link, Client};
use meeting_recorder::room_identity::{
    apply, augment, augment_from, from_class, launch_link, make_hint, parse, pasted, valid_hint, Hint, Room,
    Uri,
};

/// Splits a link of the plain shapes that are used here.
fn split(link: &str) -> Option<Uri> {
    let (scheme, rest) = link.split_once("://")?;
    let (authority, path) = match rest.find('/') {
        Some(i) => rest.split_at(i),
        None => (rest, ""),
    };
    let path = path.split(['?', '#']).next()?;
    let (userinfo, host) = match authority.split_once('@') {
        Some((user, host)) => (Some(user.to_owned()), host),
        None => (None, authority),
    };
    let (host, port) = match host.split_once(':') {
        Some((host, port)) => (host, port.parse().ok()?),
        None => (host, -1),
    };
    Some(Uri {
        scheme: scheme.to_owned(),
        userinfo,
        host: Some(host.to_owned()),
        port,
        path: path.to_owned(),
    })
}

fn link_room(link: &str) -> Result<Room, String> {
    parse(&split(pasted(link)))
}

fn class_room(class: &str) -> Option<Room> {
    let launch = launch_link(class).and_then(|link| split(pasted(&link)));
    from_class(class, &launch)
}

fn client(class: &str, title: &str) -> Client {
    let info = Json::Object(vec![
        ("address".to_owned(), Json::Text("0x1".to_owned())),
        ("class".to_owned(), Json::Text(class.to_owned())),
        ("title".to_owned(), Json::Text(title.to_owned())),
    ]);
    let launch = window_link(&info).and_then(|link| split(&link));
    Client { info, launch }
}

#[test]
fn links_drop_credentials_and_distinguish_rooms() {
    for url in [
        "https://zoom.us/j/12345678901?pwd=secret",
        "https://us02web.zoom.us/j/12345678901",
        "https://app.zoom.us/wc/join/12345678901",
        "https://app.zoom.us/wc/12345678901/join",
    ] {
        assert_eq!(link_room(url).unwrap().id, "12345678901");
        assert!(!format!("{:?}", link_room(url).unwrap()).contains("secret"));
    }
    assert_eq!(
        link_room("https://meet.google.com/abc-defg-hij?authuser=1")
            .unwrap()
            .id,
        "abc-defg-hij"
    );
    for url in [
        "https://zoom.us.evil.org/j/12345678901",
        "https://evilzoom.us/j/12345678901",
        "https://user@zoom.us/j/12345678901",
        "http://zoom.us/j/12345678901",
        "https://zoom.us/my/person",
        "https://meet.google.com/lookup/name",
    ] {
        assert!(link_room(url).is_err(), "{url}");
    }
}

#[test]
fn web_app_launch_ids() {
    assert_eq!(
        class_room("chrome-meet.google.com__abc-defg-hij-Default")
            .unwrap()
            .id,
        "abc-defg-hij"
    );
    assert_eq!(
        class_room("chrome-app.zoom.us__wc_join_12345678901-Default")
            .unwrap()
            .id,
        "12345678901"
    );
    assert!(class_room("chrome-meet.google.com__-Default").is_none());
}

#[test]
fn hints_are_scoped_and_expire() {
    let meeting = detect(&client("zoom", "Zoom Meeting")).unwrap();
    let hint = Hint {
        session: "session".into(),
        fallback: meeting.fallback_key.clone(),
        expires: 100,
        room: link_room("https://zoom.us/j/12345678901").unwrap(),
    };
    assert!(valid_hint(&hint, &meeting, "session", 99));
    assert!(!valid_hint(&hint, &meeting, "session", 100));
    assert!(!valid_hint(&hint, &meeting, "another-session", 99));
    let mut other = meeting.clone();
    other.fallback_key.push('x');
    assert!(!valid_hint(&hint, &other, "session", 99));
}

#[test]
fn the_shape_of_a_room_is_checked() {
    let room = |link: &str| link_room(link).ok().map(|room| (room.provider, room.id));
    let zoom = |id: &str| Some(("Zoom".to_owned(), id.to_owned()));
    assert_eq!(room(" https://ZOOM.us:443//j/123456789/ \n"), zoom("123456789"));
    assert_eq!(room("https://zoom.us/j/12345678"), None);
    assert_eq!(room("https://zoom.us/j/123456789012"), None);
    assert_eq!(room("https://zoom.us/j/12345678x"), None);
    assert_eq!(room("https://zoom.us:444/j/123456789"), None);
    assert_eq!(room("https://meet.google.com/abc-defg-hijk"), None);
    assert_eq!(room("no link"), None);
    assert_eq!(
        link_room("no link").unwrap_err(),
        "Enter a Google Meet room link or a Zoom numeric meeting link."
    );
}

#[test]
fn a_class_tells_its_launch_link() {
    assert_eq!(
        launch_link("chrome-meet.google.com__abc-defg-hij-Profile 1"),
        Some("https://meet.google.com/abc-defg-hij".to_owned())
    );
    assert_eq!(
        launch_link("chrome-app.zoom.us__wc_join_123-Default"),
        Some("https://app.zoom.us/wc/join/123".to_owned())
    );
    assert_eq!(launch_link("chrome-meet.google.com__abc-defg-hijk"), None);
    // Twelve bytes that end inside a character are no code.
    assert_eq!(launch_link("chrome-meet.google.com__abc-defg-hi\u{e9}-D"), None);
    assert_eq!(launch_link("chromium"), None);
    assert_eq!(launch_link("chrome-x_y"), None);
}

#[test]
fn a_hint_is_read_back_from_what_is_kept() {
    let windows = Ok(vec![client("zoom", "Zoom Meeting")]);
    let uri = split("https://zoom.us/j/12345678901");
    let kept = apply(&uri, &windows, Some("session"), 100).unwrap();
    let document = read(&kept).unwrap();
    assert_eq!(document.integer_member("expires"), Some(7300));
    assert_eq!(document.text_member("provider"), Some("Zoom"));
    let hint = Hint::from_json(&document).unwrap();
    assert_eq!(hint.room.id, "12345678901");
    assert!(Hint::from_json(&Json::Null).is_none());

    let mut meeting = detect(&client("zoom", "Zoom Meeting")).unwrap();
    let before = meeting.clone();
    augment(&mut meeting, Some(kept.as_bytes()), "session", 7300);
    assert_eq!(meeting, before);
    augment(&mut meeting, Some(b"broken"), "session", 7299);
    assert_eq!(meeting, before);
    augment(&mut meeting, None, "session", 7299);
    assert_eq!(meeting, before);
    augment(&mut meeting, Some(kept.as_bytes()), "session", 7299);
    assert_eq!(meeting.room.unwrap().id, "12345678901");
    assert_eq!(meeting.key, "0x1:Zoom:room:12345678901");
}

#[test]
fn a_hint_puts_a_meeting_into_its_room() {
    let windows = Ok(vec![client("zoom", "Zoom Meeting")]);
    let uri = split("https://zoom.us/j/12345678901");
    let hint = make_hint(&uri, &windows, Some("session"), 100).ok().unwrap();
    assert_eq!((hint.session.as_str(), hint.expires), ("session", 7300));
    assert_eq!(hint.fallback, "0x1:Zoom:zoom");
    let mut meeting = detect(&client("zoom", "Zoom Meeting")).unwrap();
    augment_from(&mut meeting, &None, "session", 200);
    assert_eq!(meeting.room, None);
    augment_from(&mut meeting, &Some(hint.json()), "session", 200);
    assert_eq!(meeting.room, Some(hint.room.clone()));
    // A meeting that is in a room already stays there.
    let mut other = detect(&client("chromium", "Meet - abc-defg-hij")).unwrap();
    let before = other.clone();
    augment_from(&mut other, &Some(hint.json()), "session", 200);
    assert_eq!(other, before);
}

#[test]
fn a_link_that_does_not_apply_says_why() {
    let zoom = split("https://zoom.us/j/12345678901");
    let why = |uri: &Option<Uri>, windows: Result<Vec<Client>, String>, session: Option<&str>| {
        apply(uri, &windows, session, i64::MAX).unwrap_err()
    };
    assert!(why(&None, Ok(vec![]), None).starts_with("Enter a Google Meet room link"));
    assert_eq!(why(&zoom, Err("no windows".to_owned()), None), "no windows");
    assert_eq!(
        why(&zoom, Ok(vec![]), None),
        "Open exactly one meeting window before applying its link."
    );
    assert_eq!(
        why(&zoom, Ok(vec![client("chromium", "Meet - abc-defg-hij")]), None),
        "The link must match the detected meeting provider."
    );
    assert_eq!(
        why(
            &zoom,
            Ok(vec![client("chrome-app.zoom.us__wc_join_98765432109-D", "Call")]),
            None
        ),
        "The link does not match the room ID exposed by the meeting window."
    );
    assert_eq!(
        why(&zoom, Ok(vec![client("zoom", "Zoom Meeting")]), None),
        "No Hyprland session"
    );
    // The time to expire stops at the highest there is.
    let kept = apply(&zoom, &Ok(vec![client("zoom", "Zoom Meeting")]), Some("s"), i64::MAX - 1);
    let document = read(&kept.unwrap()).unwrap();
    assert_eq!(document.integer_member("expires"), Some(i64::MAX));
}

#[test]
fn a_room_is_of_the_provider_of_its_meeting() {
    for (class, title, provider) in [
        ("chrome-app.zoom.us__wc_join_12345678901-Default", "Team Sync", "Zoom"),
        ("chrome-app.zoom.us__wc_12345678901_join-Default", "Team Sync", "Zoom"),
        ("chrome-meet.google.com__abc-defg-hij-Default", "Design", "Google Meet"),
        ("chrome-meet.google.com__abc-defg-hij-Default", "Meet - xyz-abcd-efg", "Google Meet"),
    ] {
        let meeting = detect(&client(class, title)).unwrap();
        assert_eq!(meeting.provider, provider);
        assert_eq!(meeting.room.unwrap().provider, provider);
    }
}
