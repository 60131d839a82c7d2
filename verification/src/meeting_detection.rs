//! Meetings in the windows of the desktop. A window that looks like a meeting is
//! a hint, not proof that a call was joined: a browser shows the same title on
//! the page before it.
use vstd::prelude::*;
use vstd::string::StringExecFns;

use crate::command::Output;
use crate::json;
use crate::json::Json;
use crate::room_identity;
use crate::room_identity::{
    from_class, launch_link, pasted, Room, RoomView, Uri, GOOGLE_MEET, ZOOM,
};
use crate::text;

verus! {

/// A window of the desktop: what the compositor tells of it, and the split of
/// the link that its class says it was launched with (see [`window_link`]).
pub struct Client {
    pub info: Json,
    pub launch: Option<Uri>,
}

impl Client {
    pub open spec fn class(self) -> Option<Seq<char>> {
        self.info.tree().member("class"@).text()
    }

    pub open spec fn address(self) -> Option<Seq<char>> {
        self.info.tree().member("address"@).text()
    }

    pub open spec fn title(self) -> Option<Seq<char>> {
        self.info.tree().member("title"@).text()
    }
}

/// A meeting in a window.
#[derive(Debug, PartialEq)]
pub struct DetectedMeeting {
    /// What tells it from other meetings: the room where it is known, else the
    /// same as `fallback_key`.
    pub key: String,
    /// What tells it from other meetings where the room is not known.
    pub fallback_key: String,
    pub room: Option<Room>,
    pub window: String,
    pub provider: &'static str,
    pub title: Option<String>,
}

/// What a [`DetectedMeeting`] says.
pub struct MeetingView {
    pub key: Seq<char>,
    pub fallback_key: Seq<char>,
    pub room: Option<RoomView>,
    pub window: Seq<char>,
    pub provider: Seq<char>,
    pub title: Option<Seq<char>>,
}

impl View for DetectedMeeting {
    type V = MeetingView;

    open spec fn view(&self) -> MeetingView {
        MeetingView {
            key: self.key@,
            fallback_key: self.fallback_key@,
            room: room_identity::room_view(self.room),
            window: self.window@,
            provider: self.provider@,
            title: text::owned(self.title),
        }
    }
}

/// The meeting of an optional [`DetectedMeeting`].
pub open spec fn meeting_view(meeting: Option<DetectedMeeting>) -> Option<MeetingView> {
    match meeting {
        Some(meeting) => Some(meeting@),
        None => None,
    }
}

impl Clone for DetectedMeeting {
    fn clone(&self) -> (r: Self)
        ensures
            r@ == self@,
    {
        DetectedMeeting {
            key: self.key.clone(),
            fallback_key: self.fallback_key.clone(),
            room: match &self.room {
                Some(room) => Some(room.clone()),
                None => None,
            },
            window: self.window.clone(),
            provider: self.provider,
            title: text::copied(&self.title),
        }
    }
}

/// A title without the name of the browser behind it.
pub open spec fn page_title(title: Seq<char>) -> Seq<char> {
    text::trimmed(
        match (
            text::before_suffix(title, " - Google Chrome"@),
            text::before_suffix(title, " - Chromium"@),
            text::before_suffix(title, " - Brave"@),
            text::before_suffix(title, " - Microsoft Edge"@),
            text::before_suffix(title, " — Mozilla Firefox"@),
            text::before_suffix(title, " — Firefox"@),
        ) {
            (Some(page), _, _, _, _, _) => page,
            (_, Some(page), _, _, _, _) => page,
            (_, _, Some(page), _, _, _) => page,
            (_, _, _, Some(page), _, _) => page,
            (_, _, _, _, Some(page), _) => page,
            (_, _, _, _, _, Some(page)) => page,
            _ => title,
        },
    )
}

/// `title` without the name of the browser behind it.
pub fn browser_title<'a>(title: &'a str) -> (r: &'a str)
    ensures
        r@ == page_title(title@),
{
    let page = if let Some(page) = text::strip_suffix(title, " - Google Chrome") {
        page
    } else if let Some(page) = text::strip_suffix(title, " - Chromium") {
        page
    } else if let Some(page) = text::strip_suffix(title, " - Brave") {
        page
    } else if let Some(page) = text::strip_suffix(title, " - Microsoft Edge") {
        page
    } else if let Some(page) = text::strip_suffix(title, " — Mozilla Firefox") {
        page
    } else if let Some(page) = text::strip_suffix(title, " — Firefox") {
        page
    } else {
        title
    };
    text::trim(page)
}

/// Whether windows of `class`, in small letters, are those of a browser.
pub open spec fn is_browser(class: Seq<char>) -> bool {
    ||| class == "chromium"@
    ||| class == "google-chrome"@
    ||| class == "google-chrome-stable"@
    ||| class == "brave-browser"@
    ||| class == "brave"@
    ||| class == "firefox"@
    ||| class == "org.mozilla.firefox"@
    ||| class == "microsoft-edge"@
}

/// Whether windows of `class` are those of a browser.
pub fn browser(class: &str) -> (r: bool)
    ensures
        r == is_browser(text::lowered(class@)),
{
    let lower = text::to_lower(class);
    let class = lower.as_str();
    text::same(class, "chromium") || text::same(class, "google-chrome") || text::same(
        class,
        "google-chrome-stable",
    ) || text::same(class, "brave-browser") || text::same(class, "brave") || text::same(
        class,
        "firefox",
    ) || text::same(class, "org.mozilla.firefox") || text::same(class, "microsoft-edge")
}

/// The shape of a Google Meet code: three, four and three small letters with
/// hyphens between.
pub open spec fn is_meet_code(s: Seq<char>) -> bool {
    s.len() == 12 && forall|i: int|
        0 <= i < 12 ==> if i == 3 || i == 8 {
            #[trigger] s[i] == '-'
        } else {
            text::ascii_lowercase(s[i])
        }
}

/// Whether `text` is a Google Meet code.
pub fn meet_code(text: &str) -> (r: bool)
    ensures
        r == is_meet_code(text@),
{
    let chars = text::characters(text);
    if chars.len() != 12 {
        return false;
    }
    for i in 0..12usize
        invariant
            chars@ == text@,
            chars.len() == 12,
            forall|j: int|
                0 <= j < i ==> if j == 3 || j == 8 {
                    #[trigger] chars@[j] == '-'
                } else {
                    text::ascii_lowercase(chars@[j])
                },
    {
        let fits = if i == 3 || i == 8 {
            chars[i] == '-'
        } else {
            text::is_ascii_lowercase(chars[i])
        };
        if !fits {
            return false;
        }
    }
    true
}

/// Whether a title, in small letters, is that of a page around a meeting: the
/// home page, the way in, the waiting room and the end.
pub open spec fn is_generic(title: Seq<char>) -> bool {
    ||| title == ""@
    ||| title == "zoom"@
    ||| title == "zoom workplace"@
    ||| title == "zoom meetings"@
    ||| title == "zoom web client"@
    ||| title == "google meet"@
    ||| title == "meet"@
    ||| title == "meet -"@
    ||| title == "join meeting"@
    ||| title == "join a meeting"@
    ||| title == "join a meeting - zoom"@
    ||| title == "launch meeting - zoom"@
    ||| title == "loading…"@
    ||| title == "loading..."@
    ||| "http://"@.is_prefix_of(title)
    ||| "https://"@.is_prefix_of(title)
    ||| "app.zoom.us"@.is_prefix_of(title)
    ||| "meet.google.com"@.is_prefix_of(title)
    ||| text::holds(title, "waiting for the host"@)
    ||| text::holds(title, "waiting room"@)
    ||| text::holds(title, "ready to join"@)
    ||| text::holds(title, "you left the meeting"@)
    ||| text::holds(title, "you've left the meeting"@)
    ||| text::holds(title, "meeting has ended"@)
    ||| "sign in"@.is_prefix_of(title)
}

/// Whether `title` is that of a page around a meeting.
pub fn generic(title: &str) -> (r: bool)
    ensures
        r == is_generic(text::lowered(title@)),
{
    let lower = text::to_lower(title);
    let title = lower.as_str();
    text::same(title, "") || text::same(title, "zoom") || text::same(title, "zoom workplace")
        || text::same(title, "zoom meetings") || text::same(title, "zoom web client")
        || text::same(title, "google meet") || text::same(title, "meet") || text::same(
        title,
        "meet -",
    ) || text::same(title, "join meeting") || text::same(title, "join a meeting") || text::same(
        title,
        "join a meeting - zoom",
    ) || text::same(title, "launch meeting - zoom") || text::same(title, "loading…")
        || text::same(title, "loading...") || text::starts_with(title, "http://")
        || text::starts_with(title, "https://") || text::starts_with(title, "app.zoom.us")
        || text::starts_with(title, "meet.google.com") || text::contains(
        title,
        "waiting for the host",
    ) || text::contains(title, "waiting room") || text::contains(title, "ready to join")
        || text::contains(title, "you left the meeting") || text::contains(
        title,
        "you've left the meeting",
    ) || text::contains(title, "meeting has ended") || text::starts_with(title, "sign in")
}

/// Whether a control character stands in `s`.
pub open spec fn has_control(s: Seq<char>) -> bool {
    exists|i: int| 0 <= i < s.len() && text::control(#[trigger] s[i])
}

pub(crate) fn any_control(text: &str) -> (r: bool)
    ensures
        r == has_control(text@),
{
    let chars = text::characters(text);
    for i in 0..chars.len()
        invariant
            chars@ == text@,
            forall|j: int| 0 <= j < i ==> !text::control(#[trigger] chars@[j]),
    {
        if text::is_control(chars[i]) {
            return true;
        }
    }
    false
}

/// Whether `s` starts with an ASCII digit.
pub open spec fn starts_with_digit(s: Seq<char>) -> bool {
    s.len() > 0 && text::ascii_digit(s[0])
}

/// Whether the class of a window is that of Zoom in a web app.
pub open spec fn zoom_web(class: Seq<char>, room: Option<RoomView>) -> bool {
    ||| room is Some && room.unwrap().provider == ZOOM@
    ||| match text::after_prefix(class, "chrome-app.zoom.us__wc_join_"@) {
        Some(rest) => starts_with_digit(rest),
        None => match text::after_prefix(class, "chrome-app.zoom.us__wc_"@) {
            Some(rest) => starts_with_digit(rest),
            None => false,
        },
    }
}

/// Whether a window is that of the Zoom program in a meeting.
pub open spec fn zoom_native(class: Seq<char>, title: Seq<char>) -> bool {
    (class == "zoom"@ || class == "Zoom"@ || class == "zoom.real"@) && (title == "Zoom Meeting"@
        || " - Zoom Meeting"@.is_suffix_of(title))
}

/// The name of a meeting in a title of Zoom, if it has one.
pub open spec fn zoom_name(title: Seq<char>) -> Option<Seq<char>> {
    if title == "Zoom Meeting"@ {
        None
    } else {
        match text::before_suffix(title, " - Zoom Meeting"@) {
            Some(name) => Some(name),
            None => Some(title),
        }
    }
}

/// What a title that is marked as Google Meet's has beside the mark.
pub open spec fn meet_mark(title: Seq<char>) -> Option<Seq<char>> {
    match text::after_prefix(title, "Meet - "@) {
        Some(name) => Some(name),
        None => text::before_suffix(title, " - Google Meet"@),
    }
}

/// The name or code of a meeting in a title of Google Meet.
pub open spec fn meet_name(title: Seq<char>) -> Seq<char> {
    text::trimmed(
        match meet_mark(title) {
            Some(name) => name,
            None => title,
        },
    )
}

/// Whether a window can be that of a meeting on Google Meet.
pub open spec fn meet_window(class: Seq<char>, title: Seq<char>) -> bool {
    "chrome-meet.google.com__"@.is_prefix_of(class) || (is_browser(text::lowered(class))
        && meet_mark(title) is Some)
}

/// A name to show: trimmed, at most 200 characters, and none where nothing is
/// left.
pub open spec fn shown_name(name: Option<Seq<char>>) -> Option<Seq<char>> {
    match name {
        Some(name) => if text::trimmed(name).len() == 0 {
            None
        } else {
            Some(text::first(text::trimmed(name), 200))
        },
        None => None,
    }
}

/// The key of a meeting whose room is not known.
pub open spec fn plain_key(
    window: Seq<char>,
    provider: Seq<char>,
    identity: Seq<char>,
) -> Seq<char> {
    window + ":"@ + provider + ":"@ + identity
}

/// The key of a meeting in a room.
pub open spec fn room_key(window: Seq<char>, provider: Seq<char>, id: Seq<char>) -> Seq<char> {
    window + ":"@ + provider + ":room:"@ + id
}

impl MeetingView {
    /// The same meeting, known to be in `room`.
    pub open spec fn in_room(self, room: RoomView) -> MeetingView {
        MeetingView {
            key: room_key(self.window, self.provider, room.id),
            room: Some(room),
            ..self
        }
    }
}

/// The meeting of a provider in a window, in a room where one is known.
pub open spec fn meeting_of(
    window: Seq<char>,
    provider: Seq<char>,
    name: Option<Seq<char>>,
    identity: Seq<char>,
    room: Option<RoomView>,
) -> MeetingView {
    let meeting = MeetingView {
        key: plain_key(window, provider, identity),
        fallback_key: plain_key(window, provider, identity),
        room: None,
        window,
        provider,
        title: shown_name(name),
    };
    match room {
        Some(room) => meeting.in_room(room),
        None => meeting,
    }
}

/// The meeting that a class and a title tell of, if they tell of one. A Meet code
/// in the title is a room, whatever room the window was launched with, and is no
/// name.
pub open spec fn recognized(
    window: Seq<char>,
    class: Seq<char>,
    title: Seq<char>,
    room: Option<RoomView>,
) -> Option<MeetingView> {
    if window.len() == 0 || has_control(title) || is_generic(text::lowered(title)) {
        None
    } else if zoom_web(class, room) || zoom_native(class, title) {
        Some(meeting_of(window, ZOOM@, zoom_name(title), class, room))
    } else if !meet_window(class, title) || is_generic(text::lowered(meet_name(title))) {
        None
    } else if is_meet_code(meet_name(title)) {
        Some(
            meeting_of(
                window,
                GOOGLE_MEET@,
                None,
                meet_name(title),
                Some(RoomView { provider: GOOGLE_MEET@, id: meet_name(title) }),
            ),
        )
    } else {
        Some(
            meeting_of(window, GOOGLE_MEET@, Some(meet_name(title)), meet_name(title), room),
        )
    }
}

/// The meeting in a window, if there is one.
pub open spec fn detected(client: Client) -> Option<MeetingView> {
    match (client.class(), client.address(), client.title()) {
        (Some(class), Some(window), Some(title)) => recognized(
            window,
            class,
            page_title(text::trimmed(title)),
            room_identity::class_room(class, client.launch),
        ),
        _ => None,
    }
}

fn is_zoom_web(class: &str, room: &Option<Room>) -> (r: bool)
    ensures
        r == zoom_web(class@, room_identity::room_view(*room)),
{
    if let Some(room) = room {
        if text::same(room.provider.as_str(), ZOOM) {
            return true;
        }
    }
    let rest = match text::strip_prefix(class, "chrome-app.zoom.us__wc_join_") {
        Some(rest) => Some(rest),
        None => text::strip_prefix(class, "chrome-app.zoom.us__wc_"),
    };
    match rest {
        Some(rest) => {
            let chars = text::characters(rest);
            chars.len() > 0 && text::is_ascii_digit(chars[0])
        },
        None => false,
    }
}

fn is_zoom_native(class: &str, title: &str) -> (r: bool)
    ensures
        r == zoom_native(class@, title@),
{
    (text::same(class, "zoom") || text::same(class, "Zoom") || text::same(class, "zoom.real")) && (
    text::same(title, "Zoom Meeting") || text::ends_with(title, " - Zoom Meeting"))
}

fn find_zoom_name<'a>(title: &'a str) -> (r: Option<&'a str>)
    ensures
        text::viewed(r) == zoom_name(title@),
{
    if text::same(title, "Zoom Meeting") {
        None
    } else {
        match text::strip_suffix(title, " - Zoom Meeting") {
            Some(name) => Some(name),
            None => Some(title),
        }
    }
}

fn find_meet_mark<'a>(title: &'a str) -> (r: Option<&'a str>)
    ensures
        text::viewed(r) == meet_mark(title@),
{
    match text::strip_prefix(title, "Meet - ") {
        Some(name) => Some(name),
        None => text::strip_suffix(title, " - Google Meet"),
    }
}

fn show_name(name: Option<&str>) -> (r: Option<String>)
    ensures
        text::owned(r) == shown_name(text::viewed(name)),
{
    match name {
        Some(name) => {
            let trimmed = text::trim(name);
            if trimmed.is_empty() {
                None
            } else {
                Some(text::take(trimmed, 200))
            }
        },
        None => None,
    }
}

fn make_meeting(
    window: &str,
    provider: &'static str,
    name: Option<&str>,
    identity: &str,
    room: Option<Room>,
) -> (r: DetectedMeeting)
    ensures
        r@ == meeting_of(
            window@,
            provider@,
            text::viewed(name),
            identity@,
            room_identity::room_view(room),
        ),
{
    let key = window.to_owned().concat(":").concat(provider).concat(":").concat(identity);
    let mut meeting = DetectedMeeting {
        key: key.clone(),
        fallback_key: key,
        room: None,
        window: window.to_owned(),
        provider,
        title: show_name(name),
    };
    if let Some(room) = room {
        meeting.set_room(room);
    }
    meeting
}

/// The meeting in a window, if there is one.
pub fn detect(client: &Client) -> (r: Option<DetectedMeeting>)
    ensures
        meeting_view(r) == detected(*client),
{
    let class = match client.info.text_member("class") {
        Some(class) => class,
        None => {
            return None;
        },
    };
    let window = match client.info.text_member("address") {
        Some(window) => window,
        None => {
            return None;
        },
    };
    let title = match client.info.text_member("title") {
        Some(title) => browser_title(text::trim(title)),
        None => {
            return None;
        },
    };
    if window.is_empty() || any_control(title) || generic(title) {
        return None;
    }
    let room = from_class(class, &client.launch);
    if is_zoom_web(class, &room) || is_zoom_native(class, title) {
        return Some(make_meeting(window, ZOOM, find_zoom_name(title), class, room));
    }
    let marked = find_meet_mark(title);
    if !text::starts_with(class, "chrome-meet.google.com__") && !(browser(class)
        && marked.is_some()) {
        return None;
    }
    let name = match marked {
        Some(name) => text::trim(name),
        None => text::trim(title),
    };
    if generic(name) {
        return None;
    }
    if meet_code(name) {
        let room = Room { provider: GOOGLE_MEET.to_owned(), id: name.to_owned() };
        Some(make_meeting(window, GOOGLE_MEET, None, name, Some(room)))
    } else {
        Some(make_meeting(window, GOOGLE_MEET, Some(name), name, room))
    }
}

impl DetectedMeeting {
    /// Notes the room that the meeting is in, which then tells it from others.
    pub fn set_room(&mut self, room: Room)
        ensures
            final(self)@ == old(self)@.in_room(room@),
    {
        self.key =
        self.window.clone().concat(":").concat(self.provider).concat(":room:").concat(
            room.id.as_str(),
        );
        self.room = Some(room);
    }
}

/// The link that a window says it was launched with, to be split for its
/// [`Client`]: as of a pasted one, the white space around it is left out.
pub fn window_link(info: &Json) -> (r: Option<String>)
    ensures
        text::owned(r) == match info.tree().member("class"@).text() {
            Some(class) => match room_identity::class_link(class) {
                Some(link) => Some(text::trimmed(link)),
                None => None,
            },
            None => None,
        },
{
    match info.text_member("class") {
        Some(class) => match launch_link(class) {
            Some(link) => Some(pasted(link.as_str()).to_owned()),
            None => None,
        },
        None => None,
    }
}

/// The windows that a run of `hyprctl -j clients` tells of, or why it tells of
/// none.
pub open spec fn listed(
    output: Result<crate::command::OutputView, Seq<char>>,
) -> Result<Seq<json::Tree>, Seq<char>> {
    match output {
        Err(error) => Err("Could not query Hyprland: "@ + error),
        Ok(output) => if !output.success {
            Err("hyprctl: "@ + text::trimmed(text::lossy_text(output.stderr)))
        } else {
            match json::json_byte_list(output.stdout) {
                Ok(windows) => Ok(windows),
                Err(error) => Err("Invalid Hyprland window list: "@ + error),
            }
        },
    }
}

/// The windows that a run of `hyprctl -j clients` tells of, or why it tells of
/// none.
pub fn clients(output: &Result<Output, String>) -> (r: Result<Vec<Json>, String>)
    ensures
        json::list_view(r) == listed(crate::command::output_view(*output)),
{
    match output {
        Err(error) => Err("Could not query Hyprland: ".to_owned().concat(error.as_str())),
        Ok(output) => {
            if !output.success {
                let stderr = text::lossy(output.stderr.as_slice());
                return Err("hyprctl: ".to_owned().concat(text::trim(stderr.as_str())));
            }
            match json::read_byte_list(output.stdout.as_slice()) {
                Ok(windows) => Ok(windows),
                Err(error) => Err(
                    "Invalid Hyprland window list: ".to_owned().concat(error.as_str()),
                ),
            }
        },
    }
}

/// The meetings in `clients`, in their order.
pub open spec fn meetings(clients: Seq<Client>) -> Seq<MeetingView>
    decreases clients.len(),
{
    if clients.len() == 0 {
        Seq::empty()
    } else {
        let before = meetings(clients.drop_last());
        match detected(clients.last()) {
            Some(meeting) => before.push(meeting),
            None => before,
        }
    }
}

/// The meeting in `clients`, where there is exactly one.
pub open spec fn only_meeting(clients: Seq<Client>) -> Option<MeetingView> {
    if meetings(clients).len() == 1 {
        Some(meetings(clients)[0])
    } else {
        None
    }
}

proof fn lemma_meetings_grow(clients: Seq<Client>, n: int)
    requires
        0 <= n <= clients.len(),
    ensures
        meetings(clients.take(n)).len() <= meetings(clients).len(),
    decreases clients.len() - n,
{
    if n < clients.len() {
        assert(clients.take(n + 1).drop_last() =~= clients.take(n));
        lemma_meetings_grow(clients, n + 1);
    } else {
        assert(clients.take(n) =~= clients);
    }
}

/// The meeting in `clients`, where there is exactly one: which of several is
/// meant is never guessed.
pub fn unique(clients: &[Client]) -> (r: Option<DetectedMeeting>)
    ensures
        meeting_view(r) == only_meeting(clients@),
{
    let mut only: Option<DetectedMeeting> = None;
    for i in 0..clients.len()
        invariant
            match only {
                Some(meeting) => meetings(clients@.take(i as int)) == seq![meeting@],
                None => meetings(clients@.take(i as int)).len() == 0,
            },
    {
        proof {
            assert(clients@.take(i + 1).drop_last() =~= clients@.take(i as int));
            lemma_meetings_grow(clients@, i + 1);
        }
        if let Some(meeting) = detect(&clients[i]) {
            if only.is_some() {
                return None;
            }
            proof {
                assert(meetings(clients@.take(i + 1)) =~= seq![meeting@]);
            }
            only = Some(meeting);
        }
    }
    proof {
        assert(clients@.take(clients@.len() as int) =~= clients@);
    }
    only
}

/// The name that a suggestion changes the field to, if it changes it.
pub open spec fn suggestion(
    current: Seq<char>,
    previous: Option<Seq<char>>,
    detected: Option<Seq<char>>,
) -> Option<Seq<char>> {
    let next = match detected {
        Some(name) => name,
        None => Seq::empty(),
    };
    if current.len() > 0 && previous != Some(current) {
        None
    } else if current == next {
        None
    } else {
        Some(next)
    }
}

/// The name to put in the field, if it is to change. A name that was typed stays.
/// A suggestion that was left as it is follows the detected meeting, and is
/// cleared when the meeting is gone.
pub fn suggested_title(
    current: &str,
    previous: Option<&str>,
    detected: Option<&str>,
) -> (r: Option<String>)
    ensures
        text::owned(r) == suggestion(current@, text::viewed(previous), text::viewed(detected)),
{
    if !current.is_empty() && !text::same_option(Some(current), previous) {
        return None;
    }
    let next: String = match detected {
        Some(name) => name.to_owned(),
        None => String::new(),
    };
    if text::same(current, next.as_str()) {
        None
    } else {
        Some(next)
    }
}

/// What is reported of a meeting.
pub open spec fn report_tree(meeting: MeetingView) -> json::Tree {
    json::Tree::Object(
        map![
            "provider"@ => json::Tree::Text(meeting.provider),
            "title"@ => match meeting.title {
                Some(title) => json::Tree::Text(title),
                None => json::Tree::Null,
            },
        ],
    )
}

pub open spec fn reports(meetings: Seq<MeetingView>) -> Seq<json::Tree> {
    meetings.map_values(|meeting: MeetingView| report_tree(meeting))
}

fn report_json(meeting: &DetectedMeeting) -> (r: Json)
    ensures
        r.tree() == report_tree(meeting@),
        r.writable(1),
{
    let title = match &meeting.title {
        Some(title) => Json::Text(title.clone()),
        None => Json::Null,
    };
    let mut members: Vec<(String, Json)> = Vec::new();
    members.push(("provider".to_owned(), Json::Text(meeting.provider.to_owned())));
    members.push(("title".to_owned(), title));
    proof {
        reveal_strlit("provider");
        reveal_strlit("title");
        assert("provider"@.len() != "title"@.len());
        reveal_with_fuel(json::member_trees, 3);
        assert(members@.drop_last().drop_last().len() == 0);
        assert(json::member_trees(members@) =~= report_tree(meeting@)->Object_0);
        reveal_with_fuel(Json::writable, 2);
    }
    Json::Object(members)
}

/// The meetings in `clients` as a list of their providers and titles.
pub fn report(clients: &[Client]) -> (r: Json)
    ensures
        r.tree() == json::Tree::Array(reports(meetings(clients@))),
        r.writable(100),
{
    let mut items: Vec<Json> = Vec::new();
    for i in 0..clients.len()
        invariant
            json::list_trees(items@) == reports(meetings(clients@.take(i as int))),
            forall|k: int| 0 <= k < items@.len() ==> (#[trigger] items@[k]).writable(1),
    {
        proof {
            assert(clients@.take(i + 1).drop_last() =~= clients@.take(i as int));
        }
        if let Some(meeting) = detect(&clients[i]) {
            let item = report_json(&meeting);
            let ghost before = items@;
            items.push(item);
            proof {
                assert(items@.drop_last() =~= before);
                let found = meetings(clients@.take(i as int));
                assert(reports(found.push(meeting@)) =~= reports(found).push(
                    report_tree(meeting@),
                ));
            }
        }
    }
    proof {
        assert(clients@.take(clients@.len() as int) =~= clients@);
    }
    let list = Json::Array(items);
    proof {
        json::lemma_writable_deeper(list, 2, 100);
    }
    list
}

/// The meetings in `clients` as a JSON list of their providers and titles.
pub fn check(clients: &[Client]) -> (r: String)
    ensures
        r@ == json::json_text(json::Tree::Array(reports(meetings(clients@)))),
{
    let list = report(clients);
    json::write(&list)
}

/// In one window and for one provider, two rooms have the same key only where they
/// are the same.
pub proof fn keys_tell_rooms_apart(
    window: Seq<char>,
    provider: Seq<char>,
    a: Seq<char>,
    b: Seq<char>,
)
    requires
        room_key(window, provider, a) == room_key(window, provider, b),
    ensures
        a == b,
{
    let start = window + ":"@ + provider + ":room:"@;
    assert(room_key(window, provider, a).skip(start.len() as int) =~= a);
    assert(room_key(window, provider, b).skip(start.len() as int) =~= b);
}

/// Whether every character of `part` is one of `whole`.
spec fn within(part: Seq<char>, whole: Seq<char>) -> bool {
    part.len() <= whole.len() && forall|i: int|
        0 <= i < part.len() ==> whole.contains(#[trigger] part[i])
}

proof fn lemma_within(part: Seq<char>, middle: Seq<char>, whole: Seq<char>)
    requires
        within(part, middle),
        within(middle, whole),
    ensures
        within(part, whole),
{
    assert forall|i: int| 0 <= i < part.len() implies whole.contains(#[trigger] part[i]) by {
        let j = choose|j: int| 0 <= j < middle.len() && middle[j] == part[i];
        assert(whole.contains(middle[j]));
    }
}

proof fn lemma_subrange_within(s: Seq<char>, a: int, b: int)
    requires
        0 <= a <= b <= s.len(),
    ensures
        within(s.subrange(a, b), s),
{
    assert forall|i: int| 0 <= i < b - a implies s.contains(#[trigger] s.subrange(a, b)[i]) by {
        assert(s[a + i] == s.subrange(a, b)[i]);
    }
}

proof fn lemma_no_control(part: Seq<char>, whole: Seq<char>)
    requires
        within(part, whole),
        !has_control(whole),
    ensures
        !has_control(part),
{
    assert forall|i: int| 0 <= i < part.len() implies !text::control(#[trigger] part[i]) by {
        let j = choose|j: int| 0 <= j < whole.len() && whole[j] == part[i];
        assert(!text::control(whole[j]));
    }
}

proof fn lemma_shown_name(name: Seq<char>, title: Seq<char>)
    requires
        within(name, title),
        !has_control(title),
    ensures
        shown_name(Some(name)) matches Some(shown) ==> 0 < shown.len() <= 200 && !has_control(
            shown,
        ),
{
    let trimmed = text::trimmed(name);
    text::lemma_trimmed(name);
    lemma_within(trimmed, name, title);
    if trimmed.len() > 200 {
        lemma_subrange_within(trimmed, 0, 200);
        assert(trimmed.take(200) =~= trimmed.subrange(0, 200));
        lemma_within(trimmed.take(200), trimmed, title);
        lemma_no_control(trimmed.take(200), title);
    } else {
        lemma_no_control(trimmed, title);
    }
}

proof fn lemma_names(title: Seq<char>)
    ensures
        zoom_name(title) matches Some(name) ==> within(name, title),
        within(meet_name(title), title),
{
    reveal_strlit(" - Zoom Meeting");
    reveal_strlit("Meet - ");
    reveal_strlit(" - Google Meet");
    let n = title.len() as int;
    lemma_subrange_within(title, 0, n);
    assert(title.subrange(0, n) =~= title);
    if let Some(name) = text::before_suffix(title, " - Zoom Meeting"@) {
        lemma_subrange_within(title, 0, n - 15);
        assert(name =~= title.subrange(0, n - 15));
    }
    let marked = match meet_mark(title) {
        Some(name) => name,
        None => title,
    };
    if let Some(name) = text::after_prefix(title, "Meet - "@) {
        lemma_subrange_within(title, 7, n);
        assert(name =~= title.subrange(7, n));
    } else if let Some(name) = text::before_suffix(title, " - Google Meet"@) {
        lemma_subrange_within(title, 0, n - 14);
        assert(name =~= title.subrange(0, n - 14));
    }
    text::lemma_trimmed(marked);
    lemma_within(text::trimmed(marked), marked, title);
}

/// The name of a meeting can be shown: it is not empty, has at most 200 characters
/// and no control characters.
pub proof fn names_can_be_shown(client: Client)
    ensures
        detected(client) matches Some(meeting) ==> (meeting.title matches Some(name) ==> 0
            < name.len() <= 200 && !has_control(name)),
{
    if let (Some(class), Some(window), Some(title)) = (
        client.class(),
        client.address(),
        client.title(),
    ) {
        let title = page_title(text::trimmed(title));
        lemma_names(title);
        if !has_control(title) {
            lemma_shown_name(meet_name(title), title);
            if let Some(name) = zoom_name(title) {
                lemma_shown_name(name, title);
            }
        }
    }
}

/// A code is never the name of a meeting on Google Meet.
pub proof fn a_code_is_no_name(client: Client)
    ensures
        detected(client) matches Some(meeting) ==> (meeting.provider == GOOGLE_MEET@
            && meeting.title is Some ==> !is_meet_code(meeting.title.unwrap())),
{
    reveal_strlit("Google Meet");
    reveal_strlit("Zoom");
    assert(GOOGLE_MEET@.len() != ZOOM@.len());
    if let (Some(class), Some(window), Some(title)) = (
        client.class(),
        client.address(),
        client.title(),
    ) {
        let title = page_title(text::trimmed(title));
        let name = match meet_mark(title) {
            Some(name) => name,
            None => title,
        };
        text::lemma_trimmed_again(name);
    }
}

/// A name that was typed stays, whatever meeting is detected.
pub proof fn a_typed_name_stays(
    current: Seq<char>,
    previous: Option<Seq<char>>,
    detected: Option<Seq<char>>,
)
    requires
        current.len() > 0,
        previous != Some(current),
    ensures
        suggestion(current, previous, detected) is None,
{
}

/// A suggestion that was left as it is, and an empty field, become the name of the
/// detected meeting, and are empty where no meeting with a name is detected.
pub proof fn a_suggestion_follows_the_meeting(
    current: Seq<char>,
    previous: Option<Seq<char>>,
    detected: Option<Seq<char>>,
)
    requires
        current.len() == 0 || previous == Some(current),
    ensures
        (match suggestion(current, previous, detected) {
            Some(next) => next,
            None => current,
        }) == match detected {
            Some(name) => name,
            None => Seq::empty(),
        },
{
}

/// Which of several meetings is meant is never guessed.
pub proof fn several_meetings_are_ambiguous(clients: Seq<Client>, i: int, j: int)
    requires
        0 <= i < j < clients.len(),
        detected(clients[i]) is Some,
        detected(clients[j]) is Some,
    ensures
        only_meeting(clients) is None,
    decreases clients.len(),
{
    let before = clients.drop_last();
    if j < before.len() {
        several_meetings_are_ambiguous(before, i, j);
        lemma_any_meeting(before, i);
    } else {
        lemma_any_meeting(before, i);
    }
}

proof fn lemma_any_meeting(clients: Seq<Client>, i: int)
    requires
        0 <= i < clients.len(),
        detected(clients[i]) is Some,
    ensures
        meetings(clients).len() > 0,
    decreases clients.len(),
{
    if i < clients.len() - 1 {
        lemma_any_meeting(clients.drop_last(), i);
    }
}

/// The class of Zoom in a web app has the host of Zoom in it.
proof fn lemma_zoom_host(class: Seq<char>)
    requires
        "chrome-app.zoom.us__wc_"@.is_prefix_of(class),
    ensures
        room_identity::class_host(class) == Some("app.zoom.us"@),
{
    reveal_strlit("chrome-app.zoom.us__wc_");
    reveal_strlit("chrome-");
    reveal_strlit("app.zoom.us");
    reveal_strlit("__");
    let start = "chrome-app.zoom.us__wc_"@;
    assert(class.subrange(0, start.len() as int) == start);
    assert(forall|i: int| 0 <= i < start.len() ==> class[i] == #[trigger] start[i]);
    assert("chrome-"@ =~= class.subrange(0, 7));
    let rest = class.skip(7);
    let after = rest.skip(13);
    assert(start.subrange(7, 18) =~= "app.zoom.us"@);
    assert(start.subrange(18, 20) =~= "__"@);
    assert(rest.take(11) =~= start.subrange(7, 18));
    assert(rest.subrange(11, 13) =~= start.subrange(18, 20));
    assert(rest =~= rest.take(11) + rest.subrange(11, 13) + after);
    text::lemma_cut_at_part("app.zoom.us"@, "__"@, after);
}

/// Where a window was launched at the host in its class, the room of the meeting in
/// it is one of the meeting's provider.
pub proof fn a_room_is_of_the_provider_of_its_meeting(client: Client)
    requires
        client.class() is Some ==> room_identity::launched_there(
            client.class().unwrap(),
            client.launch,
        ),
    ensures
        detected(client) matches Some(meeting) ==> (meeting.room matches Some(room)
            ==> room.provider == meeting.provider),
{
    if let (Some(class), Some(title)) = (client.class(), client.title()) {
        let room = room_identity::class_room(class, client.launch);
        let page = page_title(text::trimmed(title));
        if zoom_native(class, page) {
            reveal_strlit("zoom");
            reveal_strlit("Zoom");
            reveal_strlit("zoom.real");
            reveal_strlit("chrome-");
            if "chrome-"@.is_prefix_of(class) {
                assert(class.subrange(0, 7)[0] == 'c');
            }
            assert(room is None);
        } else if zoom_web(class, room) && room is Some && room.unwrap().provider != ZOOM@ {
            reveal_strlit("chrome-app.zoom.us__wc_");
            reveal_strlit("chrome-app.zoom.us__wc_join_");
            let longer = "chrome-app.zoom.us__wc_join_"@;
            if longer.is_prefix_of(class) {
                assert("chrome-app.zoom.us__wc_"@ =~= longer.subrange(0, 23));
                assert(longer.subrange(0, 23) =~= class.subrange(0, 23));
            }
            lemma_zoom_host(class);
            reveal_strlit("app.zoom.us");
            reveal_strlit("meet.google.com");
            assert(text::lowered("app.zoom.us"@) =~= "app.zoom.us"@);
            assert("app.zoom.us"@.len() != "meet.google.com"@.len());
        }
    }
}

proof fn lemma_behind(page: Seq<char>, suffix: Seq<char>)
    ensures
        text::before_suffix(page + suffix, suffix) == Some(page),
{
    let all = page + suffix;
    assert(all.subrange(all.len() - suffix.len(), all.len() as int) =~= suffix);
    assert(all.take(all.len() - suffix.len()) =~= page);
}

/// A text that ends otherwise than another, `k` characters from its end, does not have it
/// behind.
proof fn lemma_not_behind(page: Seq<char>, suffix: Seq<char>, other: Seq<char>, k: int)
    requires
        0 < k <= suffix.len(),
        k <= other.len(),
        suffix[suffix.len() - k] != other[other.len() - k],
    ensures
        text::before_suffix(page + suffix, other) is None,
{
    let all = page + suffix;
    if other.is_suffix_of(all) {
        let end = all.subrange(all.len() - other.len(), all.len() as int);
        assert(end[other.len() - k] == all[all.len() - k]);
        assert(all[all.len() - k] == suffix[suffix.len() - k]);
    }
}

/// The name of each browser is left out where it is behind a title, and no other ending
/// is.
pub proof fn the_name_of_a_browser_is_left_out(page: Seq<char>)
    ensures
        page_title(page + " - Google Chrome"@) == text::trimmed(page),
        page_title(page + " - Chromium"@) == text::trimmed(page),
        page_title(page + " - Brave"@) == text::trimmed(page),
        page_title(page + " - Microsoft Edge"@) == text::trimmed(page),
        page_title(page + " — Mozilla Firefox"@) == text::trimmed(page),
        page_title(page + " — Firefox"@) == text::trimmed(page),
        !" - Google Chrome"@.is_suffix_of(page)
            && !" - Chromium"@.is_suffix_of(page)
            && !" - Brave"@.is_suffix_of(page)
            && !" - Microsoft Edge"@.is_suffix_of(page)
            && !" — Mozilla Firefox"@.is_suffix_of(page)
            && !" — Firefox"@.is_suffix_of(page)
            ==> page_title(page) == text::trimmed(page),
{
    reveal_strlit(" - Google Chrome");
    reveal_strlit(" - Chromium");
    reveal_strlit(" - Brave");
    reveal_strlit(" - Microsoft Edge");
    reveal_strlit(" — Mozilla Firefox");
    reveal_strlit(" — Firefox");
    lemma_behind(page, " - Google Chrome"@);
    lemma_not_behind(page, " - Google Chrome"@, " - Chromium"@, 1);
    lemma_not_behind(page, " - Google Chrome"@, " - Brave"@, 2);
    lemma_not_behind(page, " - Google Chrome"@, " - Microsoft Edge"@, 2);
    lemma_not_behind(page, " - Google Chrome"@, " — Mozilla Firefox"@, 1);
    lemma_not_behind(page, " - Google Chrome"@, " — Firefox"@, 1);
    lemma_behind(page, " - Chromium"@);
    lemma_not_behind(page, " - Chromium"@, " - Google Chrome"@, 1);
    lemma_not_behind(page, " - Chromium"@, " - Brave"@, 1);
    lemma_not_behind(page, " - Chromium"@, " - Microsoft Edge"@, 1);
    lemma_not_behind(page, " - Chromium"@, " — Mozilla Firefox"@, 1);
    lemma_not_behind(page, " - Chromium"@, " — Firefox"@, 1);
    lemma_behind(page, " - Brave"@);
    lemma_not_behind(page, " - Brave"@, " - Google Chrome"@, 2);
    lemma_not_behind(page, " - Brave"@, " - Chromium"@, 1);
    lemma_not_behind(page, " - Brave"@, " - Microsoft Edge"@, 2);
    lemma_not_behind(page, " - Brave"@, " — Mozilla Firefox"@, 1);
    lemma_not_behind(page, " - Brave"@, " — Firefox"@, 1);
    lemma_behind(page, " - Microsoft Edge"@);
    lemma_not_behind(page, " - Microsoft Edge"@, " - Google Chrome"@, 2);
    lemma_not_behind(page, " - Microsoft Edge"@, " - Chromium"@, 1);
    lemma_not_behind(page, " - Microsoft Edge"@, " - Brave"@, 2);
    lemma_not_behind(page, " - Microsoft Edge"@, " — Mozilla Firefox"@, 1);
    lemma_not_behind(page, " - Microsoft Edge"@, " — Firefox"@, 1);
    lemma_behind(page, " — Mozilla Firefox"@);
    lemma_not_behind(page, " — Mozilla Firefox"@, " - Google Chrome"@, 1);
    lemma_not_behind(page, " — Mozilla Firefox"@, " - Chromium"@, 1);
    lemma_not_behind(page, " — Mozilla Firefox"@, " - Brave"@, 1);
    lemma_not_behind(page, " — Mozilla Firefox"@, " - Microsoft Edge"@, 1);
    lemma_not_behind(page, " — Mozilla Firefox"@, " — Firefox"@, 9);
    lemma_behind(page, " — Firefox"@);
    lemma_not_behind(page, " — Firefox"@, " - Google Chrome"@, 1);
    lemma_not_behind(page, " — Firefox"@, " - Chromium"@, 1);
    lemma_not_behind(page, " — Firefox"@, " - Brave"@, 1);
    lemma_not_behind(page, " — Firefox"@, " - Microsoft Edge"@, 1);
    lemma_not_behind(page, " — Firefox"@, " — Mozilla Firefox"@, 9);
}

/// The browsers, by the class of their windows in small letters.
pub proof fn browsers_are_known_by_their_class(class: Seq<char>)
    ensures
        is_browser(class) <==> seq![
            "chromium"@,
            "google-chrome"@,
            "google-chrome-stable"@,
            "brave-browser"@,
            "brave"@,
            "firefox"@,
            "org.mozilla.firefox"@,
            "microsoft-edge"@,
        ].contains(class),
{
    let all = seq![
        "chromium"@,
        "google-chrome"@,
        "google-chrome-stable"@,
        "brave-browser"@,
        "brave"@,
        "firefox"@,
        "org.mozilla.firefox"@,
        "microsoft-edge"@,
    ];
    assert(all[0] == "chromium"@);
    assert(all[1] == "google-chrome"@);
    assert(all[2] == "google-chrome-stable"@);
    assert(all[3] == "brave-browser"@);
    assert(all[4] == "brave"@);
    assert(all[5] == "firefox"@);
    assert(all[6] == "org.mozilla.firefox"@);
    assert(all[7] == "microsoft-edge"@);
}

/// A title is that of a page around a meeting where it is one of a few, starts like an
/// address or the way to sign in, or speaks of waiting or of the end, and else it is not.
pub proof fn pages_around_a_meeting_are_known(title: Seq<char>)
    ensures
        ({
            let whole = seq![
                ""@,
                "zoom"@,
                "zoom workplace"@,
                "zoom meetings"@,
                "zoom web client"@,
                "google meet"@,
                "meet"@,
                "meet -"@,
                "join meeting"@,
                "join a meeting"@,
                "join a meeting - zoom"@,
                "launch meeting - zoom"@,
                "loading…"@,
                "loading..."@,
            ];
            let starts = seq![
                "http://"@,
                "https://"@,
                "app.zoom.us"@,
                "meet.google.com"@,
                "sign in"@,
            ];
            let parts = seq![
                "waiting for the host"@,
                "waiting room"@,
                "ready to join"@,
                "you left the meeting"@,
                "you've left the meeting"@,
                "meeting has ended"@,
            ];
            is_generic(title) <==> {
                ||| whole.contains(title)
                ||| exists|i: int| 0 <= i < starts.len() && (#[trigger] starts[i]).is_prefix_of(title)
                ||| exists|i: int, k: int|
                    #![trigger parts[i], title.skip(k)]
                    0 <= i < parts.len() && 0 <= k <= title.len() && parts[i].is_prefix_of(
                        title.skip(k),
                    )
            }
        }),
{
    let whole = seq![
        ""@,
        "zoom"@,
        "zoom workplace"@,
        "zoom meetings"@,
        "zoom web client"@,
        "google meet"@,
        "meet"@,
        "meet -"@,
        "join meeting"@,
        "join a meeting"@,
        "join a meeting - zoom"@,
        "launch meeting - zoom"@,
        "loading…"@,
        "loading..."@,
    ];
    let starts = seq![
        "http://"@,
        "https://"@,
        "app.zoom.us"@,
        "meet.google.com"@,
        "sign in"@,
    ];
    let parts = seq![
        "waiting for the host"@,
        "waiting room"@,
        "ready to join"@,
        "you left the meeting"@,
        "you've left the meeting"@,
        "meeting has ended"@,
    ];
    assert(whole[0] == ""@);
    assert(whole[1] == "zoom"@);
    assert(whole[2] == "zoom workplace"@);
    assert(whole[3] == "zoom meetings"@);
    assert(whole[4] == "zoom web client"@);
    assert(whole[5] == "google meet"@);
    assert(whole[6] == "meet"@);
    assert(whole[7] == "meet -"@);
    assert(whole[8] == "join meeting"@);
    assert(whole[9] == "join a meeting"@);
    assert(whole[10] == "join a meeting - zoom"@);
    assert(whole[11] == "launch meeting - zoom"@);
    assert(whole[12] == "loading…"@);
    assert(whole[13] == "loading..."@);
    assert(starts[0] == "http://"@);
    assert(starts[1] == "https://"@);
    assert(starts[2] == "app.zoom.us"@);
    assert(starts[3] == "meet.google.com"@);
    assert(starts[4] == "sign in"@);
    assert(parts[0] == "waiting for the host"@);
    lemma_holds(title, "waiting for the host"@);
    assert(parts[1] == "waiting room"@);
    lemma_holds(title, "waiting room"@);
    assert(parts[2] == "ready to join"@);
    lemma_holds(title, "ready to join"@);
    assert(parts[3] == "you left the meeting"@);
    lemma_holds(title, "you left the meeting"@);
    assert(parts[4] == "you've left the meeting"@);
    lemma_holds(title, "you've left the meeting"@);
    assert(parts[5] == "meeting has ended"@);
    lemma_holds(title, "meeting has ended"@);

    assert forall|i: int, k: int|
        #![trigger parts[i], title.skip(k)]
        0 <= i < parts.len() && 0 <= k <= title.len() && parts[i].is_prefix_of(
            title.skip(k),
        ) implies is_generic(title) by {
        assert(text::holds(title, parts[i]));
    }
    if text::holds(title, "waiting for the host"@) {
        let k = choose|k: int| 0 <= k <= title.len() && "waiting for the host"@.is_prefix_of(#[trigger] title.skip(k));
        assert(parts[0].is_prefix_of(title.skip(k)));
    }
    if text::holds(title, "waiting room"@) {
        let k = choose|k: int| 0 <= k <= title.len() && "waiting room"@.is_prefix_of(#[trigger] title.skip(k));
        assert(parts[1].is_prefix_of(title.skip(k)));
    }
    if text::holds(title, "ready to join"@) {
        let k = choose|k: int| 0 <= k <= title.len() && "ready to join"@.is_prefix_of(#[trigger] title.skip(k));
        assert(parts[2].is_prefix_of(title.skip(k)));
    }
    if text::holds(title, "you left the meeting"@) {
        let k = choose|k: int| 0 <= k <= title.len() && "you left the meeting"@.is_prefix_of(#[trigger] title.skip(k));
        assert(parts[3].is_prefix_of(title.skip(k)));
    }
    if text::holds(title, "you've left the meeting"@) {
        let k = choose|k: int| 0 <= k <= title.len() && "you've left the meeting"@.is_prefix_of(#[trigger] title.skip(k));
        assert(parts[4].is_prefix_of(title.skip(k)));
    }
    if text::holds(title, "meeting has ended"@) {
        let k = choose|k: int| 0 <= k <= title.len() && "meeting has ended"@.is_prefix_of(#[trigger] title.skip(k));
        assert(parts[5].is_prefix_of(title.skip(k)));
    }
}

proof fn lemma_holds(s: Seq<char>, part: Seq<char>)
    ensures
        text::holds(s, part) <==> exists|k: int|
            0 <= k <= s.len() && part.is_prefix_of(#[trigger] s.skip(k)),
{
    if text::holds(s, part) {
        let k = choose|k: int|
            0 <= k <= s.len() - part.len() && #[trigger] s.subrange(k, k + part.len()) == part;
        assert(s.skip(k).subrange(0, part.len() as int) =~= part);
        assert(part.is_prefix_of(s.skip(k)));
    }
    if exists|k: int| 0 <= k <= s.len() && part.is_prefix_of(#[trigger] s.skip(k)) {
        let k = choose|k: int| 0 <= k <= s.len() && part.is_prefix_of(#[trigger] s.skip(k));
        assert(s.subrange(k, k + part.len()) =~= s.skip(k).subrange(0, part.len() as int));
    }
}

proof fn lemma_clear(title: Seq<char>)
    ensures
        has_control(title) <==> exists|i: int|
            0 <= i < title.len() && ((#[trigger] title[i]) as u32 <= 0x1f || 0x7f <= title[i] as u32
                <= 0x9f),
{
    if has_control(title) {
        let i = choose|i: int| 0 <= i < title.len() && text::control(#[trigger] title[i]);
        assert(title[i] as u32 <= 0x1f || 0x7f <= title[i] as u32 <= 0x9f);
    }
    if exists|i: int|
        0 <= i < title.len() && ((#[trigger] title[i]) as u32 <= 0x1f || 0x7f <= title[i] as u32
            <= 0x9f) {
        let i = choose|i: int|
            0 <= i < title.len() && ((#[trigger] title[i]) as u32 <= 0x1f || 0x7f <= title[i] as u32
                <= 0x9f);
        assert(text::control(title[i]));
    }
}

/// A name as it is shown: what is left of it without the white space around, 200
/// characters at most.
proof fn lemma_shown(name: Seq<char>)
    ensures
        ({
            let t = text::trimmed(name);
            shown_name(Some(name)) == if t.len() == 0 {
                None
            } else {
                Some(t.subrange(0, vstd::math::min(t.len() as int, 200)))
            }
        }),
{
    let t = text::trimmed(name);
    assert(t.subrange(0, t.len() as int) =~= t);
    if t.len() > 200 {
        assert(t.take(200) =~= t.subrange(0, 200));
    }
}

/// A window with a title of its own is that of a meeting on Zoom where it was launched into
/// a room of Zoom, where its class is that of a meeting in Zoom's web app, or where it is of
/// the Zoom program and its title ends as that of a meeting does. The meeting is known by
/// the class, and by the room where there is one. Its name is what comes before `Zoom
/// Meeting` in the title, and it has none where that is all of it.
pub proof fn a_zoom_window_is_a_meeting(
    window: Seq<char>,
    class: Seq<char>,
    title: Seq<char>,
    room: Option<RoomView>,
    rest: Seq<char>,
    name: Seq<char>,
)
    requires
        window.len() > 0,
        forall|i: int|
            0 <= i < title.len() ==> !((#[trigger] title[i]) as u32 <= 0x1f || 0x7f
                <= title[i] as u32 <= 0x9f),
        !is_generic(text::lowered(title)),
        ({
            ||| room is Some && room.unwrap().provider == "Zoom"@
            ||| rest.len() > 0 && '0' <= rest[0] <= '9' && (class == "chrome-app.zoom.us__wc_join_"@
                + rest || class == "chrome-app.zoom.us__wc_"@ + rest)
            ||| (class == "zoom"@ || class == "Zoom"@ || class == "zoom.real"@) && (title
                == "Zoom Meeting"@ || title == name + " - Zoom Meeting"@)
        }),
        title == "Zoom Meeting"@ || title == name + " - Zoom Meeting"@ || (title == name
            && !" - Zoom Meeting"@.is_suffix_of(title)),
    ensures
        ({
            let shown = text::trimmed(name);
            &&& recognized(window, class, title, room) matches Some(meeting)
            &&& meeting.provider == "Zoom"@
            &&& meeting.window == window
            &&& meeting.room == room
            &&& meeting.fallback_key == window + ":"@ + "Zoom"@ + ":"@ + class
            &&& meeting.key == match room {
                Some(room) => window + ":"@ + "Zoom"@ + ":room:"@ + room.id,
                None => meeting.fallback_key,
            }
            &&& meeting.title == if title == "Zoom Meeting"@ || shown.len() == 0 {
                None
            } else {
                Some(shown.subrange(0, vstd::math::min(shown.len() as int, 200)))
            }
        }),
{
    lemma_clear(title);
    lemma_shown(name);
    lemma_behind(name, " - Zoom Meeting"@);
    if rest.len() > 0 && '0' <= rest[0] <= '9' && (class == "chrome-app.zoom.us__wc_join_"@ + rest
        || class == "chrome-app.zoom.us__wc_"@ + rest) {
        lemma_zoom_class(class, rest);
    }
    if title == name + " - Zoom Meeting"@ {
        assert(" - Zoom Meeting"@.is_suffix_of(title));
    }
}

proof fn lemma_zoom_class(class: Seq<char>, rest: Seq<char>)
    requires
        rest.len() > 0,
        '0' <= rest[0] <= '9',
        class == "chrome-app.zoom.us__wc_join_"@ + rest || class == "chrome-app.zoom.us__wc_"@ + rest,
    ensures
        zoom_web(class, None),
        forall|room: Option<RoomView>| #[trigger] zoom_web(class, room),
{
    let long = "chrome-app.zoom.us__wc_join_"@;
    let short = "chrome-app.zoom.us__wc_"@;
    reveal_strlit("chrome-app.zoom.us__wc_join_");
    reveal_strlit("chrome-app.zoom.us__wc_");
    if class == long + rest {
        assert(class.subrange(0, long.len() as int) =~= long);
        assert(class.skip(long.len() as int) =~= rest);
    } else {
        assert(class.subrange(0, short.len() as int) =~= short);
        assert(class.skip(short.len() as int) =~= rest);
        if long.is_prefix_of(class) {
            assert(class.subrange(0, long.len() as int)[23] == long[23]);
            assert(class[23] == rest[0]);
        }
    }
}

/// A window that was not launched into a room of Zoom is that of a meeting on Google Meet
/// where its class is that of a web app there, or where it is of a browser and its title is
/// marked. Its name is the title without the mark. The meeting is known by its name, and by
/// its room where there is one: a code in the title is a room and no name, and else the
/// room is the one that the window was launched into. A page around a meeting is none.
pub proof fn a_google_meet_window_is_a_meeting(
    window: Seq<char>,
    class: Seq<char>,
    title: Seq<char>,
    room: Option<RoomView>,
    name: Seq<char>,
)
    requires
        window.len() > 0,
        forall|i: int|
            0 <= i < title.len() ==> !((#[trigger] title[i]) as u32 <= 0x1f || 0x7f
                <= title[i] as u32 <= 0x9f),
        !is_generic(text::lowered(title)),
        room is Some ==> room.unwrap().provider != "Zoom"@,
        "chrome-meet.google.com__"@.is_prefix_of(class) || seq![
            "chromium"@,
            "google-chrome"@,
            "google-chrome-stable"@,
            "brave-browser"@,
            "brave"@,
            "firefox"@,
            "org.mozilla.firefox"@,
            "microsoft-edge"@,
        ].contains(text::lowered(class)),
        ({
            let before = "Meet - "@.is_prefix_of(title);
            let behind = " - Google Meet"@.is_suffix_of(title);
            ||| title == "Meet - "@ + name
            ||| title == name + " - Google Meet"@ && !before
            ||| title == name && !before && !behind && "chrome-meet.google.com__"@.is_prefix_of(
                class,
            )
        }),
    ensures
        ({
            let shown = text::trimmed(name);
            let code = shown.len() == 12 && shown[3] == '-' && shown[8] == '-' && forall|i: int|
                0 <= i < 12 && i != 3 && i != 8 ==> 'a' <= #[trigger] shown[i] <= 'z';
            let known = if code {
                Some(RoomView { provider: "Google Meet"@, id: shown })
            } else {
                room
            };
            if is_generic(text::lowered(shown)) {
                recognized(window, class, title, room) is None
            } else {
                &&& recognized(window, class, title, room) matches Some(meeting)
                &&& meeting.provider == "Google Meet"@
                &&& meeting.window == window
                &&& meeting.room == known
                &&& meeting.fallback_key == window + ":"@ + "Google Meet"@ + ":"@ + shown
                &&& meeting.key == match known {
                    Some(room) => window + ":"@ + "Google Meet"@ + ":room:"@ + room.id,
                    None => meeting.fallback_key,
                }
                &&& meeting.title == if code || shown.len() == 0 {
                    None
                } else {
                    Some(shown.subrange(0, vstd::math::min(shown.len() as int, 200)))
                }
            }
        }),
{
    let shown = text::trimmed(name);
    lemma_clear(title);
    lemma_shown(shown);
    text::lemma_trimmed_again(name);
    lemma_code(shown);
    lemma_behind(name, " - Google Meet"@);
    browsers_are_known_by_their_class(text::lowered(class));
    lemma_no_zoom_class(class);
    let marked = "Meet - "@ + name;
    assert(marked.subrange(0, "Meet - "@.len() as int) =~= "Meet - "@);
    assert(marked.skip("Meet - "@.len() as int) =~= name);
    if title == name + " - Google Meet"@ {
        assert(" - Google Meet"@.is_suffix_of(title));
    }
    assert(meet_name(title) == shown);
    assert(!zoom_web(class, room));
}

proof fn lemma_code(s: Seq<char>)
    ensures
        is_meet_code(s) <==> s.len() == 12 && s[3] == '-' && s[8] == '-' && forall|i: int|
            0 <= i < 12 && i != 3 && i != 8 ==> 'a' <= #[trigger] s[i] <= 'z',
{
    if is_meet_code(s) {
        assert(s[3] == '-' && s[8] == '-');
        assert forall|i: int| 0 <= i < 12 && i != 3 && i != 8 implies 'a' <= #[trigger] s[i] <= 'z' by {
            assert(text::ascii_lowercase(s[i]));
        }
    }
}

/// The class of a web app on Google Meet, or of a browser, is none of Zoom's.
proof fn lemma_no_zoom_class(class: Seq<char>)
    requires
        "chrome-meet.google.com__"@.is_prefix_of(class) || is_browser(text::lowered(class)),
    ensures
        !"chrome-app.zoom.us__wc_"@.is_prefix_of(class),
        !"chrome-app.zoom.us__wc_join_"@.is_prefix_of(class),
        class != "zoom"@ && class != "Zoom"@ && class != "zoom.real"@,
{
    reveal_strlit("chrome-meet.google.com__");
    reveal_strlit("chrome-app.zoom.us__wc_");
    reveal_strlit("chrome-app.zoom.us__wc_join_");
    reveal_strlit("zoom");
    reveal_strlit("Zoom");
    reveal_strlit("zoom.real");
    reveal_strlit("chromium");
    reveal_strlit("google-chrome");
    reveal_strlit("google-chrome-stable");
    reveal_strlit("brave-browser");
    reveal_strlit("brave");
    reveal_strlit("firefox");
    reveal_strlit("org.mozilla.firefox");
    reveal_strlit("microsoft-edge");
    assert(text::lowered(class).len() == class.len());
    if "chrome-meet.google.com__"@.is_prefix_of(class) {
        assert(class.subrange(0, 24)[7] == 'm');
        assert(class[7] == 'm');
        if "chrome-app.zoom.us__wc_"@.is_prefix_of(class) {
            assert(class.subrange(0, 23)[7] == 'a');
        }
        if "chrome-app.zoom.us__wc_join_"@.is_prefix_of(class) {
            assert(class.subrange(0, 28)[7] == 'a');
        }
    }
}

/// A meeting is told by a window with an address and a title without control characters
/// that is not that of a page around a meeting, and only by those of Zoom and of Google
/// Meet: launched into a room of Zoom, of the class of a meeting in Zoom's web app, of the
/// Zoom program with a title that ends as that of a meeting does, of the class of a web app
/// on Google Meet, or of a browser with a marked title.
pub proof fn no_other_window_is_a_meeting(
    window: Seq<char>,
    class: Seq<char>,
    title: Seq<char>,
    room: Option<RoomView>,
)
    requires
        recognized(window, class, title, room) is Some,
    ensures
        window.len() > 0,
        forall|i: int|
            0 <= i < title.len() ==> !((#[trigger] title[i]) as u32 <= 0x1f || 0x7f
                <= title[i] as u32 <= 0x9f),
        !is_generic(text::lowered(title)),
        ({
            let digit_behind = |prefix: Seq<char>|
                prefix.is_prefix_of(class) && class.len() > prefix.len() && '0'
                    <= class[prefix.len() as int] <= '9';
            let marked = "Meet - "@.is_prefix_of(title) || " - Google Meet"@.is_suffix_of(title);
            ||| room is Some && room.unwrap().provider == "Zoom"@
            ||| digit_behind("chrome-app.zoom.us__wc_join_"@)
            ||| digit_behind("chrome-app.zoom.us__wc_"@)
            ||| (class == "zoom"@ || class == "Zoom"@ || class == "zoom.real"@) && (title
                == "Zoom Meeting"@ || " - Zoom Meeting"@.is_suffix_of(title))
            ||| "chrome-meet.google.com__"@.is_prefix_of(class)
            ||| marked && seq![
                "chromium"@,
                "google-chrome"@,
                "google-chrome-stable"@,
                "brave-browser"@,
                "brave"@,
                "firefox"@,
                "org.mozilla.firefox"@,
                "microsoft-edge"@,
            ].contains(text::lowered(class))
        }),
{
    lemma_clear(title);
    browsers_are_known_by_their_class(text::lowered(class));
}

/// The meeting in a window is told by its class, its address and its title, each of them a
/// text, and by the room that it was launched into.
pub proof fn a_window_is_known_by_its_class_address_and_title(client: Client)
    ensures
        ({
            let info = client.info.tree();
            match (info.member("class"@), info.member("address"@), info.member("title"@)) {
                (json::Tree::Text(class), json::Tree::Text(window), json::Tree::Text(title)) =>
                    detected(client) == recognized(
                    window,
                    class,
                    page_title(text::trimmed(title)),
                    room_identity::class_room(class, client.launch),
                ),
                _ => detected(client) is None,
            }
        }),
{
}

/// The meetings in some windows and then in others are those of both, in that order; a
/// window has one or none.
pub proof fn meetings_are_those_of_each_window(a: Seq<Client>, b: Seq<Client>, client: Client)
    ensures
        meetings(a + b) == meetings(a) + meetings(b),
        meetings(Seq::empty()).len() == 0,
        meetings(seq![client]) == match detected(client) {
            Some(meeting) => seq![meeting],
            None => Seq::empty(),
        },
    decreases b.len(),
{
    reveal_with_fuel(meetings, 2);
    assert(seq![client].drop_last() =~= Seq::<Client>::empty());
    assert(meetings(seq![client]) =~= match detected(client) {
        Some(meeting) => seq![meeting],
        None => Seq::empty(),
    });
    if b.len() > 0 {
        meetings_are_those_of_each_window(a, b.drop_last(), client);
        assert((a + b).drop_last() =~= a + b.drop_last());
        assert(meetings(a + b) =~= meetings(a) + meetings(b));
    } else {
        assert(a + b =~= a);
        assert(meetings(a + b) =~= meetings(a) + meetings(b));
    }
}

/// Where one window alone has a meeting, that is the meeting, whatever the other windows
/// are. Where none has, there is none.
pub proof fn a_meeting_alone_is_the_one_that_is_meant(clients: Seq<Client>, i: int)
    requires
        0 <= i < clients.len(),
        forall|j: int| 0 <= j < clients.len() && j != i ==> detected(#[trigger] clients[j]) is None,
    ensures
        only_meeting(clients) == detected(clients[i]),
{
    let before = clients.take(i);
    let after = clients.skip(i + 1);
    let one = seq![clients[i]];
    assert(clients =~= before + (one + after));
    meetings_are_those_of_each_window(before, one + after, clients[i]);
    meetings_are_those_of_each_window(one, after, clients[i]);
    assert forall|j: int| 0 <= j < before.len() implies detected(#[trigger] before[j]) is None by {
        assert(before[j] == clients[j]);
    }
    assert forall|j: int| 0 <= j < after.len() implies detected(#[trigger] after[j]) is None by {
        assert(after[j] == clients[i + 1 + j]);
    }
    lemma_no_meetings(before);
    lemma_no_meetings(after);
    assert(meetings(clients) =~= meetings(one));
}

proof fn lemma_no_meetings(clients: Seq<Client>)
    requires
        forall|j: int| 0 <= j < clients.len() ==> detected(#[trigger] clients[j]) is None,
    ensures
        meetings(clients).len() == 0,
    decreases clients.len(),
{
    if clients.len() > 0 {
        let less = clients.drop_last();
        assert forall|j: int| 0 <= j < less.len() implies detected(#[trigger] less[j]) is None by {
            assert(less[j] == clients[j]);
        }
        lemma_no_meetings(less);
        assert(clients[clients.len() - 1] == clients.last());
    }
}

/// A report has every meeting in its order, with its provider and its name, and nothing
/// where it has no name.
pub proof fn a_report_tells_providers_and_names(list: Seq<MeetingView>, i: int)
    requires
        0 <= i < list.len(),
    ensures
        reports(list).len() == list.len(),
        reports(list)[i] is Object,
        reports(list)[i]->Object_0.dom() == set!["provider"@, "title"@],
        reports(list)[i].member("provider"@) == json::Tree::Text(list[i].provider),
        reports(list)[i].member("title"@) == match list[i].title {
            Some(title) => json::Tree::Text(title),
            None => json::Tree::Null,
        },
{
    reveal_strlit("provider");
    reveal_strlit("title");
    assert("provider"@.len() != "title"@.len());
    assert(reports(list)[i] == report_tree(list[i]));
    assert(report_tree(list[i])->Object_0.dom() =~= set!["provider"@, "title"@]);
}

/// The windows are what was listed where the query succeeded, and else it is told why it
/// did not.
pub proof fn a_query_lists_the_windows_or_says_why_not(
    output: crate::command::OutputView,
    error: Seq<char>,
)
    ensures
        listed(Err(error)) == Err::<Seq<json::Tree>, Seq<char>>("Could not query Hyprland: "@ + error),
        !output.success ==> listed(Ok(output)) == Err::<Seq<json::Tree>, Seq<char>>(
            "hyprctl: "@ + text::trimmed(text::lossy_text(output.stderr)),
        ),
        output.success ==> match json::json_byte_list(output.stdout) {
            Ok(windows) => listed(Ok(output)) == Ok::<Seq<json::Tree>, Seq<char>>(windows),
            Err(error) => listed(Ok(output)) == Err::<Seq<json::Tree>, Seq<char>>(
                "Invalid Hyprland window list: "@ + error,
            ),
        },
{
}

} // verus!
