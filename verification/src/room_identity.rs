//! Which room a meeting is in, from an invitation link or from the class of its
//! window. Nothing else of a link is kept: no password and no other credential.
use vstd::prelude::*;
use vstd::string::StringExecFns;

use crate::json;
use crate::json::Json;
use crate::meeting_detection::{meet_code, unique, Client, DetectedMeeting, MeetingView};
use crate::text;

verus! {

/// The parts of a link that tell the room, as `glib::Uri` splits it: the path
/// decoded, and a port of -1 where the link names none.
pub struct Uri {
    pub scheme: String,
    pub userinfo: Option<String>,
    pub host: Option<String>,
    pub port: i32,
    pub path: String,
}

/// A room: whose it is and what it is called there.
#[derive(Debug, PartialEq)]
pub struct Room {
    pub provider: String,
    pub id: String,
}

/// What a [`Room`] says.
pub struct RoomView {
    pub provider: Seq<char>,
    pub id: Seq<char>,
}

impl View for Room {
    type V = RoomView;

    open spec fn view(&self) -> RoomView {
        RoomView { provider: self.provider@, id: self.id@ }
    }
}

impl Clone for Room {
    fn clone(&self) -> (r: Self)
        ensures
            r@ == self@,
    {
        Room { provider: self.provider.clone(), id: self.id.clone() }
    }
}

/// The room of an optional [`Room`].
pub open spec fn room_view(room: Option<Room>) -> Option<RoomView> {
    match room {
        Some(room) => Some(room@),
        None => None,
    }
}

pub const GOOGLE_MEET: &'static str = "Google Meet";

pub const ZOOM: &'static str = "Zoom";

/// What a link that names no room is answered.
pub const NO_ROOM: &'static str = "Enter a Google Meet room link or a Zoom numeric meeting link.";

/// The pieces of a path between its slashes, those around it aside.
pub open spec fn path_parts(path: Seq<char>) -> Seq<Seq<char>> {
    text::split_at(text::stripped_end(text::stripped_start(path, seq!['/']), seq!['/']), '/')
}

/// Where a path of Zoom has the number of the meeting.
pub open spec fn zoom_place(parts: Seq<Seq<char>>) -> Option<Seq<char>> {
    if parts.len() == 2 && parts[0] == "j"@ {
        Some(parts[1])
    } else if parts.len() == 3 && parts[0] == "wc"@ && parts[1] == "join"@ {
        Some(parts[2])
    } else if parts.len() == 3 && parts[0] == "wc"@ && parts[2] == "join"@ {
        Some(parts[1])
    } else {
        None
    }
}

/// Nine to eleven digits.
pub open spec fn zoom_number(id: Seq<char>) -> bool {
    9 <= id.len() <= 11 && forall|i: int| 0 <= i < id.len() ==> text::ascii_digit(#[trigger] id[i])
}

/// A link to the secure web without a user, on the usual port.
pub open spec fn web_link(uri: Uri) -> bool {
    uri.scheme@ == "https"@ && uri.userinfo is None && (uri.port == -1 || uri.port == 443)
        && uri.host is Some
}

/// The room that a link leads to, if it leads to one.
pub open spec fn linked_room(uri: Uri) -> Option<RoomView> {
    let host = text::lowered(uri.host.unwrap()@);
    let parts = path_parts(uri.path@);
    if !web_link(uri) {
        None
    } else if host == "meet.google.com"@ && parts.len() == 1
        && crate::meeting_detection::is_meet_code(parts[0]) {
        Some(RoomView { provider: GOOGLE_MEET@, id: parts[0] })
    } else if host == "zoom.us"@ || ".zoom.us"@.is_suffix_of(host) {
        match zoom_place(parts) {
            Some(id) => if zoom_number(id) {
                Some(RoomView { provider: ZOOM@, id })
            } else {
                None
            },
            None => None,
        }
    } else {
        None
    }
}

/// The room that a text leads to, which is no link at all where `uri` is none.
pub open spec fn split_room(uri: Option<Uri>) -> Option<RoomView> {
    match uri {
        Some(uri) => linked_room(uri),
        None => None,
    }
}

/// The part of a pasted link that is to be split: all but the white space
/// around it.
pub fn pasted<'a>(link: &'a str) -> (r: &'a str)
    ensures
        r@ == text::trimmed(link@),
{
    text::trim(link)
}

fn split_path(path: &str) -> (r: Vec<String>)
    ensures
        text::texts(r@) == path_parts(path@),
{
    let slash: [char; 1] = ['/'];
    proof {
        assert(slash@ =~= seq!['/']);
    }
    let inner = text::strip_end(text::strip_start(path, &slash), &slash);
    text::split(inner, '/')
}

fn is_zoom_number(id: &str) -> (r: bool)
    ensures
        r == zoom_number(id@),
{
    let chars = text::characters(id);
    if chars.len() < 9 || chars.len() > 11 {
        return false;
    }
    for i in 0..chars.len()
        invariant
            chars@ == id@,
            forall|j: int| 0 <= j < i ==> text::ascii_digit(#[trigger] chars@[j]),
    {
        if !text::is_ascii_digit(chars[i]) {
            return false;
        }
    }
    true
}

fn find_zoom_place(parts: &Vec<String>) -> (r: Option<String>)
    ensures
        text::owned(r) == zoom_place(text::texts(parts@)),
{
    let ghost names = text::texts(parts@);
    if parts.len() == 2 && text::same(parts[0].as_str(), "j") {
        return Some(parts[1].clone());
    }
    if parts.len() == 3 && text::same(parts[0].as_str(), "wc") {
        proof {
            assert(names[0] == parts@[0]@ && names[1] == parts@[1]@ && names[2] == parts@[2]@);
        }
        if text::same(parts[1].as_str(), "join") {
            return Some(parts[2].clone());
        }
        if text::same(parts[2].as_str(), "join") {
            return Some(parts[1].clone());
        }
    }
    None
}

fn find_room(uri: &Uri) -> (r: Option<Room>)
    ensures
        room_view(r) == linked_room(*uri),
{
    if !text::same(uri.scheme.as_str(), "https") || uri.userinfo.is_some() || (uri.port != -1
        && uri.port != 443) {
        return None;
    }
    let host = match &uri.host {
        Some(host) => text::to_lower(host.as_str()),
        None => {
            return None;
        },
    };
    let parts = split_path(uri.path.as_str());
    let ghost names = path_parts(uri.path@);
    proof {
        assert(parts@.len() == names.len());
        assert(forall|i: int| 0 <= i < names.len() ==> names[i] == (#[trigger] parts@[i])@);
    }
    if text::same(host.as_str(), "meet.google.com") && parts.len() == 1 && meet_code(
        parts[0].as_str(),
    ) {
        return Some(Room { provider: GOOGLE_MEET.to_owned(), id: parts[0].clone() });
    }
    if text::same(host.as_str(), "zoom.us") || text::ends_with(host.as_str(), ".zoom.us") {
        match find_zoom_place(&parts) {
            Some(id) => {
                if is_zoom_number(id.as_str()) {
                    return Some(Room { provider: ZOOM.to_owned(), id });
                }
            },
            None => {},
        }
    }
    None
}

/// The room that a link leads to. `uri` is the pasted link split, none where it
/// is no link at all.
pub fn parse(uri: &Option<Uri>) -> (r: Result<Room, String>)
    ensures
        match r {
            Ok(room) => split_room(*uri) == Some(room@),
            Err(error) => split_room(*uri) is None && error@ == NO_ROOM@,
        },
{
    match uri {
        Some(uri) => match find_room(uri) {
            Some(room) => Ok(room),
            None => Err(NO_ROOM.to_owned()),
        },
        None => Err(NO_ROOM.to_owned()),
    }
}

/// The link that a web app was launched with, from the class of its window:
/// `chrome-`, the host, `__`, the path with `_` for `/`, and `-` with the profile
/// behind. A Meet code has hyphens of its own and is twelve bytes.
pub open spec fn class_link(class: Seq<char>) -> Option<Seq<char>> {
    match text::after_prefix(class, "chrome-"@) {
        Some(rest) => match text::cut_part(rest, "__"@) {
            Some((host, path)) => match class_path(host, path) {
                Some(path) => Some(
                    "https://"@ + host + "/"@ + text::swapped(path, '_', '/'),
                ),
                None => None,
            },
            None => None,
        },
        None => None,
    }
}

/// The host in a class, where it is that of a web app.
pub open spec fn class_host(class: Seq<char>) -> Option<Seq<char>> {
    match text::after_prefix(class, "chrome-"@) {
        Some(rest) => match text::cut_part(rest, "__"@) {
            Some((host, _)) => Some(host),
            None => None,
        },
        None => None,
    }
}

/// Whether a launch link leads to the host in a class, where there are both.
pub open spec fn launched_there(class: Seq<char>, launch: Option<Uri>) -> bool {
    match (class_host(class), launch) {
        (Some(host), Some(uri)) => uri.host is Some && text::lowered(uri.host.unwrap()@)
            == text::lowered(host),
        _ => true,
    }
}

/// The path in a class, without the profile behind it.
pub open spec fn class_path(host: Seq<char>, path: Seq<char>) -> Option<Seq<char>> {
    if host == "meet.google.com"@ {
        match text::cut_bytes(path, 12) {
            Some((code, profile)) => if "-"@.is_prefix_of(profile) {
                Some(code)
            } else {
                None
            },
            None => None,
        }
    } else {
        Some(path.take(text::first_where(path, text::equals('-'))))
    }
}

/// The link that a web app was launched with, from the class of its window.
pub fn launch_link(class: &str) -> (r: Option<String>)
    ensures
        text::owned(r) == class_link(class@),
{
    let rest = match text::strip_prefix(class, "chrome-") {
        Some(rest) => rest,
        None => {
            return None;
        },
    };
    let (host, path) = match text::split_part(rest, "__") {
        Some(parts) => parts,
        None => {
            return None;
        },
    };
    let path: String = if text::same(host, "meet.google.com") {
        match text::split_bytes(path, 12) {
            Some((code, profile)) => if text::starts_with(profile, "-") {
                code.to_owned()
            } else {
                return None;
            },
            None => {
                return None;
            },
        }
    } else {
        let chars = text::characters(path);
        let end = text::find(chars.as_slice(), '-');
        let start = text::take(path, end);
        proof {
            assert(path@.take(end as int) =~= start@);
        }
        start
    };
    let slashed = text::swap(path.as_str(), '_', '/');
    Some("https://".to_owned().concat(host).concat("/").concat(slashed.as_str()))
}

/// The room that the class of a window names. `launch` is its launch link split,
/// none where that is no link.
pub open spec fn class_room(class: Seq<char>, launch: Option<Uri>) -> Option<RoomView> {
    if class_link(class) is Some {
        split_room(launch)
    } else {
        None
    }
}

/// The room that the class of a window names. `launch` is the split of its
/// [`launch_link`], taken as a [`pasted`] one, and none where that is no link.
pub fn from_class(class: &str, launch: &Option<Uri>) -> (r: Option<Room>)
    ensures
        room_view(r) == class_room(class@, *launch),
{
    if launch_link(class).is_none() {
        return None;
    }
    match launch {
        Some(uri) => find_room(uri),
        None => None,
    }
}

/// A room that was applied by hand to the meeting of a window, for one session
/// of the desktop and until it expires.
pub struct Hint {
    pub session: String,
    pub fallback: String,
    pub expires: i64,
    pub room: Room,
}

/// What a [`Hint`] says.
pub struct HintView {
    pub session: Seq<char>,
    pub fallback: Seq<char>,
    pub expires: i64,
    pub room: RoomView,
}

impl View for Hint {
    type V = HintView;

    open spec fn view(&self) -> HintView {
        HintView {
            session: self.session@,
            fallback: self.fallback@,
            expires: self.expires,
            room: self.room@,
        }
    }
}

/// The hint of an optional [`Hint`].
pub open spec fn hint_view(hint: Option<Hint>) -> Option<HintView> {
    match hint {
        Some(hint) => Some(hint@),
        None => None,
    }
}

/// The document that keeps a hint.
pub open spec fn hint_tree(hint: HintView) -> json::Tree {
    json::Tree::Object(
        map![
            "session"@ => json::Tree::Text(hint.session),
            "fallback"@ => json::Tree::Text(hint.fallback),
            "expires"@ => json::Tree::Number(Some(hint.expires)),
            "provider"@ => json::Tree::Text(hint.room.provider),
            "id"@ => json::Tree::Text(hint.room.id),
        ],
    )
}

/// The hint that a document keeps, if it keeps one.
pub open spec fn tree_hint(tree: json::Tree) -> Option<HintView> {
    match (
        tree.member("session"@).text(),
        tree.member("fallback"@).text(),
        tree.member("expires"@).integer(),
        tree.member("provider"@).text(),
        tree.member("id"@).text(),
    ) {
        (Some(session), Some(fallback), Some(expires), Some(provider), Some(id)) => Some(
            HintView { session, fallback, expires, room: RoomView { provider, id } },
        ),
        _ => None,
    }
}

impl Hint {
    /// The document that keeps the hint.
    pub fn json(&self) -> (r: Json)
        ensures
            r.tree() == hint_tree(self@),
            r.writable(100),
    {
        let mut members: Vec<(String, Json)> = Vec::new();
        members.push(("session".to_owned(), Json::Text(self.session.clone())));
        members.push(("fallback".to_owned(), Json::Text(self.fallback.clone())));
        members.push(("expires".to_owned(), Json::Number(Some(self.expires))));
        members.push(("provider".to_owned(), Json::Text(self.room.provider.clone())));
        members.push(("id".to_owned(), Json::Text(self.room.id.clone())));
        proof {
            lemma_hint_keys();
            reveal_with_fuel(json::member_trees, 6);
            let all = members@;
            assert(all.drop_last().drop_last().drop_last().drop_last().drop_last().len() == 0);
            assert(json::member_trees(all) =~= hint_tree(self@)->Object_0);
            reveal_with_fuel(Json::writable, 2);
        }
        Json::Object(members)
    }

    /// The hint that a document keeps, if it keeps one.
    pub fn from_json(value: &Json) -> (r: Option<Hint>)
        ensures
            hint_view(r) == tree_hint(value.tree()),
    {
        match (
            value.text_member("session"),
            value.text_member("fallback"),
            value.integer_member("expires"),
            value.text_member("provider"),
            value.text_member("id"),
        ) {
            (Some(session), Some(fallback), Some(expires), Some(provider), Some(id)) => Some(
                Hint {
                    session: session.to_owned(),
                    fallback: fallback.to_owned(),
                    expires,
                    room: Room { provider: provider.to_owned(), id: id.to_owned() },
                },
            ),
            _ => None,
        }
    }
}

proof fn lemma_hint_keys()
    ensures
        "session"@ != "fallback"@,
        "session"@ != "expires"@,
        "session"@ != "provider"@,
        "session"@ != "id"@,
        "fallback"@ != "expires"@,
        "fallback"@ != "provider"@,
        "fallback"@ != "id"@,
        "expires"@ != "provider"@,
        "expires"@ != "id"@,
        "provider"@ != "id"@,
{
    reveal_strlit("session");
    reveal_strlit("fallback");
    reveal_strlit("expires");
    reveal_strlit("provider");
    reveal_strlit("id");
    assert("session"@[0] != "expires"@[0]);
    assert("session"@.len() == 7 && "expires"@.len() == 7);
    assert("fallback"@.len() == 8 && "provider"@.len() == 8);
    assert("fallback"@[0] != "provider"@[0]);
}

/// A hint that was written is the hint that is read.
pub proof fn a_kept_hint_is_read_back(hint: HintView)
    ensures
        tree_hint(hint_tree(hint)) == Some(hint),
{
    lemma_hint_keys();
}

/// Whether a hint is about `meeting` in this session and has not expired.
pub open spec fn hint_fits(
    hint: HintView,
    meeting: MeetingView,
    session: Seq<char>,
    now: i64,
) -> bool {
    session.len() > 0 && hint.session == session && hint.expires > now && hint.fallback
        == meeting.fallback_key && hint.room.provider == meeting.provider
}

/// Whether `hint` is about `meeting` in this session and has not expired.
pub fn valid_hint(hint: &Hint, meeting: &DetectedMeeting, session: &str, now: i64) -> (r: bool)
    ensures
        r == hint_fits(hint@, meeting@, session@, now),
{
    !session.is_empty() && text::same(hint.session.as_str(), session) && hint.expires > now
        && text::same(hint.fallback.as_str(), meeting.fallback_key.as_str()) && text::same(
        hint.room.provider.as_str(),
        meeting.provider,
    )
}

/// The hint that an optional document keeps.
pub open spec fn document_hint(document: Option<json::Tree>) -> Option<HintView> {
    match document {
        Some(tree) => tree_hint(tree),
        None => None,
    }
}

/// The hint that was kept in a file with these contents, none where there is no
/// file or no hint in it.
pub open spec fn kept_hint(kept: Option<Seq<u8>>) -> Option<HintView> {
    match kept {
        Some(bytes) => document_hint(json::json_bytes(bytes)),
        None => None,
    }
}

/// A meeting whose window does not tell the room, in the room of a hint where that
/// is about it.
pub open spec fn hinted(
    meeting: MeetingView,
    hint: Option<HintView>,
    session: Seq<char>,
    now: i64,
) -> MeetingView {
    match (meeting.room, hint) {
        (None, Some(hint)) => if hint_fits(hint, meeting, session, now) {
            meeting.in_room(hint.room)
        } else {
            meeting
        },
        _ => meeting,
    }
}

/// A meeting whose window does not tell the room, in the room of a kept hint
/// where that is about it.
pub open spec fn augmented(
    meeting: MeetingView,
    kept: Option<Seq<u8>>,
    session: Seq<char>,
    now: i64,
) -> MeetingView {
    hinted(meeting, kept_hint(kept), session, now)
}

/// The contents of an optional file.
pub open spec fn contents(kept: Option<&[u8]>) -> Option<Seq<u8>> {
    match kept {
        Some(bytes) => Some(bytes@),
        None => None,
    }
}

/// Puts a meeting whose window does not tell the room into the room of a hint,
/// where a document keeps one that is about it.
pub fn augment_from(
    meeting: &mut DetectedMeeting,
    document: &Option<Json>,
    session: &str,
    now: i64,
)
    ensures
        final(meeting)@ == hinted(
            old(meeting)@,
            document_hint(json::optional_tree(*document)),
            session@,
            now,
        ),
{
    if meeting.room.is_some() {
        return;
    }
    let hint = match document {
        Some(document) => Hint::from_json(document),
        None => None,
    };
    if let Some(hint) = hint {
        if valid_hint(&hint, meeting, session, now) {
            meeting.set_room(hint.room);
        }
    }
}

/// Puts a meeting whose window does not tell the room into the room of a hint,
/// where `kept`, the contents of the file that keeps one, has a hint about it.
pub fn augment(meeting: &mut DetectedMeeting, kept: Option<&[u8]>, session: &str, now: i64)
    ensures
        final(meeting)@ == augmented(old(meeting)@, contents(kept), session@, now),
{
    let document = match kept {
        Some(bytes) => json::read_bytes(bytes),
        None => None,
    };
    augment_from(meeting, &document, session, now);
}

/// How long a hint lasts.
pub const HINT_SECS: i64 = 7200;

pub const NOT_ONE_WINDOW: &'static str =
    "Open exactly one meeting window before applying its link.";

pub const OTHER_PROVIDER: &'static str = "The link must match the detected meeting provider.";

pub const OTHER_ROOM: &'static str =
    "The link does not match the room ID exposed by the meeting window.";

pub const NO_SESSION: &'static str = "No Hyprland session";

/// `a + b`, or the highest `i64` where that is higher still.
pub open spec fn capped_sum(a: i64, b: i64) -> i64
    recommends
        b >= 0,
{
    if a + b > i64::MAX {
        i64::MAX
    } else {
        (a + b) as i64
    }
}

pub(crate) fn saturating(a: i64, b: i64) -> (r: i64)
    requires
        b >= 0,
    ensures
        r == capped_sum(a, b),
{
    match a.checked_add(b) {
        Some(sum) => sum,
        None => i64::MAX,
    }
}

/// The hint that applying a link to the open windows makes, or why it makes none.
/// The reasons are looked at in this order.
pub open spec fn applied_hint(
    uri: Option<Uri>,
    windows: Result<Seq<Client>, Seq<char>>,
    session: Option<Seq<char>>,
    now: i64,
) -> Result<HintView, Seq<char>> {
    match (split_room(uri), windows) {
        (None, _) => Err(NO_ROOM@),
        (_, Err(error)) => Err(error),
        (Some(room), Ok(clients)) => match crate::meeting_detection::only_meeting(clients) {
            None => Err(NOT_ONE_WINDOW@),
            Some(meeting) => if meeting.provider != room.provider {
                Err(OTHER_PROVIDER@)
            } else if meeting.room is Some && meeting.room != Some(room) {
                Err(OTHER_ROOM@)
            } else {
                match session {
                    None => Err(NO_SESSION@),
                    Some(session) => Ok(
                        HintView {
                            session,
                            fallback: meeting.fallback_key,
                            expires: capped_sum(now, HINT_SECS),
                            room,
                        },
                    ),
                }
            },
        },
    }
}

/// The windows of a query.
pub open spec fn windows_view(
    windows: Result<Vec<Client>, String>,
) -> Result<Seq<Client>, Seq<char>> {
    match windows {
        Ok(windows) => Ok(windows@),
        Err(error) => Err(error@),
    }
}

fn same_room(a: &Room, b: &Room) -> (r: bool)
    ensures
        r == (a@ == b@),
{
    text::same(a.provider.as_str(), b.provider.as_str()) && text::same(a.id.as_str(), b.id.as_str())
}

/// The hint that applying a link to the open windows makes, or why it makes none.
pub fn make_hint(
    uri: &Option<Uri>,
    windows: &Result<Vec<Client>, String>,
    session: Option<&str>,
    now: i64,
) -> (r: Result<Hint, String>)
    ensures
        match r {
            Ok(hint) => applied_hint(*uri, windows_view(*windows), text::viewed(session), now) == Ok::<
                HintView,
                Seq<char>,
            >(hint@),
            Err(error) => applied_hint(*uri, windows_view(*windows), text::viewed(session), now)
                == Err::<HintView, Seq<char>>(error@),
        },
{
    let room = match parse(uri) {
        Ok(room) => room,
        Err(error) => {
            return Err(error);
        },
    };
    let clients = match windows {
        Ok(clients) => clients,
        Err(error) => {
            return Err(error.clone());
        },
    };
    let meeting = match unique(clients.as_slice()) {
        Some(meeting) => meeting,
        None => {
            return Err(NOT_ONE_WINDOW.to_owned());
        },
    };
    if !text::same(meeting.provider, room.provider.as_str()) {
        return Err(OTHER_PROVIDER.to_owned());
    }
    if let Some(detected) = &meeting.room {
        if !same_room(detected, &room) {
            return Err(OTHER_ROOM.to_owned());
        }
    }
    match session {
        Some(session) => Ok(
            Hint {
                session: session.to_owned(),
                fallback: meeting.fallback_key,
                expires: saturating(now, HINT_SECS),
                room,
            },
        ),
        None => Err(NO_SESSION.to_owned()),
    }
}

/// Applies a link to the meeting in the open windows: the text to keep as its
/// hint, or why there is none.
pub fn apply(
    uri: &Option<Uri>,
    windows: &Result<Vec<Client>, String>,
    session: Option<&str>,
    now: i64,
) -> (r: Result<String, String>)
    ensures
        match (r, applied_hint(*uri, windows_view(*windows), text::viewed(session), now)) {
            (Ok(kept), Ok(hint)) => kept@ == json::json_text(hint_tree(hint)) && kept_hint(
                Some(vstd::utf8::encode_utf8(kept@)),
            ) == Some(hint),
            (Err(error), Err(reason)) => error@ == reason,
            _ => false,
        },
{
    match make_hint(uri, windows, session, now) {
        Ok(hint) => {
            proof {
                a_kept_hint_is_read_back(hint@);
            }
            let value = hint.json();
            Ok(json::write(&value))
        },
        Err(error) => Err(error),
    }
}

/// A room that was found is a Meet code or a number of nine to eleven digits, of
/// the provider that goes with it.
pub proof fn rooms_have_the_shape_of_their_provider(uri: Uri)
    ensures
        linked_room(uri) matches Some(room) ==> {
            ||| room.provider == GOOGLE_MEET@ && crate::meeting_detection::is_meet_code(room.id)
            ||| room.provider == ZOOM@ && zoom_number(room.id)
        },
{
}

/// A link that applied is about the meeting from then on, for two hours: the
/// meeting without a room of its own is in the room of the link.
pub proof fn an_applied_link_names_the_room(
    uri: Option<Uri>,
    clients: Seq<Client>,
    session: Seq<char>,
    now: i64,
    kept: Seq<char>,
    later: i64,
)
    requires
        applied_hint(uri, Ok(clients), Some(session), now) matches Ok(hint) && kept_hint(
            Some(vstd::utf8::encode_utf8(kept)),
        ) == Some(hint),
        session.len() > 0,
        now <= later,
        later - now < HINT_SECS,
        later < i64::MAX,
        crate::meeting_detection::only_meeting(clients).unwrap().room is None,
    ensures
        augmented(
            crate::meeting_detection::only_meeting(clients).unwrap(),
            Some(vstd::utf8::encode_utf8(kept)),
            session,
            later,
        ).room == split_room(uri),
        split_room(uri) is Some,
{
}

/// Nothing of a link is kept but a piece of its path: no password, no user and no
/// other credential.
pub proof fn only_a_piece_of_the_path_is_kept(uri: Uri)
    ensures
        linked_room(uri) matches Some(room) ==> path_parts(uri.path@).contains(room.id),
{
    let parts = path_parts(uri.path@);
    if linked_room(uri) is Some {
        if parts.len() == 1 {
            assert(parts.contains(parts[0]));
        } else if parts.len() == 2 {
            assert(parts.contains(parts[1]));
        } else if parts.len() == 3 {
            assert(parts.contains(parts[1]));
            assert(parts.contains(parts[2]));
        }
    }
}

/// A link that names a user, that is not of the secure web or that goes to another
/// host leads to no room.
pub proof fn other_links_lead_to_no_room(uri: Uri)
    requires
        uri.userinfo is Some || uri.scheme@ != "https"@ || uri.host is None || ({
            let host = text::lowered(uri.host.unwrap()@);
            host != "meet.google.com"@ && host != "zoom.us"@ && !".zoom.us"@.is_suffix_of(host)
        }),
    ensures
        linked_room(uri) is None,
{
}

/// A hint counts only in the session that it was made in, only until it expires, and
/// only for the meeting that it was made for.
pub proof fn hints_are_scoped_and_expire(
    hint: HintView,
    meeting: MeetingView,
    kept: Option<Seq<u8>>,
    session: Seq<char>,
    now: i64,
)
    requires
        kept_hint(kept) == Some(hint),
        hint.session != session || hint.expires <= now || hint.fallback != meeting.fallback_key
            || hint.room.provider != meeting.provider,
    ensures
        augmented(meeting, kept, session, now) == meeting,
{
}

/// The class of a web app on Google Meet tells the code that it was launched with,
/// whatever its profile.
pub proof fn a_meet_app_tells_its_code(code: Seq<char>, profile: Seq<char>)
    requires
        crate::meeting_detection::is_meet_code(code),
    ensures
        class_link("chrome-"@ + ("meet.google.com"@ + "__"@ + (code + ("-"@ + profile)))) == Some(
            "https://"@ + "meet.google.com"@ + "/"@ + code,
        ),
{
    let path = code + ("-"@ + profile);
    let rest = "meet.google.com"@ + "__"@ + path;
    let class = "chrome-"@ + rest;
    reveal_strlit("chrome-");
    reveal_strlit("meet.google.com");
    reveal_strlit("__");
    reveal_strlit("-");
    assert(class.subrange(0, 7) =~= "chrome-"@);
    assert(class.skip(7) =~= rest);
    assert(!"meet.google.com"@.contains('_'));
    text::lemma_cut_at_part("meet.google.com"@, "__"@, path);
    assert forall|i: int| 0 <= i < code.len() implies '\0' <= #[trigger] code[i] <= '\u{7f}' by {
        if i == 3 || i == 8 {
            assert(code[i] == '-');
        } else {
            assert(text::ascii_lowercase(code[i]));
        }
    }
    assert(vstd::utf8::is_ascii_chars(code));
    vstd::utf8::is_ascii_chars_encode_utf8(code);
    text::lemma_cut_bytes(code, "-"@ + profile);
    assert(("-"@ + profile).subrange(0, 1) =~= "-"@);
    assert forall|i: int| 0 <= i < code.len() implies #[trigger] code[i] != '_' by {
        if i == 3 || i == 8 {
            assert(code[i] == '-');
        } else {
            assert(text::ascii_lowercase(code[i]));
        }
    }
    assert(text::swapped(code, '_', '/') =~= code);
}

/// The class of any other web app tells its host and its path, whatever its
/// profile.
pub proof fn a_web_app_tells_its_link(host: Seq<char>, path: Seq<char>, profile: Seq<char>)
    requires
        host != "meet.google.com"@,
        !host.contains('_'),
        !path.contains('-'),
    ensures
        class_link("chrome-"@ + (host + "__"@ + (path + "-"@ + profile))) == Some(
            "https://"@ + host + "/"@ + text::swapped(path, '_', '/'),
        ),
{
    let behind = path + "-"@ + profile;
    let rest = host + "__"@ + behind;
    let class = "chrome-"@ + rest;
    reveal_strlit("chrome-");
    reveal_strlit("__");
    reveal_strlit("-");
    assert(class.subrange(0, 7) =~= "chrome-"@);
    assert(class.skip(7) =~= rest);
    text::lemma_cut_at_part(host, "__"@, behind);
    assert forall|j: int| 0 <= j < path.len() implies !text::equals('-')(#[trigger] behind[j]) by {
        assert(behind[j] == path[j]);
        assert(path.contains(path[j]));
    }
    assert(behind[path.len() as int] == '-');
    text::lemma_first_where_is(behind, text::equals('-'), path.len() as int);
    assert(behind.take(path.len() as int) =~= path);
}

/// What stands between the slashes of a path is what its pieces are of.
proof fn lemma_path_parts(lead: Seq<char>, inner: Seq<char>, trail: Seq<char>)
    requires
        forall|i: int| 0 <= i < lead.len() ==> #[trigger] lead[i] == '/',
        forall|i: int| 0 <= i < trail.len() ==> #[trigger] trail[i] == '/',
        inner.len() > 0,
        inner[0] != '/',
        inner.last() != '/',
    ensures
        path_parts(lead + inner + trail) == text::split_at(inner, '/'),
{
    let set = seq!['/'];
    assert(set[0] == '/');
    text::lemma_stripped_is(lead, inner, trail, set);
}

proof fn lemma_zoom_parts(id: Seq<char>)
    requires
        !id.contains('/'),
    ensures
        text::split_at("j/"@ + id, '/') == seq!["j"@, id],
        text::split_at("wc/join/"@ + id, '/') == seq!["wc"@, "join"@, id],
        text::split_at("wc/"@ + id + "/join"@, '/') == seq!["wc"@, id, "join"@],
{
    reveal_strlit("j/");
    reveal_strlit("j");
    reveal_strlit("wc/join/");
    reveal_strlit("wc/");
    reveal_strlit("wc");
    reveal_strlit("join");
    reveal_strlit("/join");
    assert("j/"@ + id =~= "j"@ + seq!['/'] + id);
    assert(!"j"@.contains('/'));
    assert(!"wc"@.contains('/'));
    assert(!"join"@.contains('/'));
    text::lemma_split_first(id, '/', Seq::empty());
    text::lemma_split_first("j"@, '/', id);
    assert(seq!["j"@] + seq![id] =~= seq!["j"@, id]);
    assert("wc/join/"@ + id =~= "wc"@ + seq!['/'] + ("join"@ + seq!['/'] + id));
    text::lemma_split_first("join"@, '/', id);
    text::lemma_split_first("wc"@, '/', "join"@ + seq!['/'] + id);
    assert(seq!["wc"@] + (seq!["join"@] + seq![id]) =~= seq!["wc"@, "join"@, id]);
    assert("wc/"@ + id + "/join"@ =~= "wc"@ + seq!['/'] + (id + seq!['/'] + "join"@));
    text::lemma_split_first("join"@, '/', Seq::empty());
    text::lemma_split_first(id, '/', "join"@);
    text::lemma_split_first("wc"@, '/', id + seq!['/'] + "join"@);
    assert(seq!["wc"@] + (seq![id] + seq!["join"@]) =~= seq!["wc"@, id, "join"@]);
}

/// A link of the secure web without a user, on the usual port, to `zoom.us` or a host that
/// ends in `.zoom.us`, in capitals or small letters, with the number of a meeting of nine, ten or eleven digits
/// where a link of Zoom has it, leads to that meeting. Slashes around its path do not
/// matter.
pub proof fn a_link_with_a_meeting_number_leads_to_zoom(
    uri: Uri,
    front: Seq<char>,
    host: Seq<char>,
    end: Seq<char>,
    id: Seq<char>,
    lead: Seq<char>,
    trail: Seq<char>,
)
    requires
        uri.scheme@ == "https"@,
        uri.userinfo is None,
        uri.port == -1 || uri.port == 443,
        uri.host is Some,
        uri.host.unwrap()@ == front + host,
        host.len() == end.len(),
        forall|i: int|
            0 <= i < host.len() ==> #[trigger] host[i] == end[i] || ('A' <= host[i] <= 'Z'
                && host[i] as int + 32 == end[i] as int),
        end == ".zoom.us"@ || (end == "zoom.us"@ && front.len() == 0),
        id.len() == 9 || id.len() == 10 || id.len() == 11,
        forall|i: int| 0 <= i < id.len() ==> '0' <= #[trigger] id[i] <= '9',
        forall|i: int| 0 <= i < lead.len() ==> #[trigger] lead[i] == '/',
        forall|i: int| 0 <= i < trail.len() ==> #[trigger] trail[i] == '/',
        ({
            ||| uri.path@ == lead + ("j/"@ + id) + trail
            ||| uri.path@ == lead + ("wc/join/"@ + id) + trail
            ||| uri.path@ == lead + ("wc/"@ + id + "/join"@) + trail
        }),
    ensures
        linked_room(uri) == Some(RoomView { provider: "Zoom"@, id }),
        split_room(Some(uri)) == Some(RoomView { provider: "Zoom"@, id }),
{
    let small = text::lowered(uri.host.unwrap()@);
    reveal_strlit("zoom.us");
    reveal_strlit(".zoom.us");
    reveal_strlit("meet.google.com");
    reveal_strlit("j/");
    reveal_strlit("j");
    reveal_strlit("wc/join/");
    reveal_strlit("wc/");
    reveal_strlit("wc");
    reveal_strlit("join");
    reveal_strlit("/join");
    assert forall|i: int| 0 <= i < end.len() implies !('A' <= #[trigger] end[i] <= 'Z') by {}
    text::lemma_lowered_is(host, end);
    assert(small =~= text::lowered(front) + end);
    if front.len() == 0 {
        assert(small =~= end);
    }
    assert(small.subrange(small.len() - end.len(), small.len() as int) =~= end);
    assert(small.last() == 's');
    assert("meet.google.com"@.last() == 'm');
    assert(!id.contains('/')) by {
        if id.contains('/') {
            let i = choose|i: int| 0 <= i < id.len() && id[i] == '/';
            assert('0' <= id[i]);
        }
    }
    assert('0' <= id[0] <= '9');
    assert('0' <= id[id.len() - 1] <= '9');
    lemma_zoom_parts(id);
    if uri.path@ == lead + ("j/"@ + id) + trail {
        lemma_path_parts(lead, "j/"@ + id, trail);
    } else if uri.path@ == lead + ("wc/join/"@ + id) + trail {
        lemma_path_parts(lead, "wc/join/"@ + id, trail);
        assert("wc"@.len() != "j"@.len());
    } else {
        lemma_path_parts(lead, "wc/"@ + id + "/join"@, trail);
        assert("join"@[0] == 'j');
        assert(id != "join"@);
    }
    assert(zoom_number(id));
}

/// A link of the secure web without a user, on the usual port, to the host of Google Meet
/// in capitals or small letters, with a code of three, four and three small letters alone
/// for a path, leads to the meeting of that code. Slashes around its path do not matter.
pub proof fn a_link_with_a_code_leads_to_google_meet(
    uri: Uri,
    id: Seq<char>,
    lead: Seq<char>,
    trail: Seq<char>,
)
    requires
        uri.scheme@ == "https"@,
        uri.userinfo is None,
        uri.port == -1 || uri.port == 443,
        uri.host is Some,
        uri.host.unwrap()@.len() == 15,
        forall|i: int|
            0 <= i < 15 ==> {
                let c = #[trigger] uri.host.unwrap()@[i];
                c == "meet.google.com"@[i] || ('A' <= c <= 'Z' && c as int + 32
                    == "meet.google.com"@[i] as int)
            },
        id.len() == 12,
        id[3] == '-',
        id[8] == '-',
        forall|i: int| 0 <= i < 12 && i != 3 && i != 8 ==> 'a' <= #[trigger] id[i] <= 'z',
        forall|i: int| 0 <= i < lead.len() ==> #[trigger] lead[i] == '/',
        forall|i: int| 0 <= i < trail.len() ==> #[trigger] trail[i] == '/',
        uri.path@ == lead + id + trail,
    ensures
        linked_room(uri) == Some(RoomView { provider: "Google Meet"@, id }),
        split_room(Some(uri)) == Some(RoomView { provider: "Google Meet"@, id }),
{
    reveal_strlit("meet.google.com");
    let host = uri.host.unwrap()@;
    let end = "meet.google.com"@;
    assert forall|i: int| 0 <= i < end.len() implies !('A' <= #[trigger] end[i] <= 'Z') by {}
    text::lemma_lowered_is(host, end);
    assert(!id.contains('/')) by {
        if id.contains('/') {
            let i = choose|i: int| 0 <= i < id.len() && id[i] == '/';
            assert(i != 3 && i != 8 ==> 'a' <= id[i]);
        }
    }
    assert('a' <= id[0] <= 'z');
    assert('a' <= id[11] <= 'z');
    lemma_path_parts(lead, id, trail);
    text::lemma_split_first(id, '/', Seq::empty());
    assert(crate::meeting_detection::is_meet_code(id));
}

/// Two pieces with a slash between, or three.
proof fn lemma_joined_parts(parts: Seq<Seq<char>>)
    ensures
        parts.len() == 1 ==> text::joined(parts, seq!['/']) == parts[0],
        parts.len() == 2 ==> text::joined(parts, seq!['/']) == parts[0] + seq!['/'] + parts[1],
        parts.len() == 3 ==> text::joined(parts, seq!['/']) == parts[0] + seq!['/'] + parts[1]
            + seq!['/'] + parts[2],
{
    if parts.len() >= 2 {
        let less = parts.drop_last();
        assert(text::joined(parts, seq!['/']) == text::joined(less, seq!['/']) + seq!['/']
            + parts.last());
        if parts.len() == 3 {
            let least = less.drop_last();
            assert(least.len() == 1);
            assert(text::joined(less, seq!['/']) == text::joined(least, seq!['/']) + seq!['/']
                + less.last());
        }
    }
}

/// A link that leads to a room is one of the secure web without a user, on the usual port,
/// to a host of the room's provider, and what is between the slashes around its path is
/// the code of a meeting, or its number where a link of Zoom has it.
pub proof fn a_room_is_read_off_a_link_of_its_provider(uri: Uri) -> (ends: (Seq<char>, Seq<char>))
    requires
        linked_room(uri) is Some,
    ensures
        uri.scheme@ == "https"@,
        uri.userinfo is None,
        uri.port == -1 || uri.port == 443,
        uri.host is Some,
        forall|i: int| 0 <= i < ends.0.len() ==> #[trigger] ends.0[i] == '/',
        forall|i: int| 0 <= i < ends.1.len() ==> #[trigger] ends.1[i] == '/',
        ({
            let room = linked_room(uri).unwrap();
            let id = room.id;
            let host = text::lowered(uri.host.unwrap()@);
            ||| {
                &&& room.provider == "Google Meet"@
                &&& host == "meet.google.com"@
                &&& uri.path@ == ends.0 + id + ends.1
                &&& id.len() == 12 && id[3] == '-' && id[8] == '-'
                &&& forall|i: int| 0 <= i < 12 && i != 3 && i != 8 ==> 'a' <= #[trigger] id[i] <= 'z'
            }
            ||| {
                &&& room.provider == "Zoom"@
                &&& host == "zoom.us"@ || ".zoom.us"@.is_suffix_of(host)
                &&& 9 <= id.len() <= 11
                &&& forall|i: int| 0 <= i < id.len() ==> '0' <= #[trigger] id[i] <= '9'
                &&& {
                    ||| uri.path@ == ends.0 + ("j/"@ + id) + ends.1
                    ||| uri.path@ == ends.0 + ("wc/join/"@ + id) + ends.1
                    ||| uri.path@ == ends.0 + ("wc/"@ + id + "/join"@) + ends.1
                }
            }
        }),
{
    let set = seq!['/'];
    let inner = text::stripped_end(text::stripped_start(uri.path@, set), set);
    let ends = text::lemma_stripped(uri.path@, set);
    let parts = path_parts(uri.path@);
    let id = linked_room(uri).unwrap().id;
    text::pieces_make_up_the_text(inner, '/');
    lemma_joined_parts(parts);
    assert forall|i: int| 0 <= i < ends.0.len() implies #[trigger] ends.0[i] == '/' by {
        assert(set.contains(ends.0[i]));
    }
    assert forall|i: int| 0 <= i < ends.1.len() implies #[trigger] ends.1[i] == '/' by {
        assert(set.contains(ends.1[i]));
    }
    reveal_strlit("j/");
    reveal_strlit("j");
    reveal_strlit("wc/join/");
    reveal_strlit("wc/");
    reveal_strlit("wc");
    reveal_strlit("join");
    reveal_strlit("/join");
    if linked_room(uri).unwrap().provider == ZOOM@ {
        reveal_strlit("Zoom");
        reveal_strlit("Google Meet");
        assert(ZOOM@.len() != GOOGLE_MEET@.len());
        assert(zoom_number(id));
        assert forall|i: int| 0 <= i < id.len() implies '0' <= #[trigger] id[i] <= '9' by {
            assert(text::ascii_digit(id[i]));
        }
        if parts.len() == 2 {
            assert(inner =~= "j/"@ + id);
        } else if parts[1] == "join"@ {
            assert(inner =~= "wc/join/"@ + id);
        } else {
            assert(inner =~= "wc/"@ + id + "/join"@);
        }
    } else {
        assert(crate::meeting_detection::is_meet_code(id));
        assert forall|i: int| 0 <= i < 12 && i != 3 && i != 8 implies 'a' <= #[trigger] id[i] <= 'z' by {
            assert(text::ascii_lowercase(id[i]));
        }
        assert(id[3] == '-' && id[8] == '-');
    }
    ends
}

/// A class that tells a launch link and a pasted link to the same place tell the same
/// room. A class tells one where `chrome-` comes first in it and two underscores somewhere
/// behind, and where the host is that of Google Meet, twelve bytes and a hyphen behind
/// these.
pub proof fn a_class_tells_the_room_of_its_link(class: Seq<char>, uri: Uri)
    ensures
        class_link(class) is Some ==> class_room(class, Some(uri)) == linked_room(uri),
        class_link(class) is None ==> class_room(class, Some(uri)) is None,
        class_room(class, None) is None,
        class_link(class) is Some ==> "chrome-"@.is_prefix_of(class),
        class_link(class) is Some ==> text::cut_part(
            class.skip("chrome-"@.len() as int),
            "__"@,
        ) is Some,
{
}

/// The path in a launch link is the one in the class with slashes for its underscores.
pub proof fn underscores_in_a_class_are_slashes(path: Seq<char>, i: int)
    requires
        0 <= i < path.len(),
    ensures
        text::swapped(path, '_', '/').len() == path.len(),
        text::swapped(path, '_', '/')[i] == if path[i] == '_' {
            '/'
        } else {
            path[i]
        },
{
}

/// A hint that was kept in this session for the meeting, whose window does not tell the
/// room, and has not expired, puts it into its room: that is what tells the meeting from
/// others then. All else of the meeting stays. A meeting with a room stays as it is.
pub proof fn a_hint_puts_its_meeting_into_its_room(
    hint: HintView,
    meeting: MeetingView,
    kept: Option<Seq<u8>>,
    session: Seq<char>,
    now: i64,
)
    requires
        kept_hint(kept) == Some(hint),
    ensures
        ({
            let after = augmented(meeting, kept, session, now);
            let fits = session.len() > 0 && hint.session == session && hint.expires > now
                && hint.fallback == meeting.fallback_key && hint.room.provider == meeting.provider;
            &&& after.window == meeting.window
            &&& after.provider == meeting.provider
            &&& after.title == meeting.title
            &&& after.fallback_key == meeting.fallback_key
            &&& meeting.room is None && fits ==> after.room == Some(hint.room) && after.key
                == meeting.window + ":"@ + meeting.provider + ":room:"@ + hint.room.id
            &&& meeting.room is Some || !fits ==> after == meeting
        }),
{
}

/// A hint is in a document that has its session, its fallback key, the time it expires,
/// its provider and its id, each under its name; without one of these there is none.
pub proof fn a_hint_has_its_parts_by_their_names(tree: json::Tree, hint: HintView)
    ensures
        tree_hint(tree) == Some(hint) <==> {
            &&& tree.member("session"@) == json::Tree::Text(hint.session)
            &&& tree.member("fallback"@) == json::Tree::Text(hint.fallback)
            &&& tree.member("expires"@) == json::Tree::Number(Some(hint.expires))
            &&& tree.member("provider"@) == json::Tree::Text(hint.room.provider)
            &&& tree.member("id"@) == json::Tree::Text(hint.room.id)
        },
        hint_tree(hint) is Object,
        hint_tree(hint)->Object_0.dom() == set![
            "session"@,
            "fallback"@,
            "expires"@,
            "provider"@,
            "id"@,
        ],
        tree_hint(hint_tree(hint)) == Some(hint),
{
    lemma_hint_keys();
    assert(hint_tree(hint)->Object_0.dom() =~= set![
        "session"@,
        "fallback"@,
        "expires"@,
        "provider"@,
        "id"@,
    ]);
}

/// A link is applied to the one meeting in the open windows where it leads to a room of
/// that meeting's provider, and to the room that its window tells where it tells one. It
/// then counts for two hours in this session. Where it is not applied, the first of the
/// reasons is told.
pub proof fn a_link_is_applied_to_the_meeting_that_it_leads_to(
    uri: Option<Uri>,
    windows: Result<Seq<Client>, Seq<char>>,
    session: Option<Seq<char>>,
    now: i64,
)
    ensures
        ({
            let outcome = applied_hint(uri, windows, session, now);
            let room = split_room(uri);
            &&& room is None ==> outcome == Err::<HintView, Seq<char>>(
                "Enter a Google Meet room link or a Zoom numeric meeting link."@,
            )
            &&& room is Some && windows is Err ==> outcome == Err::<HintView, Seq<char>>(
                windows->Err_0,
            )
            &&& room is Some && windows is Ok ==> {
                let meetings = crate::meeting_detection::meetings(windows->Ok_0);
                let meeting = meetings[0];
                let fits = meeting.provider == room.unwrap().provider;
                let told = meeting.room is None || meeting.room == room;
                &&& meetings.len() != 1 ==> outcome == Err::<HintView, Seq<char>>(
                    "Open exactly one meeting window before applying its link."@,
                )
                &&& meetings.len() == 1 && !fits ==> outcome == Err::<HintView, Seq<char>>(
                    "The link must match the detected meeting provider."@,
                )
                &&& meetings.len() == 1 && fits && !told ==> outcome == Err::<HintView, Seq<char>>(
                    "The link does not match the room ID exposed by the meeting window."@,
                )
                &&& meetings.len() == 1 && fits && told && session is None ==> outcome == Err::<
                    HintView,
                    Seq<char>,
                >("No Hyprland session"@)
                &&& meetings.len() == 1 && fits && told && session is Some ==> {
                    &&& outcome matches Ok(hint)
                    &&& hint.session == session.unwrap()
                    &&& hint.fallback == meeting.fallback_key
                    &&& Some(hint.room) == room
                    &&& hint.expires == vstd::math::min(now + 7200, i64::MAX as int)
                }
            }
        }),
{
}

/// A link that was applied puts its meeting into the room for two hours and no longer.
pub proof fn an_applied_link_counts_for_two_hours(
    uri: Option<Uri>,
    clients: Seq<Client>,
    session: Seq<char>,
    now: i64,
    kept: Seq<u8>,
    later: i64,
)
    requires
        applied_hint(uri, Ok(clients), Some(session), now) matches Ok(hint) && kept_hint(Some(kept))
            == Some(hint),
        session.len() > 0,
        crate::meeting_detection::only_meeting(clients).unwrap().room is None,
    ensures
        ({
            let meeting = crate::meeting_detection::only_meeting(clients).unwrap();
            let after = augmented(meeting, Some(kept), session, later);
            &&& later - now < 7200 && later < i64::MAX ==> after.room == split_room(uri)
            &&& later - now >= 7200 ==> after.room is None
        }),
{
}

/// A hint is read out of a file that has a document with one in it, and out of nothing
/// else; a text that is no link leads to no room.
pub proof fn a_hint_is_read_out_of_its_file(
    bytes: Seq<u8>,
    meeting: MeetingView,
    session: Seq<char>,
    now: i64,
)
    ensures
        kept_hint(None) is None,
        kept_hint(Some(bytes)) == match json::json_bytes(bytes) {
            Some(tree) => tree_hint(tree),
            None => None,
        },
        kept_hint(Some(bytes)) is None ==> augmented(meeting, Some(bytes), session, now) == meeting,
        augmented(meeting, None, session, now) == meeting,
        hinted(meeting, kept_hint(Some(bytes)), session, now) == augmented(
            meeting,
            Some(bytes),
            session,
            now,
        ),
        split_room(None) is None,
        NO_ROOM@ == "Enter a Google Meet room link or a Zoom numeric meeting link."@,
{
}

/// The class of a web app without a profile behind it tells all of its path. On Google Meet
/// a class tells no link where its path is not twelve bytes with a hyphen behind them.
pub proof fn a_class_without_a_profile(host: Seq<char>, path: Seq<char>)
    requires
        !host.contains('_'),
    ensures
        host != "meet.google.com"@ && !path.contains('-') ==> class_link(
            "chrome-"@ + (host + "__"@ + path),
        ) == Some("https://"@ + host + "/"@ + text::swapped(path, '_', '/')),
        host == "meet.google.com"@ && !path.contains('-') ==> class_link(
            "chrome-"@ + (host + "__"@ + path),
        ) is None,
        host == "meet.google.com"@ && text::byte_length(path) <= 12 ==> class_link(
            "chrome-"@ + (host + "__"@ + path),
        ) is None,
{
    let rest = host + "__"@ + path;
    let class = "chrome-"@ + rest;
    reveal_strlit("chrome-");
    reveal_strlit("__");
    reveal_strlit("-");
    assert(class.subrange(0, 7) =~= "chrome-"@);
    assert(class.skip(7) =~= rest);
    text::lemma_cut_at_part(host, "__"@, path);
    if !path.contains('-') {
        assert forall|j: int| 0 <= j < path.len() implies !text::equals('-')(#[trigger] path[j]) by {
            assert(path.contains(path[j]));
        }
        text::lemma_first_where_is(path, text::equals('-'), path.len() as int);
        assert(path.take(path.len() as int) =~= path);
    }
    if host == "meet.google.com"@ {
        if let Some((code, profile)) = text::cut_bytes(path, 12) {
            text::lemma_cut_parts(path, 12);
            if "-"@.is_prefix_of(profile) {
                assert(profile.subrange(0, 1) == "-"@);
                assert(profile.subrange(0, 1)[0] == profile[0]);
                assert(profile[0] == '-');
                assert(path[code.len() as int] == '-');
                assert(path.contains('-'));
            }
        }
    }
}

} // verus!
