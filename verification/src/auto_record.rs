//! Recording that starts by itself when a meeting window shows up.
pub mod service;
pub mod start;
pub mod watch;

use vstd::prelude::*;

use crate::json;
use crate::json::{Json, Tree};
use crate::meeting_detection;
use crate::meeting_detection::{unique, Client, DetectedMeeting, MeetingView};
use crate::room_identity;
use crate::room_identity::{augment, saturating};
use crate::text;

verus! {

/// How long a meeting that was started is not started again.
pub const SUPPRESSION_SECS: i64 = 7200;

/// A meeting that was started: the window it was in, and until when it is not
/// started again.
pub struct Handled {
    pub window: String,
    pub expires_at: i64,
}

/// What a [`Handled`] says.
pub struct HandledView {
    pub window: Seq<char>,
    pub expires_at: i64,
}

impl View for Handled {
    type V = HandledView;

    open spec fn view(&self) -> HandledView {
        HandledView { window: self.window@, expires_at: self.expires_at }
    }
}

/// The meetings that were seen: the one that was seen once and is to be seen
/// again before it counts, and those that were started, by their keys.
pub struct SeenView {
    pub pending: Option<(Seq<char>, Option<Seq<char>>)>,
    pub handled: Map<Seq<char>, HandledView>,
}

/// The meetings that were seen. Repeats are suppressed for two hours, across
/// other tabs and restarts. Closing the window releases them sooner.
pub struct Seen {
    pending: Option<(String, Option<String>)>,
    handled: Vec<(String, Handled)>,
}

spec fn handled_map(entries: Seq<(String, Handled)>) -> Map<Seq<char>, HandledView>
    decreases entries.len(),
{
    if entries.len() == 0 {
        Map::empty()
    } else {
        handled_map(entries.drop_last()).insert(entries.last().0@, entries.last().1@)
    }
}

spec fn distinct(entries: Seq<(String, Handled)>) -> bool {
    forall|i: int, j: int|
        0 <= i < j < entries.len() ==> (#[trigger] entries[i]).0@ != (#[trigger] entries[j]).0@
}

proof fn lemma_handled_map(entries: Seq<(String, Handled)>)
    ensures
        forall|key: Seq<char>| #[trigger]
            handled_map(entries).contains_key(key) ==> exists|i: int|
                0 <= i < entries.len() && (#[trigger] entries[i]).0@ == key,
        forall|i: int|
            0 <= i < entries.len() ==> handled_map(entries).contains_key((#[trigger] entries[i]).0@),
        distinct(entries) ==> forall|i: int|
            0 <= i < entries.len() ==> handled_map(entries)[(#[trigger] entries[i]).0@]
                == entries[i].1@,
    decreases entries.len(),
{
    if entries.len() > 0 {
        let rest = entries.drop_last();
        let last = entries.len() - 1;
        lemma_handled_map(rest);
        assert forall|key: Seq<char>| #[trigger]
            handled_map(entries).contains_key(key) implies exists|i: int|
            0 <= i < entries.len() && (#[trigger] entries[i]).0@ == key by {
            if entries[last].0@ != key {
                assert(handled_map(rest).contains_key(key));
                let i = choose|i: int| 0 <= i < rest.len() && (#[trigger] rest[i]).0@ == key;
                assert(entries[i].0@ == key);
            }
        }
        assert forall|i: int| 0 <= i < entries.len() implies handled_map(entries).contains_key(
            (#[trigger] entries[i]).0@,
        ) by {
            if i < last {
                assert(rest[i] == entries[i]);
            }
        }
        if distinct(entries) {
            assert(distinct(rest));
            assert forall|i: int| 0 <= i < entries.len() implies handled_map(entries)[(
            #[trigger] entries[i]).0@] == entries[i].1@ by {
                if i < last {
                    assert(rest[i] == entries[i]);
                    assert(entries[i].0@ != entries[last].0@);
                }
            }
        }
    }
}

spec fn pending_view(pending: Option<(String, Option<String>)>) -> Option<
    (Seq<char>, Option<Seq<char>>),
> {
    match pending {
        Some((key, title)) => Some((key@, text::owned(title))),
        None => None,
    }
}

impl View for Seen {
    type V = SeenView;

    closed spec fn view(&self) -> SeenView {
        SeenView { pending: pending_view(self.pending), handled: handled_map(self.handled@) }
    }
}

/// Whether `window` is the address of one of `clients`.
pub open spec fn is_open(clients: Seq<Client>, window: Seq<char>) -> bool {
    exists|i: int| 0 <= i < clients.len() && (#[trigger] clients[i]).address() == Some(window)
}

/// What is still suppressed: what has not expired and whose window is open.
pub open spec fn live(
    handled: Map<Seq<char>, HandledView>,
    clients: Seq<Client>,
    now: i64,
) -> Map<Seq<char>, HandledView> {
    Map::new(
        |key: Seq<char>|
            handled.contains_key(key) && handled[key].expires_at > now && is_open(
                clients,
                handled[key].window,
            ),
        |key: Seq<char>| handled[key],
    )
}

/// A meeting that was started before its room was known is suppressed by its
/// room once that is known, until the same time.
pub open spec fn upgraded(
    handled: Map<Seq<char>, HandledView>,
    meeting: MeetingView,
) -> Map<Seq<char>, HandledView> {
    if meeting.key != meeting.fallback_key && handled.contains_key(meeting.fallback_key) {
        let rest = handled.remove(meeting.fallback_key);
        if rest.contains_key(meeting.key) {
            rest
        } else {
            rest.insert(meeting.key, handled[meeting.fallback_key])
        }
    } else {
        handled
    }
}

/// One look at the windows: what was seen after it, and the meeting to start, if
/// there is one to start.
pub open spec fn observed(
    seen: SeenView,
    clients: Seq<Client>,
    kept: Option<Seq<u8>>,
    session: Seq<char>,
    now: i64,
) -> (SeenView, Option<MeetingView>) {
    let handled = live(seen.handled, clients, now);
    match meeting_detection::only_meeting(clients) {
        None => (SeenView { pending: None, handled }, None),
        Some(meeting) => sighted(
            seen.pending,
            handled,
            room_identity::augmented(meeting, kept, session, now),
            now,
        ),
    }
}

/// A meeting in the windows: it is started when the look before saw it too, by the
/// same name, and it is not suppressed.
pub open spec fn sighted(
    pending: Option<(Seq<char>, Option<Seq<char>>)>,
    handled: Map<Seq<char>, HandledView>,
    meeting: MeetingView,
    now: i64,
) -> (SeenView, Option<MeetingView>) {
    let handled = upgraded(handled, meeting);
    if handled.contains_key(meeting.key) {
        (SeenView { pending: None, handled }, None)
    } else if pending == Some((meeting.key, meeting.title)) {
        let entry = HandledView {
            window: meeting.window,
            expires_at: room_identity::capped_sum(now, SUPPRESSION_SECS),
        };
        (SeenView { pending: None, handled: handled.insert(meeting.key, entry) }, Some(meeting))
    } else {
        (SeenView { pending: Some((meeting.key, meeting.title)), handled }, None)
    }
}

fn any_window(clients: &[Client], window: &str) -> (r: bool)
    ensures
        r == is_open(clients@, window@),
{
    for i in 0..clients.len()
        invariant
            forall|j: int| 0 <= j < i ==> (#[trigger] clients@[j]).address() != Some(window@),
    {
        if text::same_option(clients[i].info.text_member("address"), Some(window)) {
            proof {
                assert(clients@[i as int].address() == Some(window@));
            }
            return true;
        }
    }
    false
}

/// The entry of `key`, if there is one.
fn find_entry<'a>(entries: &'a Vec<(String, Handled)>, key: &str) -> (r: Option<&'a Handled>)
    requires
        distinct(entries@),
    ensures
        match r {
            Some(entry) => handled_map(entries@).contains_key(key@) && handled_map(entries@)[key@]
                == entry@,
            None => !handled_map(entries@).contains_key(key@),
        },
{
    proof {
        lemma_handled_map(entries@);
    }
    for i in 0..entries.len()
        invariant
            distinct(entries@),
            forall|j: int|
                0 <= j < entries@.len() ==> handled_map(entries@).contains_key(
                    (#[trigger] entries@[j]).0@,
                ) && handled_map(entries@)[entries@[j].0@] == entries@[j].1@,
            forall|j: int| 0 <= j < i ==> (#[trigger] entries@[j]).0@ != key@,
    {
        if text::same(entries[i].0.as_str(), key) {
            proof {
                assert(handled_map(entries@).contains_key(entries@[i as int].0@));
            }
            return Some(&entries[i].1);
        }
    }
    None
}

fn keep_live(entries: Vec<(String, Handled)>, clients: &[Client], now: i64) -> (r: Vec<
    (String, Handled),
>)
    requires
        distinct(entries@),
    ensures
        distinct(r@),
        handled_map(r@) == live(handled_map(entries@), clients@, now),
{
    let mut out: Vec<(String, Handled)> = Vec::new();
    proof {
        assert(handled_map(out@) =~= live(handled_map(entries@.take(0)), clients@, now));
    }
    for entry in it: entries
        invariant
            distinct(it.seq()),
            distinct(out@),
            handled_map(out@) == live(
                handled_map(it.seq().take(it.index() as int)),
                clients@,
                now,
            ),
    {
        let ghost before = it.seq().take(it.index() as int);
        let ghost after = it.seq().take(it.index() + 1);
        let ghost kept = out@;
        let ghost key = entry.0@;
        let ghost held = entry.1@;
        proof {
            assert(after.drop_last() =~= before);
            assert(after.last() == entry);
            assert(!handled_map(before).contains_key(key)) by {
                lemma_handled_map(before);
                if handled_map(before).contains_key(key) {
                    let i = choose|i: int| 0 <= i < before.len() && (#[trigger] before[i]).0@ == key;
                    assert(it.seq()[i].0@ == key);
                    assert(it.seq()[it.index() as int].0@ == key);
                }
            }
            lemma_handled_map(out@);
        }
        if entry.1.expires_at > now && any_window(clients, entry.1.window.as_str()) {
            out.push(entry);
            proof {
                assert(out@.drop_last() =~= kept);
                assert forall|i: int| 0 <= i < kept.len() implies (#[trigger] kept[i]).0@ != key by {
                    assert(handled_map(kept).contains_key(kept[i].0@));
                }
                assert(distinct(out@));
                assert(handled_map(out@) =~= live(handled_map(after), clients@, now));
            }
        } else {
            proof {
                assert(handled_map(out@) =~= live(handled_map(after), clients@, now));
            }
        }
    }
    proof {
        assert(entries@.take(entries@.len() as int) =~= entries@);
    }
    out
}

/// Takes the entry of `key` out, if there is one.
fn take_entry(entries: &mut Vec<(String, Handled)>, key: &str) -> (r: Option<Handled>)
    requires
        distinct(old(entries)@),
    ensures
        distinct(final(entries)@),
        handled_map(final(entries)@) == handled_map(old(entries)@).remove(key@),
        match r {
            Some(entry) => handled_map(old(entries)@).contains_key(key@) && handled_map(
                old(entries)@,
            )[key@] == entry@,
            None => !handled_map(old(entries)@).contains_key(key@),
        },
{
    let ghost before = entries@;
    let count = entries.len();
    for i in 0..count
        invariant
            before == old(entries)@,
            entries@ == before,
            count == before.len(),
            distinct(before),
            forall|j: int| 0 <= j < i ==> (#[trigger] before[j]).0@ != key@,
    {
        if text::same(entries[i].0.as_str(), key) {
            let entry = entries.remove(i);
            proof {
                let after = entries@;
                assert(after =~= before.remove(i as int));
                assert forall|a: int, b: int| 0 <= a < b < after.len() implies (
                #[trigger] after[a]).0@ != (#[trigger] after[b]).0@ by {
                    let x = if a < i { a } else { a + 1 };
                    let y = if b < i { b } else { b + 1 };
                    assert(after[a] == before[x] && after[b] == before[y]);
                }
                lemma_handled_map(before);
                lemma_handled_map(after);
                assert forall|k: Seq<char>| #[trigger]
                    handled_map(after).contains_key(k) == handled_map(before).remove(
                        key@,
                    ).contains_key(k) && (handled_map(after).contains_key(k) ==> handled_map(
                    after,
                )[k] == handled_map(before)[k]) by {
                    if handled_map(after).contains_key(k) {
                        let a = choose|a: int|
                            0 <= a < after.len() && (#[trigger] after[a]).0@ == k;
                        let x = if a < i { a } else { a + 1 };
                        assert(after[a] == before[x]);
                        assert(before[x].0@ != before[i as int].0@);
                    }
                    if handled_map(before).contains_key(k) && k != key@ {
                        let x = choose|x: int|
                            0 <= x < before.len() && (#[trigger] before[x]).0@ == k;
                        let a = if x < i { x } else { x - 1 };
                        assert(x != i);
                        assert(after[a] == before[x]);
                    }
                }
                assert(handled_map(after) =~= handled_map(before).remove(key@));
                assert(handled_map(before)[before[i as int].0@] == before[i as int].1@);
            }
            return Some(entry.1);
        }
    }
    proof {
        lemma_handled_map(before);
        assert(handled_map(before) =~= handled_map(before).remove(key@));
    }
    None
}

/// Puts `entry` under `key`, in place of what was there.
fn put_entry(entries: &mut Vec<(String, Handled)>, key: String, entry: Handled)
    requires
        distinct(old(entries)@),
    ensures
        distinct(final(entries)@),
        handled_map(final(entries)@) == handled_map(old(entries)@).insert(key@, entry@),
{
    let ghost before = entries@;
    let _ = take_entry(entries, key.as_str());
    let ghost rest = entries@;
    proof {
        lemma_handled_map(rest);
        assert forall|i: int| 0 <= i < rest.len() implies (#[trigger] rest[i]).0@ != key@ by {
            assert(handled_map(rest).contains_key(rest[i].0@));
        }
    }
    let ghost name = key@;
    entries.push((key, entry));
    proof {
        assert(entries@.drop_last() =~= rest);
        assert(handled_map(entries@) =~= handled_map(before).insert(name, entry@));
    }
}

impl Seen {
    /// Whether no meeting is kept under two entries.
    pub closed spec fn wf(&self) -> bool {
        distinct(self.handled@)
    }

    /// Nothing seen yet.
    pub fn new() -> (r: Seen)
        ensures
            r.wf(),
            r@.pending is None,
            r@.handled == Map::<Seq<char>, HandledView>::empty(),
    {
        Seen { pending: None, handled: Vec::new() }
    }

    /// Until when the meeting of `key` is suppressed, if it is.
    pub fn suppressed_until(&self, key: &str) -> (r: Option<i64>)
        requires
            self.wf(),
        ensures
            r == if self@.handled.contains_key(key@) {
                Some(self@.handled[key@].expires_at)
            } else {
                None
            },
    {
        match find_entry(&self.handled, key) {
            Some(entry) => Some(entry.expires_at),
            None => None,
        }
    }

    /// How many meetings are suppressed.
    pub fn suppressed(&self) -> (r: usize)
        requires
            self.wf(),
        ensures
            r == self@.handled.dom().len(),
    {
        proof {
            lemma_handled_size(self.handled@);
        }
        self.handled.len()
    }

    /// One look at the windows at the time `now`. `kept` is the contents of the
    /// file that keeps a room hint. Gives the meeting to start, if there is one.
    pub fn update_at(
        &mut self,
        clients: &[Client],
        kept: Option<&[u8]>,
        session: &str,
        now: i64,
    ) -> (r: Option<DetectedMeeting>)
        requires
            old(self).wf(),
        ensures
            final(self).wf(),
            (final(self)@, meeting_detection::meeting_view(r)) == observed(
                old(self)@,
                clients@,
                room_identity::contents(kept),
                session@,
                now,
            ),
            ({
                let look = Look {
                    clients: clients@,
                    kept: room_identity::contents(kept),
                    session: session@,
                    now,
                };
                &&& final(self)@ == look.after(old(self)@)
                &&& meeting_detection::meeting_view(r) == look.started(old(self)@)
            }),
    {
        let ghost start = self@;
        let mut entries: Vec<(String, Handled)> = Vec::new();
        std::mem::swap(&mut entries, &mut self.handled);
        let mut handled = keep_live(entries, clients, now);
        let mut meeting = match unique(clients) {
            Some(meeting) => meeting,
            None => {
                self.handled = handled;
                self.pending = None;
                return None;
            },
        };
        augment(&mut meeting, kept, session, now);
        let ghost kept_live = handled_map(handled@);
        if !text::same(meeting.key.as_str(), meeting.fallback_key.as_str()) {
            if let Some(entry) = take_entry(&mut handled, meeting.fallback_key.as_str()) {
                if find_entry(&handled, meeting.key.as_str()).is_none() {
                    put_entry(&mut handled, meeting.key.clone(), entry);
                }
            } else {
                proof {
                    assert(kept_live.remove(meeting.fallback_key@) =~= kept_live);
                }
            }
        }
        proof {
            assert(handled_map(handled@) =~= upgraded(kept_live, meeting@));
        }
        if find_entry(&handled, meeting.key.as_str()).is_some() {
            self.handled = handled;
            self.pending = None;
            return None;
        }
        let again = match &self.pending {
            Some((key, title)) => text::same(key.as_str(), meeting.key.as_str())
                && text::same_option(text::borrowed(title), text::borrowed(&meeting.title)),
            None => false,
        };
        if !again {
            self.pending = Some((meeting.key.clone(), text::copied(&meeting.title)));
            self.handled = handled;
            return None;
        }
        let entry = Handled {
            window: meeting.window.clone(),
            expires_at: saturating(now, SUPPRESSION_SECS),
        };
        put_entry(&mut handled, meeting.key.clone(), entry);
        self.handled = handled;
        self.pending = None;
        Some(meeting)
    }
}

proof fn lemma_handled_size(entries: Seq<(String, Handled)>)
    requires
        distinct(entries),
    ensures
        handled_map(entries).dom().finite(),
        handled_map(entries).dom().len() == entries.len(),
    decreases entries.len(),
{
    if entries.len() > 0 {
        let rest = entries.drop_last();
        let key = entries.last().0@;
        lemma_handled_size(rest);
        lemma_handled_map(rest);
        assert(!handled_map(rest).contains_key(key)) by {
            if handled_map(rest).contains_key(key) {
                let i = choose|i: int| 0 <= i < rest.len() && (#[trigger] rest[i]).0@ == key;
                assert(entries[i].0@ == entries[entries.len() - 1].0@);
            }
        }
        assert(handled_map(entries).dom() =~= handled_map(rest).dom().insert(key));
    }
}

/// The document of one suppressed meeting.
pub open spec fn entry_tree(entry: HandledView) -> Tree {
    Tree::Object(
        map![
            "window"@ => Tree::Text(entry.window),
            "expires_at"@ => Tree::Number(Some(entry.expires_at)),
        ],
    )
}

/// The documents of the suppressed meetings.
pub open spec fn entry_trees(handled: Map<Seq<char>, HandledView>) -> Map<Seq<char>, Tree> {
    Map::new(
        |key: Seq<char>| handled.contains_key(key),
        |key: Seq<char>| entry_tree(handled[key]),
    )
}

/// The document that keeps the suppressed meetings of a session.
pub open spec fn saved_tree(handled: Map<Seq<char>, HandledView>, session: Seq<char>) -> Tree {
    Tree::Object(
        map![
            "session"@ => Tree::Text(session),
            "handled"@ => Tree::Object(entry_trees(handled)),
        ],
    )
}

/// The suppressed meeting of a document: a window with the time it expires, or,
/// as it was once kept, the window alone, which then counts from `now`.
pub open spec fn tree_entry(tree: Tree, now: i64) -> Option<HandledView> {
    match tree.text() {
        Some(window) => Some(
            HandledView {
                window,
                expires_at: room_identity::capped_sum(now, SUPPRESSION_SECS),
            },
        ),
        None => match (tree.member("window"@).text(), tree.member("expires_at"@).integer()) {
            (Some(window), Some(expires_at)) => Some(HandledView { window, expires_at }),
            _ => None,
        },
    }
}

/// A suppressed meeting that has not expired at `now`, for two hours at most.
pub open spec fn restored_entry(tree: Tree, now: i64) -> Option<HandledView> {
    match tree_entry(tree, now) {
        Some(entry) => if entry.expires_at > now {
            Some(
                HandledView {
                    expires_at: if entry.expires_at < room_identity::capped_sum(
                        now,
                        SUPPRESSION_SECS,
                    ) {
                        entry.expires_at
                    } else {
                        room_identity::capped_sum(now, SUPPRESSION_SECS)
                    },
                    ..entry
                },
            )
        } else {
            None
        },
        None => None,
    }
}

/// The suppressed meetings of a document.
pub open spec fn restored_entries(members: Map<Seq<char>, Tree>, now: i64) -> Map<
    Seq<char>,
    HandledView,
> {
    Map::new(
        |key: Seq<char>| members.contains_key(key) && restored_entry(members[key], now) is Some,
        |key: Seq<char>| restored_entry(members[key], now).unwrap(),
    )
}

/// The suppressed meetings that a document keeps for `session`.
pub open spec fn restored(document: Option<Tree>, session: Seq<char>, now: i64) -> Map<
    Seq<char>,
    HandledView,
> {
    match document {
        Some(tree) => if tree.member("session"@).text() == Some(session) {
            match tree.member("handled"@) {
                Tree::Object(members) => restored_entries(members, now),
                _ => Map::empty(),
            }
        } else {
            Map::empty()
        },
        None => Map::empty(),
    }
}

fn restore_entry(value: &Json, now: i64) -> (r: Option<Handled>)
    ensures
        match r {
            Some(entry) => restored_entry(value.tree(), now) == Some(entry@),
            None => restored_entry(value.tree(), now) is None,
        },
{
    let latest = saturating(now, SUPPRESSION_SECS);
    let entry = match value {
        Json::Text(window) => Handled { window: window.clone(), expires_at: latest },
        _ => match (value.text_member("window"), value.integer_member("expires_at")) {
            (Some(window), Some(expires_at)) => Handled { window: window.to_owned(), expires_at },
            _ => {
                return None;
            },
        },
    };
    if entry.expires_at <= now {
        return None;
    }
    let expires_at = if entry.expires_at < latest {
        entry.expires_at
    } else {
        latest
    };
    Some(Handled { window: entry.window, expires_at })
}

fn restore_entries(members: &Vec<(String, Json)>, now: i64) -> (r: Vec<(String, Handled)>)
    ensures
        distinct(r@),
        handled_map(r@) == restored_entries(json::member_trees(members@), now),
{
    let mut out: Vec<(String, Handled)> = Vec::new();
    proof {
        assert(handled_map(out@) =~= restored_entries(json::member_trees(members@.take(0)), now));
    }
    for i in 0..members.len()
        invariant
            distinct(out@),
            handled_map(out@) == restored_entries(
                json::member_trees(members@.take(i as int)),
                now,
            ),
    {
        let ghost before = members@.take(i as int);
        let ghost after = members@.take(i + 1);
        let ghost held = handled_map(out@);
        proof {
            assert(after.drop_last() =~= before);
            assert(after.last() == members@[i as int]);
        }
        match restore_entry(&members[i].1, now) {
            Some(entry) => {
                put_entry(&mut out, members[i].0.clone(), entry);
            },
            None => {
                let _ = take_entry(&mut out, members[i].0.as_str());
            },
        }
        proof {
            assert(handled_map(out@) =~= restored_entries(json::member_trees(after), now));
        }
    }
    proof {
        assert(members@.take(members@.len() as int) =~= members@);
    }
    out
}

fn entry_json(entry: &Handled) -> (r: Json)
    ensures
        r.tree() == entry_tree(entry@),
        r.writable(1),
{
    let mut members: Vec<(String, Json)> = Vec::new();
    members.push(("window".to_owned(), Json::Text(entry.window.clone())));
    members.push(("expires_at".to_owned(), Json::Number(Some(entry.expires_at))));
    proof {
        reveal_strlit("window");
        reveal_strlit("expires_at");
        assert("window"@.len() != "expires_at"@.len());
        reveal_with_fuel(json::member_trees, 3);
        assert(members@.drop_last().drop_last().len() == 0);
        assert(json::member_trees(members@) =~= entry_tree(entry@)->Object_0);
        reveal_with_fuel(Json::writable, 2);
    }
    Json::Object(members)
}

fn entries_json(entries: &Vec<(String, Handled)>) -> (r: Json)
    requires
        distinct(entries@),
    ensures
        r.tree() == Tree::Object(entry_trees(handled_map(entries@))),
        r.writable(2),
{
    let mut members: Vec<(String, Json)> = Vec::new();
    proof {
        assert(json::member_trees(members@) =~= entry_trees(handled_map(entries@.take(0))));
    }
    for i in 0..entries.len()
        invariant
            distinct(entries@),
            members@.len() == i,
            forall|k: int| 0 <= k < i ==> (#[trigger] members@[k]).0@ == entries@[k].0@,
            forall|k: int| 0 <= k < i ==> (#[trigger] members@[k]).1.writable(1),
            json::member_trees(members@) == entry_trees(handled_map(entries@.take(i as int))),
    {
        let ghost before = members@;
        proof {
            assert(entries@.take(i + 1).drop_last() =~= entries@.take(i as int));
            assert(entries@.take(i + 1).last() == entries@[i as int]);
        }
        members.push((entries[i].0.clone(), entry_json(&entries[i].1)));
        proof {
            assert(members@.drop_last() =~= before);
            assert(json::member_trees(members@) =~= entry_trees(handled_map(entries@.take(i + 1))));
        }
    }
    proof {
        assert(entries@.take(entries@.len() as int) =~= entries@);
        assert(json::distinct_names(members@)) by {
            assert forall|i: int, j: int| 0 <= i < j < members@.len() implies (
            #[trigger] members@[i]).0@ != (#[trigger] members@[j]).0@ by {
                assert(entries@[i].0@ != entries@[j].0@);
            }
        }
    }
    Json::Object(members)
}

impl Seen {
    /// What was kept in a document by [`Seen::document`] in the same session. What
    /// has expired is dropped.
    pub fn restored_from(document: &Option<Json>, session: &str, now: i64) -> (r: Seen)
        ensures
            r.wf(),
            r@.pending is None,
            r@.handled == restored(json::optional_tree(*document), session@, now),
    {
        let none = Seen::new();
        let document = match document {
            Some(document) => document,
            None => {
                return none;
            },
        };
        if !text::same_option(document.text_member("session"), Some(session)) {
            return none;
        }
        match document.member("handled") {
            Some(Json::Object(members)) => Seen {
                pending: None,
                handled: restore_entries(members, now),
            },
            _ => none,
        }
    }

    /// What was kept in `text` by [`Seen::saved`] in the same session. What has
    /// expired is dropped.
    pub fn restore_at(text: &str, session: &str, now: i64) -> (r: Seen)
        ensures
            r.wf(),
            r@.pending is None,
            r@.handled == restored(json::json_document(text@), session@, now),
    {
        Seen::restored_from(&json::read(text), session, now)
    }

    /// The document that keeps the suppressed meetings for `session`.
    pub fn document(&self, session: &str) -> (r: Json)
        requires
            self.wf(),
        ensures
            r.tree() == saved_tree(self@.handled, session@),
            r.writable(100),
    {
        let mut members: Vec<(String, Json)> = Vec::new();
        members.push(("session".to_owned(), Json::Text(session.to_owned())));
        members.push(("handled".to_owned(), entries_json(&self.handled)));
        proof {
            lemma_saved_keys();
            reveal_with_fuel(json::member_trees, 3);
            assert(members@.drop_last().drop_last().len() == 0);
            assert(json::member_trees(members@) =~= saved_tree(
                self@.handled,
                session@,
            )->Object_0);
        }
        let document = Json::Object(members);
        proof {
            assert forall|i: int| 0 <= i < members@.len() implies (
            #[trigger] members@[i]).1.writable(2) by {}
            assert(document.writable(3));
            json::lemma_writable_deeper(document, 3, 100);
        }
        document
    }

    /// The text that keeps the suppressed meetings for `session`.
    pub fn saved(&self, session: &str) -> (r: String)
        requires
            self.wf(),
        ensures
            r@ == json::json_text(saved_tree(self@.handled, session@)),
            json::json_document(r@) == Some(saved_tree(self@.handled, session@)),
    {
        let document = self.document(session);
        json::write(&document)
    }
}

proof fn lemma_saved_keys()
    ensures
        "session"@ != "handled"@,
        "window"@ != "expires_at"@,
{
    reveal_strlit("session");
    reveal_strlit("handled");
    reveal_strlit("window");
    reveal_strlit("expires_at");
    assert("session"@[0] != "handled"@[0]);
    assert("window"@.len() != "expires_at"@.len());
}

/// A restart keeps what was suppressed: what was saved and is restored in the same
/// session is every meeting that has not expired, until the same time, or two hours
/// from then where that is sooner.
pub proof fn a_restart_keeps_what_was_suppressed(
    handled: Map<Seq<char>, HandledView>,
    session: Seq<char>,
    now: i64,
    key: Seq<char>,
)
    ensures
        ({
            let after = restored(Some(saved_tree(handled, session)), session, now);
            let latest = room_identity::capped_sum(now, SUPPRESSION_SECS);
            &&& after.contains_key(key) <==> handled.contains_key(key) && handled[key].expires_at
                > now
            &&& after.contains_key(key) ==> after[key].window == handled[key].window
                && after[key].expires_at == if handled[key].expires_at < latest {
                handled[key].expires_at
            } else {
                latest
            }
        }),
{
    lemma_saved_keys();
    let tree = saved_tree(handled, session);
    assert(tree.member("session"@) == Tree::Text(session));
    assert(tree.member("handled"@) == Tree::Object(entry_trees(handled)));
    if handled.contains_key(key) {
        let entry = entry_tree(handled[key]);
        assert(entry.member("window"@) == Tree::Text(handled[key].window));
        assert(entry.member("expires_at"@) == Tree::Number(Some(handled[key].expires_at)));
        assert(entry_trees(handled)[key] == entry);
        assert(room_identity::capped_sum(now, SUPPRESSION_SECS) >= now);
    }
}

/// Another session inherits nothing: its windows are others.
pub proof fn another_session_inherits_nothing(
    handled: Map<Seq<char>, HandledView>,
    session: Seq<char>,
    other: Seq<char>,
    now: i64,
)
    requires
        session != other,
    ensures
        restored(Some(saved_tree(handled, session)), other, now) == Map::<
            Seq<char>,
            HandledView,
        >::empty(),
{
    lemma_saved_keys();
    assert(saved_tree(handled, session).member("session"@) == Tree::Text(session));
}

/// One look at the windows and what goes with it.
pub struct Look {
    pub clients: Seq<Client>,
    pub kept: Option<Seq<u8>>,
    pub session: Seq<char>,
    pub now: i64,
}

impl Look {
    /// The meeting in the windows, in its room where that is known.
    pub open spec fn meeting(self) -> Option<MeetingView> {
        match meeting_detection::only_meeting(self.clients) {
            Some(meeting) => Some(
                room_identity::augmented(meeting, self.kept, self.session, self.now),
            ),
            None => None,
        }
    }

    pub open spec fn after(self, seen: SeenView) -> SeenView {
        observed(seen, self.clients, self.kept, self.session, self.now).0
    }

    pub open spec fn started(self, seen: SeenView) -> Option<MeetingView> {
        observed(seen, self.clients, self.kept, self.session, self.now).1
    }
}

/// What was seen after a number of looks.
pub open spec fn after_looks(seen: SeenView, looks: Seq<Look>) -> SeenView
    decreases looks.len(),
{
    if looks.len() == 0 {
        seen
    } else {
        looks.last().after(after_looks(seen, looks.drop_last()))
    }
}

/// A meeting is started only when two looks in a row see it by the same key and the
/// same name, and nothing was started at the first of them.
pub proof fn a_start_takes_two_looks(seen: SeenView, first: Look, second: Look)
    ensures
        second.started(first.after(seen)) matches Some(meeting) ==> {
            &&& second.meeting() == Some(meeting)
            &&& first.started(seen) is None
            &&& first.meeting() matches Some(before)
            &&& before.key == meeting.key
            &&& before.title == meeting.title
        },
{
}

/// Several meeting windows at once start nothing, and neither does none.
pub proof fn ambiguous_windows_start_nothing(seen: SeenView, look: Look)
    requires
        meeting_detection::meetings(look.clients).len() != 1,
    ensures
        look.started(seen) is None,
        look.after(seen).pending is None,
{
}

/// A look that starts nothing makes up no new time: every meeting that is
/// suppressed after it is suppressed until a time that was set before it.
pub proof fn looking_does_not_prolong(seen: SeenView, look: Look, key: Seq<char>)
    requires
        look.started(seen) is None,
        look.after(seen).handled.contains_key(key),
    ensures
        exists|before: Seq<char>| #[trigger]
            seen.handled.contains_key(before) && seen.handled[before]
                == look.after(seen).handled[key],
{
    let kept = live(seen.handled, look.clients, look.now);
    if kept.contains_key(key) && look.after(seen).handled[key] == kept[key] {
        assert(seen.handled.contains_key(key));
    } else {
        let meeting = look.meeting().unwrap();
        assert(kept.contains_key(meeting.fallback_key));
        assert(seen.handled.contains_key(meeting.fallback_key));
    }
}

/// A suppressed meeting is released when its time is up or its window is closed,
/// unless the same look has something to suppress under its key.
pub proof fn expired_and_closed_meetings_are_released(
    seen: SeenView,
    look: Look,
    key: Seq<char>,
)
    requires
        seen.handled.contains_key(key),
        seen.handled[key].expires_at <= look.now || !is_open(
            look.clients,
            seen.handled[key].window,
        ),
        look.meeting() is Some ==> look.meeting().unwrap().key != key,
    ensures
        !look.after(seen).handled.contains_key(key),
{
}

/// A suppressed meeting stays suppressed, until the same time, at every look
/// before that time at which its window is open. Left out are looks at which the
/// key turns out to be the fallback of a meeting in a room: from then on it is the
/// room that is suppressed.
proof fn lemma_stays_suppressed(seen: SeenView, looks: Seq<Look>, key: Seq<char>)
    requires
        seen.handled.contains_key(key),
        forall|i: int|
            0 <= i < looks.len() ==> (#[trigger] looks[i]).now < seen.handled[key].expires_at
                && is_open(looks[i].clients, seen.handled[key].window) && (
            looks[i].meeting() matches Some(meeting) ==> meeting.fallback_key == key
                ==> meeting.key == key),
    ensures
        after_looks(seen, looks).handled.contains_key(key),
        after_looks(seen, looks).handled[key] == seen.handled[key],
    decreases looks.len(),
{
    if looks.len() > 0 {
        let rest = looks.drop_last();
        assert forall|i: int| 0 <= i < rest.len() implies (#[trigger] rest[i]).now
            < seen.handled[key].expires_at && is_open(
            rest[i].clients,
            seen.handled[key].window,
        ) && (rest[i].meeting() matches Some(meeting) ==> meeting.fallback_key == key
            ==> meeting.key == key) by {
            assert(rest[i] == looks[i]);
        }
        lemma_stays_suppressed(seen, rest, key);
        let last = looks[looks.len() - 1];
        assert(last.now < seen.handled[key].expires_at);
        let before = after_looks(seen, rest);
        assert(live(before.handled, last.clients, last.now).contains_key(key));
    }
}

/// A meeting that was started is not started again for two hours while its window
/// stays open, whatever else is seen in between. Left out are looks at which its
/// key turns out to be the fallback of a meeting in a room: from then on it is the
/// room that is suppressed.
pub proof fn a_started_meeting_is_not_started_again(
    seen: SeenView,
    first: Look,
    looks: Seq<Look>,
    again: Look,
)
    requires
        first.started(seen) is Some,
        forall|i: int|
            0 <= i <= looks.len() ==> {
                let look = #[trigger] looks.push(again)[i];
                let meeting = first.started(seen).unwrap();
                &&& look.now < room_identity::capped_sum(first.now, SUPPRESSION_SECS)
                &&& is_open(look.clients, meeting.window)
                &&& look.meeting() matches Some(other) ==> other.fallback_key == meeting.key
                    ==> other.key == meeting.key
            },
    ensures
        again.started(after_looks(first.after(seen), looks)) matches Some(other) ==> other.key
            != first.started(seen).unwrap().key,
{
    let meeting = first.started(seen).unwrap();
    let key = meeting.key;
    let after = first.after(seen);
    assert(after.handled[key].window == meeting.window);
    assert forall|i: int| 0 <= i < looks.len() implies (#[trigger] looks[i]).now
        < after.handled[key].expires_at && is_open(looks[i].clients, after.handled[key].window) && (
    looks[i].meeting() matches Some(other) ==> other.fallback_key == key ==> other.key == key) by {
        assert(looks.push(again)[i] == looks[i]);
    }
    lemma_stays_suppressed(after, looks, key);
    assert(looks.push(again)[looks.len() as int] == again);
    let before = after_looks(after, looks);
    assert(live(before.handled, again.clients, again.now).contains_key(key));
}

/// What one look at the windows comes to, from what was seen and the one meeting in them.
/// A meeting is suppressed by its key, or by what its key was before its room was known,
/// as long as the time is not up and its window is open. A meeting that is not suppressed
/// is started where the look before saw it by the same key and the same name, and waits
/// for the next look where it did not. Once started it is suppressed for two hours.
pub proof fn a_look_starts_what_is_seen_again_and_not_suppressed(
    seen: SeenView,
    look: Look,
    meeting: MeetingView,
)
    requires
        look.meeting() == Some(meeting),
    ensures
        ({
            let holds = |key: Seq<char>|
                seen.handled.contains_key(key) && seen.handled[key].expires_at > look.now && exists|
                    i: int,
                |
                    0 <= i < look.clients.len() && (
                    #[trigger] look.clients[i]).info.tree().member("address"@) == Tree::Text(
                        seen.handled[key].window,
                    );
            let suppressed = holds(meeting.key) || holds(meeting.fallback_key);
            let again = seen.pending == Some((meeting.key, meeting.title));
            let after = look.after(seen);
            &&& suppressed ==> look.started(seen) is None && after.pending is None
            &&& suppressed ==> after.handled.contains_key(meeting.key)
                && after.handled[meeting.key] == seen.handled[if holds(meeting.key) {
                meeting.key
            } else {
                meeting.fallback_key
            }]
            &&& !suppressed && again ==> {
                &&& look.started(seen) == Some(meeting)
                &&& after.pending is None
                &&& after.handled.contains_key(meeting.key)
                &&& after.handled[meeting.key].window == meeting.window
                &&& after.handled[meeting.key].expires_at == vstd::math::min(
                    look.now + 7200,
                    i64::MAX as int,
                )
            }
            &&& !suppressed && !again ==> {
                &&& look.started(seen) is None
                &&& after.pending == Some((meeting.key, meeting.title))
                &&& !after.handled.contains_key(meeting.key)
            }
            &&& meeting.fallback_key != meeting.key ==> !after.handled.contains_key(
                meeting.fallback_key,
            )
        }),
{
    let kept = live(seen.handled, look.clients, look.now);
    lemma_live(seen, look, meeting.key);
    lemma_live(seen, look, meeting.fallback_key);
    assert(kept.contains_key(meeting.key) ==> kept[meeting.key] == seen.handled[meeting.key]);
    assert(kept.contains_key(meeting.fallback_key) ==> kept[meeting.fallback_key]
        == seen.handled[meeting.fallback_key]);
}

/// What is suppressed stays so, until the same time, while the time is not up and its
/// window is open, and no longer; looking at another meeting does not change it.
pub proof fn a_look_leaves_other_meetings_as_they_are(seen: SeenView, look: Look, key: Seq<char>)
    requires
        look.meeting() matches Some(meeting) ==> meeting.key != key && meeting.fallback_key != key,
    ensures
        ({
            let after = look.after(seen);
            &&& after.handled.contains_key(key) <==> seen.handled.contains_key(key)
                && seen.handled[key].expires_at > look.now && exists|i: int|
                0 <= i < look.clients.len() && (
                #[trigger] look.clients[i]).info.tree().member("address"@) == Tree::Text(
                    seen.handled[key].window,
                )
            &&& after.handled.contains_key(key) ==> after.handled[key] == seen.handled[key]
        }),
{
    lemma_live(seen, look, key);
}

proof fn lemma_live(seen: SeenView, look: Look, key: Seq<char>)
    ensures
        live(seen.handled, look.clients, look.now).contains_key(key) <==> seen.handled.contains_key(
            key,
        ) && seen.handled[key].expires_at > look.now && exists|i: int|
            0 <= i < look.clients.len() && (#[trigger] look.clients[i]).info.tree().member(
                "address"@,
            ) == Tree::Text(seen.handled[key].window),
{
    let window = seen.handled[key].window;
    if is_open(look.clients, window) {
        let i = choose|i: int|
            0 <= i < look.clients.len() && (#[trigger] look.clients[i]).address() == Some(window);
        assert(look.clients[i].info.tree().member("address"@) == Tree::Text(window));
    }
    if exists|i: int|
        0 <= i < look.clients.len() && (#[trigger] look.clients[i]).info.tree().member("address"@)
            == Tree::Text(window) {
        let i = choose|i: int|
            0 <= i < look.clients.len() && (#[trigger] look.clients[i]).info.tree().member(
                "address"@,
            ) == Tree::Text(window);
        assert(look.clients[i].address() == Some(window));
    }
}

/// A meeting that two looks in a row see is started, whoever provides it, with or without
/// a name or a room: where both see it by the same key and the same name, the first of
/// them started nothing, and neither that key nor a fallback of it is suppressed, the
/// second one starts it.
pub proof fn a_meeting_that_is_seen_twice_is_started(seen: SeenView, first: Look, second: Look)
    requires
        first.meeting() is Some,
        second.meeting() is Some,
        first.meeting().unwrap().key == second.meeting().unwrap().key,
        first.meeting().unwrap().title == second.meeting().unwrap().title,
        first.started(seen) is None,
        forall|key: Seq<char>| #[trigger]
            seen.handled.contains_key(key) && (key == first.meeting().unwrap().key || key
                == first.meeting().unwrap().fallback_key || key
                == second.meeting().unwrap().fallback_key) ==> seen.handled[key].expires_at
                <= first.now || forall|i: int|
                0 <= i < first.clients.len() ==> (
                #[trigger] first.clients[i]).info.tree().member("address"@) != Tree::Text(
                    seen.handled[key].window,
                ),
    ensures
        second.started(first.after(seen)) == second.meeting(),
        second.after(first.after(seen)).handled.contains_key(second.meeting().unwrap().key),
{
    let before = first.meeting().unwrap();
    let meeting = second.meeting().unwrap();
    a_look_starts_what_is_seen_again_and_not_suppressed(seen, first, before);
    a_look_starts_what_is_seen_again_and_not_suppressed(first.after(seen), second, meeting);
    if meeting.fallback_key != before.key && meeting.fallback_key != before.fallback_key {
        a_look_leaves_other_meetings_as_they_are(seen, first, meeting.fallback_key);
    }
}

/// What a document keeps of a suppressed meeting is its window with the time that it
/// expires, or the window alone, which then counts for two hours from now. It is
/// suppressed where that time is not up, and for two hours at most.
pub proof fn a_kept_meeting_is_suppressed_for_two_hours_at_most(tree: Tree, now: i64)
    ensures
        ({
            let latest = vstd::math::min(now + 7200, i64::MAX as int);
            let entry = restored_entry(tree, now);
            &&& tree matches Tree::Text(window) ==> if latest > now {
                entry matches Some(kept) && kept.window == window && kept.expires_at == latest
            } else {
                entry is None
            }
            &&& !(tree is Text) ==> match (tree.member("window"@), tree.member("expires_at"@)) {
                (Tree::Text(window), Tree::Number(Some(expires))) => if expires > now {
                    entry matches Some(kept) && kept.window == window && kept.expires_at
                        == vstd::math::min(expires as int, latest)
                } else {
                    entry is None
                },
                _ => entry is None,
            }
        }),
{
}

/// A document that was kept in this session suppresses every meeting that it has a valid
/// entry for; one of another session, or none, suppresses nothing.
pub proof fn a_document_suppresses_what_it_keeps(
    document: Option<Tree>,
    session: Seq<char>,
    now: i64,
    key: Seq<char>,
)
    ensures
        ({
            let after = restored(document, session, now);
            let handled = document.unwrap().member("handled"@);
            let ours = document is Some && document.unwrap().member("session"@) == Tree::Text(
                session,
            );
            &&& after.contains_key(key) <==> ours && handled is Object
                && handled->Object_0.contains_key(key) && restored_entry(
                handled->Object_0[key],
                now,
            ) is Some
            &&& after.contains_key(key) ==> Some(after[key]) == restored_entry(
                handled->Object_0[key],
                now,
            )
        }),
{
}

/// What is kept of the suppressed meetings has the session and, by their keys, the window
/// of each and the time it expires, and nothing else.
pub proof fn what_is_kept_has_every_suppressed_meeting(
    handled: Map<Seq<char>, HandledView>,
    session: Seq<char>,
    key: Seq<char>,
)
    ensures
        ({
            let tree = saved_tree(handled, session);
            let kept = tree.member("handled"@);
            &&& tree is Object
            &&& tree->Object_0.dom() == set!["session"@, "handled"@]
            &&& tree.member("session"@) == Tree::Text(session)
            &&& kept is Object
            &&& kept->Object_0.contains_key(key) <==> handled.contains_key(key)
            &&& handled.contains_key(key) ==> {
                &&& kept->Object_0[key] is Object
                &&& kept->Object_0[key]->Object_0.dom() == set!["window"@, "expires_at"@]
                &&& kept->Object_0[key].member("window"@) == Tree::Text(handled[key].window)
                &&& kept->Object_0[key].member("expires_at"@) == Tree::Number(
                    Some(handled[key].expires_at),
                )
            }
        }),
{
    lemma_saved_keys();
    assert(saved_tree(handled, session)->Object_0.dom() =~= set!["session"@, "handled"@]);
    if handled.contains_key(key) {
        assert(entry_tree(handled[key])->Object_0.dom() =~= set!["window"@, "expires_at"@]);
    }
}

/// A look is at the one meeting in its windows, in the room of a hint that was kept for it.
pub proof fn a_look_is_at_the_one_meeting_in_its_windows(look: Look)
    ensures
        look.meeting() is None <==> meeting_detection::meetings(look.clients).len() != 1,
        meeting_detection::meetings(look.clients).len() == 1 ==> look.meeting() == Some(
            room_identity::augmented(
                meeting_detection::meetings(look.clients)[0],
                look.kept,
                look.session,
                look.now,
            ),
        ),
{
}

} // verus!
