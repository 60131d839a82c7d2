//! The watcher: one look at the windows after the other.
use vstd::prelude::*;
use vstd::string::StringExecFns;

use crate::auto_record;
use crate::auto_record::{Seen, SeenView};
use crate::json;
use crate::meeting_detection;
use crate::meeting_detection::{Client, DetectedMeeting, MeetingView};
use crate::room_identity;
use crate::text;

verus! {

/// What the command line asks for.
pub enum Mode {
    /// Report the meetings in the windows.
    Check,
    /// Watch the windows.
    Watch,
    /// Nothing that there is.
    Usage,
}

/// What the arguments ask for: `--check` alone, or none.
pub fn mode(args: &[String]) -> (r: Mode)
    ensures
        r is Check <==> text::texts(args@) == seq!["--check"@],
        r is Watch <==> args@.len() == 0,
{
    if args.len() == 1 && text::same(args[0].as_str(), "--check") {
        proof {
            assert(text::texts(args@) =~= seq!["--check"@]);
        }
        return Mode::Check;
    }
    proof {
        if text::texts(args@) == seq!["--check"@] {
            assert(text::texts(args@).len() == 1);
            assert(text::texts(args@)[0] == args@[0]@);
        }
    }
    if args.len() == 0 {
        Mode::Watch
    } else {
        Mode::Usage
    }
}

/// What a look at the windows leads to, to be done in this order.
pub struct Steps {
    /// The error to tell of.
    pub complain: Option<String>,
    /// The text to keep.
    pub save: Option<String>,
    /// The meeting to start.
    pub start: Option<DetectedMeeting>,
}

/// A watcher: what it has seen in its session, what was kept of that, and the last
/// error that it told of.
pub struct Watcher {
    seen: Seen,
    session: String,
    saved: String,
    last_error: String,
}

/// What a [`Watcher`] knows.
pub struct WatcherView {
    pub seen: SeenView,
    pub session: Seq<char>,
    pub saved: Seq<char>,
    pub last_error: Seq<char>,
}

impl View for Watcher {
    type V = WatcherView;

    closed spec fn view(&self) -> WatcherView {
        WatcherView {
            seen: self.seen@,
            session: self.session@,
            saved: self.saved@,
            last_error: self.last_error@,
        }
    }
}

/// What a [`Steps`] says.
pub struct StepsView {
    pub complain: Option<Seq<char>>,
    pub save: Option<Seq<char>>,
    pub start: Option<MeetingView>,
}

impl View for Steps {
    type V = StepsView;

    open spec fn view(&self) -> StepsView {
        StepsView {
            complain: text::owned(self.complain),
            save: text::owned(self.save),
            start: meeting_detection::meeting_view(self.start),
        }
    }
}

/// The text that keeps what a watcher has seen.
pub open spec fn kept_text(watcher: WatcherView) -> Seq<char> {
    json::json_text(auto_record::saved_tree(watcher.seen.handled, watcher.session))
}

/// A watcher after a look at the windows, and what the look leads to. A query that
/// failed does not mean that a window was closed, and its error is told of once.
pub open spec fn watched(
    watcher: WatcherView,
    windows: Result<Seq<Client>, Seq<char>>,
    kept: Option<Seq<u8>>,
    now: i64,
) -> (WatcherView, StepsView) {
    match windows {
        Err(error) => (
            WatcherView { last_error: error, ..watcher },
            StepsView {
                complain: if error == watcher.last_error {
                    None
                } else {
                    Some(error)
                },
                save: None,
                start: None,
            },
        ),
        Ok(clients) => {
            let (seen, start) = auto_record::observed(
                watcher.seen,
                clients,
                kept,
                watcher.session,
                now,
            );
            let looked = WatcherView { seen, last_error: Seq::empty(), ..watcher };
            (
                WatcherView { saved: kept_text(looked), ..looked },
                StepsView {
                    complain: None,
                    save: if kept_text(looked) == watcher.saved {
                        None
                    } else {
                        Some(kept_text(looked))
                    },
                    start,
                },
            )
        },
    }
}

pub const NO_SESSION: &'static str = "Automatic recording requires a Hyprland session";

impl Watcher {
    pub closed spec fn wf(&self) -> bool {
        self.seen.wf()
    }

    /// A watcher for `session` that goes on from what was kept in `previous`. There
    /// is none without a session.
    pub fn new(previous: &str, session: &str, now: i64) -> (r: Result<Watcher, String>)
        ensures
            match r {
                Ok(watcher) => session@.len() > 0 && watcher.wf() && watcher@ == (WatcherView {
                    seen: SeenView {
                        pending: None,
                        handled: auto_record::restored(
                            json::json_document(previous@),
                            session@,
                            now,
                        ),
                    },
                    session: session@,
                    saved: previous@,
                    last_error: Seq::empty(),
                }),
                Err(error) => session@.len() == 0 && error@ == NO_SESSION@,
            },
            r matches Err(error) ==> error@ == "Automatic recording requires a Hyprland session"@,
    {
        if session.is_empty() {
            return Err(NO_SESSION.to_owned());
        }
        Ok(
            Watcher {
                seen: Seen::restore_at(previous, session, now),
                session: session.to_owned(),
                saved: previous.to_owned(),
                last_error: String::new(),
            },
        )
    }

    /// A look at the windows, or the error of a query that failed. `kept` is the
    /// contents of the file that keeps a room hint.
    pub fn look(
        &mut self,
        windows: &Result<Vec<Client>, String>,
        kept: Option<&[u8]>,
        now: i64,
    ) -> (r: Steps)
        requires
            old(self).wf(),
        ensures
            final(self).wf(),
            (final(self)@, r@) == watched(
                old(self)@,
                room_identity::windows_view(*windows),
                room_identity::contents(kept),
                now,
            ),
            windows is Ok ==> json::json_document(final(self)@.saved) == Some(
                auto_record::saved_tree(final(self)@.seen.handled, final(self)@.session),
            ),
    {
        match windows {
            Err(error) => {
                let complain = if text::same(error.as_str(), self.last_error.as_str()) {
                    None
                } else {
                    Some(error.clone())
                };
                self.last_error = error.clone();
                Steps { complain, save: None, start: None }
            },
            Ok(clients) => {
                self.last_error = String::new();
                let start = self.seen.update_at(
                    clients.as_slice(),
                    kept,
                    self.session.as_str(),
                    now,
                );
                let next = self.seen.saved(self.session.as_str());
                let save = if text::same(next.as_str(), self.saved.as_str()) {
                    None
                } else {
                    Some(next.clone())
                };
                self.saved = next;
                Steps { complain: None, save, start }
            },
        }
    }
}

/// The line that tells how the start of a meeting ended.
pub fn outcome_line(provider: &str, result: &Result<(), String>) -> (r: String)
    ensures
        r@ == match *result {
            Ok(()) => "Automatic recording started ("@ + provider@ + ")"@,
            Err(error) => "Automatic recording: "@ + error@,
        },
{
    match result {
        Ok(()) => "Automatic recording started (".to_owned().concat(provider).concat(")"),
        Err(error) => "Automatic recording: ".to_owned().concat(error.as_str()),
    }
}

/// What is kept after the steps of a look is what was seen, and a meeting that is to
/// be started is in it already.
pub proof fn what_is_kept_is_what_was_seen(
    watcher: WatcherView,
    clients: Seq<Client>,
    kept: Option<Seq<u8>>,
    now: i64,
)
    ensures
        ({
            let (after, steps) = watched(watcher, Ok(clients), kept, now);
            &&& after.saved == kept_text(after)
            &&& after.saved == match steps.save {
                Some(text) => text,
                None => watcher.saved,
            }
            &&& steps.start matches Some(meeting) ==> after.seen.handled.contains_key(meeting.key)
        }),
{
}

/// A watcher that starts again from what another one kept in the same session
/// suppresses every meeting that the other suppressed and that has not expired.
pub proof fn a_watcher_goes_on_where_another_stopped(
    watcher: WatcherView,
    now: i64,
    key: Seq<char>,
)
    requires
        json::json_document(watcher.saved) == Some(
            auto_record::saved_tree(watcher.seen.handled, watcher.session),
        ),
        watcher.seen.handled.contains_key(key),
        watcher.seen.handled[key].expires_at > now,
    ensures
        auto_record::restored(
            json::json_document(watcher.saved),
            watcher.session,
            now,
        ).contains_key(key),
{
    auto_record::a_restart_keeps_what_was_suppressed(
        watcher.seen.handled,
        watcher.session,
        now,
        key,
    );
}

/// A query that failed changes nothing of what was seen.
pub proof fn a_failed_query_changes_nothing_seen(
    watcher: WatcherView,
    error: Seq<char>,
    kept: Option<Seq<u8>>,
    now: i64,
)
    ensures
        watched(watcher, Err(error), kept, now).0.seen == watcher.seen,
        watched(watcher, Err(error), kept, now).0.saved == watcher.saved,
        watched(watcher, Err(error), kept, now).1.start is None,
{
}

/// A look at the windows goes on from what was seen, and what it leads to start is started;
/// it takes back the last error, so that the same one is told of again. An error is told
/// of where it is not the one that was told of last.
pub proof fn a_look_goes_on_from_what_was_seen(
    watcher: WatcherView,
    clients: Seq<Client>,
    kept: Option<Seq<u8>>,
    now: i64,
    error: Seq<char>,
)
    requires
        error.len() > 0,
    ensures
        ({
            let look = auto_record::Look { clients, kept, session: watcher.session, now };
            let (after, steps) = watched(watcher, Ok(clients), kept, now);
            let (failed, told) = watched(watcher, Err(error), kept, now);
            &&& after.seen == look.after(watcher.seen)
            &&& steps.start == look.started(watcher.seen)
            &&& steps.complain is None
            &&& after.session == watcher.session
            &&& steps.save is None <==> after.saved == watcher.saved
            &&& watched(after, Err(error), kept, now).1.complain == Some(error)
            &&& told.complain is None <==> error == watcher.last_error
            &&& told.complain is Some ==> told.complain == Some(error)
            &&& told.save is None
            &&& failed.session == watcher.session
            &&& watched(failed, Err(error), kept, now).1.complain is None
        }),
{
}

} // verus!
