//! Starting a recording in the recorder: opening it where it is not open, waiting
//! for it, sending the command and seeing that it took.
use vstd::prelude::*;
use vstd::string::StringExecFns;

use crate::command::{Output, OutputView};
use crate::json::Json;
use crate::text;

verus! {

/// How often an opened recorder is asked whether it is ready, and how many
/// milliseconds before each time.
pub const READY_TRIES: u8 = 20;

pub const READY_PAUSE: u64 = 250;

/// How often the recorder is asked whether it records, and how many milliseconds
/// after each time.
pub const RECORDING_TRIES: u8 = 5;

pub const RECORDING_PAUSE: u64 = 200;

pub const BUSY: &'static str = "Recorder is busy; leaving the existing recording unchanged";

pub const NOT_SENT: &'static str = "Could not send the recording command";

pub const NOT_STARTED: &'static str = "Recording did not start; check the recorder window";

/// How far a start is.
#[derive(Clone, Copy)]
pub enum Stage {
    /// Asked whether the recorder is open.
    Asked,
    /// Opening the recorder.
    Opening,
    /// Waiting to ask again, with so many tries left.
    Waiting(u8),
    /// Asked whether the recorder is ready, with so many tries left.
    Polling(u8),
    /// Sending the command.
    Sending,
    /// Asked whether it records, with so many tries left.
    Checking(u8),
    /// Waiting after it did not record, with so many tries left.
    Resting(u8),
    /// Done.
    Over,
}

/// What is to be done next.
pub enum Task {
    /// Ask the recorder for its status.
    Ask,
    /// Open the recorder.
    Open,
    /// Wait for so many milliseconds.
    Wait(u64),
    /// Send the command to start recording.
    Send,
    /// Nothing: this is how it ended.
    Done(Result<(), String>),
}

/// What a [`Task`] says.
pub enum TaskView {
    Ask,
    Open,
    Wait(u64),
    Send,
    Done(Result<(), Seq<char>>),
}

impl View for Task {
    type V = TaskView;

    open spec fn view(&self) -> TaskView {
        match self {
            Task::Ask => TaskView::Ask,
            Task::Open => TaskView::Open,
            Task::Wait(pause) => TaskView::Wait(*pause),
            Task::Send => TaskView::Send,
            Task::Done(Ok(())) => TaskView::Done(Ok(())),
            Task::Done(Err(error)) => TaskView::Done(Err(error@)),
        }
    }
}

/// What came of a task.
pub enum Reply {
    /// The status of the recorder, or why it did not answer.
    Status(Result<Json, String>),
    /// How the command that opens the recorder ended, or why it did not run.
    Opened(Result<Output, String>),
    /// The time has passed.
    Waited,
    /// Whether the command was sent.
    Sent(bool),
}

/// What a [`Reply`] says. Of a status only the state counts.
pub enum ReplyView {
    Status(Result<Option<Seq<char>>, Seq<char>>),
    Opened(Result<OutputView, Seq<char>>),
    Waited,
    Sent(bool),
}

impl View for Reply {
    type V = ReplyView;

    open spec fn view(&self) -> ReplyView {
        match self {
            Reply::Status(Ok(status)) => ReplyView::Status(
                Ok(status.tree().member("state"@).text()),
            ),
            Reply::Status(Err(error)) => ReplyView::Status(Err(error@)),
            Reply::Opened(Ok(output)) => ReplyView::Opened(Ok(output@)),
            Reply::Opened(Err(error)) => ReplyView::Opened(Err(error@)),
            Reply::Waited => ReplyView::Waited,
            Reply::Sent(sent) => ReplyView::Sent(*sent),
        }
    }
}

/// Whether the recorder can take a new recording in this state.
pub open spec fn is_free(state: Option<Seq<char>>) -> bool {
    state == Some("idle"@) || state == Some("done"@)
}

/// Whether the recorder has a recording in this state.
pub open spec fn is_recording(state: Option<Seq<char>>) -> bool {
    state == Some("recording"@) || state == Some("paused"@)
}

/// Whether a reply is one to the task of a stage.
pub open spec fn answers(stage: Stage, reply: ReplyView) -> bool {
    match stage {
        Stage::Asked | Stage::Polling(_) | Stage::Checking(_) => reply is Status,
        Stage::Opening => reply is Opened,
        Stage::Waiting(_) | Stage::Resting(_) => reply is Waited,
        Stage::Sending => reply is Sent,
        Stage::Over => false,
    }
}

/// Whether the tries of a stage are within their number.
pub open spec fn in_bounds(stage: Stage) -> bool {
    match stage {
        Stage::Waiting(tries) => 1 <= tries <= READY_TRIES,
        Stage::Polling(tries) => tries < READY_TRIES,
        Stage::Checking(tries) => 1 <= tries <= RECORDING_TRIES,
        Stage::Resting(tries) => tries < RECORDING_TRIES,
        _ => true,
    }
}

/// The end of a start.
pub open spec fn ended(result: Result<(), Seq<char>>) -> (Stage, TaskView) {
    (Stage::Over, TaskView::Done(result))
}

/// A recorder that answers gets the command where it is free.
pub open spec fn answered(state: Option<Seq<char>>) -> (Stage, TaskView) {
    if is_free(state) {
        (Stage::Sending, TaskView::Send)
    } else {
        ended(Err(BUSY@))
    }
}

/// The stage and the task after a reply.
pub open spec fn step(stage: Stage, reply: ReplyView) -> (Stage, TaskView) {
    match (stage, reply) {
        (Stage::Asked, ReplyView::Status(Ok(state))) => answered(state),
        (Stage::Asked, ReplyView::Status(Err(_))) => (Stage::Opening, TaskView::Open),
        (Stage::Opening, ReplyView::Opened(Err(error))) => ended(Err(error)),
        (Stage::Opening, ReplyView::Opened(Ok(output))) => if output.success {
            (Stage::Waiting(READY_TRIES), TaskView::Wait(READY_PAUSE))
        } else {
            ended(
                Err(
                    "Could not open the recorder: "@ + text::trimmed(
                        text::lossy_text(output.stderr),
                    ),
                ),
            )
        },
        (Stage::Waiting(tries), ReplyView::Waited) => (
            Stage::Polling((tries - 1) as u8),
            TaskView::Ask,
        ),
        (Stage::Polling(_), ReplyView::Status(Ok(state))) => answered(state),
        (Stage::Polling(tries), ReplyView::Status(Err(error))) => if tries > 0 {
            (Stage::Waiting(tries), TaskView::Wait(READY_PAUSE))
        } else {
            ended(Err("Recorder did not become ready: "@ + error))
        },
        (Stage::Sending, ReplyView::Sent(sent)) => if sent {
            (Stage::Checking(RECORDING_TRIES), TaskView::Ask)
        } else {
            ended(Err(NOT_SENT@))
        },
        (Stage::Checking(_), ReplyView::Status(Err(error))) => ended(Err(error)),
        (Stage::Checking(tries), ReplyView::Status(Ok(state))) => if is_recording(state) {
            ended(Ok(()))
        } else {
            (Stage::Resting((tries - 1) as u8), TaskView::Wait(RECORDING_PAUSE))
        },
        (Stage::Resting(tries), ReplyView::Waited) => if tries > 0 {
            (Stage::Checking(tries), TaskView::Ask)
        } else {
            ended(Err(NOT_STARTED@))
        },
        _ => ended(Err(NOT_STARTED@)),
    }
}

/// A start under way.
pub struct Start {
    stage: Stage,
}

impl Start {
    pub closed spec fn stage(&self) -> Stage {
        self.stage
    }

    /// A new start. Its first task is to ask the recorder for its status.
    pub fn new() -> (r: (Start, Task))
        ensures
            r.0.stage() == Stage::Asked,
            in_bounds(r.0.stage()),
            r.1@ == TaskView::Ask,
    {
        (Start { stage: Stage::Asked }, Task::Ask)
    }

    fn end(&mut self, result: Result<(), String>) -> (r: Task)
        ensures
            final(self).stage() == Stage::Over,
            r == Task::Done(result),
    {
        self.stage = Stage::Over;
        Task::Done(result)
    }

    fn command(&mut self, status: &Json) -> (r: Task)
        ensures
            (final(self).stage(), r@) == answered(status.tree().member("state"@).text()),
    {
        let state = status.text_member("state");
        if text::same_option(state, Some("idle")) || text::same_option(state, Some("done")) {
            self.stage = Stage::Sending;
            Task::Send
        } else {
            self.end(Err(BUSY.to_owned()))
        }
    }

    /// What is to be done after a reply to the task before.
    pub fn next(&mut self, reply: Reply) -> (r: Task)
        requires
            in_bounds(old(self).stage()),
            answers(old(self).stage(), reply@),
        ensures
            in_bounds(final(self).stage()),
            (final(self).stage(), r@) == step(old(self).stage(), reply@),
    {
        match (self.stage, reply) {
            (Stage::Asked, Reply::Status(Ok(status))) => self.command(&status),
            (Stage::Asked, Reply::Status(Err(_))) => {
                self.stage = Stage::Opening;
                Task::Open
            },
            (Stage::Opening, Reply::Opened(Err(error))) => self.end(Err(error)),
            (Stage::Opening, Reply::Opened(Ok(output))) => {
                if output.success {
                    self.stage = Stage::Waiting(READY_TRIES);
                    Task::Wait(READY_PAUSE)
                } else {
                    let stderr = text::lossy(output.stderr.as_slice());
                    let why = "Could not open the recorder: ".to_owned().concat(
                        text::trim(stderr.as_str()),
                    );
                    self.end(Err(why))
                }
            },
            (Stage::Waiting(tries), Reply::Waited) => {
                self.stage = Stage::Polling(tries - 1);
                Task::Ask
            },
            (Stage::Polling(_), Reply::Status(Ok(status))) => self.command(&status),
            (Stage::Polling(tries), Reply::Status(Err(error))) => {
                if tries > 0 {
                    self.stage = Stage::Waiting(tries);
                    Task::Wait(READY_PAUSE)
                } else {
                    let why = "Recorder did not become ready: ".to_owned().concat(error.as_str());
                    self.end(Err(why))
                }
            },
            (Stage::Sending, Reply::Sent(sent)) => {
                if sent {
                    self.stage = Stage::Checking(RECORDING_TRIES);
                    Task::Ask
                } else {
                    self.end(Err(NOT_SENT.to_owned()))
                }
            },
            (Stage::Checking(_), Reply::Status(Err(error))) => self.end(Err(error)),
            (Stage::Checking(tries), Reply::Status(Ok(status))) => {
                let state = status.text_member("state");
                if text::same_option(state, Some("recording")) || text::same_option(
                    state,
                    Some("paused"),
                ) {
                    self.end(Ok(()))
                } else {
                    self.stage = Stage::Resting(tries - 1);
                    Task::Wait(RECORDING_PAUSE)
                }
            },
            (Stage::Resting(tries), Reply::Waited) => {
                if tries > 0 {
                    self.stage = Stage::Checking(tries);
                    Task::Ask
                } else {
                    self.end(Err(NOT_STARTED.to_owned()))
                }
            },
            _ => self.end(Err(NOT_STARTED.to_owned())),
        }
    }
}

/// Whether a reply is one to a task.
pub open spec fn replies_to(task: TaskView, reply: ReplyView) -> bool {
    match task {
        TaskView::Ask => reply is Status,
        TaskView::Open => reply is Opened,
        TaskView::Wait(_) => reply is Waited,
        TaskView::Send => reply is Sent,
        TaskView::Done(_) => false,
    }
}

/// Whoever does each task and replies to it replies to what the stage waits for.
pub proof fn a_stage_waits_for_its_task(stage: Stage, reply: ReplyView, next: ReplyView)
    requires
        in_bounds(stage),
        answers(stage, reply),
    ensures
        answers(step(stage, reply).0, next) <==> replies_to(step(stage, reply).1, next),
        answers(Stage::Asked, next) <==> replies_to(TaskView::Ask, next),
{
}

/// How many replies a stage is from the end at most.
pub open spec fn steps_left(stage: Stage) -> nat {
    match stage {
        Stage::Asked => 53,
        Stage::Opening => 52,
        Stage::Waiting(tries) => (2 * tries + 11) as nat,
        Stage::Polling(tries) => (2 * tries + 12) as nat,
        Stage::Sending => 11,
        Stage::Checking(tries) => (2 * tries) as nat,
        Stage::Resting(tries) => (2 * tries + 1) as nat,
        Stage::Over => 0,
    }
}

/// A start ends: every reply brings it nearer to its end.
pub proof fn a_start_ends(stage: Stage, reply: ReplyView)
    requires
        in_bounds(stage),
        answers(stage, reply),
    ensures
        in_bounds(step(stage, reply).0),
        steps_left(step(stage, reply).0) < steps_left(stage),
        step(stage, reply).0 is Over <==> step(stage, reply).1 is Done,
{
}

/// The command is sent only to a recorder that has just said that it is free, so
/// a recording that is under way is left as it is.
pub proof fn only_a_free_recorder_gets_the_command(stage: Stage, reply: ReplyView)
    requires
        step(stage, reply).1 is Send,
    ensures
        reply matches ReplyView::Status(Ok(state)) && is_free(state),
        step(stage, reply).0 is Sending,
{
}

/// Whether the command was sent before this stage.
pub open spec fn was_sent(stage: Stage) -> bool {
    stage is Sending || stage is Checking || stage is Resting || stage is Over
}

/// The command is sent once at most: after it was sent, nothing sends it again.
pub proof fn the_command_is_sent_once(stage: Stage, reply: ReplyView)
    requires
        was_sent(stage),
        answers(stage, reply),
    ensures
        was_sent(step(stage, reply).0),
        !(step(stage, reply).1 is Send),
{
}

/// A start succeeds only when the recorder says that it records.
pub proof fn success_is_what_the_recorder_says(stage: Stage, reply: ReplyView)
    requires
        step(stage, reply).1 == TaskView::Done(Ok(())),
    ensures
        reply matches ReplyView::Status(Ok(state)) && is_recording(state),
        stage is Checking,
{
}

/// A recorder that answers gets the command where it says that it is idle or done, and is
/// left as it is in every other state; it does not matter whether it had to be opened.
pub proof fn a_recorder_that_answers_gets_the_command_where_it_is_free(
    stage: Stage,
    state: Option<Seq<char>>,
)
    requires
        stage is Asked || stage is Polling,
    ensures
        ({
            let (after, task) = step(stage, ReplyView::Status(Ok(state)));
            if state == Some("idle"@) || state == Some("done"@) {
                after is Sending && task is Send
            } else {
                after is Over && task == TaskView::Done(
                    Err("Recorder is busy; leaving the existing recording unchanged"@),
                )
            }
        }),
{
}

/// The stage and the task after a number of pauses, and an answer of the recorder behind
/// each that is an error.
pub open spec fn after_errors(stage: Stage, task: TaskView, errors: Seq<Seq<char>>) -> (
    Stage,
    TaskView,
)
    decreases errors.len(),
{
    if errors.len() == 0 {
        (stage, task)
    } else {
        let before = after_errors(stage, task, errors.drop_last()).0;
        step(step(before, ReplyView::Waited).0, ReplyView::Status(Err(errors.last())))
    }
}

proof fn lemma_waiting(errors: Seq<Seq<char>>)
    requires
        errors.len() <= 20,
    ensures
        errors.len() < 20 ==> after_errors(Stage::Waiting(20), TaskView::Wait(250), errors) == (
            Stage::Waiting((20 - errors.len()) as u8),
            TaskView::Wait(250),
        ),
        errors.len() == 20 ==> after_errors(Stage::Waiting(20), TaskView::Wait(250), errors).1
            == TaskView::Done(Err("Recorder did not become ready: "@ + errors.last())),
    decreases errors.len(),
{
    if errors.len() > 0 {
        lemma_waiting(errors.drop_last());
    }
}

/// A recorder that does not answer is opened, and then asked every quarter of a second,
/// twenty times at most, until it answers. A free one gets the command at the first answer;
/// one that never answers is given up with the last error.
pub proof fn an_opened_recorder_is_waited_for(
    error: Seq<char>,
    output: OutputView,
    errors: Seq<Seq<char>>,
    state: Seq<char>,
)
    requires
        output.success,
        errors.len() <= 20,
        state == "idle"@ || state == "done"@,
    ensures
        step(Stage::Asked, ReplyView::Status(Err(error))) == (Stage::Opening, TaskView::Open),
        ({
            let (stage, task) = step(Stage::Opening, ReplyView::Opened(Ok(output)));
            let (later, next) = after_errors(stage, task, errors);
            if errors.len() < 20 {
                let (polling, ask) = step(later, ReplyView::Waited);
                &&& next == TaskView::Wait(250)
                &&& ask == TaskView::Ask
                &&& step(polling, ReplyView::Status(Ok(Some(state)))).1 == TaskView::Send
            } else {
                next == TaskView::Done(Err("Recorder did not become ready: "@ + errors.last()))
            }
        }),
{
    lemma_waiting(errors);
}

/// A recorder that cannot be opened ends the start with what it said, or why it did not
/// run.
pub proof fn a_recorder_that_cannot_be_opened_ends_the_start(
    output: OutputView,
    error: Seq<char>,
)
    ensures
        !output.success ==> step(Stage::Opening, ReplyView::Opened(Ok(output))).1 == TaskView::Done(
            Err(
                "Could not open the recorder: "@ + text::trimmed(text::lossy_text(output.stderr)),
            ),
        ),
        step(Stage::Opening, ReplyView::Opened(Err(error))).1 == TaskView::Done(Err(error)),
{
}

/// The stage and the task after a number of answers of the recorder, and a pause behind
/// each.
pub open spec fn after_states(
    stage: Stage,
    task: TaskView,
    states: Seq<Option<Seq<char>>>,
) -> (Stage, TaskView)
    decreases states.len(),
{
    if states.len() == 0 {
        (stage, task)
    } else {
        let before = after_states(stage, task, states.drop_last()).0;
        step(step(before, ReplyView::Status(Ok(states.last()))).0, ReplyView::Waited)
    }
}

proof fn lemma_checking(states: Seq<Option<Seq<char>>>)
    requires
        states.len() <= 5,
        forall|i: int|
            0 <= i < states.len() ==> #[trigger] states[i] != Some("recording"@) && states[i]
                != Some("paused"@),
    ensures
        states.len() < 5 ==> after_states(Stage::Checking(5), TaskView::Ask, states) == (
            Stage::Checking((5 - states.len()) as u8),
            TaskView::Ask,
        ),
        states.len() == 5 ==> after_states(Stage::Checking(5), TaskView::Ask, states).1
            == TaskView::Done(Err("Recording did not start; check the recorder window"@)),
    decreases states.len(),
{
    if states.len() > 0 {
        let less = states.drop_last();
        assert forall|i: int| 0 <= i < less.len() implies #[trigger] less[i] != Some("recording"@)
            && less[i] != Some("paused"@) by {
            assert(less[i] == states[i]);
        }
        lemma_checking(less);
        assert(states[states.len() - 1] != Some("recording"@));
    }
}

/// After the command was sent the recorder is asked five times at most, with a fifth of a
/// second behind each time, and the start succeeds at the first answer that it records or
/// is paused. One that never does, or a command that was not sent, is told.
pub proof fn a_recording_is_waited_for(states: Seq<Option<Seq<char>>>, state: Seq<char>)
    requires
        states.len() <= 5,
        forall|i: int|
            0 <= i < states.len() ==> #[trigger] states[i] != Some("recording"@) && states[i]
                != Some("paused"@),
        state == "recording"@ || state == "paused"@,
    ensures
        step(Stage::Sending, ReplyView::Sent(false)).1 == TaskView::Done(
            Err("Could not send the recording command"@),
        ),
        ({
            let (stage, task) = step(Stage::Sending, ReplyView::Sent(true));
            let (later, next) = after_states(stage, task, states);
            if states.len() < 5 {
                &&& next == TaskView::Ask
                &&& step(later, ReplyView::Status(Ok(Some(state)))).1 == TaskView::Done(Ok(()))
            } else {
                next == TaskView::Done(
                    Err("Recording did not start; check the recorder window"@),
                )
            }
        }),
{
    lemma_checking(states);
}

/// While the recorder does not record yet, the next task is to wait for a fifth of a
/// second; an error of the recorder ends the start.
pub proof fn an_unstarted_recording_is_asked_for_again(
    tries: u8,
    state: Option<Seq<char>>,
    error: Seq<char>,
)
    requires
        state != Some("recording"@),
        state != Some("paused"@),
    ensures
        step(Stage::Checking(tries), ReplyView::Status(Ok(state))).1 == TaskView::Wait(200),
        step(Stage::Checking(tries), ReplyView::Status(Err(error))).1 == TaskView::Done(Err(error)),
{
}

/// Of the status of the recorder its state counts.
pub proof fn a_status_counts_by_its_state(status: Json, state: Seq<char>)
    ensures
        status.tree().member("state"@) == crate::json::Tree::Text(state) ==> Reply::Status(
            Ok::<Json, String>(status),
        )@ == ReplyView::Status(Ok(Some(state))),
        !(status.tree().member("state"@) is Text) ==> Reply::Status(Ok::<Json, String>(status))@
            == ReplyView::Status(Ok(None)),
{
}

} // verus!
