//! The widget for the bar of the desktop shell: whether it is offered, and how it
//! is put on the bar.
use vstd::prelude::*;
use vstd::string::StringExecFns;

use crate::command::{Output, OutputView};
use crate::json;
use crate::json::{Json, Tree};
use crate::text;

verus! {

pub const ID: &'static str = "jankeesvw.meeting-recorder";

/// Where the package installs the widget.
pub const SOURCE: &'static str = "/usr/share/omarchy-meeting-recorder/plugin";

/// What stands where the shell looks for the widget.
#[derive(Clone, Copy)]
pub enum Place {
    Nothing,
    /// A link to [`SOURCE`], as an earlier attempt leaves it.
    Ours,
    /// Something else, such as an installation by hand.
    Other,
}

/// Whether the widget can be offered: it was not before, on this desktop, for a
/// package install, and nothing but a link of ours is in its place.
pub open spec fn offerable(offered: bool, omarchy: bool, packaged: bool, place: Place) -> bool {
    !offered && omarchy && packaged && !(place is Other)
}

/// Whether the widget can be offered, before the shell is asked for it. `offered`
/// tells whether the offer was settled before, `omarchy` whether the desktop's
/// command is there and `packaged` whether the package installed the widget.
pub fn can_offer(offered: bool, omarchy: bool, packaged: bool, place: Place) -> (r: bool)
    ensures
        r == offerable(offered, omarchy, packaged, place),
        r <==> !offered && omarchy && packaged && (place is Nothing || place is Ours),
{
    let free = match place {
        Place::Nothing | Place::Ours => true,
        Place::Other => false,
    };
    !offered && omarchy && packaged && free
}

/// What becomes of the offer.
#[derive(Clone, Copy, Debug, PartialEq, Eq, Structural)]
pub struct Offer {
    /// Whether to make it.
    pub make: bool,
    /// Whether to note that it is settled.
    pub settle: bool,
}

/// What becomes of an offer that can be made or not, where the shell says whether
/// the widget is on the bar: one that is there already is never offered.
pub fn should_offer(can_offer: bool, on_bar: Option<bool>) -> (r: Offer)
    ensures
        r.make == (can_offer && on_bar != Some(true)),
        r.settle == (can_offer && on_bar == Some(true)),
{
    let there = match on_bar {
        Some(there) => there,
        None => false,
    };
    Offer { make: can_offer && !there, settle: can_offer && there }
}

/// Whether a plugin is the widget.
pub open spec fn is_widget(plugin: Tree) -> bool {
    plugin.member("id"@).text() == Some(ID@)
}

/// Whether a plugin is on the bar.
pub open spec fn is_on(plugin: Tree) -> bool {
    plugin.member("enabled"@).truth() == Some(true)
}

/// The first plugin that is the widget.
pub open spec fn first_widget(plugins: Seq<Tree>) -> Option<Tree>
    decreases plugins.len(),
{
    if plugins.len() == 0 {
        None
    } else if is_widget(plugins[0]) {
        Some(plugins[0])
    } else {
        first_widget(plugins.drop_first())
    }
}

/// Whether the widget is among the plugins as one that is on the bar.
pub open spec fn widget_on(plugins: Seq<Tree>) -> bool {
    exists|i: int|
        0 <= i < plugins.len() && is_widget(#[trigger] plugins[i]) && is_on(plugins[i])
}

/// What the shell's list of plugins says of the bar; none where the shell does not
/// answer with one.
pub open spec fn bar_state(answer: Result<Seq<char>, Seq<char>>) -> Option<bool> {
    match answer {
        Ok(text) => match json::json_list(text) {
            Ok(plugins) => Some(widget_on(plugins)),
            Err(_) => None,
        },
        Err(_) => None,
    }
}

/// The answer of a command.
pub open spec fn answer_view(answer: Result<String, String>) -> Result<Seq<char>, Seq<char>> {
    match answer {
        Ok(text) => Ok(text@),
        Err(error) => Err(error@),
    }
}

fn widget(plugin: &Json) -> (r: bool)
    ensures
        r == is_widget(plugin.tree()),
{
    text::same_option(plugin.text_member("id"), Some(ID))
}

fn on(plugin: &Json) -> (r: bool)
    ensures
        r == is_on(plugin.tree()),
{
    match plugin.truth_member("enabled") {
        Some(truth) => truth,
        None => false,
    }
}

/// Whether the widget is among the plugins as one that is on the bar.
pub fn any_on(plugins: &Vec<Json>) -> (r: bool)
    ensures
        r == widget_on(json::list_trees(plugins@)),
{
    let ghost trees = json::list_trees(plugins@);
    proof {
        json::lemma_list_trees(plugins@);
    }
    for i in 0..plugins.len()
        invariant
            trees == json::list_trees(plugins@),
            trees.len() == plugins@.len(),
            forall|k: int| 0 <= k < plugins@.len() ==> trees[k] == (#[trigger] plugins@[k]).tree(),
            forall|k: int| 0 <= k < i ==> !(is_widget(#[trigger] trees[k]) && is_on(trees[k])),
    {
        proof {
            assert(trees[i as int] == plugins@[i as int].tree());
        }
        if widget(&plugins[i]) && on(&plugins[i]) {
            return true;
        }
    }
    false
}

/// Whether the shell has the widget on the bar, from its answer to [`Call::List`];
/// none where it did not answer.
pub fn enabled(answer: &Result<String, String>) -> (r: Option<bool>)
    ensures
        r == bar_state(answer_view(*answer)),
{
    match answer {
        Ok(text) => match json::read_list(text.as_str()) {
            Ok(plugins) => Some(any_on(&plugins)),
            Err(_) => None,
        },
        Err(_) => None,
    }
}

/// What a command left comes to: what it printed, or an error that names the
/// program and says what it complained of.
pub open spec fn run_result(
    program: Seq<char>,
    output: Result<OutputView, Seq<char>>,
) -> Result<Seq<char>, Seq<char>> {
    match output {
        Err(error) => Err(program + ": "@ + error),
        Ok(output) => if output.success {
            Ok(text::lossy_text(output.stdout))
        } else {
            let stderr = text::trimmed(text::lossy_text(output.stderr));
            let stdout = text::trimmed(text::lossy_text(output.stdout));
            let why = if stderr.len() > 0 {
                stderr
            } else if stdout.len() > 0 {
                stdout
            } else {
                "failed"@
            };
            Err(program + ": "@ + why)
        },
    }
}

/// What a command left comes to.
pub fn run(program: &str, output: &Result<Output, String>) -> (r: Result<String, String>)
    ensures
        answer_view(r) == run_result(program@, crate::command::output_view(*output)),
{
    let output = match output {
        Ok(output) => output,
        Err(error) => {
            return Err(program.to_owned().concat(": ").concat(error.as_str()));
        },
    };
    let printed = text::lossy(output.stdout.as_slice());
    if output.success {
        return Ok(printed);
    }
    let complaint = text::lossy(output.stderr.as_slice());
    let stderr = text::trim(complaint.as_str());
    let stdout = text::trim(printed.as_str());
    let why = if !stderr.is_empty() {
        stderr
    } else if !stdout.is_empty() {
        stdout
    } else {
        "failed"
    };
    Err(program.to_owned().concat(": ").concat(why))
}

/// A command of the desktop.
#[derive(Clone, Copy)]
pub enum Call {
    /// Have the shell look for plugins again.
    Rescan,
    /// Have the shell list the plugins that it knows.
    List,
    /// Put the widget on the right of the bar.
    Enable,
}

/// The words of a command.
pub open spec fn call_words(call: Call) -> Seq<Seq<char>> {
    match call {
        Call::Rescan => seq!["omarchy-shell"@, "shell"@, "rescanPlugins"@],
        Call::List => seq!["omarchy-shell"@, "shell"@, "listPlugins"@],
        Call::Enable => seq!["omarchy"@, "plugin"@, "enable"@, ID@, "--section"@, "right"@],
    }
}

/// The words of a command, the program first.
pub fn words(call: Call) -> (r: Vec<String>)
    ensures
        text::texts(r@) == call_words(call),
        r@.len() > 0,
{
    let mut out: Vec<String> = Vec::new();
    match call {
        Call::Rescan => {
            out.push("omarchy-shell".to_owned());
            out.push("shell".to_owned());
            out.push("rescanPlugins".to_owned());
        },
        Call::List => {
            out.push("omarchy-shell".to_owned());
            out.push("shell".to_owned());
            out.push("listPlugins".to_owned());
        },
        Call::Enable => {
            out.push("omarchy".to_owned());
            out.push("plugin".to_owned());
            out.push("enable".to_owned());
            out.push(ID.to_owned());
            out.push("--section".to_owned());
            out.push("right".to_owned());
        },
    }
    proof {
        assert(text::texts(out@) =~= call_words(call));
    }
    out
}

/// How often the shell is asked for the widget after a rescan, which it does in
/// its own time, and how many milliseconds lie between.
pub const LOOKS: u8 = 50;

pub const LOOK_PAUSE: u64 = 100;

/// How often the shell is asked whether an enable that failed took after all, and
/// how many milliseconds lie between.
pub const CHECKS: u8 = 20;

pub const CHECK_PAUSE: u64 = 500;

pub const NOT_FOUND: &'static str =
    "The shell did not discover jankeesvw.meeting-recorder after rescanning. Try reopening the app to add it again.";

/// What is to be done next.
pub enum Step {
    Run(Call),
    /// Wait for so many milliseconds.
    Wait(u64),
    /// Nothing: this is how it ended.
    Done(Result<(), String>),
}

/// What a [`Step`] says.
pub enum StepView {
    Run(Call),
    Wait(u64),
    Done(Result<(), Seq<char>>),
}

impl View for Step {
    type V = StepView;

    open spec fn view(&self) -> StepView {
        match self {
            Step::Run(call) => StepView::Run(*call),
            Step::Wait(pause) => StepView::Wait(*pause),
            Step::Done(Ok(())) => StepView::Done(Ok(())),
            Step::Done(Err(error)) => StepView::Done(Err(error@)),
        }
    }
}

/// What came of a step.
pub enum Reply {
    Answer(Result<String, String>),
    Waited,
}

/// What a [`Reply`] says.
pub enum ReplyView {
    Answer(Result<Seq<char>, Seq<char>>),
    Waited,
}

impl View for Reply {
    type V = ReplyView;

    open spec fn view(&self) -> ReplyView {
        match self {
            Reply::Answer(answer) => ReplyView::Answer(answer_view(*answer)),
            Reply::Waited => ReplyView::Waited,
        }
    }
}

/// How far enabling is. Each number is how many tries are left after this one.
enum Stage {
    Rescanning,
    Looking(u8),
    Pausing(u8),
    Enabling,
    /// The enable failed with this error.
    Checking(u8, String),
    Resting(u8, String),
    Over,
}

/// How far enabling is. Each number is how many tries are left after this one.
pub enum StageView {
    Rescanning,
    Looking(u8),
    Pausing(u8),
    Enabling,
    Checking(u8, Seq<char>),
    Resting(u8, Seq<char>),
    Over,
}

/// Whether a reply is one to the step of a stage.
pub open spec fn answers(stage: StageView, reply: ReplyView) -> bool {
    match stage {
        StageView::Pausing(_) | StageView::Resting(_, _) => reply is Waited,
        StageView::Over => false,
        _ => reply is Answer,
    }
}

/// Whether the tries of a stage are within their number.
pub open spec fn in_bounds(stage: StageView) -> bool {
    match stage {
        StageView::Looking(left) => left < LOOKS,
        StageView::Pausing(left) => 1 <= left < LOOKS,
        StageView::Checking(left, _) => left < CHECKS,
        StageView::Resting(left, _) => 1 <= left < CHECKS,
        _ => true,
    }
}

pub open spec fn ended(result: Result<(), Seq<char>>) -> (StageView, StepView) {
    (StageView::Over, StepView::Done(result))
}

/// How the widget is listed.
#[derive(Clone, Copy, Debug, PartialEq, Eq, Structural)]
pub enum Listed {
    Missing,
    /// As one that is not on the bar.
    Off,
    On,
}

/// How the widget is first listed among the plugins.
pub open spec fn first_listing(plugins: Seq<Tree>) -> Listed {
    match first_widget(plugins) {
        Some(plugin) => if is_on(plugin) {
            Listed::On
        } else {
            Listed::Off
        },
        None => Listed::Missing,
    }
}

/// What follows from a list of plugins while the shell is looked at for the
/// widget. One that is on the bar already is left alone.
pub open spec fn looked(left: u8, plugins: Result<Seq<Tree>, Seq<char>>) -> (StageView, StepView) {
    match plugins {
        Err(error) => ended(Err("Could not read the shell's plugin list: "@ + error)),
        Ok(plugins) => match first_listing(plugins) {
            Listed::On => ended(Ok(())),
            Listed::Off => (StageView::Enabling, StepView::Run(Call::Enable)),
            Listed::Missing => if left > 0 {
                (StageView::Pausing(left), StepView::Wait(LOOK_PAUSE))
            } else {
                ended(Err(NOT_FOUND@))
            },
        },
    }
}

/// The stage and the step after a reply. What the shell reports decides, not
/// whether the enable was answered in time.
pub open spec fn stepped(stage: StageView, reply: ReplyView) -> (StageView, StepView) {
    match (stage, reply) {
        (StageView::Rescanning, ReplyView::Answer(Err(error))) => ended(Err(error)),
        (StageView::Rescanning, ReplyView::Answer(Ok(_))) => (
            StageView::Looking((LOOKS - 1) as u8),
            StepView::Run(Call::List),
        ),
        (StageView::Looking(_), ReplyView::Answer(Err(error))) => ended(Err(error)),
        (StageView::Looking(left), ReplyView::Answer(Ok(text))) => looked(
            left,
            json::json_list(text),
        ),
        (StageView::Pausing(left), ReplyView::Waited) => (
            StageView::Looking((left - 1) as u8),
            StepView::Run(Call::List),
        ),
        (StageView::Enabling, ReplyView::Answer(Ok(_))) => ended(Ok(())),
        (StageView::Enabling, ReplyView::Answer(Err(error))) => (
            StageView::Checking((CHECKS - 1) as u8, error),
            StepView::Run(Call::List),
        ),
        (StageView::Checking(left, error), ReplyView::Answer(answer)) => if bar_state(answer)
            == Some(true) {
            ended(Ok(()))
        } else if left > 0 {
            (StageView::Resting(left, error), StepView::Wait(CHECK_PAUSE))
        } else {
            ended(Err(error))
        },
        (StageView::Resting(left, error), ReplyView::Waited) => (
            StageView::Checking((left - 1) as u8, error),
            StepView::Run(Call::List),
        ),
        _ => ended(Err(NOT_FOUND@)),
    }
}

/// The widget being put on the bar.
pub struct Enabling {
    stage: Stage,
}

impl View for Enabling {
    type V = StageView;

    closed spec fn view(&self) -> StageView {
        match self.stage {
            Stage::Rescanning => StageView::Rescanning,
            Stage::Looking(left) => StageView::Looking(left),
            Stage::Pausing(left) => StageView::Pausing(left),
            Stage::Enabling => StageView::Enabling,
            Stage::Checking(left, error) => StageView::Checking(left, error@),
            Stage::Resting(left, error) => StageView::Resting(left, error@),
            Stage::Over => StageView::Over,
        }
    }
}

/// Starts to put the widget on the bar. The first step is a rescan.
pub fn enable() -> (r: (Enabling, Step))
    ensures
        r.0@ == StageView::Rescanning,
        r.1@ == StepView::Run(Call::Rescan),
{
    (Enabling { stage: Stage::Rescanning }, Step::Run(Call::Rescan))
}

/// How the widget is first listed among the plugins.
pub fn listing(plugins: &Vec<Json>) -> (r: Listed)
    ensures
        r == first_listing(json::list_trees(plugins@)),
{
    let ghost trees = json::list_trees(plugins@);
    proof {
        json::lemma_list_trees(plugins@);
        assert(trees.skip(0) =~= trees);
    }
    for i in 0..plugins.len()
        invariant
            trees == json::list_trees(plugins@),
            trees.len() == plugins@.len(),
            forall|k: int| 0 <= k < plugins@.len() ==> trees[k] == (#[trigger] plugins@[k]).tree(),
            first_widget(trees.skip(i as int)) == first_widget(trees),
    {
        proof {
            assert(trees[i as int] == plugins@[i as int].tree());
            assert(trees.skip(i as int).drop_first() =~= trees.skip(i + 1));
        }
        if widget(&plugins[i]) {
            return if on(&plugins[i]) {
                Listed::On
            } else {
                Listed::Off
            };
        }
    }
    Listed::Missing
}

impl Enabling {
    fn look(&mut self, left: u8, text: &str) -> (r: Step)
        ensures
            (final(self)@, r@) == looked(left, json::json_list(text@)),
    {
        match json::read_list(text) {
            Err(error) => {
                self.stage = Stage::Over;
                Step::Done(
                    Err(
                        "Could not read the shell's plugin list: ".to_owned().concat(
                            error.as_str(),
                        ),
                    ),
                )
            },
            Ok(plugins) => {
                match listing(&plugins) {
                    Listed::On => {
                        self.stage = Stage::Over;
                        Step::Done(Ok(()))
                    },
                    Listed::Off => {
                        self.stage = Stage::Enabling;
                        Step::Run(Call::Enable)
                    },
                    Listed::Missing => {
                        if left > 0 {
                            self.stage = Stage::Pausing(left);
                            Step::Wait(LOOK_PAUSE)
                        } else {
                            self.stage = Stage::Over;
                            Step::Done(Err(NOT_FOUND.to_owned()))
                        }
                    },
                }
            },
        }
    }

    /// What is to be done after a reply to the step before.
    pub fn next(&mut self, reply: Reply) -> (r: Step)
        requires
            in_bounds(old(self)@),
            answers(old(self)@, reply@),
        ensures
            in_bounds(final(self)@),
            (final(self)@, r@) == stepped(old(self)@, reply@),
    {
        let mut stage = Stage::Over;
        std::mem::swap(&mut stage, &mut self.stage);
        match (stage, reply) {
            (Stage::Rescanning, Reply::Answer(Err(error))) => Step::Done(Err(error)),
            (Stage::Rescanning, Reply::Answer(Ok(_))) => {
                self.stage = Stage::Looking(LOOKS - 1);
                Step::Run(Call::List)
            },
            (Stage::Looking(_), Reply::Answer(Err(error))) => Step::Done(Err(error)),
            (Stage::Looking(left), Reply::Answer(Ok(text))) => self.look(left, text.as_str()),
            (Stage::Pausing(left), Reply::Waited) => {
                self.stage = Stage::Looking(left - 1);
                Step::Run(Call::List)
            },
            (Stage::Enabling, Reply::Answer(Ok(_))) => Step::Done(Ok(())),
            (Stage::Enabling, Reply::Answer(Err(error))) => {
                self.stage = Stage::Checking(CHECKS - 1, error);
                Step::Run(Call::List)
            },
            (Stage::Checking(left, error), Reply::Answer(answer)) => {
                let there = match enabled(&answer) {
                    Some(there) => there,
                    None => false,
                };
                if there {
                    Step::Done(Ok(()))
                } else if left > 0 {
                    self.stage = Stage::Resting(left, error);
                    Step::Wait(CHECK_PAUSE)
                } else {
                    Step::Done(Err(error))
                }
            },
            (Stage::Resting(left, error), Reply::Waited) => {
                self.stage = Stage::Checking(left - 1, error);
                Step::Run(Call::List)
            },
            _ => Step::Done(Err(NOT_FOUND.to_owned())),
        }
    }
}

/// Whether a reply is one to a step.
pub open spec fn replies_to(step: StepView, reply: ReplyView) -> bool {
    match step {
        StepView::Run(_) => reply is Answer,
        StepView::Wait(_) => reply is Waited,
        StepView::Done(_) => false,
    }
}

/// Whoever does each step and replies to it replies to what the stage waits for.
pub proof fn a_stage_waits_for_its_step(stage: StageView, reply: ReplyView, next: ReplyView)
    requires
        in_bounds(stage),
        answers(stage, reply),
    ensures
        answers(stepped(stage, reply).0, next) <==> replies_to(stepped(stage, reply).1, next),
        answers(StageView::Rescanning, next) <==> replies_to(StepView::Run(Call::Rescan), next),
{
}

/// How many replies a stage is from the end at most.
pub open spec fn steps_left(stage: StageView) -> nat {
    match stage {
        StageView::Rescanning => 142,
        StageView::Looking(left) => (2 * left + 42) as nat,
        StageView::Pausing(left) => (2 * left + 41) as nat,
        StageView::Enabling => 41,
        StageView::Checking(left, _) => (2 * left + 1) as nat,
        StageView::Resting(left, _) => (2 * left) as nat,
        StageView::Over => 0,
    }
}

/// How many milliseconds are waited from a stage on at most, after its own step.
pub open spec fn wait_left(stage: StageView) -> nat {
    match stage {
        StageView::Rescanning => 14400,
        StageView::Looking(left) => (LOOK_PAUSE * left + 9500) as nat,
        StageView::Pausing(left) => (LOOK_PAUSE * (left - 1) + 9500) as nat,
        StageView::Enabling => 9500,
        StageView::Checking(left, _) => (CHECK_PAUSE * left) as nat,
        StageView::Resting(left, _) => (CHECK_PAUSE * (left - 1)) as nat,
        StageView::Over => 0,
    }
}

/// Enabling ends: every reply brings it nearer to its end, and the waits together
/// are at most 14.4 seconds.
pub proof fn enabling_ends(stage: StageView, reply: ReplyView)
    requires
        in_bounds(stage),
        answers(stage, reply),
    ensures
        in_bounds(stepped(stage, reply).0),
        steps_left(stepped(stage, reply).0) < steps_left(stage),
        stepped(stage, reply).0 is Over <==> stepped(stage, reply).1 is Done,
        wait_left(stepped(stage, reply).0) + match stepped(stage, reply).1 {
            StepView::Wait(pause) => pause as nat,
            _ => 0,
        } <= wait_left(stage),
{
}

/// The widget is enabled only after the shell has listed it as one that is not on
/// the bar.
pub proof fn only_a_listed_widget_is_enabled(stage: StageView, reply: ReplyView)
    requires
        stepped(stage, reply).1 == StepView::Run(Call::Enable),
    ensures
        stage is Looking,
        reply matches ReplyView::Answer(Ok(text)) && json::json_list(text) matches Ok(plugins)
            && first_widget(plugins) matches Some(plugin) && is_widget(plugin) && !is_on(plugin),
{
    if let ReplyView::Answer(Ok(text)) = reply {
        if let Ok(plugins) = json::json_list(text) {
            lemma_first_widget(plugins);
        }
    }
}

proof fn lemma_first_widget(plugins: Seq<Tree>)
    ensures
        first_widget(plugins) matches Some(plugin) ==> is_widget(plugin),
    decreases plugins.len(),
{
    if plugins.len() > 0 && !is_widget(plugins[0]) {
        lemma_first_widget(plugins.drop_first());
    }
}

/// Whether the widget was enabled before this stage.
pub open spec fn was_enabled(stage: StageView) -> bool {
    stage is Enabling || stage is Checking || stage is Resting || stage is Over
}

/// The widget is enabled once at most: after that, nothing enables it again.
pub proof fn the_widget_is_enabled_once(stage: StageView, reply: ReplyView)
    requires
        was_enabled(stage),
        answers(stage, reply),
    ensures
        was_enabled(stepped(stage, reply).0),
        stepped(stage, reply).1 != StepView::Run(Call::Enable),
{
}

/// An enable that failed is a success where the shell says that the widget is on
/// the bar, and otherwise keeps its error to the end.
pub proof fn a_failed_enable_keeps_its_error(left: u8, error: Seq<char>, reply: ReplyView)
    requires
        answers(StageView::Checking(left, error), reply),
    ensures
        stepped(StageView::Checking(left, error), reply).1 == if (reply matches ReplyView::Answer(
            answer,
        ) && bar_state(answer) == Some(true)) {
            StepView::Done(Ok(()))
        } else if left == 0 {
            StepView::Done(Err(error))
        } else {
            StepView::Wait(CHECK_PAUSE)
        },
        left > 0 ==> (stepped(StageView::Checking(left, error), reply).0 matches StageView::Resting(
            _,
            kept,
        ) ==> kept == error),
        stepped(StageView::Resting(left, error), ReplyView::Waited).0 matches StageView::Checking(
            _,
            kept,
        ) && kept == error,
{
}

/// The shell has the widget on the bar where the plugins that it lists have one with the
/// widget's id that is enabled; it tells nothing where it does not list any.
pub proof fn the_shell_says_whether_the_widget_is_on_the_bar(
    text: Seq<char>,
    error: Seq<char>,
)
    ensures
        bar_state(Err(error)) is None,
        match json::json_list(text) {
            Err(_) => bar_state(Ok(text)) is None,
            Ok(plugins) => bar_state(Ok(text)) == Some(
                exists|i: int|
                    0 <= i < plugins.len() && (#[trigger] plugins[i]).member("id"@) == Tree::Text(
                        "jankeesvw.meeting-recorder"@,
                    ) && plugins[i].member("enabled"@) == Tree::Bool(true),
            ),
        },
{
    if let Ok(plugins) = json::json_list(text) {
        let found = exists|i: int|
            0 <= i < plugins.len() && (#[trigger] plugins[i]).member("id"@) == Tree::Text(
                "jankeesvw.meeting-recorder"@,
            ) && plugins[i].member("enabled"@) == Tree::Bool(true);
        if widget_on(plugins) {
            let i = choose|i: int|
                0 <= i < plugins.len() && is_widget(#[trigger] plugins[i]) && is_on(plugins[i]);
            assert(plugins[i].member("id"@) == Tree::Text("jankeesvw.meeting-recorder"@));
            assert(found);
        }
        if found {
            let i = choose|i: int|
                0 <= i < plugins.len() && (#[trigger] plugins[i]).member("id"@) == Tree::Text(
                    "jankeesvw.meeting-recorder"@,
                ) && plugins[i].member("enabled"@) == Tree::Bool(true);
            assert(is_widget(plugins[i]) && is_on(plugins[i]));
        }
    }
}

/// The widget is listed as the first plugin with its id is; where there is none it is
/// missing.
pub proof fn the_first_plugin_with_the_id_is_the_widget(
    before: Seq<Tree>,
    plugin: Tree,
    behind: Seq<Tree>,
)
    requires
        forall|i: int|
            0 <= i < before.len() ==> (#[trigger] before[i]).member("id"@) != Tree::Text(
                "jankeesvw.meeting-recorder"@,
            ),
        plugin.member("id"@) == Tree::Text("jankeesvw.meeting-recorder"@),
    ensures
        first_listing(before) == Listed::Missing,
        first_listing(before + seq![plugin] + behind) == if plugin.member("enabled"@) == Tree::Bool(
            true,
        ) {
            Listed::On
        } else {
            Listed::Off
        },
    decreases before.len(),
{
    let all = before + seq![plugin] + behind;
    if before.len() > 0 {
        let rest = before.drop_first();
        assert(all[0] == before[0]);
        assert(all.drop_first() =~= rest + seq![plugin] + behind);
        assert forall|i: int| 0 <= i < rest.len() implies (#[trigger] rest[i]).member("id"@)
            != Tree::Text("jankeesvw.meeting-recorder"@) by {
            assert(rest[i] == before[i + 1]);
        }
        the_first_plugin_with_the_id_is_the_widget(rest, plugin, behind);
    } else {
        assert(all[0] == plugin);
    }
}

/// The stage and the step after a number of lists without the widget, and a pause behind
/// each.
pub open spec fn after_lists(stage: StageView, step: StepView, lists: Seq<Seq<char>>) -> (
    StageView,
    StepView,
)
    decreases lists.len(),
{
    if lists.len() == 0 {
        (stage, step)
    } else {
        let before = after_lists(stage, step, lists.drop_last()).0;
        stepped(stepped(before, ReplyView::Answer(Ok(lists.last()))).0, ReplyView::Waited)
    }
}

proof fn lemma_looking(lists: Seq<Seq<char>>)
    requires
        lists.len() <= 49,
        forall|i: int|
            0 <= i < lists.len() ==> (json::json_list(#[trigger] lists[i]) matches Ok(plugins)
                && first_listing(plugins) == Listed::Missing),
    ensures
        after_lists(StageView::Looking(49), StepView::Run(Call::List), lists) == (
            StageView::Looking((49 - lists.len()) as u8),
            StepView::Run(Call::List),
        ),
    decreases lists.len(),
{
    if lists.len() > 0 {
        let less = lists.drop_last();
        assert forall|i: int| 0 <= i < less.len() implies (json::json_list(
            #[trigger] less[i],
        ) matches Ok(plugins) && first_listing(plugins) == Listed::Missing) by {
            assert(less[i] == lists[i]);
        }
        lemma_looking(less);
        let last = lists[lists.len() - 1];
        assert(json::json_list(last) is Ok);
    }
}

/// After a rescan the shell is asked for its plugins fifty times at most, a tenth of a
/// second apart, until it lists the widget. One that is on the bar is left alone, one that
/// is not is enabled, and that the shell never lists it is told.
pub proof fn the_widget_is_waited_for_and_enabled(
    answer: Seq<char>,
    lists: Seq<Seq<char>>,
    text: Seq<char>,
    plugins: Seq<Tree>,
)
    requires
        lists.len() <= 49,
        forall|i: int|
            0 <= i < lists.len() ==> (json::json_list(#[trigger] lists[i]) matches Ok(plugins)
                && first_listing(plugins) == Listed::Missing),
        json::json_list(text) == Ok::<Seq<Tree>, Seq<char>>(plugins),
    ensures
        ({
            let (stage, step) = stepped(StageView::Rescanning, ReplyView::Answer(Ok(answer)));
            let (later, next) = after_lists(stage, step, lists);
            let (then, last) = stepped(later, ReplyView::Answer(Ok(text)));
            &&& step == StepView::Run(Call::List)
            &&& next == StepView::Run(Call::List)
            &&& first_listing(plugins) == Listed::On ==> last == StepView::Done(Ok(()))
            &&& first_listing(plugins) == Listed::Off ==> {
                &&& last == StepView::Run(Call::Enable)
                &&& stepped(then, ReplyView::Answer(Ok(answer))).1 == StepView::Done(Ok(()))
            }
            &&& first_listing(plugins) == Listed::Missing && lists.len() < 49 ==> last
                == StepView::Wait(100)
            &&& first_listing(plugins) == Listed::Missing && lists.len() == 49 ==> last
                == StepView::Done(
                Err(
                    "The shell did not discover jankeesvw.meeting-recorder after rescanning. Try reopening the app to add it again."@,
                ),
            )
        }),
{
    lemma_looking(lists);
}

/// A command of the shell that fails before the widget is enabled ends it with its error,
/// and so does a list that cannot be read.
pub proof fn an_error_before_the_widget_is_enabled_ends_it(
    left: u8,
    text: Seq<char>,
    error: Seq<char>,
)
    ensures
        stepped(StageView::Rescanning, ReplyView::Answer(Err(error))).1 == StepView::Done(
            Err(error),
        ),
        stepped(StageView::Looking(left), ReplyView::Answer(Err(error))).1 == StepView::Done(
            Err(error),
        ),
        json::json_list(text) matches Err(why) ==> stepped(
            StageView::Looking(left),
            ReplyView::Answer(Ok(text)),
        ).1 == StepView::Done(Err("Could not read the shell's plugin list: "@ + why)),
{
}

/// The stage and the step after a number of answers that do not have the widget on the
/// bar, and a pause behind each.
pub open spec fn after_answers(
    stage: StageView,
    step: StepView,
    answers: Seq<Result<Seq<char>, Seq<char>>>,
) -> (StageView, StepView)
    decreases answers.len(),
{
    if answers.len() == 0 {
        (stage, step)
    } else {
        let before = after_answers(stage, step, answers.drop_last()).0;
        stepped(stepped(before, ReplyView::Answer(answers.last())).0, ReplyView::Waited)
    }
}

proof fn lemma_checking(error: Seq<char>, answers: Seq<Result<Seq<char>, Seq<char>>>)
    requires
        answers.len() <= 19,
        forall|i: int| 0 <= i < answers.len() ==> bar_state(#[trigger] answers[i]) != Some(true),
    ensures
        after_answers(StageView::Checking(19, error), StepView::Run(Call::List), answers) == (
            StageView::Checking((19 - answers.len()) as u8, error),
            StepView::Run(Call::List),
        ),
    decreases answers.len(),
{
    if answers.len() > 0 {
        let less = answers.drop_last();
        assert forall|i: int| 0 <= i < less.len() implies bar_state(#[trigger] less[i]) != Some(
            true,
        ) by {
            assert(less[i] == answers[i]);
        }
        lemma_checking(error, less);
        assert(bar_state(answers[answers.len() - 1]) != Some(true));
    }
}

/// After an enable that failed the shell is asked twenty times at most, half a second
/// apart, and it counts as done as soon as the widget is on the bar; else the error of the
/// enable stays.
pub proof fn a_failed_enable_may_still_reach_the_bar(
    error: Seq<char>,
    answers: Seq<Result<Seq<char>, Seq<char>>>,
    last: Result<Seq<char>, Seq<char>>,
)
    requires
        answers.len() <= 19,
        forall|i: int| 0 <= i < answers.len() ==> bar_state(#[trigger] answers[i]) != Some(true),
    ensures
        ({
            let (stage, step) = stepped(StageView::Enabling, ReplyView::Answer(Err(error)));
            let (later, next) = after_answers(stage, step, answers);
            &&& next == StepView::Run(Call::List)
            &&& stepped(later, ReplyView::Answer(last)).1 == if bar_state(last) == Some(true) {
                StepView::Done(Ok(()))
            } else if answers.len() == 19 {
                StepView::Done(Err(error))
            } else {
                StepView::Wait(500)
            }
        }),
{
    lemma_checking(error, answers);
}

/// The commands of the desktop, each with its program first.
pub proof fn the_desktop_is_asked_by_these_commands()
    ensures
        call_words(Call::Rescan) == seq!["omarchy-shell"@, "shell"@, "rescanPlugins"@],
        call_words(Call::List) == seq!["omarchy-shell"@, "shell"@, "listPlugins"@],
        call_words(Call::Enable) == seq![
            "omarchy"@,
            "plugin"@,
            "enable"@,
            "jankeesvw.meeting-recorder"@,
            "--section"@,
            "right"@,
        ],
        SOURCE@ == "/usr/share/omarchy-meeting-recorder/plugin"@,
{
}

/// A command that succeeds gives what it printed. One that fails gives its name and what it
/// complained of, or else printed, or else that it failed.
pub proof fn a_failed_command_says_why(
    program: Seq<char>,
    output: OutputView,
    error: Seq<char>,
)
    ensures
        ({
            let stderr = text::trimmed(text::lossy_text(output.stderr));
            let stdout = text::trimmed(text::lossy_text(output.stdout));
            &&& run_result(program, Err(error)) == Err::<Seq<char>, Seq<char>>(
                program + ": "@ + error,
            )
            &&& output.success ==> run_result(program, Ok(output)) == Ok::<Seq<char>, Seq<char>>(
                text::lossy_text(output.stdout),
            )
            &&& !output.success && stderr.len() > 0 ==> run_result(program, Ok(output)) == Err::<
                Seq<char>,
                Seq<char>,
            >(program + ": "@ + stderr)
            &&& !output.success && stderr.len() == 0 && stdout.len() > 0 ==> run_result(
                program,
                Ok(output),
            ) == Err::<Seq<char>, Seq<char>>(program + ": "@ + stdout)
            &&& !output.success && stderr.len() == 0 && stdout.len() == 0 ==> run_result(
                program,
                Ok(output),
            ) == Err::<Seq<char>, Seq<char>>(program + ": "@ + "failed"@)
        }),
{
}

} // verus!
