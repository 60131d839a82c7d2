//! The user service that runs the watcher.
use vstd::prelude::*;
use vstd::string::StringExecFns;

use crate::command::{Output, OutputView};
use crate::meeting_detection;
use crate::meeting_detection::any_control;
use crate::text;

verus! {

pub const SERVICE: &'static str = "omarchy-meeting-recorder-auto-record.service";

/// A call of `systemctl --user`.
#[derive(Clone, Copy)]
pub enum Call {
    IsEnabled,
    Disable,
    ImportEnvironment,
    Reload,
    Enable,
}

/// The arguments of a call.
pub open spec fn call_arguments(call: Call) -> Seq<Seq<char>> {
    match call {
        Call::IsEnabled => seq!["is-enabled"@, "--quiet"@, SERVICE@],
        Call::Disable => seq!["disable"@, "--now"@, SERVICE@],
        Call::ImportEnvironment => seq![
            "import-environment"@,
            "HYPRLAND_INSTANCE_SIGNATURE"@,
            "WAYLAND_DISPLAY"@,
            "DISPLAY"@,
        ],
        Call::Reload => seq!["daemon-reload"@],
        Call::Enable => seq!["enable"@, "--now"@, SERVICE@],
    }
}

/// The arguments of a call.
pub fn arguments(call: Call) -> (r: Vec<String>)
    ensures
        text::texts(r@) == call_arguments(call),
{
    let mut out: Vec<String> = Vec::new();
    match call {
        Call::IsEnabled => {
            out.push("is-enabled".to_owned());
            out.push("--quiet".to_owned());
            out.push(SERVICE.to_owned());
        },
        Call::Disable => {
            out.push("disable".to_owned());
            out.push("--now".to_owned());
            out.push(SERVICE.to_owned());
        },
        Call::ImportEnvironment => {
            out.push("import-environment".to_owned());
            out.push("HYPRLAND_INSTANCE_SIGNATURE".to_owned());
            out.push("WAYLAND_DISPLAY".to_owned());
            out.push("DISPLAY".to_owned());
        },
        Call::Reload => {
            out.push("daemon-reload".to_owned());
        },
        Call::Enable => {
            out.push("enable".to_owned());
            out.push("--now".to_owned());
            out.push(SERVICE.to_owned());
        },
    }
    proof {
        assert(text::texts(out@) =~= call_arguments(call));
    }
    out
}

/// What a call comes to.
pub open spec fn call_result(output: Result<OutputView, Seq<char>>) -> Result<(), Seq<char>> {
    match output {
        Err(error) => Err(error),
        Ok(output) => if output.success {
            Ok(())
        } else {
            Err(text::trimmed(text::lossy_text(output.stderr)))
        },
    }
}

/// A result without a value.
pub open spec fn result_view(result: Result<(), String>) -> Result<(), Seq<char>> {
    match result {
        Ok(()) => Ok(()),
        Err(error) => Err(error@),
    }
}

/// What a call of `systemctl` comes to, from how it ended.
pub fn systemctl(output: &Result<Output, String>) -> (r: Result<(), String>)
    ensures
        result_view(r) == call_result(crate::command::output_view(*output)),
{
    match output {
        Err(error) => Err(error.clone()),
        Ok(output) => {
            if output.success {
                Ok(())
            } else {
                let stderr = text::lossy(output.stderr.as_slice());
                Err(text::trim(stderr.as_str()).to_owned())
            }
        },
    }
}

/// Whether the service is enabled, from what the call [`Call::IsEnabled`] came to.
pub fn enabled(answer: &Result<(), String>) -> (r: bool)
    ensures
        r == (answer is Ok),
{
    answer.is_ok()
}

/// A character in a quoted path of a unit file.
pub open spec fn escaped_char(c: char) -> Seq<char> {
    if c == '\\' {
        seq!['\\', '\\']
    } else if c == '"' {
        seq!['\\', '"']
    } else if c == '%' {
        seq!['%', '%']
    } else if c == '$' {
        seq!['$', '$']
    } else {
        seq![c]
    }
}

/// A path as it stands quoted in a unit file.
pub open spec fn escaped(path: Seq<char>) -> Seq<char>
    decreases path.len(),
{
    if path.len() == 0 {
        Seq::empty()
    } else {
        escaped(path.drop_last()) + escaped_char(path.last())
    }
}

pub const UNIT_START: &'static str =
    "[Unit]\nDescription=Automatically record meeting windows\nPartOf=graphical-session.target\nAfter=graphical-session.target\n\n[Service]\nExecStart=\"";

pub const UNIT_END: &'static str =
    "\" auto-record\nRestart=on-failure\nRestartSec=5\n\n[Install]\nWantedBy=graphical-session.target\n";

fn escape(path: &str) -> (r: String)
    ensures
        r@ == escaped(path@),
{
    let mut out = String::new();
    for c in it: path.chars()
        invariant
            it.seq() == path@,
            out@ == escaped(path@.take(it.index() as int)),
    {
        let ghost before = out@;
        if c == '\\' {
            out.push('\\');
        } else if c == '"' {
            out.push('\\');
        } else if c == '%' {
            out.push('%');
        } else if c == '$' {
            out.push('$');
        }
        out.push(c);
        proof {
            assert(path@.take(it.index() + 1).drop_last() =~= path@.take(it.index() as int));
            assert(path@.take(it.index() + 1).last() == c);
            assert(out@ =~= before + escaped_char(c));
        }
    }
    proof {
        assert(path@.take(path@.len() as int) =~= path@);
    }
    out
}

/// The unit file of the service for the program at `path`.
pub fn unit_file(path: &str) -> (r: String)
    ensures
        r@ == UNIT_START@ + escaped(path@) + UNIT_END@,
{
    let quoted = escape(path);
    UNIT_START.to_owned().concat(quoted.as_str()).concat(UNIT_END)
}

/// Two paths never come out the same.
pub proof fn escaping_keeps_paths_apart(a: Seq<char>, b: Seq<char>)
    requires
        escaped(a) == escaped(b),
    ensures
        a == b,
    decreases a.len(),
{
    if a.len() > 0 && b.len() > 0 {
        lemma_escaped_end(a);
        lemma_escaped_end(b);
        let x = escaped(a);
        assert(a.last() == x.last() && b.last() == x.last());
        let n = escaped_char(a.last()).len();
        assert(escaped(a.drop_last()) =~= x.take(x.len() - n));
        assert(escaped(b.drop_last()) =~= x.take(x.len() - n));
        escaping_keeps_paths_apart(a.drop_last(), b.drop_last());
        assert(a =~= a.drop_last().push(a.last()));
        assert(b =~= b.drop_last().push(b.last()));
    } else {
        if a.len() > 0 {
            lemma_escaped_end(a);
        }
        if b.len() > 0 {
            lemma_escaped_end(b);
        }
        assert(a =~= b);
    }
}

proof fn lemma_escaped_end(a: Seq<char>)
    requires
        a.len() > 0,
    ensures
        escaped(a).len() > 0,
        escaped(a).last() == a.last(),
{
    let tail = escaped_char(a.last());
    assert(tail.last() == a.last());
    assert(escaped(a).last() == tail.last());
}

pub const NO_HYPRLAND: &'static str = "Automatic recording requires Hyprland";

pub const PATH_NOT_TEXT: &'static str = "The application path is not valid UTF-8";

pub const BAD_PATH: &'static str = "Invalid application path";

/// What is to be done next to switch the service on or off.
pub enum Job {
    /// Write the unit file.
    Write(String),
    /// Call `systemctl`.
    Systemctl(Call),
    /// Nothing: this is how it ended.
    Done(Result<(), String>),
}

/// What a [`Job`] says.
pub enum JobView {
    Write(Seq<char>),
    Systemctl(Call),
    Done(Result<(), Seq<char>>),
}

impl View for Job {
    type V = JobView;

    open spec fn view(&self) -> JobView {
        match self {
            Job::Write(text) => JobView::Write(text@),
            Job::Systemctl(call) => JobView::Systemctl(*call),
            Job::Done(result) => JobView::Done(result_view(*result)),
        }
    }
}

/// How far the switch is.
pub enum Progress {
    Disabling,
    Writing,
    Importing,
    Reloading,
    Enabling,
    /// Enabling failed with this error and is being undone.
    Undoing(String),
    Over,
}

/// What a [`Progress`] says.
pub enum ProgressView {
    Disabling,
    Writing,
    Importing,
    Reloading,
    Enabling,
    Undoing(Seq<char>),
    Over,
}

impl View for Progress {
    type V = ProgressView;

    open spec fn view(&self) -> ProgressView {
        match self {
            Progress::Disabling => ProgressView::Disabling,
            Progress::Writing => ProgressView::Writing,
            Progress::Importing => ProgressView::Importing,
            Progress::Reloading => ProgressView::Reloading,
            Progress::Enabling => ProgressView::Enabling,
            Progress::Undoing(error) => ProgressView::Undoing(error@),
            Progress::Over => ProgressView::Over,
        }
    }
}

/// The first job: to disable the service, or, where the desktop and the path of
/// the program allow it, to write its unit file.
pub open spec fn first_job(
    on: bool,
    hyprland: bool,
    program: Result<Option<Seq<char>>, Seq<char>>,
) -> (ProgressView, JobView) {
    if !on {
        (ProgressView::Disabling, JobView::Systemctl(Call::Disable))
    } else if !hyprland {
        (ProgressView::Over, JobView::Done(Err(NO_HYPRLAND@)))
    } else {
        match program {
            Err(error) => (ProgressView::Over, JobView::Done(Err(error))),
            Ok(None) => (ProgressView::Over, JobView::Done(Err(PATH_NOT_TEXT@))),
            Ok(Some(path)) => if meeting_detection::has_control(path) {
                (ProgressView::Over, JobView::Done(Err(BAD_PATH@)))
            } else {
                (
                    ProgressView::Writing,
                    JobView::Write(UNIT_START@ + escaped(path) + UNIT_END@),
                )
            },
        }
    }
}

/// The job after one came to `result`. A service that could not be enabled is
/// disabled again, and the error is the first one.
pub open spec fn next_job(
    progress: ProgressView,
    result: Result<(), Seq<char>>,
) -> (ProgressView, JobView) {
    match (progress, result) {
        (ProgressView::Disabling, _) => (ProgressView::Over, JobView::Done(result)),
        (ProgressView::Writing, Ok(())) => (
            ProgressView::Importing,
            JobView::Systemctl(Call::ImportEnvironment),
        ),
        (ProgressView::Importing, Ok(())) => (
            ProgressView::Reloading,
            JobView::Systemctl(Call::Reload),
        ),
        (ProgressView::Reloading, Ok(())) => (
            ProgressView::Enabling,
            JobView::Systemctl(Call::Enable),
        ),
        (ProgressView::Enabling, Err(error)) => (
            ProgressView::Undoing(error),
            JobView::Systemctl(Call::Disable),
        ),
        (ProgressView::Undoing(error), _) => (ProgressView::Over, JobView::Done(Err(error))),
        _ => (ProgressView::Over, JobView::Done(result)),
    }
}

/// The service being switched on or off.
pub struct Switch {
    progress: Progress,
}

impl View for Switch {
    type V = ProgressView;

    closed spec fn view(&self) -> ProgressView {
        self.progress@
    }
}

/// The path of the program, none where it is not UTF-8.
pub open spec fn program_view(
    program: Result<Option<String>, String>,
) -> Result<Option<Seq<char>>, Seq<char>> {
    match program {
        Ok(path) => Ok(text::owned(path)),
        Err(error) => Err(error@),
    }
}

/// Starts to switch the service on or off. `hyprland` tells whether `hyprctl` is
/// there, and `program` the path of this program, none where it is not UTF-8.
pub fn set_enabled(
    on: bool,
    hyprland: bool,
    program: &Result<Option<String>, String>,
) -> (r: (Switch, Job))
    ensures
        (r.0@, r.1@) == first_job(on, hyprland, program_view(*program)),
{
    let over = Switch { progress: Progress::Over };
    if !on {
        return (Switch { progress: Progress::Disabling }, Job::Systemctl(Call::Disable));
    }
    if !hyprland {
        return (over, Job::Done(Err(NO_HYPRLAND.to_owned())));
    }
    match program {
        Err(error) => (over, Job::Done(Err(error.clone()))),
        Ok(None) => (over, Job::Done(Err(PATH_NOT_TEXT.to_owned()))),
        Ok(Some(path)) => {
            if any_control(path.as_str()) {
                (over, Job::Done(Err(BAD_PATH.to_owned())))
            } else {
                (
                    Switch { progress: Progress::Writing },
                    Job::Write(unit_file(path.as_str())),
                )
            }
        },
    }
}

impl Switch {
    /// What is to be done after a job came to `result`.
    pub fn next(&mut self, result: Result<(), String>) -> (r: Job)
        ensures
            (final(self)@, r@) == next_job(old(self)@, result_view(result)),
    {
        let mut progress = Progress::Over;
        std::mem::swap(&mut progress, &mut self.progress);
        match (progress, result) {
            (Progress::Writing, Ok(())) => {
                self.progress = Progress::Importing;
                Job::Systemctl(Call::ImportEnvironment)
            },
            (Progress::Importing, Ok(())) => {
                self.progress = Progress::Reloading;
                Job::Systemctl(Call::Reload)
            },
            (Progress::Reloading, Ok(())) => {
                self.progress = Progress::Enabling;
                Job::Systemctl(Call::Enable)
            },
            (Progress::Enabling, Err(error)) => {
                self.progress = Progress::Undoing(error);
                Job::Systemctl(Call::Disable)
            },
            (Progress::Undoing(error), _) => Job::Done(Err(error)),
            (_, result) => Job::Done(result),
        }
    }
}

/// A service that could not be enabled is not left half enabled: the next job is to
/// disable it, and whatever comes of that, the end is the error of enabling it.
pub proof fn a_failed_enable_is_undone(error: Seq<char>, result: Result<(), Seq<char>>)
    ensures
        next_job(ProgressView::Enabling, Err(error)).1 == JobView::Systemctl(Call::Disable),
        next_job(next_job(ProgressView::Enabling, Err(error)).0, result).1 == JobView::Done(
            Err(error),
        ),
{
}

/// Switching on succeeds only after every step did, in their order, and enabling
/// comes last.
pub proof fn success_takes_every_step(progress: ProgressView, result: Result<(), Seq<char>>)
    requires
        next_job(progress, result).1 == JobView::Done(Ok(())),
    ensures
        result is Ok,
        progress is Disabling || progress is Enabling || progress is Over,
{
}

/// A path is escaped character by character: a backslash and a quote get a backslash
/// before them, a per cent sign and a dollar sign are doubled, and all else stays.
pub proof fn every_character_is_escaped_on_its_own(a: Seq<char>, b: Seq<char>, c: char)
    ensures
        escaped(a + b) == escaped(a) + escaped(b),
        escaped(Seq::empty()).len() == 0,
        escaped(seq!['\\']) == seq!['\\', '\\'],
        escaped(seq!['"']) == seq!['\\', '"'],
        escaped(seq!['%']) == seq!['%', '%'],
        escaped(seq!['$']) == seq!['$', '$'],
        c != '\\' && c != '"' && c != '%' && c != '$' ==> escaped(seq![c]) == seq![c],
    decreases b.len(),
{
    reveal_with_fuel(escaped, 2);
    assert(seq!['\\'].drop_last() =~= Seq::<char>::empty());
    assert(seq!['"'].drop_last() =~= Seq::<char>::empty());
    assert(seq!['%'].drop_last() =~= Seq::<char>::empty());
    assert(seq!['$'].drop_last() =~= Seq::<char>::empty());
    assert(seq![c].drop_last() =~= Seq::<char>::empty());
    assert(escaped(seq!['\\']) =~= seq!['\\', '\\']);
    assert(escaped(seq!['"']) =~= seq!['\\', '"']);
    assert(escaped(seq!['%']) =~= seq!['%', '%']);
    assert(escaped(seq!['$']) =~= seq!['$', '$']);
    if c != '\\' && c != '"' && c != '%' && c != '$' {
        assert(escaped(seq![c]) =~= seq![c]);
    }
    if b.len() > 0 {
        every_character_is_escaped_on_its_own(a, b.drop_last(), c);
        assert((a + b).drop_last() =~= a + b.drop_last());
        assert(escaped(a + b) =~= escaped(a) + escaped(b));
    } else {
        assert(a + b =~= a);
        assert(escaped(a) + escaped(b) =~= escaped(a));
    }
}

/// Switching on takes the unit file, then the environment, the reload and the enabling,
/// each where the one before succeeded; the first error ends it, but that an enabling that
/// failed is undone first. Switching off takes one call.
pub proof fn switching_on_takes_its_steps_in_order(
    path: Seq<char>,
    error: Seq<char>,
    result: Result<(), Seq<char>>,
)
    requires
        forall|i: int|
            0 <= i < path.len() ==> !(#[trigger] path[i] as u32 <= 0x1f || 0x7f <= path[i] as u32
                <= 0x9f),
    ensures
        ({
            let (writing, write) = first_job(true, true, Ok(Some(path)));
            let (importing, import) = next_job(writing, Ok(()));
            let (reloading, reload) = next_job(importing, Ok(()));
            let (enabling, enable) = next_job(reloading, Ok(()));
            &&& write == JobView::Write(
                "[Unit]\nDescription=Automatically record meeting windows\nPartOf=graphical-session.target\nAfter=graphical-session.target\n\n[Service]\nExecStart=\""@
                    + escaped(path)
                    + "\" auto-record\nRestart=on-failure\nRestartSec=5\n\n[Install]\nWantedBy=graphical-session.target\n"@,
            )
            &&& import == JobView::Systemctl(Call::ImportEnvironment)
            &&& reload == JobView::Systemctl(Call::Reload)
            &&& enable == JobView::Systemctl(Call::Enable)
            &&& next_job(enabling, Ok(())).1 == JobView::Done(Ok(()))
            &&& next_job(writing, Err(error)).1 == JobView::Done(Err(error))
            &&& next_job(importing, Err(error)).1 == JobView::Done(Err(error))
            &&& next_job(reloading, Err(error)).1 == JobView::Done(Err(error))
            &&& next_job(enabling, Err(error)).1 == JobView::Systemctl(Call::Disable)
            &&& next_job(next_job(enabling, Err(error)).0, result).1 == JobView::Done(Err(error))
        }),
        forall|hyprland: bool, program: Result<Option<Seq<char>>, Seq<char>>|
            ({
                let (disabling, disable) = #[trigger] first_job(false, hyprland, program);
                &&& disable == JobView::Systemctl(Call::Disable)
                &&& next_job(disabling, result).1 == JobView::Done(result)
            }),
{
    assert(!meeting_detection::has_control(path)) by {
        if meeting_detection::has_control(path) {
            let i = choose|i: int| 0 <= i < path.len() && text::control(#[trigger] path[i]);
            assert(!(path[i] as u32 <= 0x1f || 0x7f <= path[i] as u32 <= 0x9f));
        }
    }
}

/// Switching on is refused without Hyprland, and where the path of the program is not
/// known, is not text, or has a control character in it; nothing is done then.
pub proof fn switching_on_is_refused(
    program: Result<Option<Seq<char>>, Seq<char>>,
    error: Seq<char>,
    path: Seq<char>,
    i: int,
)
    requires
        0 <= i < path.len(),
        path[i] as u32 <= 0x1f || 0x7f <= path[i] as u32 <= 0x9f,
    ensures
        first_job(true, false, program).1 == JobView::Done(
            Err("Automatic recording requires Hyprland"@),
        ),
        first_job(true, true, Err(error)).1 == JobView::Done(Err(error)),
        first_job(true, true, Ok(None)).1 == JobView::Done(
            Err("The application path is not valid UTF-8"@),
        ),
        first_job(true, true, Ok(Some(path))).1 == JobView::Done(Err("Invalid application path"@)),
{
    assert(text::control(path[i]));
}

/// The calls are about the service of the watcher, and change it at once.
pub proof fn calls_are_about_the_service()
    ensures
        ({
            let service = "omarchy-meeting-recorder-auto-record.service"@;
            &&& call_arguments(Call::IsEnabled) == seq!["is-enabled"@, "--quiet"@, service]
            &&& call_arguments(Call::Disable) == seq!["disable"@, "--now"@, service]
            &&& call_arguments(Call::Enable) == seq!["enable"@, "--now"@, service]
            &&& call_arguments(Call::Reload) == seq!["daemon-reload"@]
            &&& call_arguments(Call::ImportEnvironment) == seq![
                "import-environment"@,
                "HYPRLAND_INSTANCE_SIGNATURE"@,
                "WAYLAND_DISPLAY"@,
                "DISPLAY"@,
            ]
        }),
{
}

/// A call succeeds where its program does, and else says what it wrote, or why it did not
/// run.
pub proof fn a_call_succeeds_where_its_program_does(output: OutputView, error: Seq<char>)
    ensures
        call_result(Ok(output)) is Ok <==> output.success,
        !output.success ==> call_result(Ok(output)) == Err::<(), Seq<char>>(
            text::trimmed(text::lossy_text(output.stderr)),
        ),
        call_result(Err(error)) == Err::<(), Seq<char>>(error),
{
}

} // verus!
