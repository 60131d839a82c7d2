//! Actions: commands of the user, run on a finished meeting.
//!
//! They stand in the configuration file, each with a name for the menu and a
//! command:
//!
//! ```toml
//! [[action]]
//! name = "Copy to Obsidian"
//! command = "~/.local/bin/meeting-to-obsidian"
//! ```
use vstd::prelude::*;
use vstd::string::{StrSliceExecFns, StringExecFns};

use crate::command::{Output, OutputView};
use crate::text;

verus! {

/// An action: what it is called and what it runs.
#[derive(Debug, PartialEq)]
pub struct Action {
    pub name: String,
    pub command: String,
}

/// What an [`Action`] says.
pub struct ActionView {
    pub name: Seq<char>,
    pub command: Seq<char>,
}

impl View for Action {
    type V = ActionView;

    open spec fn view(&self) -> ActionView {
        ActionView { name: self.name@, command: self.command@ }
    }
}

impl Clone for Action {
    fn clone(&self) -> (r: Self)
        ensures
            r@ == self@,
    {
        Action { name: self.name.clone(), command: self.command.clone() }
    }
}

pub open spec fn action_views(actions: Seq<Action>) -> Seq<ActionView> {
    actions.map_values(|action: Action| action@)
}

/// What a double-quoted string says up to its closing quote, where a backslash
/// takes the next character as it is, but for a line break and a tab.
pub open spec fn unescaped(s: Seq<char>) -> Seq<char>
    decreases s.len(),
{
    if s.len() == 0 || s[0] == '"' {
        Seq::empty()
    } else if s[0] == '\\' {
        if s.len() == 1 {
            Seq::empty()
        } else {
            seq![
                if s[1] == 'n' {
                    '\n'
                } else if s[1] == 't' {
                    '\t'
                } else {
                    s[1]
                },
            ] + unescaped(s.skip(2))
        }
    } else {
        seq![s[0]] + unescaped(s.skip(1))
    }
}

/// What a value says: a string in single quotes as it is, one in double quotes with
/// backslash escapes, and anything else up to a comment.
pub open spec fn unquoted(value: Seq<char>) -> Seq<char> {
    if value.len() > 0 && value[0] == '\'' {
        let rest = value.skip(1);
        rest.take(text::first_where(rest, text::equals('\'')))
    } else if value.len() > 0 && value[0] == '"' {
        unescaped(value.skip(1))
    } else {
        text::trimmed(value.take(text::first_where(value, text::equals('#'))))
    }
}

fn up_to<'a>(value: &'a str, start: usize, c: char) -> (r: &'a str)
    requires
        start <= value@.len(),
    ensures
        r@ == value@.skip(start as int).take(
            text::first_where(value@.skip(start as int), text::equals(c)),
        ),
{
    let length = value.unicode_len();
    let rest = value.substring_char(start, length);
    proof {
        assert(rest@ =~= value@.skip(start as int));
    }
    let chars = text::characters(rest);
    let end = text::find(chars.as_slice(), c);
    let part = rest.substring_char(0, end);
    proof {
        assert(part@ =~= rest@.take(end as int));
    }
    part
}

fn unescape(value: &str) -> (r: String)
    requires
        value@.len() > 0,
    ensures
        r@ == unescaped(value@.skip(1)),
{
    let chars = text::characters(value);
    let mut out = String::new();
    let mut i: usize = 1;
    proof {
        assert(out@ + unescaped(value@.skip(1)) =~= unescaped(value@.skip(1)));
    }
    while i < chars.len() && chars[i] != '"'
        invariant
            chars@ == value@,
            1 <= i <= chars.len(),
            out@ + unescaped(value@.skip(i as int)) == unescaped(value@.skip(1)),
        decreases chars.len() - i,
    {
        let ghost rest = value@.skip(i as int);
        let ghost before = out@;
        proof {
            assert(rest[0] == chars@[i as int]);
            assert(rest.skip(1) =~= value@.skip(i + 1));
            assert(i + 1 < chars.len() ==> rest.skip(2) =~= value@.skip(i + 2));
        }
        if chars[i] == '\\' {
            if i + 1 == chars.len() {
                proof {
                    assert(out@ + unescaped(rest) =~= out@);
                }
                return out;
            }
            let next = chars[i + 1];
            let c = if next == 'n' {
                '\n'
            } else if next == 't' {
                '\t'
            } else {
                next
            };
            out.push(c);
            proof {
                assert(rest[1] == next);
                assert(out@ + unescaped(value@.skip(i + 2)) =~= before + (seq![c] + unescaped(
                    value@.skip(i + 2),
                )));
            }
            i += 2;
        } else {
            out.push(chars[i]);
            proof {
                assert(out@ + unescaped(value@.skip(i + 1)) =~= before + (seq![chars@[i as int]]
                    + unescaped(value@.skip(i + 1))));
            }
            i += 1;
        }
    }
    proof {
        let rest = value@.skip(i as int);
        if i < chars.len() {
            assert(rest[0] == chars@[i as int]);
        }
        assert(out@ + unescaped(rest) =~= out@);
    }
    out
}

/// What a value of the configuration file says.
pub fn unquote(value: &str) -> (r: String)
    ensures
        r@ == unquoted(value@),
{
    let length = value.unicode_len();
    if length > 0 {
        let first = value.get_char(0);
        if first == '\'' {
            return up_to(value, 1, '\'').to_owned();
        }
        if first == '"' {
            return unescape(value);
        }
    }
    proof {
        assert(value@.skip(0) =~= value@);
    }
    text::trim(up_to(value, 0, '#')).to_owned()
}

/// What was read of a configuration file: the actions so far, and the name and
/// command of the one that is being read.
pub struct Reading {
    pub actions: Seq<ActionView>,
    pub current: Option<ActionView>,
}

/// The actions with the one that is being read, where it has a name and a command.
pub open spec fn finished(reading: Reading) -> Seq<ActionView> {
    match reading.current {
        Some(action) => if action.name.len() > 0 && action.command.len() > 0 {
            reading.actions.push(action)
        } else {
            reading.actions
        },
        None => reading.actions,
    }
}

/// An action with a key set to a value.
pub open spec fn with_value(action: ActionView, key: Seq<char>, value: Seq<char>) -> ActionView {
    if key == "name"@ {
        ActionView { name: value, ..action }
    } else if key == "command"@ {
        ActionView { command: value, ..action }
    } else {
        action
    }
}

/// What was read after one more line: a table header ends an action, that of an
/// action starts one, and a pair in an action sets its name or its command.
pub open spec fn read_line(reading: Reading, line: Seq<char>) -> Reading {
    let line = text::trimmed(line);
    if "["@.is_prefix_of(line) {
        Reading {
            actions: finished(reading),
            current: if line == "[[action]]"@ {
                Some(ActionView { name: Seq::empty(), command: Seq::empty() })
            } else {
                None
            },
        }
    } else {
        match (reading.current, text::cut_once(line, '=')) {
            (Some(action), Some((key, value))) => Reading {
                actions: reading.actions,
                current: Some(
                    with_value(action, text::trimmed(key), unquoted(text::trimmed(value))),
                ),
            },
            _ => reading,
        }
    }
}

pub open spec fn read_lines(lines: Seq<Seq<char>>) -> Reading
    decreases lines.len(),
{
    if lines.len() == 0 {
        Reading { actions: Seq::empty(), current: None }
    } else {
        read_line(read_lines(lines.drop_last()), lines.last())
    }
}

/// The actions of a configuration file, in its order.
pub open spec fn listed_actions(config: Seq<char>) -> Seq<ActionView> {
    finished(read_lines(text::split_at(config, '\n')))
}

spec fn current_view(current: Option<Action>) -> Option<ActionView> {
    match current {
        Some(action) => Some(action@),
        None => None,
    }
}

fn finish(actions: &mut Vec<Action>, current: Option<Action>)
    ensures
        action_views(final(actions)@) == finished(
            Reading { actions: action_views(old(actions)@), current: current_view(current) },
        ),
{
    if let Some(action) = current {
        if !action.name.as_str().is_empty() && !action.command.as_str().is_empty() {
            let ghost before = actions@;
            actions.push(action);
            proof {
                assert(action_views(actions@) =~= action_views(before).push(action@));
            }
        }
    }
}

/// The actions of a configuration file, in its order. A line format rather than all
/// of TOML: pairs of a key and a value, comments, and nothing nested.
pub fn parse(config: &str) -> (r: Vec<Action>)
    ensures
        action_views(r@) == listed_actions(config@),
{
    let lines = text::split(config, '\n');
    let ghost all = text::texts(lines@);
    let mut actions: Vec<Action> = Vec::new();
    let mut current: Option<Action> = None;
    proof {
        assert(action_views(actions@) =~= Seq::<ActionView>::empty());
    }
    for i in 0..lines.len()
        invariant
            all == text::texts(lines@),
            (Reading { actions: action_views(actions@), current: current_view(current) })
                == read_lines(all.take(i as int)),
    {
        proof {
            assert(all.take(i + 1).drop_last() =~= all.take(i as int));
            assert(all.take(i + 1).last() == lines@[i as int]@);
        }
        let line = text::trim(lines[i].as_str());
        if text::starts_with(line, "[") {
            finish(&mut actions, current);
            current = if text::same(line, "[[action]]") {
                Some(Action { name: String::new(), command: String::new() })
            } else {
                None
            };
        } else if let Some(action) = current {
            match text::split_once(line, '=') {
                Some((key, value)) => {
                    let key = text::trim(key);
                    let value = unquote(text::trim(value));
                    current = Some(
                        if text::same(key, "name") {
                            Action { name: value, command: action.command }
                        } else if text::same(key, "command") {
                            Action { name: action.name, command: value }
                        } else {
                            action
                        },
                    );
                },
                None => {
                    current = Some(action);
                },
            }
        }
    }
    proof {
        assert(all.take(lines@.len() as int) =~= all);
    }
    finish(&mut actions, current);
    actions
}

/// The actions in the contents of the configuration file, none where it could not
/// be read.
pub fn load(config: Option<&str>) -> (r: Vec<Action>)
    ensures
        action_views(r@) == match config {
            Some(config) => listed_actions(config@),
            None => Seq::empty(),
        },
{
    match config {
        Some(config) => parse(config),
        None => {
            let actions: Vec<Action> = Vec::new();
            proof {
                assert(action_views(actions@) =~= Seq::<ActionView>::empty());
            }
            actions
        },
    }
}

/// How many characters of a line are shown.
pub const LINE_LIMIT: usize = 200;

/// The last of `lines` that is more than white space, trimmed and cut short.
pub open spec fn last_full(lines: Seq<Seq<char>>) -> Option<Seq<char>>
    decreases lines.len(),
{
    if lines.len() == 0 {
        None
    } else if text::trimmed(lines.last()).len() > 0 {
        Some(text::first(text::trimmed(lines.last()), LINE_LIMIT as int))
    } else {
        last_full(lines.drop_last())
    }
}

/// The last line of a text that is more than white space, trimmed and cut short.
pub open spec fn shown_line(s: Seq<char>) -> Option<Seq<char>> {
    last_full(text::split_at(s, '\n'))
}

/// The last line of `text` that is more than white space, trimmed and cut short.
pub fn last_line(text: &str) -> (r: Option<String>)
    ensures
        text::owned(r) == shown_line(text@),
{
    let lines = text::split(text, '\n');
    let ghost all = text::texts(lines@);
    let mut i: usize = lines.len();
    proof {
        assert(all.take(lines@.len() as int) =~= all);
    }
    while i > 0
        invariant
            all == text::texts(lines@),
            all == text::split_at(text@, '\n'),
            i <= lines.len(),
            last_full(all.take(i as int)) == last_full(all),
        decreases i,
    {
        proof {
            assert(all.take(i as int).drop_last() =~= all.take(i - 1));
            assert(all.take(i as int).last() == lines@[i - 1]@);
        }
        i -= 1;
        let line = text::trim(lines[i].as_str());
        if !line.is_empty() {
            return Some(text::take(line, LINE_LIMIT));
        }
    }
    None
}

/// Whether a word is a link that can be opened: to a web page, or to a note in
/// Obsidian.
pub open spec fn is_link(word: Seq<char>) -> bool {
    "https://"@.is_prefix_of(word) || "http://"@.is_prefix_of(word) || "obsidian://"@.is_prefix_of(
        word,
    )
}

/// The marks behind a link that are not part of it.
pub open spec fn trailing_marks() -> Seq<char> {
    seq!['.', ',', ')', '"', '\'']
}

/// The first of `words` that is a link, without the marks behind it.
pub open spec fn first_link(words: Seq<Seq<char>>) -> Option<Seq<char>>
    decreases words.len(),
{
    if words.len() == 0 {
        None
    } else if is_link(words[0]) {
        Some(text::stripped_end(words[0], trailing_marks()))
    } else {
        first_link(words.drop_first())
    }
}

/// The first link in `text`, without the marks behind it.
pub fn find_url(text: &str) -> (r: Option<String>)
    ensures
        text::owned(r) == first_link(text::words(text@)),
{
    let words = text::split_whitespace(text);
    let ghost all = text::texts(words@);
    proof {
        assert(all.skip(0) =~= all);
    }
    for i in 0..words.len()
        invariant
            all == text::texts(words@),
            all == text::words(text@),
            first_link(all.skip(i as int)) == first_link(all),
    {
        proof {
            assert(all.skip(i as int).drop_first() =~= all.skip(i + 1));
            assert(all.skip(i as int)[0] == words@[i as int]@);
        }
        let word = words[i].as_str();
        if text::starts_with(word, "https://") || text::starts_with(word, "http://")
            || text::starts_with(word, "obsidian://") {
            let marks: [char; 5] = ['.', ',', ')', '"', '\''];
            proof {
                assert(marks@ =~= trailing_marks());
            }
            return Some(text::strip_end(word, &marks).to_owned());
        }
    }
    None
}

/// How an action ended: the last thing it printed, and a link in it if any.
pub struct Outcome {
    pub message: String,
    pub url: Option<String>,
}

/// What an [`Outcome`] says.
pub struct OutcomeView {
    pub message: Seq<char>,
    pub url: Option<Seq<char>>,
}

impl View for Outcome {
    type V = OutcomeView;

    open spec fn view(&self) -> OutcomeView {
        OutcomeView { message: self.message@, url: text::owned(self.url) }
    }
}

/// How an action ended: with the last line that it printed, or with the last line
/// that it complained of, or else printed, or else with its exit status.
pub open spec fn ended(
    output: Result<OutputView, Seq<char>>,
    status: Seq<char>,
) -> Result<OutcomeView, Seq<char>> {
    match output {
        Err(error) => Err(error),
        Ok(output) => {
            let stdout = shown_line(text::lossy_text(output.stdout));
            if output.success {
                let message = match stdout {
                    Some(line) => line,
                    None => "Done"@,
                };
                Ok(OutcomeView { message, url: first_link(text::words(message)) })
            } else {
                match (shown_line(text::lossy_text(output.stderr)), stdout) {
                    (Some(line), _) => Err(line),
                    (None, Some(line)) => Err(line),
                    (None, None) => Err("exited with "@ + status),
                }
            }
        },
    }
}

/// How a run of an action ended. `status` is its exit status in words.
pub fn run(output: &Result<Output, String>, status: &str) -> (r: Result<Outcome, String>)
    ensures
        match r {
            Ok(outcome) => ended(crate::command::output_view(*output), status@) == Ok::<
                OutcomeView,
                Seq<char>,
            >(outcome@),
            Err(error) => ended(crate::command::output_view(*output), status@) == Err::<
                OutcomeView,
                Seq<char>,
            >(error@),
        },
{
    let output = match output {
        Ok(output) => output,
        Err(error) => {
            return Err(error.clone());
        },
    };
    let stdout = text::lossy(output.stdout.as_slice());
    if !output.success {
        let stderr = text::lossy(output.stderr.as_slice());
        return match last_line(stderr.as_str()) {
            Some(line) => Err(line),
            None => match last_line(stdout.as_str()) {
                Some(line) => Err(line),
                None => Err("exited with ".to_owned().concat(status)),
            },
        };
    }
    let message = match last_line(stdout.as_str()) {
        Some(line) => line,
        None => "Done".to_owned(),
    };
    let url = find_url(message.as_str());
    Ok(Outcome { message, url })
}

/// The program that runs an action and its arguments, before the folder of the
/// meeting, which is `$1` of the command.
pub open spec fn shell_words(command: Seq<char>) -> Seq<Seq<char>> {
    seq!["sh"@, "-c"@, command, "meeting-action"@]
}

/// The program that runs an action and its arguments, before the folder of the
/// meeting.
pub fn shell_call(action: &Action) -> (r: Vec<String>)
    ensures
        text::texts(r@) == shell_words(action@.command),
{
    let mut out: Vec<String> = Vec::new();
    out.push("sh".to_owned());
    out.push("-c".to_owned());
    out.push(action.command.clone());
    out.push("meeting-action".to_owned());
    proof {
        assert(text::texts(out@) =~= shell_words(action@.command));
    }
    out
}

/// The audio files that a meeting may have, as they are looked for.
pub open spec fn first_audio(mixed: bool, mic: bool, computer: bool) -> Option<Seq<char>> {
    if mixed {
        Some("audio.ogg"@)
    } else if mic {
        Some("mic.ogg"@)
    } else if computer {
        Some("computer.ogg"@)
    } else {
        None
    }
}

/// The audio file of a meeting, from which of the three that it may have are
/// there.
pub fn audio_file(mixed: bool, mic: bool, computer: bool) -> (r: Option<&'static str>)
    ensures
        text::viewed(r) == first_audio(mixed, mic, computer),
{
    if mixed {
        Some("audio.ogg")
    } else if mic {
        Some("mic.ogg")
    } else if computer {
        Some("computer.ogg")
    } else {
        None
    }
}

/// What is told of a meeting to a command.
pub struct Meeting {
    pub title: String,
    /// When it started, in words.
    pub date: String,
    /// When it started, in seconds.
    pub started_at: i64,
    pub duration_secs: u64,
    pub language: String,
    pub speakers: Vec<String>,
}

/// The variables that tell a command of a meeting, besides those with paths.
pub open spec fn meeting_variables(meeting: Meeting) -> Seq<(Seq<char>, Seq<char>)> {
    seq![
        ("MEETING_TITLE"@, meeting.title@),
        ("MEETING_DATE"@, meeting.date@),
        ("MEETING_STARTED_AT"@, text::decimal(meeting.started_at as int)),
        ("MEETING_DURATION"@, text::decimal(meeting.duration_secs as int)),
        ("MEETING_LANGUAGE"@, meeting.language@),
        ("MEETING_SPEAKERS"@, text::joined(text::texts(meeting.speakers@), "\n"@)),
    ]
}

pub open spec fn variable_views(variables: Seq<(String, String)>) -> Seq<(Seq<char>, Seq<char>)> {
    variables.map_values(|variable: (String, String)| (variable.0@, variable.1@))
}

/// The variables that tell a command of a meeting, besides those with paths.
pub fn variables(meeting: &Meeting) -> (r: Vec<(String, String)>)
    ensures
        variable_views(r@) == meeting_variables(*meeting),
{
    let mut out: Vec<(String, String)> = Vec::new();
    out.push(("MEETING_TITLE".to_owned(), meeting.title.clone()));
    out.push(("MEETING_DATE".to_owned(), meeting.date.clone()));
    out.push(("MEETING_STARTED_AT".to_owned(), text::integer_text(meeting.started_at)));
    out.push(("MEETING_DURATION".to_owned(), text::unsigned_text(meeting.duration_secs)));
    out.push(("MEETING_LANGUAGE".to_owned(), meeting.language.clone()));
    out.push(("MEETING_SPEAKERS".to_owned(), text::join(&meeting.speakers, "\n")));
    proof {
        assert(variable_views(out@) =~= meeting_variables(*meeting));
    }
    out
}

proof fn lemma_read_lines(lines: Seq<Seq<char>>)
    ensures
        forall|i: int|
            0 <= i < read_lines(lines).actions.len() ==> (#[trigger] read_lines(
                lines,
            ).actions[i]).name.len() > 0 && read_lines(lines).actions[i].command.len() > 0,
    decreases lines.len(),
{
    if lines.len() > 0 {
        lemma_read_lines(lines.drop_last());
    }
}

/// Every action that is listed has a name and a command.
pub proof fn actions_have_a_name_and_a_command(config: Seq<char>, i: int)
    requires
        0 <= i < listed_actions(config).len(),
    ensures
        listed_actions(config)[i].name.len() > 0,
        listed_actions(config)[i].command.len() > 0,
{
    lemma_read_lines(text::split_at(config, '\n'));
}

/// A string between single quotes says what it is.
pub proof fn single_quotes_are_literal(s: Seq<char>, behind: Seq<char>)
    requires
        !s.contains('\''),
    ensures
        unquoted(seq!['\''] + s + seq!['\''] + behind) == s,
{
    let value = seq!['\''] + s + seq!['\''] + behind;
    let rest = value.skip(1);
    assert(rest =~= s + seq!['\''] + behind);
    assert forall|j: int| 0 <= j < s.len() implies !text::equals('\'')(#[trigger] rest[j]) by {
        assert(rest[j] == s[j]);
        assert(s.contains(s[j]));
    }
    assert(rest[s.len() as int] == '\'');
    text::lemma_first_where_is(rest, text::equals('\''), s.len() as int);
    assert(rest.take(s.len() as int) =~= s);
}

/// A text with a backslash before each quote and backslash, and line breaks and
/// tabs as `\n` and `\t`.
pub open spec fn with_escapes(s: Seq<char>) -> Seq<char>
    decreases s.len(),
{
    if s.len() == 0 {
        Seq::empty()
    } else {
        let c = s[0];
        let rest = with_escapes(s.skip(1));
        if c == '"' || c == '\\' {
            seq!['\\', c] + rest
        } else if c == '\n' {
            seq!['\\', 'n'] + rest
        } else if c == '\t' {
            seq!['\\', 't'] + rest
        } else {
            seq![c] + rest
        }
    }
}

proof fn lemma_with_escapes(s: Seq<char>, behind: Seq<char>)
    ensures
        unescaped(with_escapes(s) + seq!['"'] + behind) == s,
    decreases s.len(),
{
    let value = with_escapes(s) + seq!['"'] + behind;
    if s.len() == 0 {
        assert(value[0] == '"');
        assert(unescaped(value) =~= s);
    } else {
        let rest = with_escapes(s.skip(1));
        lemma_with_escapes(s.skip(1), behind);
        let next = rest + seq!['"'] + behind;
        if s[0] == '"' || s[0] == '\\' || s[0] == '\n' || s[0] == '\t' {
            assert(value.skip(2) =~= next);
            assert(value[0] == '\\');
        } else {
            assert(value.skip(1) =~= next);
            assert(value[0] == s[0]);
        }
        assert(seq![s[0]] + s.skip(1) =~= s);
    }
}

/// A string between double quotes says what it is once its escapes are undone,
/// whatever is behind it.
pub proof fn double_quotes_undo_escapes(s: Seq<char>, behind: Seq<char>)
    ensures
        unquoted(seq!['"'] + with_escapes(s) + seq!['"'] + behind) == s,
{
    let value = seq!['"'] + with_escapes(s) + seq!['"'] + behind;
    assert(value.skip(1) =~= with_escapes(s) + seq!['"'] + behind);
    lemma_with_escapes(s, behind);
}

proof fn lemma_stripped_keeps(word: Seq<char>, prefix: Seq<char>, set: Seq<char>)
    requires
        prefix.is_prefix_of(word),
        prefix.len() > 0,
        !set.contains(prefix.last()),
    ensures
        prefix.is_prefix_of(text::stripped_end(word, set)),
    decreases word.len(),
{
    if word.len() > 0 && set.contains(word.last()) {
        if word.len() == prefix.len() {
            assert(word =~= prefix);
        }
        let less = word.drop_last();
        assert(less.subrange(0, prefix.len() as int) =~= word.subrange(0, prefix.len() as int));
        lemma_stripped_keeps(less, prefix, set);
    }
}

proof fn lemma_stripped_ends(word: Seq<char>, set: Seq<char>)
    ensures
        text::stripped_end(word, set).len() > 0 ==> !set.contains(
            text::stripped_end(word, set).last(),
        ),
    decreases word.len(),
{
    if word.len() > 0 && set.contains(word.last()) {
        lemma_stripped_ends(word.drop_last(), set);
    }
}

/// A link that is found is one that can be opened, and no mark is left behind it.
pub proof fn a_found_link_can_be_opened(words: Seq<Seq<char>>)
    ensures
        first_link(words) matches Some(link) ==> is_link(link) && !trailing_marks().contains(
            link.last(),
        ),
    decreases words.len(),
{
    if words.len() > 0 {
        if is_link(words[0]) {
            reveal_strlit("https://");
            reveal_strlit("http://");
            reveal_strlit("obsidian://");
            let set = trailing_marks();
            let word = words[0];
            if "https://"@.is_prefix_of(word) {
                lemma_stripped_keeps(word, "https://"@, set);
            } else if "http://"@.is_prefix_of(word) {
                lemma_stripped_keeps(word, "http://"@, set);
            } else {
                lemma_stripped_keeps(word, "obsidian://"@, set);
            }
            lemma_stripped_ends(word, set);
        } else {
            a_found_link_can_be_opened(words.drop_first());
        }
    }
}

/// What is shown of a text is a line of at most 200 characters that is not empty,
/// and there is one unless the text is all white space.
pub proof fn a_shown_line_is_short_and_full(lines: Seq<Seq<char>>)
    ensures
        last_full(lines) matches Some(line) ==> 0 < line.len() <= LINE_LIMIT,
        last_full(lines) is None <==> forall|i: int|
            0 <= i < lines.len() ==> text::trimmed(#[trigger] lines[i]).len() == 0,
    decreases lines.len(),
{
    if lines.len() > 0 {
        let before = lines.drop_last();
        a_shown_line_is_short_and_full(before);
        if text::trimmed(lines.last()).len() > 0 {
            assert(text::trimmed(lines[lines.len() - 1]).len() > 0);
        } else {
            assert forall|i: int| 0 <= i < lines.len() && last_full(lines) is None implies text::trimmed(
                #[trigger] lines[i],
            ).len() == 0 by {
                if i < before.len() {
                    assert(before[i] == lines[i]);
                }
            }
            assert forall|i: int|
                0 <= i < before.len() && (forall|k: int|
                    0 <= k < lines.len() ==> text::trimmed(#[trigger] lines[k]).len()
                        == 0) implies text::trimmed(#[trigger] before[i]).len() == 0 by {
                assert(before[i] == lines[i]);
            }
        }
    }
}

/// In a string between double quotes a backslash takes the next character as it is, but
/// that `n` is a line break and `t` a tab; every other character is itself, a quote ends
/// it, and so does the end of the value.
pub proof fn a_backslash_takes_the_next_character(c: char, rest: Seq<char>)
    ensures
        unquoted(seq!['"', '\\', c] + rest) == seq![
            if c == 'n' {
                '\n'
            } else if c == 't' {
                '\t'
            } else {
                c
            },
        ] + unquoted(seq!['"'] + rest),
        c != '"' && c != '\\' ==> unquoted(seq!['"', c] + rest) == seq![c] + unquoted(
            seq!['"'] + rest,
        ),
        unquoted(seq!['"', '"'] + rest).len() == 0,
        unquoted(seq!['"']).len() == 0,
        unquoted(seq!['"', '\\']).len() == 0,
{
    let a = seq!['"', '\\', c] + rest;
    let b = seq!['"', c] + rest;
    let d = seq!['"'] + rest;
    assert(a.skip(1).skip(2) =~= rest);
    assert(a.skip(1)[0] == '\\' && a.skip(1)[1] == c);
    assert(b.skip(1).skip(1) =~= rest);
    assert(b.skip(1)[0] == c);
    assert(d.skip(1) =~= rest);
    assert((seq!['"', '"'] + rest).skip(1)[0] == '"');
    assert(seq!['"', '\\'].skip(1) =~= seq!['\\']);
}

/// A value without quotes says what it is up to a comment, without the white space around
/// it. A single quote that is never closed quotes the rest of the value.
pub proof fn a_bare_value_ends_at_a_comment(value: Seq<char>, behind: Seq<char>)
    requires
        !value.contains('#'),
        value.len() > 0 ==> value[0] != '\'' && value[0] != '"',
    ensures
        unquoted(value) == text::trimmed(value),
        unquoted(value + seq!['#'] + behind) == text::trimmed(value),
        !behind.contains('\'') ==> unquoted(seq!['\''] + behind) == behind,
{
    let all = value + seq!['#'] + behind;
    let n = value.len() as int;
    assert forall|j: int| 0 <= j < n implies !text::equals('#')(#[trigger] value[j]) by {
        assert(value.contains(value[j]));
    }
    assert forall|j: int| 0 <= j < n implies !text::equals('#')(#[trigger] all[j]) by {
        assert(value.contains(value[j]));
    }
    assert(all[n] == '#');
    text::lemma_first_where_is(value, text::equals('#'), n);
    text::lemma_first_where_is(all, text::equals('#'), n);
    assert(value.take(n) =~= value);
    assert(all.take(n) =~= value);
    if !behind.contains('\'') {
        let quoted = seq!['\''] + behind;
        assert(quoted.skip(1) =~= behind);
        assert forall|j: int| 0 <= j < behind.len() implies !text::equals('\'')(
            #[trigger] behind[j],
        ) by {
            assert(behind.contains(behind[j]));
        }
        text::lemma_first_where_is(behind, text::equals('\''), behind.len() as int);
        assert(behind.take(behind.len() as int) =~= behind);
    }
}

/// A pair sets the value of its key: what is before the first equals sign is the key, and
/// what follows it the value, both without the white space around them.
proof fn lemma_pair(reading: Reading, line: Seq<char>, key: Seq<char>, value: Seq<char>)
    requires
        text::trimmed(line) == key + seq!['='] + value,
        !key.contains('='),
        !"["@.is_prefix_of(text::trimmed(line)),
    ensures
        read_line(reading, line) == match reading.current {
            Some(action) => Reading {
                current: Some(
                    with_value(action, text::trimmed(key), unquoted(text::trimmed(value))),
                ),
                ..reading
            },
            None => reading,
        },
{
    let s = text::trimmed(line);
    let n = key.len() as int;
    assert forall|j: int| 0 <= j < n implies !text::equals('=')(#[trigger] s[j]) by {
        assert(key.contains(key[j]));
    }
    assert(s[n] == '=');
    text::lemma_first_where_is(s, text::equals('='), n);
    assert(s.take(n) =~= key);
    assert(s.skip(n + 1) =~= value);
}

/// A table of an action with a name and a command, in whichever order, is an action, and
/// comes behind those before it. Where one of the two is empty it is none.
pub proof fn a_table_with_a_name_and_a_command_is_an_action(
    lines: Seq<Seq<char>>,
    header: Seq<char>,
    one: Seq<char>,
    two: Seq<char>,
    key: Seq<char>,
    other: Seq<char>,
    value: Seq<char>,
    another: Seq<char>,
)
    requires
        text::trimmed(header) == "[[action]]"@,
        text::trimmed(one) == key + seq!['='] + value,
        text::trimmed(two) == other + seq!['='] + another,
        !key.contains('='),
        !other.contains('='),
        !"["@.is_prefix_of(text::trimmed(one)),
        !"["@.is_prefix_of(text::trimmed(two)),
        (text::trimmed(key) == "name"@ && text::trimmed(other) == "command"@) || (text::trimmed(key)
            == "command"@ && text::trimmed(other) == "name"@),
    ensures
        ({
            let before = finished(read_lines(lines));
            let after = finished(read_lines(lines + seq![header, one, two]));
            let first = unquoted(text::trimmed(value));
            let second = unquoted(text::trimmed(another));
            let action = if text::trimmed(key) == "name"@ {
                ActionView { name: first, command: second }
            } else {
                ActionView { name: second, command: first }
            };
            after == if first.len() > 0 && second.len() > 0 {
                before.push(action)
            } else {
                before
            }
        }),
{
    let all = lines + seq![header, one, two];
    reveal_strlit("[[action]]");
    reveal_strlit("[");
    reveal_strlit("name");
    reveal_strlit("command");
    assert("name"@.len() != "command"@.len());
    assert("[[action]]"@.subrange(0, 1) =~= "["@);
    assert(all.drop_last() =~= lines + seq![header, one]);
    assert((lines + seq![header, one]).drop_last() =~= lines + seq![header]);
    assert((lines + seq![header]).drop_last() =~= lines);
    assert(all.last() == two);
    assert((lines + seq![header, one]).last() == one);
    assert((lines + seq![header]).last() == header);
    let started = read_lines(lines + seq![header]);
    assert(started == read_line(read_lines(lines), header));
    assert(started.actions == finished(read_lines(lines)));
    assert(read_lines(lines + seq![header, one]) == read_line(started, one));
    assert(read_lines(all) == read_line(read_line(started, one), two));
    lemma_pair(started, one, key, value);
    lemma_pair(read_line(started, one), two, other, another);
}

/// A line that is neither a table header nor a pair with the key of a name or a command
/// changes nothing, and neither does any line in another table, until the next header.
pub proof fn other_lines_do_not_matter(
    lines: Seq<Seq<char>>,
    line: Seq<char>,
    key: Seq<char>,
    value: Seq<char>,
)
    requires
        !"["@.is_prefix_of(text::trimmed(line)),
    ensures
        !text::trimmed(line).contains('=') ==> read_lines(lines.push(line)) == read_lines(lines),
        text::trimmed(line) == key + seq!['='] + value && !key.contains('=') && text::trimmed(key)
            != "name"@ && text::trimmed(key) != "command"@ ==> read_lines(lines.push(line))
            == read_lines(lines),
        read_lines(lines).current is None ==> read_lines(lines.push(line)) == read_lines(lines),
{
    let reading = read_lines(lines);
    let s = text::trimmed(line);
    assert(lines.push(line).drop_last() =~= lines);
    if !s.contains('=') {
        assert forall|j: int| 0 <= j < s.len() implies !text::equals('=')(#[trigger] s[j]) by {
            assert(s.contains(s[j]));
        }
        text::lemma_first_where_is(s, text::equals('='), s.len() as int);
    }
    if s == key + seq!['='] + value && !key.contains('=') {
        lemma_pair(reading, line, key, value);
    }
}

/// A header ends what was read: the actions so far are those before it, and only that of
/// an action starts a new one.
pub proof fn a_header_ends_an_action(lines: Seq<Seq<char>>, header: Seq<char>)
    requires
        "["@.is_prefix_of(text::trimmed(header)),
    ensures
        finished(read_lines(lines.push(header))) == finished(read_lines(lines)),
        read_lines(lines.push(header)).current is None <==> text::trimmed(header)
            != "[[action]]"@,
        finished(read_lines(Seq::empty())).len() == 0,
        read_lines(Seq::empty()).current is None,
{
    assert(lines.push(header).drop_last() =~= lines);
}

/// A file is read line by line.
pub proof fn a_file_is_read_by_its_lines(line: Seq<char>, rest: Seq<char>)
    requires
        !line.contains('\n'),
    ensures
        listed_actions(line + seq!['\n'] + rest) == finished(
            read_lines(seq![line] + text::split_at(rest, '\n')),
        ),
        listed_actions(line) == finished(read_lines(seq![line])),
{
    text::lemma_split_first(line, '\n', rest);
}

/// What is shown of some lines is the last that is more than white space, without the
/// white space around it, and 200 characters of it at most; blank lines behind do not
/// matter.
pub proof fn the_last_full_line_is_shown(
    before: Seq<Seq<char>>,
    line: Seq<char>,
    behind: Seq<Seq<char>>,
)
    requires
        text::trimmed(line).len() > 0,
        forall|i: int| 0 <= i < behind.len() ==> text::trimmed(#[trigger] behind[i]).len() == 0,
    ensures
        last_full(before + seq![line] + behind) == Some(
            text::trimmed(line).subrange(
                0,
                vstd::math::min(text::trimmed(line).len() as int, 200),
            ),
        ),
    decreases behind.len(),
{
    let all = before + seq![line] + behind;
    let shown = text::trimmed(line);
    if behind.len() > 0 {
        let less = behind.drop_last();
        assert(all.last() == behind[behind.len() - 1]);
        assert(all.drop_last() =~= before + seq![line] + less);
        assert forall|i: int| 0 <= i < less.len() implies text::trimmed(#[trigger] less[i]).len()
            == 0 by {
            assert(less[i] == behind[i]);
        }
        the_last_full_line_is_shown(before, line, less);
    } else {
        assert(all.last() == line);
        assert(shown.subrange(0, shown.len() as int) =~= shown);
        if shown.len() > 200 {
            assert(shown.take(200) =~= shown.subrange(0, 200));
        }
    }
}

/// The link in some words is the first of them that starts as one to a web page or to a
/// note in Obsidian does, up to the marks behind it; where none does there is none.
pub proof fn the_first_link_is_found(
    before: Seq<Seq<char>>,
    link: Seq<char>,
    marks: Seq<char>,
    behind: Seq<Seq<char>>,
)
    requires
        forall|i: int|
            0 <= i < before.len() ==> !"https://"@.is_prefix_of(#[trigger] before[i])
                && !"http://"@.is_prefix_of(before[i]) && !"obsidian://"@.is_prefix_of(before[i]),
        "https://"@.is_prefix_of(link) || "http://"@.is_prefix_of(link)
            || "obsidian://"@.is_prefix_of(link),
        !(link.last() == '.' || link.last() == ',' || link.last() == ')' || link.last() == '"'
            || link.last() == '\''),
        forall|i: int|
            0 <= i < marks.len() ==> #[trigger] marks[i] == '.' || marks[i] == ',' || marks[i] == ')'
                || marks[i] == '"' || marks[i] == '\'',
    ensures
        first_link(before + seq![link + marks] + behind) == Some(link),
        first_link(before) is None,
    decreases before.len(),
{
    let all = before + seq![link + marks] + behind;
    if before.len() > 0 {
        let rest = before.drop_first();
        assert(all[0] == before[0]);
        assert(all.drop_first() =~= rest + seq![link + marks] + behind);
        assert forall|i: int| 0 <= i < rest.len() implies !"https://"@.is_prefix_of(
            #[trigger] rest[i],
        ) && !"http://"@.is_prefix_of(rest[i]) && !"obsidian://"@.is_prefix_of(rest[i]) by {
            assert(rest[i] == before[i + 1]);
        }
        the_first_link_is_found(rest, link, marks, behind);
    } else {
        let word = link + marks;
        assert(all[0] == word);
        reveal_strlit("https://");
        reveal_strlit("http://");
        reveal_strlit("obsidian://");
        assert("https://"@.is_prefix_of(link) ==> word.subrange(0, 8) =~= link.subrange(0, 8));
        assert("http://"@.is_prefix_of(link) ==> word.subrange(0, 7) =~= link.subrange(0, 7));
        assert("obsidian://"@.is_prefix_of(link) ==> word.subrange(0, 11) =~= link.subrange(0, 11));
        assert(is_link(word));
        let set = trailing_marks();
        assert(set[0] == '.' && set[1] == ',' && set[2] == ')' && set[3] == '"' && set[4] == '\'');
        lemma_marks(link, marks);
    }
}

proof fn lemma_marks(link: Seq<char>, marks: Seq<char>)
    requires
        link.len() > 0,
        !trailing_marks().contains(link.last()),
        forall|i: int| 0 <= i < marks.len() ==> trailing_marks().contains(#[trigger] marks[i]),
    ensures
        text::stripped_end(link + marks, trailing_marks()) == link,
    decreases marks.len(),
{
    let word = link + marks;
    if marks.len() > 0 {
        let less = marks.drop_last();
        assert(word.last() == marks[marks.len() - 1]);
        assert(word.drop_last() =~= link + less);
        assert forall|i: int| 0 <= i < less.len() implies trailing_marks().contains(
            #[trigger] less[i],
        ) by {
            assert(less[i] == marks[i]);
        }
        lemma_marks(link, less);
    } else {
        assert(word =~= link);
    }
}

/// An action that succeeded ends with the last line that it printed, or as done where it
/// printed none, and with the first link in it. One that failed ends with the last line
/// that it complained of, or else printed, or else with its exit status.
pub proof fn an_action_ends_with_its_last_line(
    output: OutputView,
    status: Seq<char>,
    error: Seq<char>,
)
    ensures
        ({
            let stdout = shown_line(text::lossy_text(output.stdout));
            let stderr = shown_line(text::lossy_text(output.stderr));
            let message = if stdout is Some {
                stdout.unwrap()
            } else {
                "Done"@
            };
            &&& output.success ==> {
                &&& ended(Ok(output), status) matches Ok(outcome)
                &&& outcome.message == message
                &&& outcome.url == first_link(text::words(message))
            }
            &&& !output.success ==> ended(Ok(output), status) == Err::<OutcomeView, Seq<char>>(
                if stderr is Some {
                    stderr.unwrap()
                } else if stdout is Some {
                    stdout.unwrap()
                } else {
                    "exited with "@ + status
                },
            )
            &&& ended(Err(error), status) == Err::<OutcomeView, Seq<char>>(error)
        }),
{
}

/// A command runs through the shell under a name of its own, and is told of the meeting in
/// variables. Of its audio the mixed one is told where it is there, else what the
/// microphone gave, else what the computer did.
pub proof fn a_command_is_told_of_the_meeting(meeting: Meeting, command: Seq<char>)
    ensures
        shell_words(command) == seq!["sh"@, "-c"@, command, "meeting-action"@],
        meeting_variables(meeting) == seq![
            ("MEETING_TITLE"@, meeting.title@),
            ("MEETING_DATE"@, meeting.date@),
            ("MEETING_STARTED_AT"@, text::decimal(meeting.started_at as int)),
            ("MEETING_DURATION"@, text::decimal(meeting.duration_secs as int)),
            ("MEETING_LANGUAGE"@, meeting.language@),
            ("MEETING_SPEAKERS"@, text::joined(text::texts(meeting.speakers@), "\n"@)),
        ],
        forall|mic: bool, computer: bool| #[trigger]
            first_audio(true, mic, computer) == Some("audio.ogg"@),
        forall|computer: bool| #[trigger] first_audio(false, true, computer) == Some("mic.ogg"@),
        first_audio(false, false, true) == Some("computer.ogg"@),
        first_audio(false, false, false) is None,
{
}

/// A line of a text is shown where it is the last that is more than white space.
pub proof fn a_text_is_shown_by_its_last_full_line(
    s: Seq<char>,
    line: Seq<char>,
    behind: Seq<char>,
)
    requires
        !line.contains('\n'),
        text::trimmed(line).len() > 0,
        text::trimmed(behind).len() == 0,
        !behind.contains('\n'),
    ensures
        shown_line(line) == Some(
            text::trimmed(line).subrange(
                0,
                vstd::math::min(text::trimmed(line).len() as int, 200),
            ),
        ),
        shown_line(line + seq!['\n'] + behind) == shown_line(line),
        shown_line(s) == last_full(text::split_at(s, '\n')),
        shown_line(behind) is None,
{
    let none = Seq::<Seq<char>>::empty();
    text::lemma_split_first(line, '\n', behind);
    text::lemma_split_first(behind, '\n', Seq::empty());
    the_last_full_line_is_shown(none, line, none);
    the_last_full_line_is_shown(none, line, seq![behind]);
    assert(none + seq![line] + none =~= seq![line]);
    assert(none + seq![line] + seq![behind] =~= seq![line] + seq![behind]);
    a_shown_line_is_short_and_full(seq![behind]);
    assert(text::trimmed(seq![behind][0]).len() == 0);
}

/// A pair in the table of an action sets its name or its command to the value, whatever
/// that was before, and leaves the other as it is.
pub proof fn a_pair_sets_the_name_or_the_command(
    lines: Seq<Seq<char>>,
    action: ActionView,
    line: Seq<char>,
    key: Seq<char>,
    value: Seq<char>,
)
    requires
        read_lines(lines).current == Some(action),
        text::trimmed(line) == key + seq!['='] + value,
        !key.contains('='),
        !"["@.is_prefix_of(text::trimmed(line)),
    ensures
        ({
            let after = read_lines(lines.push(line));
            let says = unquoted(text::trimmed(value));
            &&& after.actions == read_lines(lines).actions
            &&& text::trimmed(key) == "name"@ ==> after.current == Some(
                ActionView { name: says, command: action.command },
            )
            &&& text::trimmed(key) == "command"@ ==> after.current == Some(
                ActionView { name: action.name, command: says },
            )
        }),
{
    reveal_strlit("name");
    reveal_strlit("command");
    assert("name"@.len() != "command"@.len());
    assert(lines.push(line).drop_last() =~= lines);
    lemma_pair(read_lines(lines), line, key, value);
}

} // verus!
