# Meeting recorder

The decisions of a meeting recorder for the Omarchy desktop, as a library whose
behaviour is stated in contracts and proved with Verus, and the program code around
it.

`src/` is the library:

- `text`, `json`, `command`, `order`: texts as sequences of characters, JSON
  documents, what commands left behind, and the order of scores
- `meeting_detection`: the meetings in the windows of the desktop
- `room_identity`: the room of a meeting, from a link or from the class of a window,
  and the hint that keeps it
- `auto_record`: recording that starts by itself; `watch` looks at the windows,
  `start` starts a recording in the recorder, `service` switches the watcher on and
  off
- `bar_widget`: the widget for the bar of the desktop shell
- `actions`, `hook`: commands of the user
- `audio`, `captions`: the audio as it comes in, and live captions of it
- `vocabulary`: correcting words that speech recognition mishears; `defaults` has the
  terms that are known without a user's own
- `nemotron`: which frames go into a step of the speaker model, and what is remembered
  of them

A function of the library takes plain values. What alternates between decisions and
the outside world is a state machine: it says what is to be done next, and is told what
came of it. The contracts speak of views of these values; public proof functions state
what holds across functions, such as that a meeting which was started is not started
again, that the recording command is sent once at most, or that a compressed speaker
cache keeps its length.

`app/` does the rest: it runs processes, reads and writes files, captures audio, and
computes in floating point. `tests/` runs the library on concrete values.

A few functions of outside crates and of the standard library are taken at their word.
Each is declared once, with the contract that is believed of it: reading and writing
JSON in `src/json.rs`, compiling and searching patterns in `src/vocabulary.rs`, and
some functions on characters and strings in `src/text.rs`.
