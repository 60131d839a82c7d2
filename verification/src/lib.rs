//! The decisions of a meeting recorder, verified: which window is a meeting and in
//! which room, when a recording starts by itself, what misheard words are meant,
//! which frames a speaker model remembers, and what is done with the results of
//! commands.
//!
//! Processes, files, devices and models are not here: a function takes what they
//! gave, and says what is to be done next.
pub mod actions;
pub mod audio;
pub mod auto_record;
pub mod bar_widget;
pub mod captions;
pub mod command;
pub mod hook;
pub mod json;
pub mod meeting_detection;
pub mod nemotron;
pub mod order;
pub mod room_identity;
pub mod text;
pub mod vocabulary;
