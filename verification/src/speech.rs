//! Speech through the screen reader: when to look for one that is gone and what the search
//! says, and how a line is handed to VoiceOver.
pub mod avspeech;
pub mod engines;
pub mod prism;
pub mod voiceover;
