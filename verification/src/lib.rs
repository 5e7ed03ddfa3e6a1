//! A terminal browser for the Gemini protocol: the gemtext parser, the
//! response handling of the client, the text layout of the screen and the
//! state machine that reacts to keys and loaded pages.

pub mod text;
pub mod decode;
pub mod urls;
pub mod width;
pub mod domain;
pub mod gemtext;
pub mod client;
pub mod input;
pub mod ui;
pub mod paths;
pub mod laws;
