//! Terminal user-interface building blocks of the nnd debugger: screen geometry, colors and
//! text styles, styled multi-line text, a screen buffer that renders to ANSI escape
//! sequences, a decoder for terminal input, key binding configuration and the merge of
//! syntax highlighting into styled text.

pub mod ansi;
pub mod common_ui;
pub mod utf8_text;
pub mod text_width;
pub mod styled_text;
pub mod keys;

pub mod input;
pub mod screen;
pub mod terminal;
pub mod key_binds;
pub mod text_scan;
pub mod settings;
pub mod syntax;
