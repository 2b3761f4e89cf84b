//! The logic of rkvm, which shares a keyboard and a mouse across machines: who is being
//! controlled, what becomes of each event, what a client has to prove, and how the clipboard is
//! shared. Whatever is promised of it is proved.

pub mod action;
pub mod client;
pub mod clipboard;
pub mod config_file;
pub mod device;
pub mod error;
pub mod event;
pub mod handshake;
pub mod laws;
pub mod leds;
pub mod message;
pub mod notify;
pub mod reconnect;
pub mod relay;
pub mod server;
pub mod session;
pub mod shell;
pub mod shortcut;
pub mod slots;
pub mod state;
pub mod text;
pub mod update;
pub mod watch;
