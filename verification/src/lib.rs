//! wiredock: the connection registry, command language and identifier
//! scheme of an interactive TCP / Unix-socket debugging tool.

pub mod text;
pub mod id;
pub mod error;
pub mod event;
pub mod state;
pub mod command;
pub mod endpoint;
pub mod hex;
pub mod seqmap;
pub mod registry;
pub mod token;
pub mod status;
pub mod runtime;
pub mod commands;
pub mod parser;
pub mod args;
pub mod logger;
pub mod laws;
