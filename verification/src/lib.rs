//! The decision core of a coding agent: how a chat run proceeds, which messages
//! of a request are cached, and how rendered text is laid out in a terminal.

pub mod ansi;
pub mod chat_request;
pub mod layout;
pub mod measure;
pub mod orch;
pub mod run;
pub mod run_laws;
pub mod run_script;
pub mod set_cache;
pub mod split;
pub mod style_laws;
pub mod theme;
pub mod wrap;
pub mod wrap_laws;

pub use crate::chat_request::{is_false, ChatRequest, ConversationId, Event, EventValue};
pub use crate::orch::{Orchestrator, RequestInitiator};
pub use crate::run::{Action, Outcome, Run};
pub use crate::set_cache::{Request, SetCache};
pub use crate::split::split_at_visible_width;
pub use crate::theme::{theme_mode_or_dark, ThemeMode};
pub use crate::wrap::wrap_with_prefixes;
