//! A generation-versioned store of environment variables with global and
//! directory-bound scopes, and the diff engine that brings a shell session
//! up to date from a known baseline generation.
//!
//! The store keeps every change in an append-only history; a session asks
//! for "everything since generation `g` as seen from directory `pwd`" and
//! receives a shell script that applies exactly the needed assignments and
//! removals, ending with a statement that records the new baseline.

pub mod dotenv;
pub mod export;
pub mod protocol;
pub mod scope;
pub mod script;
pub mod shell;
pub mod store;
pub mod strutil;
pub mod varmap;

pub use dotenv::{parse_dotenv, strip_quotes, DotenvError};
pub use protocol::{handle_request, parse_kv, socket_path, KvError, Request, Response};
pub use scope::{is_ancestor, Scope};
pub use script::{is_valid_key, render_script, sh_single_quote};
pub use shell::{hook_bash, hook_fish, hook_zsh, ShellKind};
pub use store::{ChangeEvent, State};
pub use strutil::{str_eq, str_lt};
pub use varmap::VarMap;
