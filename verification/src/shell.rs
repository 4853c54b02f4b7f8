//! The shells a session can ask scripts for, and the hook snippets a user
//! installs so that every prompt replays the pending diff.

use vstd::prelude::*;
use crate::strutil::str_eq;

verus! {

/// A shell dialect the export engine can render for.
#[derive(Debug, Clone, Copy, PartialEq, Eq, Structural)]
pub enum ShellKind {
    Bash,
    Zsh,
    Fish,
}

/// The shell a lowercase name denotes, if any.
pub open spec fn shell_of(s: Seq<char>) -> Option<ShellKind> {
    if s == "bash"@ {
        Some(ShellKind::Bash)
    } else if s == "zsh"@ {
        Some(ShellKind::Zsh)
    } else if s == "fish"@ {
        Some(ShellKind::Fish)
    } else {
        None
    }
}

impl ShellKind {
    /// Parses a shell name: `bash`, `zsh` or `fish`.
    pub fn from_str(s: &str) -> (r: Option<ShellKind>)
        ensures
            r == shell_of(s@),
    {
        if str_eq(s, "bash") {
            Some(ShellKind::Bash)
        } else if str_eq(s, "zsh") {
            Some(ShellKind::Zsh)
        } else if str_eq(s, "fish") {
            Some(ShellKind::Fish)
        } else {
            None
        }
    }
}

/// The bash hook: a DEBUG trap that applies the pending diff before each
/// command, disabling itself while it runs to avoid recursion.
pub const HOOK_BASH: &'static str = "# envctl bash hook\n# Apply env diffs safely (idempotent, uses ENVCTL_GEN)\n__envctl_apply() {\n  local out\n  out=\"$(envctl export bash --since \"${ENVCTL_GEN:-0}\" --pwd \"$PWD\")\" || return\n  eval \"$out\"\n}\n\n# DEBUG trap runs before each command; disable trap during apply to avoid recursion\n__envctl_debug_trap() {\n  trap - DEBUG\n  __envctl_apply\n  trap '__envctl_debug_trap' DEBUG\n}\n\ntrap '__envctl_debug_trap' DEBUG\n\n# Apply once at shell start\n__envctl_apply\n";

/// The zsh hook: a preexec hook that applies the pending diff.
pub const HOOK_ZSH: &'static str = "# envctl zsh hook\nautoload -U add-zsh-hook\nenvctl_preexec() {\n  local out\n  out=\"$(envctl export zsh --since \"${ENVCTL_GEN:-0}\" --pwd \"$PWD\")\" || return\n  eval \"$out\"\n}\nadd-zsh-hook preexec envctl_preexec\n# Apply once at shell start\nenvctl_preexec\n";

/// The fish hook: preexec and prompt events both source the pending diff.
pub const HOOK_FISH: &'static str = "# envctl fish hook\nfunction __envctl_preexec --on-event fish_preexec\n  envctl export fish --since \"$ENVCTL_GEN\" --pwd \"$PWD\" | source\nend\nfunction __envctl_prompt --on-event fish_prompt\n  envctl export fish --since \"$ENVCTL_GEN\" --pwd \"$PWD\" | source\nend\n# Apply once at shell start\nenvctl export fish --since \"$ENVCTL_GEN\" --pwd \"$PWD\" | source\n";

/// The hook snippet to install in a user's bash configuration.
pub fn hook_bash() -> (r: String)
    ensures
        r@ == HOOK_BASH@,
{
    HOOK_BASH.to_owned()
}

/// The hook snippet to install in a user's zsh configuration.
pub fn hook_zsh() -> (r: String)
    ensures
        r@ == HOOK_ZSH@,
{
    HOOK_ZSH.to_owned()
}

/// The hook snippet to install in a user's fish configuration.
pub fn hook_fish() -> (r: String)
    ensures
        r@ == HOOK_FISH@,
{
    HOOK_FISH.to_owned()
}

} // verus!
