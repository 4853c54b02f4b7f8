//! The request/response protocol and its dispatch against the store. A
//! connection carries one request and gets one response; all continuity
//! (working directory, last-seen generation) comes with the request.

use vstd::prelude::*;
use crate::dotenv::{find_char_from, find_idx, lemma_find_idx};
use crate::scope::{Scope, ScopeView};
use crate::script::render_spec;
use crate::shell::ShellKind;
use crate::store::{changed_keys_of, keys_of_events, map_after, State};
use crate::varmap::VarMap;

verus! {

/// What a client may ask. A missing `pwd` means the daemon's own working
/// directory, resolved by the caller before dispatch.
#[derive(Debug)]
pub enum Request {
    Ping,
    Status,
    SetVar { key: String, value: String, scope: Scope },
    Unset { key: String, scope: Scope },
    Get { key: String, pwd: Option<String> },
    List { pwd: Option<String> },
    Load { entries: Vec<(String, String)>, scope: Scope },
    Export { shell: ShellKind, since: u64, pwd: String },
}

/// What the daemon answers.
#[derive(Debug)]
pub enum Response {
    Pong,
    Status { generation: u64, globals: usize, scopes: usize },
    Done,
    Value { value: Option<String> },
    Listing { entries: VarMap },
    Export { script: String, new_generation: u64 },
    Error { message: String },
}

/// The working directory a request means: the one it carries, or the
/// fallback.
pub open spec fn resolved_pwd(pwd: Option<String>, fallback: Seq<char>) -> Seq<char> {
    match pwd {
        Some(p) => p@,
        None => fallback,
    }
}

/// Dispatches one request against the store and produces its response.
/// Reads leave the store untouched; writes behave exactly as the underlying
/// `set`, `unset` and `load` operations do. No request fails: the store's
/// operations are total over validated input.
pub fn handle_request(state: &mut State, req: Request, fallback_pwd: &str) -> (r: Response)
    requires
        old(state).wf(),
        match req {
            Request::SetVar { .. } => old(state).generation < u64::MAX,
            Request::Unset { .. } => old(state).generation < u64::MAX,
            Request::Load { entries, .. } => old(state).generation + entries@.len() <= u64::MAX,
            _ => true,
        },
    ensures
        final(state).wf(),
        match req {
            Request::Ping => r == Response::Pong && *final(state) == *old(state),
            Request::Status => *final(state) == *old(state) && (r matches Response::Status {
                generation,
                globals,
                scopes,
            } && generation == old(state).generation && globals == old(state).globals@.dom().len()
                && scopes == old(state).scoped@.len()),
            Request::SetVar { key, value, scope } => {
                let changed = !(old(state).scope_map(scope@).contains_key(key@) && old(
                    state,
                ).scope_map(scope@)[key@] == value@);
                &&& r == Response::Done
                &&& final(state).scope_map(scope@) == old(state).scope_map(scope@).insert(
                    key@,
                    value@,
                )
                &&& final(state).generation == old(state).generation + (if changed {
                    1int
                } else {
                    0int
                })
                &&& !changed ==> *final(state) == *old(state)
                &&& forall|d: Seq<char>|
                    scope@ != ScopeView::Dir(d) ==> #[trigger] final(state).dir_map(d) == old(
                        state,
                    ).dir_map(d)
                &&& final(state).globals@ == (match scope@ {
                    ScopeView::Global => old(state).globals@.insert(key@, value@),
                    ScopeView::Dir(_) => old(state).globals@,
                })
            },
            Request::Unset { key, scope } => {
                let existed = old(state).scope_map(scope@).contains_key(key@);
                &&& r == Response::Done
                &&& final(state).scope_map(scope@) == old(state).scope_map(scope@).remove(key@)
                &&& final(state).generation == old(state).generation + (if existed {
                    1int
                } else {
                    0int
                })
                &&& !existed ==> *final(state) == *old(state)
                &&& forall|d: Seq<char>|
                    scope@ != ScopeView::Dir(d) ==> #[trigger] final(state).dir_map(d) == old(
                        state,
                    ).dir_map(d)
                &&& final(state).globals@ == (match scope@ {
                    ScopeView::Global => old(state).globals@.remove(key@),
                    ScopeView::Dir(_) => old(state).globals@,
                })
            },
            Request::Get { key, pwd } => *final(state) == *old(state) && (r matches
            Response::Value { value } && value.deep_view() == old(state).effective(
                key@,
                resolved_pwd(pwd, fallback_pwd@),
            )),
            Request::List { pwd } => *final(state) == *old(state) && (r matches Response::Listing {
                entries,
            } && entries.wf() && entries@ == old(state).effective_map(
                resolved_pwd(pwd, fallback_pwd@),
            )),
            Request::Load { entries, scope } => {
                &&& r == Response::Done
                &&& final(state).scope_map(scope@) == map_after(
                    old(state).scope_map(scope@),
                    entries@,
                )
                &&& final(state).generation == old(state).generation + changed_keys_of(
                    old(state).scope_map(scope@),
                    entries@,
                ).len()
                &&& keys_of_events(
                    final(state).history@.skip(old(state).history@.len() as int),
                ) == changed_keys_of(old(state).scope_map(scope@), entries@)
                &&& final(state).history@.take(old(state).history@.len() as int) == old(
                    state,
                ).history@
            },
            Request::Export { shell, since, pwd } => *final(state) == *old(state) && (r matches
            Response::Export { script, new_generation } && new_generation == old(state).generation
                && exists|acts: Seq<(String, Option<String>)>|
                #[trigger] old(state).is_action_list(acts, since, pwd@) && script@ == render_spec(
                    shell,
                    acts,
                    old(state).generation as int,
                )),
        },
{
    match req {
        Request::Ping => Response::Pong,
        Request::Status => {
            let generation = state.generation;
            let globals = state.globals.len();
            let scopes = state.scoped.len();
            Response::Status { generation, globals, scopes }
        },
        Request::SetVar { key, value, scope } => {
            let _ = state.set(scope, key, value);
            Response::Done
        },
        Request::Unset { key, scope } => {
            let _ = state.unset(scope, key);
            Response::Done
        },
        Request::Get { key, pwd } => {
            let p: &str = match &pwd {
                Some(s) => s.as_str(),
                None => fallback_pwd,
            };
            let value = state.get_effective(key.as_str(), p);
            Response::Value { value }
        },
        Request::List { pwd } => {
            let p: &str = match &pwd {
                Some(s) => s.as_str(),
                None => fallback_pwd,
            };
            let entries = state.effective_for_pwd(p);
            Response::Listing { entries }
        },
        Request::Load { entries, scope } => {
            state.load(scope, entries);
            Response::Done
        },
        Request::Export { shell, since, pwd } => {
            let (script, new_generation) = state.export_since(shell, since, pwd.as_str());
            Response::Export { script, new_generation }
        },
    }
}

/// Why a `KEY=VALUE` argument was rejected.
#[derive(Debug)]
pub enum KvError {
    /// Nothing before the `=`.
    EmptyKey,
    /// No `=` at all.
    MissingEquals,
}

/// Splits a `KEY=VALUE` argument at its first `=`. The key must be
/// nonempty; the value may hold further `=` signs, and may be empty.
pub fn parse_kv(s: &str) -> (r: Result<(String, String), KvError>)
    ensures
        match r {
            Ok(kv) => find_idx(s@, '=') < s@.len() && find_idx(s@, '=') > 0 && kv.0@ == s@.take(
                find_idx(s@, '='),
            ) && kv.1@ == s@.skip(find_idx(s@, '=') + 1),
            Err(KvError::MissingEquals) => find_idx(s@, '=') == s@.len(),
            Err(KvError::EmptyKey) => find_idx(s@, '=') == 0 && s@.len() > 0,
        },
{
    let n = s.unicode_len();
    let eq = find_char_from(s, '=', 0);
    proof {
        lemma_find_idx(s@, '=');
        let f = find_idx(s@, '=');
        assert(f == eq) by {
            if f < eq {
                assert(s@[f] != '=');
            } else if f > eq {
                assert(s@[eq as int] == '=');
            }
        }
    }
    if eq == n {
        return Err(KvError::MissingEquals);
    }
    if eq == 0 {
        return Err(KvError::EmptyKey);
    }
    let k = s.substring_char(0, eq);
    let v = s.substring_char(eq + 1, n);
    proof {
        assert(k@ =~= s@.take(eq as int));
        assert(v@ =~= s@.skip(eq + 1int));
    }
    Ok((k.to_owned(), v.to_owned()))
}

/// The rendezvous path of the daemon's socket, under the runtime directory
/// that the environment supplies.
pub fn socket_path(runtime_dir: &str) -> (r: String)
    ensures
        r@ == runtime_dir@ + "/cmux-envd/envd.sock"@,
{
    let mut s = runtime_dir.to_owned();
    s.append("/cmux-envd/envd.sock");
    s
}

} // verus!
