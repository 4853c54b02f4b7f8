use cmux_env::protocol::{handle_request, Request, Response};
use cmux_env::scope::Scope;
use cmux_env::shell::ShellKind;
use cmux_env::store::State;

#[test]
fn ping_answers_pong() {
    let mut st = State::default();
    let r = handle_request(&mut st, Request::Ping, "/cwd");
    assert!(matches!(r, Response::Pong));
}

#[test]
fn status_reports_counts_and_generation() {
    let mut st = State::default();
    st.set(Scope::Global, "A".to_string(), "1".to_string());
    st.set(Scope::Global, "B".to_string(), "2".to_string());
    st.set(Scope::Dir("/p".to_string()), "C".to_string(), "3".to_string());
    let r = handle_request(&mut st, Request::Status, "/cwd");
    match r {
        Response::Status { generation, globals, scopes } => {
            assert_eq!(generation, 3);
            assert_eq!(globals, 2);
            assert_eq!(scopes, 1);
        }
        other => panic!("unexpected response: {other:?}"),
    }
}

#[test]
fn set_then_get_through_requests() {
    let mut st = State::default();
    let r = handle_request(
        &mut st,
        Request::SetVar {
            key: "FOO".to_string(),
            value: "bar".to_string(),
            scope: Scope::Global,
        },
        "/cwd",
    );
    assert!(matches!(r, Response::Done));
    let r = handle_request(
        &mut st,
        Request::Get { key: "FOO".to_string(), pwd: None },
        "/cwd",
    );
    match r {
        Response::Value { value } => assert_eq!(value, Some("bar".to_string())),
        other => panic!("unexpected response: {other:?}"),
    }
}

#[test]
fn get_uses_the_fallback_pwd_when_none_is_given() {
    let mut st = State::default();
    handle_request(
        &mut st,
        Request::SetVar {
            key: "V".to_string(),
            value: "local".to_string(),
            scope: Scope::Dir("/cwd".to_string()),
        },
        "/cwd",
    );
    let r = handle_request(&mut st, Request::Get { key: "V".to_string(), pwd: None }, "/cwd/sub");
    match r {
        Response::Value { value } => assert_eq!(value, Some("local".to_string())),
        other => panic!("unexpected response: {other:?}"),
    }
    let r = handle_request(
        &mut st,
        Request::Get { key: "V".to_string(), pwd: Some("/other".to_string()) },
        "/cwd",
    );
    match r {
        Response::Value { value } => assert_eq!(value, None),
        other => panic!("unexpected response: {other:?}"),
    }
}

#[test]
fn unset_through_requests() {
    let mut st = State::default();
    st.set(Scope::Global, "FOO".to_string(), "bar".to_string());
    let r = handle_request(
        &mut st,
        Request::Unset { key: "FOO".to_string(), scope: Scope::Global },
        "/cwd",
    );
    assert!(matches!(r, Response::Done));
    assert_eq!(st.get_effective("FOO", "/cwd"), None);
    assert_eq!(st.generation, 2);
}

#[test]
fn list_reports_the_effective_overlay() {
    let mut st = State::default();
    st.set(Scope::Global, "A".to_string(), "g".to_string());
    st.set(Scope::Dir("/p".to_string()), "A".to_string(), "l".to_string());
    let r = handle_request(&mut st, Request::List { pwd: Some("/p/x".to_string()) }, "/cwd");
    match r {
        Response::Listing { entries } => {
            let mut vars = entries.entries.clone();
            vars.sort();
            assert_eq!(vars, vec![("A".to_string(), "l".to_string())]);
        }
        other => panic!("unexpected response: {other:?}"),
    }
}

#[test]
fn load_through_requests() {
    let mut st = State::default();
    let r = handle_request(
        &mut st,
        Request::Load {
            entries: vec![
                ("FOO".to_string(), "bar".to_string()),
                ("BAZ".to_string(), "qux".to_string()),
            ],
            scope: Scope::Global,
        },
        "/cwd",
    );
    assert!(matches!(r, Response::Done));
    assert_eq!(st.generation, 2);
    assert_eq!(st.get_effective("FOO", "/cwd"), Some("bar".to_string()));
    assert_eq!(st.get_effective("BAZ", "/cwd"), Some("qux".to_string()));
}

#[test]
fn export_through_requests() {
    let mut st = State::default();
    st.set(Scope::Global, "FOO".to_string(), "bar".to_string());
    let r = handle_request(
        &mut st,
        Request::Export { shell: ShellKind::Bash, since: 0, pwd: "/cwd".to_string() },
        "/cwd",
    );
    match r {
        Response::Export { script, new_generation } => {
            assert_eq!(new_generation, 1);
            assert_eq!(script, "export FOO='bar'\nexport ENVCTL_GEN=1\n");
        }
        other => panic!("unexpected response: {other:?}"),
    }
}
