use tc_snmp::{parse_command, AgentError, Command, Qdisc, QdiscAttr, Session};

fn report() -> Vec<Qdisc> {
    vec![Qdisc { index: 2, handle: 0, parent: 1, attrs: vec![QdiscAttr::Kind("noqueue".to_string())] }]
}

fn args(v: &[&str]) -> Vec<String> {
    v.iter().map(|s| s.to_string()).collect()
}

#[test]
fn commands_are_recognized() {
    assert_eq!(parse_command("PING"), Ok(Command::Ping));
    assert_eq!(parse_command("get"), Ok(Command::Get));
    assert_eq!(parse_command("getnext"), Ok(Command::GetNext));
    assert_eq!(parse_command("set"), Ok(Command::SetValue));
    assert_eq!(parse_command("ping"), Err(AgentError::UnknownCommand));
    assert_eq!(parse_command(""), Err(AgentError::UnknownCommand));
    assert_eq!(Command::Get.arg_lines(), 1);
    assert_eq!(Command::SetValue.arg_lines(), 2);
    assert_eq!(Command::Ping.arg_lines(), 0);
    assert!(Command::GetNext.needs_snapshot());
    assert!(!Command::SetValue.needs_snapshot());
    assert!(!Command::Ping.needs_snapshot());
}

#[test]
fn ping_answers_pong() {
    let mut s = Session::new();
    assert_eq!(s.handle_command(Command::Ping, &args(&[]), &vec![]), Ok(vec!["PONG".to_string()]));
}

#[test]
fn get_found_gives_three_lines() {
    let mut s = Session::new();
    let r = s.handle_command(Command::Get, &args(&["1.3.6.1.3.2020.1.1.6.1"]), &report()).unwrap();
    assert_eq!(r, vec![".1.3.6.1.3.2020.1.1.6.1", "STRING", "noqueue"]);
    assert_eq!(s.cache.len(), 5);
}

#[test]
fn get_missing_gives_none() {
    let mut s = Session::new();
    let r = s.handle_command(Command::Get, &args(&[".1.3.6.1.3.2020.1.1.9.1"]), &report());
    assert_eq!(r, Ok(vec!["NONE".to_string()]));
}

#[test]
fn getnext_walks_and_ends() {
    let mut s = Session::new();
    let r = s.handle_command(Command::GetNext, &args(&[".1.3.6.1.3.2020.1.1.4.1"]), &report()).unwrap();
    assert_eq!(r, vec![".1.3.6.1.3.2020.1.1.6.1", "STRING", "noqueue"]);
    let r = s.handle_command(Command::GetNext, &args(&[".1.3.6.1.3.2020.1.1.6.1"]), &report());
    assert_eq!(r, Ok(vec!["DONE".to_string()]));
}

#[test]
fn getnext_after_largest_identifier_gives_done() {
    let mut s = Session::new();
    let r = s.handle_command(Command::GetNext, &args(&[".65535.65535.65535.65535"]), &report());
    assert_eq!(r, Ok(vec!["DONE".to_string()]));
}

#[test]
fn set_is_refused_without_rebuild() {
    let mut s = Session::new();
    s.handle_command(Command::Get, &args(&[".1"]), &report()).unwrap();
    assert_eq!(s.cache.len(), 5);
    let r = s.handle_command(Command::SetValue, &args(&[".1.3.6.1.3.2020.1.1.6.1", "x"]), &vec![]);
    assert_eq!(r, Ok(vec!["not-writable".to_string()]));
    assert_eq!(s.cache.len(), 5);
}

#[test]
fn unknown_command_then_next_command_is_served() {
    let mut s = Session::new();
    assert_eq!(parse_command("walk"), Err(AgentError::UnknownCommand));
    assert_eq!(AgentError::UnknownCommand.message(), "unknown command");
    let next = parse_command("PING").unwrap();
    assert_eq!(s.handle_command(next, &args(&[]), &vec![]), Ok(vec!["PONG".to_string()]));
}

#[test]
fn malformed_identifier_fails_the_request() {
    let mut s = Session::new();
    assert_eq!(
        s.handle_command(Command::Get, &args(&["1.x"]), &report()),
        Err(AgentError::MalformedIdentifier)
    );
    assert!(s.cache.is_empty());
}

#[test]
fn duplicate_report_fails_the_request() {
    let mut s = Session::new();
    let dup = vec![Qdisc { index: 1, handle: 0, parent: 0, attrs: vec![QdiscAttr::HwOffload(0), QdiscAttr::HwOffload(1)] }];
    assert_eq!(
        s.handle_command(Command::GetNext, &args(&[".1"]), &dup),
        Err(AgentError::DuplicateIdentifier)
    );
}
