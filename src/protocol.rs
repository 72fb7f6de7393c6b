use vstd::prelude::*;
use crate::error::AgentError;
use crate::oid::{parse_oid, render_oid, OID};
use crate::table::{
    build_results, find_next, find_oid, flatten, has_duplicate, is_first_after, is_snapshot_of,
    kind_name, records, Entry, Qdisc, Record, MAX_ROWS,
};
use crate::text::same_text;

verus! {

/// A request of the line protocol.
#[derive(Debug, Clone, Copy, PartialEq, Eq, Structural)]
pub enum Command {
    Ping,
    Get,
    GetNext,
    SetValue,
}

pub open spec fn command_of(s: Seq<char>) -> Option<Command> {
    if s == "PING"@ {
        Some(Command::Ping)
    } else if s == "get"@ {
        Some(Command::Get)
    } else if s == "getnext"@ {
        Some(Command::GetNext)
    } else if s == "set"@ {
        Some(Command::SetValue)
    } else {
        None
    }
}

/// How many argument lines follow the command line.
pub open spec fn arg_count(c: Command) -> nat {
    match c {
        Command::Ping => 0,
        Command::Get => 1,
        Command::GetNext => 1,
        Command::SetValue => 2,
    }
}

/// Whether answering the command takes a fresh report of the kernel's objects.
pub open spec fn takes_snapshot(c: Command) -> bool {
    c == Command::Get || c == Command::GetNext
}

pub open spec fn lines(v: Seq<String>) -> Seq<Seq<char>> {
    v.map_values(|s: String| s@)
}

/// The three reply lines that show one record.
pub open spec fn record_reply(r: Record) -> Seq<Seq<char>> {
    seq![render_oid(r.oid), kind_name(r.kind), r.value]
}

/// The reply to `get` for `id` against table `t`.
pub open spec fn get_reply(t: Seq<Record>, id: Seq<u16>, out: Seq<Seq<char>>) -> bool {
    if exists|i: int| 0 <= i < t.len() && #[trigger] t[i].oid == id {
        exists|i: int| 0 <= i < t.len() && #[trigger] t[i].oid == id && out == record_reply(t[i])
    } else {
        out == seq!["NONE"@]
    }
}

/// The reply to `getnext` for `id` against table `t`.
pub open spec fn getnext_reply(t: Seq<Record>, id: Seq<u16>, out: Seq<Seq<char>>) -> bool {
    if exists|i: int| is_first_after(t, id, i) {
        exists|i: int| #[trigger] is_first_after(t, id, i) && out == record_reply(t[i])
    } else {
        out == seq!["DONE"@]
    }
}

/// Reads a command line.
pub fn parse_command(line: &str) -> (r: Result<Command, AgentError>)
    ensures
        match command_of(line@) {
            Some(c) => r == Ok::<Command, AgentError>(c),
            None => r == Err::<Command, AgentError>(AgentError::UnknownCommand),
        },
{
    if same_text(line, "PING") {
        Ok(Command::Ping)
    } else if same_text(line, "get") {
        Ok(Command::Get)
    } else if same_text(line, "getnext") {
        Ok(Command::GetNext)
    } else if same_text(line, "set") {
        Ok(Command::SetValue)
    } else {
        Err(AgentError::UnknownCommand)
    }
}

impl Command {
    /// How many argument lines follow the command line.
    pub fn arg_lines(&self) -> (r: usize)
        ensures
            r == arg_count(*self),
    {
        match self {
            Command::Ping => 0,
            Command::Get => 1,
            Command::GetNext => 1,
            Command::SetValue => 2,
        }
    }

    /// Whether answering takes a fresh report of the kernel's objects.
    pub fn needs_snapshot(&self) -> (r: bool)
        ensures
            r == takes_snapshot(*self),
    {
        match self {
            Command::Get | Command::GetNext => true,
            _ => false,
        }
    }
}

fn one_line(s: &str) -> (r: Vec<String>)
    ensures
        lines(r@) == seq![s@],
{
    let mut v: Vec<String> = Vec::new();
    v.push(String::from_str(s));
    assert(lines(v@) =~= seq![s@]);
    v
}

fn entry_reply(e: &Entry) -> (r: Vec<String>)
    ensures
        lines(r@) == record_reply(e@),
{
    let mut v: Vec<String> = Vec::new();
    v.push(e.oid.to_string());
    v.push(String::from_str(e.kind.name()));
    v.push(e.value.clone());
    assert(lines(v@) =~= record_reply(e@));
    v
}

/// The state kept between commands: the table built for the latest `get` or
/// `getnext`.
pub struct Session {
    pub cache: Vec<Entry>,
}

impl Session {
    pub fn new() -> (r: Session)
        ensures
            r.cache@.len() == 0,
    {
        Session { cache: Vec::new() }
    }

    /// Answers one command with its argument lines. For `get` and `getnext`,
    /// `qdiscs` is the report of the kernel's objects fetched for this command;
    /// the table built from it replaces the cache. Other commands leave the
    /// cache as it was and do not read `qdiscs`.
    pub fn handle_command(&mut self, command: Command, args: &Vec<String>, qdiscs: &Vec<Qdisc>) -> (r:
        Result<Vec<String>, AgentError>)
        requires
            args@.len() == arg_count(command),
        ensures
            command == Command::Ping ==> (r matches Ok(v) && lines(v@) == seq!["PONG"@]),
            command == Command::SetValue ==> (r matches Ok(v) && lines(v@) == seq!["not-writable"@]),
            !takes_snapshot(command) ==> final(self).cache@ == old(self).cache@,
            takes_snapshot(command) ==> match parse_oid(args@[0]@) {
                None => r == Err::<Vec<String>, AgentError>(AgentError::MalformedIdentifier)
                    && final(self).cache@ == old(self).cache@,
                Some(id) => if qdiscs@.len() > MAX_ROWS {
                    r == Err::<Vec<String>, AgentError>(AgentError::TooManyObjects)
                        && final(self).cache@ == old(self).cache@
                } else if has_duplicate(flatten(qdiscs@)) {
                    r == Err::<Vec<String>, AgentError>(AgentError::DuplicateIdentifier)
                        && final(self).cache@ == old(self).cache@
                } else {
                    &&& is_snapshot_of(records(final(self).cache@), flatten(qdiscs@))
                    &&& r is Ok
                    &&& command == Command::Get ==> get_reply(
                        records(final(self).cache@),
                        id,
                        lines(r->Ok_0@),
                    )
                    &&& command == Command::GetNext ==> getnext_reply(
                        records(final(self).cache@),
                        id,
                        lines(r->Ok_0@),
                    )
                },
            },
    {
        proof {
            reveal_strlit("PONG");
            reveal_strlit("not-writable");
        }
        match command {
            Command::Ping => Ok(one_line("PONG")),
            Command::SetValue => Ok(one_line("not-writable")),
            Command::Get | Command::GetNext => {
                let oid = match OID::from_string(args[0].as_str()) {
                    Ok(o) => o,
                    Err(e) => return Err(e),
                };
                let table = match build_results(qdiscs) {
                    Ok(t) => t,
                    Err(e) => return Err(e),
                };
                self.cache = table;
                let ghost t = records(self.cache@);
                if command == Command::Get {
                    match find_oid(&self.cache, &oid) {
                        Some(e) => {
                            let reply = entry_reply(e);
                            proof {
                                let i = choose|i: int|
                                    0 <= i < self.cache@.len() && self.cache@[i] == *e
                                        && #[trigger] self.cache@[i].oid@ == oid@;
                                assert(t[i] == e@);
                                assert(t[i].oid == oid@);
                            }
                            Ok(reply)
                        },
                        None => {
                            proof {
                                assert forall|i: int| 0 <= i < t.len() implies #[trigger] t[i].oid != oid@ by {
                                    assert(t[i] == self.cache@[i]@);
                                }
                            }
                            Ok(one_line("NONE"))
                        },
                    }
                } else {
                    match find_next(&self.cache, &oid) {
                        Some(e) => {
                            let reply = entry_reply(e);
                            proof {
                                let i = choose|i: int|
                                    is_first_after(t, oid@, i) && #[trigger] self.cache@[i] == *e;
                                assert(t[i] == e@);
                            }
                            Ok(reply)
                        },
                        None => {
                            proof {
                                assert forall|i: int| !is_first_after(t, oid@, i) by {
                                    if 0 <= i < t.len() {
                                        assert(t[i] == self.cache@[i]@);
                                    }
                                }
                            }
                            Ok(one_line("DONE"))
                        },
                    }
                }
            },
        }
    }
}

} // verus!
