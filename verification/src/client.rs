//! The command-line client's rules.

use crate::message::{Command, CommandView, Response, ResponseView};
use crate::node::texts_view;
use crate::text::{decimal, decimal_text};
use vstd::prelude::*;
use vstd::slice::slice_to_vec;
use vstd::string::StringExecFns;
use vstd::utf8::encode_utf8;

verus! {

/// What the client was asked to do.
pub enum ClientAction {
    /// Put load on a server.
    LoadTest,
    /// Send one command to `addr`.
    Send { addr: String, command: Command },
    /// Nothing it understands.
    Usage,
}

pub enum ClientActionView {
    LoadTest,
    Send { addr: Seq<char>, command: CommandView },
    Usage,
}

impl View for ClientAction {
    type V = ClientActionView;

    open spec fn view(&self) -> ClientActionView {
        match *self {
            ClientAction::LoadTest => ClientActionView::LoadTest,
            ClientAction::Send { addr, command } => ClientActionView::Send {
                addr: addr@,
                command: command@,
            },
            ClientAction::Usage => ClientActionView::Usage,
        }
    }
}

/// `<addr> set <key> <value>`, `<addr> get <key>`, or no arguments at all.
pub open spec fn requested(args: Seq<Seq<char>>) -> ClientActionView {
    if args.len() == 0 {
        ClientActionView::LoadTest
    } else if args.len() == 4 && args[1] == "set"@ {
        ClientActionView::Send {
            addr: args[0],
            command: CommandView::Put { key: args[2], value: encode_utf8(args[3]) },
        }
    } else if args.len() == 3 && args[1] == "get"@ {
        ClientActionView::Send { addr: args[0], command: CommandView::Get { key: args[2] } }
    } else {
        ClientActionView::Usage
    }
}

/// Reads the command line, without the program's name.
pub fn parse_args(args: &[String]) -> (action: ClientAction)
    ensures
        action@ == requested(texts_view(args@)),
{
    if args.len() == 0 {
        return ClientAction::LoadTest;
    }
    if args.len() == 4 && args[1] == "set".to_owned() {
        let value = slice_to_vec(args[3].as_str().as_bytes());
        let command = Command::Put { key: args[2].clone(), value };
        return ClientAction::Send { addr: args[0].clone(), command };
    }
    if args.len() == 3 && args[1] == "get".to_owned() {
        let command = Command::Get { key: args[2].clone() };
        return ClientAction::Send { addr: args[0].clone(), command };
    }
    ClientAction::Usage
}

/// Where to send a command again: to the leader, if the node at `addr` says that
/// another node leads.
pub open spec fn redirected(addr: Seq<char>, response: ResponseView) -> Option<Seq<char>> {
    match response {
        ResponseView::NotLeader { leader: Some(leader) } => if leader == addr {
            None
        } else {
            Some(leader)
        },
        _ => None,
    }
}

/// Where to send a command again after the node at `addr` answered. Reads and
/// writes both go through the leader, so hitting the wrong node is routine rather
/// than an error.
pub fn redirect(addr: &String, response: &Response) -> (to: Option<String>)
    ensures
        match to {
            Some(leader) => redirected(addr@, response@) == Some(leader@),
            None => redirected(addr@, response@) is None,
        },
{
    match response {
        Response::NotLeader { leader: Some(leader) } => if *leader == *addr {
            None
        } else {
            Some(leader.clone())
        },
        _ => None,
    }
}

/// The `i`-th write of the load test.
pub open spec fn load_write(i: u8) -> CommandView {
    CommandView::Put { key: "key_"@ + decimal(i as nat), value: seq![i, 0u8, 0u8, 0u8] }
}

/// The `i`-th write of the load test.
pub fn load_test_command(i: u8) -> (command: Command)
    ensures
        command@ == load_write(i),
{
    let mut key = String::new();
    key.append("key_");
    key.append(decimal_text(i as u64).as_str());
    let mut value: Vec<u8> = Vec::new();
    value.push(i);
    value.push(0);
    value.push(0);
    value.push(0);
    assert(key@ =~= "key_"@ + decimal(i as nat));
    assert(value@ =~= seq![i, 0u8, 0u8, 0u8]);
    Command::Put { key, value }
}

} // verus!
