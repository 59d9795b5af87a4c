//! The command grammar: one line of text is split into whitespace-separated
//! tokens and classified by its first token (a case-sensitive keyword) and
//! the number of tokens that follow. Paths are carried through unmodified.

use crate::scan::{tokenize, tokens};
use vstd::prelude::*;

verus! {

/// A parsed command.
#[derive(Debug, PartialEq)]
pub enum Command {
    /// Create the path's directory and every missing ancestor.
    Create(String),
    /// List the tree under the path, or under the root where absent.
    List(Option<String>),
    /// Move the first path's directory into the second path's directory.
    Move(String, String),
    /// Delete the path's directory with its whole subtree.
    Delete(String),
}

/// The mathematical shape of a command: each path as its characters.
pub enum CommandView {
    Create(Seq<char>),
    List(Option<Seq<char>>),
    Move(Seq<char>, Seq<char>),
    Delete(Seq<char>),
}

impl Command {
    /// The mathematical model of this command.
    pub open spec fn model(&self) -> CommandView {
        match self {
            Command::Create(p) => CommandView::Create(p@),
            Command::List(None) => CommandView::List(None),
            Command::List(Some(p)) => CommandView::List(Some(p@)),
            Command::Move(p, q) => CommandView::Move(p@, q@),
            Command::Delete(p) => CommandView::Delete(p@),
        }
    }
}

/// The grammar: keyword and arity decide the command; anything else is a
/// parse failure.
pub open spec fn parse_line(s: Seq<char>) -> Option<CommandView> {
    let t = tokens(s);
    if t.len() == 2 && t[0] == "CREATE"@ {
        Some(CommandView::Create(t[1]))
    } else if t.len() == 1 && t[0] == "LIST"@ {
        Some(CommandView::List(None))
    } else if t.len() == 2 && t[0] == "LIST"@ {
        Some(CommandView::List(Some(t[1])))
    } else if t.len() == 3 && t[0] == "MOVE"@ {
        Some(CommandView::Move(t[1], t[2]))
    } else if t.len() == 2 && t[0] == "DELETE"@ {
        Some(CommandView::Delete(t[1]))
    } else {
        None
    }
}

impl Command {
    /// Parses one line of text into a command, or reports an unrecognized
    /// command as the (recoverable) parse failure.
    pub fn from_str(s: &str) -> (r: Result<Command, ()>)
        ensures
            match parse_line(s@) {
                Some(c) => r matches Ok(cmd) && cmd.model() == c,
                None => r is Err,
            },
    {
        let toks = tokenize(s);
        let ghost t = tokens(s@);
        proof {
            assert(toks.deep_view().len() == toks@.len());
            assert forall|k: int| 0 <= k < toks@.len() implies t[k] == #[trigger] toks@[k]@ by {
                assert(toks.deep_view()[k] == toks@[k]@);
            }
        }
        let n = toks.len();
        if n == 2 && toks[0] == String::from_str("CREATE") {
            Ok(Command::Create(toks[1].clone()))
        } else if n == 1 && toks[0] == String::from_str("LIST") {
            Ok(Command::List(None))
        } else if n == 2 && toks[0] == String::from_str("LIST") {
            Ok(Command::List(Some(toks[1].clone())))
        } else if n == 3 && toks[0] == String::from_str("MOVE") {
            Ok(Command::Move(toks[1].clone(), toks[2].clone()))
        } else if n == 2 && toks[0] == String::from_str("DELETE") {
            Ok(Command::Delete(toks[1].clone()))
        } else {
            Err(())
        }
    }
}

} // verus!
