//! Running a command on a tree.
use vstd::prelude::*;
use crate::command::{Action, Command, CommandError, body_action, first_error, parse_command, term_hops};
use crate::engine::{Hop, Selector, hops, project, projected, rewrite, rewrite_all, rewritten};
use crate::grammar::{BodyText, TermText, reading};
use crate::value::{Json, Value};

verus! {

/// Why a command produces no tree.
#[derive(Debug, Clone, Copy, PartialEq, Eq, Structural)]
pub enum EditError {
    /// The command text is refused.
    Command(CommandError),
    /// The command letter is recognised but not implemented.
    Unsupported,
}

impl EditError {
    /// A message for the user.
    pub fn message(&self) -> (r: &'static str) {
        match self {
            EditError::Command(e) => e.message(),
            EditError::Unsupported => "only the substitute and print commands are supported",
        }
    }
}

/// What running `action` along `chain` makes of `t`.
pub open spec fn applied(t: Json, chain: Seq<Hop>, action: Action) -> Result<Json, EditError> {
    match action {
        Action::Substitute(p, r, _) => Ok(rewritten(t, chain, p, r)),
        Action::Print => Ok(projected(t, chain)),
        Action::Unrecognized(_) => Err(EditError::Unsupported),
    }
}

/// Runs `command` along `chain` on `tree`.
pub fn apply(tree: Value, chain: &Vec<Selector>, command: &Command) -> (r: Result<Value, EditError>)
    ensures
        match r {
            Ok(v) => applied(tree@, hops(chain@), command@) == Ok::<Json, EditError>(v@),
            Err(e) => applied(tree@, hops(chain@), command@) == Err::<Json, EditError>(e),
        },
{
    match command {
        Command::Substitute { pattern, replacement, flags: _ } => {
            if chain.len() > 0 {
                Ok(rewrite(tree, chain, pattern, replacement.as_str()))
            } else {
                Ok(rewrite_all(tree, pattern, replacement.as_str()))
            }
        },
        Command::Print => Ok(project(tree, chain)),
        Command::Unrecognized(_) => Err(EditError::Unsupported),
    }
}

/// What running the command text whose reading is `(ts, b)` makes of `t`.
pub open spec fn edited(t: Json, ts: Seq<TermText>, b: BodyText) -> Result<Json, EditError> {
    match first_error(ts, b) {
        Some(e) => Err(EditError::Command(e)),
        None => applied(t, term_hops(ts), body_action(b)),
    }
}

/// Parses `command` and runs it on `tree`.
pub fn run(command: &str, tree: Value) -> (r: Result<Value, EditError>)
    ensures
        (forall|ts: Seq<TermText>, b: BodyText| !reading(command@, ts, b)) ==> r == Err::<Value, EditError>(
            EditError::Command(CommandError::Syntax),
        ),
        forall|ts: Seq<TermText>, b: BodyText| #[trigger] reading(command@, ts, b) ==> match r {
            Ok(v) => edited(tree@, ts, b) == Ok::<Json, EditError>(v@),
            Err(e) => edited(tree@, ts, b) == Err::<Json, EditError>(e),
        },
{
    let ghost t = tree@;
    match parse_command(command) {
        Err(e) => Err(EditError::Command(e)),
        Ok((chain, cmd)) => apply(tree, &chain, &cmd),
    }
}

/// The flags of a substitution change nothing.
pub proof fn lemma_flags_inert(t: Json, chain: Seq<Hop>, p: Seq<char>, r: Seq<char>, f1: Seq<char>, f2: Seq<char>)
    ensures
        applied(t, chain, Action::Substitute(p, r, f1)) == applied(t, chain, Action::Substitute(p, r, f2)),
{
}

}
