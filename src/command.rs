//! A command: its selector chain and what to do where the chain leads,
//! built from the parts of its text.
use vstd::prelude::*;
use crate::engine::{Hop, Selector, hops};
use crate::grammar::{Body, BodyText, Syntax, Term, TermText, parse_syntax, reading, term_texts};
use crate::number::{all_digits, chars_of, digits_value, lemma_digits_value_prefix};
use crate::pattern::{Pattern, regex_valid};

verus! {

/// What a command asks for.
pub enum Command {
    /// Replace every match of `pattern` by `replacement`; `flags` is kept as
    /// written and changes nothing.
    Substitute { pattern: Pattern, replacement: String, flags: String },
    /// Keep only what the chain reaches.
    Print,
    /// A command this editor does not implement, as written.
    Unrecognized(String),
}

/// The model of a [`Command`].
pub enum Action {
    Substitute(Seq<char>, Seq<char>, Seq<char>),
    Print,
    Unrecognized(Seq<char>),
}

impl View for Command {
    type V = Action;

    open spec fn view(&self) -> Action {
        match self {
            Command::Substitute { pattern, replacement, flags } => Action::Substitute(
                pattern@,
                replacement@,
                flags@,
            ),
            Command::Print => Action::Print,
            Command::Unrecognized(t) => Action::Unrecognized(t@),
        }
    }
}

/// Why a command text is refused.
#[derive(Debug, Clone, Copy, PartialEq, Eq, Structural)]
pub enum CommandError {
    /// The text has no reading in the command language.
    Syntax,
    /// A key or a substitution pattern is not a valid regular expression.
    InvalidPattern,
    /// An index of a range does not fit in a machine word.
    RangeTooLarge,
}

impl CommandError {
    /// A message for the user.
    pub fn message(&self) -> (r: &'static str) {
        match self {
            CommandError::Syntax => "the command does not parse",
            CommandError::InvalidPattern => "a pattern is not a valid regular expression",
            CommandError::RangeTooLarge => "a range index is too large",
        }
    }
}

/// What is wrong with a term, if anything.
pub open spec fn term_error(t: TermText) -> Option<CommandError> {
    match t {
        TermText::Key(k) => if regex_valid(k) { None } else { Some(CommandError::InvalidPattern) },
        TermText::Range(b, e) => if digits_value(b) <= usize::MAX && digits_value(e) <= usize::MAX {
            None
        } else {
            Some(CommandError::RangeTooLarge)
        },
    }
}

/// What is wrong with a body, if anything.
pub open spec fn body_error(b: BodyText) -> Option<CommandError> {
    match b {
        BodyText::Substitute(p, _, _) => if regex_valid(p) { None } else { Some(CommandError::InvalidPattern) },
        _ => None,
    }
}

/// The first thing wrong with the terms, left to right, then with the body.
pub open spec fn first_error(ts: Seq<TermText>, b: BodyText) -> Option<CommandError>
    decreases ts.len(),
{
    if ts.len() == 0 {
        body_error(b)
    } else if term_error(ts[0]) is Some {
        term_error(ts[0])
    } else {
        first_error(ts.drop_first(), b)
    }
}

/// The hop that a term stands for.
pub open spec fn term_hop(t: TermText) -> Hop {
    match t {
        TermText::Key(k) => Hop::Key(k),
        TermText::Range(b, e) => Hop::Range(digits_value(b), digits_value(e)),
    }
}

pub open spec fn term_hops(ts: Seq<TermText>) -> Seq<Hop> {
    Seq::new(ts.len(), |i: int| term_hop(ts[i]))
}

/// The action that a body stands for.
pub open spec fn body_action(b: BodyText) -> Action {
    match b {
        BodyText::Substitute(p, r, f) => Action::Substitute(p, r, f),
        BodyText::Print => Action::Print,
        BodyText::Other(t) => Action::Unrecognized(t),
    }
}

/// What parsing gives for the reading `(ts, b)`.
pub open spec fn parsed_as(r: Result<(Vec<Selector>, Command), CommandError>, ts: Seq<TermText>, b: BodyText) -> bool {
    match first_error(ts, b) {
        Some(e) => r == Err::<(Vec<Selector>, Command), CommandError>(e),
        None => r matches Ok((chain, command)) && hops(chain@) == term_hops(ts) && command@ == body_action(b),
    }
}

/// The value of a run of digits, where it fits in a `usize`.
fn index_value(d: &String) -> (r: Option<usize>)
    requires
        all_digits(d@),
    ensures
        match r {
            Some(v) => v == digits_value(d@),
            None => digits_value(d@) > usize::MAX,
        },
{
    let cs = chars_of(d.as_str());
    let mut acc: usize = 0;
    let mut i: usize = 0;
    while i < cs.len()
        invariant
            cs@ == d@,
            all_digits(d@),
            i <= cs.len(),
            acc as int == digits_value(cs@.take(i as int)),
        decreases cs.len() - i,
    {
        let dv = (cs[i] as u32 - '0' as u32) as usize;
        assert(crate::number::is_digit(cs@[i as int]));
        assert(dv < 10);
        assert(cs@.take(i + 1).drop_last() =~= cs@.take(i as int));
        if acc > (usize::MAX - dv) / 10 {
            proof {
                assert(digits_value(cs@.take(i + 1)) > usize::MAX) by (nonlinear_arith)
                    requires
                        acc > (usize::MAX - dv) / 10,
                        digits_value(cs@.take(i + 1)) == acc * 10 + dv,
                        dv < 10,
                ;
                lemma_digits_value_prefix(cs@, i + 1);
            }
            return None;
        }
        assert(acc * 10 + dv <= usize::MAX) by (nonlinear_arith)
            requires
                acc <= (usize::MAX - dv) / 10,
                dv < 10,
        ;
        acc = acc * 10 + dv;
        i = i + 1;
    }
    assert(cs@.take(cs@.len() as int) =~= cs@);
    Some(acc)
}

/// Builds the chain and the command from the parts of a command text.
fn build(terms: &Vec<Term>, body: Body) -> (r: Result<(Vec<Selector>, Command), CommandError>)
    requires
        forall|i: int| 0 <= i < terms@.len() ==> crate::grammar::term_ok(#[trigger] term_texts(terms@)[i]),
    ensures
        parsed_as(r, term_texts(terms@), body@),
{
    let ghost tts = term_texts(terms@);
    let ghost b = body@;
    let n = terms.len();
    let mut chain: Vec<Selector> = Vec::new();
    let mut i: usize = 0;
    assert(tts.subrange(0, n as int) =~= tts);
    while i < n
        invariant
            n == terms.len(),
            tts == term_texts(terms@),
            b == body@,
            forall|j: int| 0 <= j < tts.len() ==> crate::grammar::term_ok(#[trigger] tts[j]),
            i <= n,
            first_error(tts, b) == first_error(tts.subrange(i as int, n as int), b),
            hops(chain@) == term_hops(tts.take(i as int)),
            chain@.len() == i,
        decreases n - i,
    {
        let ghost rest = tts.subrange(i as int, n as int);
        assert(rest[0] == tts[i as int]);
        assert(rest.drop_first() =~= tts.subrange(i + 1, n as int));
        let ghost t = tts[i as int];
        assert(crate::grammar::term_ok(t));
        let sel = match &terms[i] {
            Term::Key(k) => match Pattern::new(k.as_str()) {
                Some(p) => Selector::KeyMatch(p),
                None => {
                    return Err(CommandError::InvalidPattern);
                },
            },
            Term::Range(bt, et) => match (index_value(bt), index_value(et)) {
                (Some(bv), Some(ev)) => Selector::IndexRange(bv, ev),
                _ => {
                    return Err(CommandError::RangeTooLarge);
                },
            },
        };
        assert(sel@ == term_hop(t));
        let ghost old_chain = chain@;
        chain.push(sel);
        assert forall|j: int| 0 <= j < i + 1 implies #[trigger] hops(chain@)[j] == term_hops(tts.take(i + 1))[j] by {
            if j < i {
                assert(chain@[j] == old_chain[j]);
                assert(hops(old_chain)[j] == term_hops(tts.take(i as int))[j]);
            }
        }
        assert(hops(chain@) =~= term_hops(tts.take(i + 1)));
        i = i + 1;
    }
    assert(tts.subrange(n as int, n as int) =~= Seq::<TermText>::empty());
    assert(tts.take(n as int) =~= tts);
    let command = match body {
        Body::Substitute { pattern, replacement, flags } => match Pattern::new(pattern.as_str()) {
            Some(p) => Command::Substitute { pattern: p, replacement, flags },
            None => {
                return Err(CommandError::InvalidPattern);
            },
        },
        Body::Print => Command::Print,
        Body::Other(t) => Command::Unrecognized(t),
    };
    Ok((chain, command))
}

/// Parses a command text into its selector chain and command: a syntax error
/// where the text has no reading, else the first invalid term or pattern,
/// else the chain and command that the reading stands for.
pub fn parse_command(s: &str) -> (r: Result<(Vec<Selector>, Command), CommandError>)
    ensures
        (forall|ts: Seq<TermText>, b: BodyText| !reading(s@, ts, b)) ==> r == Err::<
            (Vec<Selector>, Command),
            CommandError,
        >(CommandError::Syntax),
        forall|ts: Seq<TermText>, b: BodyText| #[trigger] reading(s@, ts, b) ==> parsed_as(r, ts, b),
{
    match parse_syntax(s) {
        None => Err(CommandError::Syntax),
        Some(x) => {
            let ghost tts = term_texts(x.terms@);
            let ghost b = x.body@;
            let Syntax { address: _, terms, body } = x;
            let r = build(&terms, body);
            proof {
                assert forall|ts: Seq<TermText>, b2: BodyText| #[trigger] reading(s@, ts, b2) implies parsed_as(r, ts, b2) by {
                    crate::grammar::lemma_one_reading(s@, ts, b2, tts, b);
                }
            }
            r
        },
    }
}

}
