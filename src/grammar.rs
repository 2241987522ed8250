//! The command language, at the level of text: a command reads as an address
//! (terms joined by `.`), an optional space, and a body.
//!
//! ```text
//! command  := address? ' '? body
//! address  := term ('.' term)*
//! term     := '/' key '/'            key: no '/'
//!           | digits ',' digits
//! body     := 's/' pattern '/' replacement '/' flags      (none of them holds '/')
//!           | 'p'
//!           | letter rest            letter: any ASCII letter but 's' and 'p'
//! ```
use vstd::prelude::*;
use crate::number::{all_digits, chars_of, is_digit};

verus! {

/// One term of an address, as written.
pub enum Term {
    /// `/key/`: the text between the slashes.
    Key(String),
    /// `begin,end`: the two runs of digits.
    Range(String, String),
}

/// The body of a command, as written.
pub enum Body {
    Substitute { pattern: String, replacement: String, flags: String },
    Print,
    /// A command letter this editor does not implement, with what follows it.
    Other(String),
}

/// A command split into its parts.
pub struct Syntax {
    /// The address as written, terms and dots.
    pub address: String,
    pub terms: Vec<Term>,
    pub body: Body,
}

/// The model of a [`Term`].
pub enum TermText {
    Key(Seq<char>),
    Range(Seq<char>, Seq<char>),
}

/// The model of a [`Body`].
pub enum BodyText {
    Substitute(Seq<char>, Seq<char>, Seq<char>),
    Print,
    Other(Seq<char>),
}

impl View for Term {
    type V = TermText;

    open spec fn view(&self) -> TermText {
        match self {
            Term::Key(k) => TermText::Key(k@),
            Term::Range(b, e) => TermText::Range(b@, e@),
        }
    }
}

impl View for Body {
    type V = BodyText;

    open spec fn view(&self) -> BodyText {
        match self {
            Body::Substitute { pattern, replacement, flags } => BodyText::Substitute(
                pattern@,
                replacement@,
                flags@,
            ),
            Body::Print => BodyText::Print,
            Body::Other(t) => BodyText::Other(t@),
        }
    }
}

/// The models of a run of terms.
pub open spec fn term_texts(ts: Seq<Term>) -> Seq<TermText> {
    Seq::new(ts.len(), |i: int| ts[i]@)
}

pub open spec fn no_slash(s: Seq<char>) -> bool {
    forall|i: int| 0 <= i < s.len() ==> #[trigger] s[i] != '/'
}

pub open spec fn is_letter(c: char) -> bool {
    ('a' <= c <= 'z') || ('A' <= c <= 'Z')
}

pub open spec fn term_ok(t: TermText) -> bool {
    match t {
        TermText::Key(k) => no_slash(k),
        TermText::Range(b, e) => all_digits(b) && all_digits(e),
    }
}

pub open spec fn term_text(t: TermText) -> Seq<char> {
    match t {
        TermText::Key(k) => seq!['/'] + k + seq!['/'],
        TermText::Range(b, e) => b + seq![','] + e,
    }
}

/// The text of terms that follow a first one: each after a dot.
pub open spec fn more_terms_text(ts: Seq<TermText>) -> Seq<char>
    decreases ts.len(),
{
    if ts.len() == 0 {
        Seq::empty()
    } else {
        seq!['.'] + term_text(ts[0]) + more_terms_text(ts.drop_first())
    }
}

/// The text of an address: its terms joined by dots.
pub open spec fn address_text(ts: Seq<TermText>) -> Seq<char> {
    if ts.len() == 0 {
        Seq::empty()
    } else {
        term_text(ts[0]) + more_terms_text(ts.drop_first())
    }
}

pub open spec fn body_ok(b: BodyText) -> bool {
    match b {
        BodyText::Substitute(p, r, f) => no_slash(p) && no_slash(r) && no_slash(f),
        BodyText::Print => true,
        BodyText::Other(t) => t.len() > 0 && is_letter(t[0]) && t[0] != 's' && t[0] != 'p',
    }
}

pub open spec fn body_text(b: BodyText) -> Seq<char> {
    match b {
        BodyText::Substitute(p, r, f) => seq!['s', '/'] + p + seq!['/'] + r + seq!['/'] + f,
        BodyText::Print => seq!['p'],
        BodyText::Other(t) => t,
    }
}

/// `s` reads as the terms `ts` and the body `b`: both well formed, `s` their
/// text, with or without one space between address and body.
pub open spec fn reading(s: Seq<char>, ts: Seq<TermText>, b: BodyText) -> bool {
    &&& forall|i: int| 0 <= i < ts.len() ==> term_ok(#[trigger] ts[i])
    &&& body_ok(b)
    &&& (s == address_text(ts) + body_text(b) || s == address_text(ts) + seq![' '] + body_text(b))
}

/// The first index from `j` on that holds a slash, or the length of `s`.
spec fn slash_from(s: Seq<char>, j: int) -> int
    decreases s.len() - j,
{
    if j < 0 || j >= s.len() {
        s.len() as int
    } else if s[j] == '/' {
        j
    } else {
        slash_from(s, j + 1)
    }
}

/// The first index from `j` on that holds no digit, or the length of `s`.
spec fn digits_from(s: Seq<char>, j: int) -> int
    decreases s.len() - j,
{
    if j < 0 || j >= s.len() {
        s.len() as int
    } else if !is_digit(s[j]) {
        j
    } else {
        digits_from(s, j + 1)
    }
}

/// The term that starts at `i`, and where it ends.
spec fn term_at(s: Seq<char>, i: int) -> Option<(TermText, int)> {
    if 0 <= i < s.len() && s[i] == '/' {
        let j = slash_from(s, i + 1);
        if j < s.len() {
            Some((TermText::Key(s.subrange(i + 1, j)), j + 1))
        } else {
            None
        }
    } else if 0 <= i < s.len() && is_digit(s[i]) {
        let j = digits_from(s, i);
        if j < s.len() && s[j] == ',' {
            let k = digits_from(s, j + 1);
            if k > j + 1 {
                Some((TermText::Range(s.subrange(i, j), s.subrange(j + 1, k)), k))
            } else {
                None
            }
        } else {
            None
        }
    } else {
        None
    }
}

/// The terms that follow from `i` on, each after a dot, and where they end.
spec fn more_terms_at(s: Seq<char>, i: int) -> Option<(Seq<TermText>, int)>
    decreases s.len() - i,
{
    if 0 <= i < s.len() && s[i] == '.' {
        match term_at(s, i + 1) {
            Some((t, j)) => if i < j <= s.len() {
                match more_terms_at(s, j) {
                    Some((ts, k)) => Some((seq![t] + ts, k)),
                    None => None,
                }
            } else {
                None
            },
            None => None,
        }
    } else {
        Some((Seq::empty(), i))
    }
}

/// The address at the start of `s`, and where it ends.
spec fn address_at(s: Seq<char>) -> Option<(Seq<TermText>, int)> {
    if 0 < s.len() && (s[0] == '/' || is_digit(s[0])) {
        match term_at(s, 0) {
            Some((t, j)) => match more_terms_at(s, j) {
                Some((ts, k)) => Some((seq![t] + ts, k)),
                None => None,
            },
            None => None,
        }
    } else {
        Some((Seq::empty(), 0))
    }
}

/// The body that runs from `i` to the end of `s`.
spec fn body_at(s: Seq<char>, i: int) -> Option<BodyText> {
    if i < 0 || i >= s.len() {
        None
    } else if s[i] == 'p' {
        if i + 1 == s.len() { Some(BodyText::Print) } else { None }
    } else if s[i] == 's' {
        if i + 1 < s.len() && s[i + 1] == '/' {
            let j = slash_from(s, i + 2);
            let k = slash_from(s, j + 1);
            if j < s.len() && k < s.len() && slash_from(s, k + 1) == s.len() {
                Some(
                    BodyText::Substitute(
                        s.subrange(i + 2, j),
                        s.subrange(j + 1, k),
                        s.subrange(k + 1, s.len() as int),
                    ),
                )
            } else {
                None
            }
        } else {
            None
        }
    } else if is_letter(s[i]) {
        Some(BodyText::Other(s.subrange(i, s.len() as int)))
    } else {
        None
    }
}

/// Where the body starts once the address ends at `i`: after one space, if any.
spec fn body_start(s: Seq<char>, i: int) -> int {
    if 0 <= i < s.len() && s[i] == ' ' {
        i + 1
    } else {
        i
    }
}

/// The reading that a left-to-right scan of `s` finds.
spec fn scanned(s: Seq<char>) -> Option<(Seq<TermText>, BodyText)> {
    match address_at(s) {
        Some((ts, i)) => match body_at(s, body_start(s, i)) {
            Some(b) => Some((ts, b)),
            None => None,
        },
        None => None,
    }
}

proof fn lemma_slash_from(s: Seq<char>, j: int)
    requires
        0 <= j <= s.len(),
    ensures
        j <= slash_from(s, j) <= s.len(),
        forall|l: int| j <= l < slash_from(s, j) ==> s[l] != '/',
        slash_from(s, j) < s.len() ==> s[slash_from(s, j)] == '/',
    decreases s.len() - j,
{
    if j < s.len() && s[j] != '/' {
        lemma_slash_from(s, j + 1);
    }
}

proof fn lemma_digits_from(s: Seq<char>, j: int)
    requires
        0 <= j <= s.len(),
    ensures
        j <= digits_from(s, j) <= s.len(),
        forall|l: int| j <= l < digits_from(s, j) ==> is_digit(s[l]),
        digits_from(s, j) < s.len() ==> !is_digit(s[digits_from(s, j)]),
    decreases s.len() - j,
{
    if j < s.len() && is_digit(s[j]) {
        lemma_digits_from(s, j + 1);
    }
}

proof fn lemma_term_at_sound(s: Seq<char>, i: int)
    requires
        term_at(s, i) is Some,
    ensures
        ({
            let (t, j) = term_at(s, i)->0;
            &&& 0 <= i < j <= s.len()
            &&& term_ok(t)
            &&& s.subrange(i, j) == term_text(t)
        }),
{
    let (t, j) = term_at(s, i)->0;
    if s[i] == '/' {
        lemma_slash_from(s, i + 1);
        assert(s.subrange(i, j) =~= term_text(t));
    } else {
        let m = digits_from(s, i);
        lemma_digits_from(s, i);
        lemma_digits_from(s, m + 1);
        assert(s.subrange(i, j) =~= term_text(t));
    }
}

proof fn lemma_more_terms_sound(s: Seq<char>, i: int)
    requires
        0 <= i <= s.len(),
        more_terms_at(s, i) is Some,
    ensures
        ({
            let (ts, k) = more_terms_at(s, i)->0;
            &&& i <= k <= s.len()
            &&& forall|l: int| 0 <= l < ts.len() ==> term_ok(#[trigger] ts[l])
            &&& s.subrange(i, k) == more_terms_text(ts)
            &&& !(k < s.len() && s[k] == '.')
        }),
    decreases s.len() - i,
{
    let (ts, k) = more_terms_at(s, i)->0;
    if i < s.len() && s[i] == '.' {
        let (t, j) = term_at(s, i + 1)->0;
        lemma_term_at_sound(s, i + 1);
        lemma_more_terms_sound(s, j);
        let (rest, k2) = more_terms_at(s, j)->0;
        assert(ts == seq![t] + rest);
        assert(ts.drop_first() =~= rest);
        assert forall|l: int| 0 <= l < ts.len() implies term_ok(#[trigger] ts[l]) by {
            if l > 0 {
                assert(ts[l] == rest[l - 1]);
            }
        }
        assert(s.subrange(i, k) =~= seq!['.'] + s.subrange(i + 1, j) + s.subrange(j, k));
    } else {
        assert(s.subrange(i, k) =~= more_terms_text(ts));
    }
}

proof fn lemma_body_sound(s: Seq<char>, i: int)
    requires
        body_at(s, i) is Some,
    ensures
        body_ok(body_at(s, i)->0),
        s.subrange(i, s.len() as int) == body_text(body_at(s, i)->0),
{
    let b = body_at(s, i)->0;
    if s[i] == 's' {
        let j = slash_from(s, i + 2);
        let k = slash_from(s, j + 1);
        lemma_slash_from(s, i + 2);
        lemma_slash_from(s, j + 1);
        lemma_slash_from(s, k + 1);
    }
    assert(s.subrange(i, s.len() as int) =~= body_text(b));
}

proof fn lemma_address_sound(s: Seq<char>)
    requires
        address_at(s) is Some,
    ensures
        ({
            let (ts, i) = address_at(s)->0;
            &&& 0 <= i <= s.len()
            &&& forall|l: int| 0 <= l < ts.len() ==> term_ok(#[trigger] ts[l])
            &&& s.subrange(0, i) == address_text(ts)
        }),
{
    let (ts, i) = address_at(s)->0;
    if 0 < s.len() && (s[0] == '/' || is_digit(s[0])) {
        let (t, j0) = term_at(s, 0)->0;
        lemma_term_at_sound(s, 0);
        lemma_more_terms_sound(s, j0);
        let (rest, k) = more_terms_at(s, j0)->0;
        assert(ts.drop_first() =~= rest);
        assert forall|l: int| 0 <= l < ts.len() implies term_ok(#[trigger] ts[l]) by {
            if l > 0 {
                assert(ts[l] == rest[l - 1]);
            }
        }
        assert(s.subrange(0, i) =~= address_text(ts));
    } else {
        assert(s.subrange(0, i) =~= address_text(ts));
    }
}

proof fn lemma_scanned_sound(s: Seq<char>)
    requires
        scanned(s) is Some,
    ensures
        ({
            let (ts, b) = scanned(s)->0;
            reading(s, ts, b)
        }),
{
    let (ts, b) = scanned(s)->0;
    let (ats, i) = address_at(s)->0;
    let j = body_start(s, i);
    lemma_body_sound(s, j);
    lemma_address_sound(s);
    if j == i {
        assert(s =~= s.subrange(0, i) + s.subrange(i, s.len() as int));
    } else {
        assert(s =~= s.subrange(0, i) + seq![' '] + s.subrange(j, s.len() as int));
    }
}

proof fn lemma_slash_from_at(s: Seq<char>, j: int, k: int)
    requires
        0 <= j <= k <= s.len(),
        forall|l: int| j <= l < k ==> s[l] != '/',
        k == s.len() || s[k] == '/',
    ensures
        slash_from(s, j) == k,
    decreases k - j,
{
    if j < k {
        lemma_slash_from_at(s, j + 1, k);
    }
}

proof fn lemma_digits_from_at(s: Seq<char>, j: int, k: int)
    requires
        0 <= j <= k <= s.len(),
        forall|l: int| j <= l < k ==> is_digit(s[l]),
        k == s.len() || !is_digit(s[k]),
    ensures
        digits_from(s, j) == k,
    decreases k - j,
{
    if j < k {
        lemma_digits_from_at(s, j + 1, k);
    }
}

proof fn lemma_term_at_complete(s: Seq<char>, i: int, t: TermText)
    requires
        term_ok(t),
        0 <= i,
        i + term_text(t).len() <= s.len(),
        s.subrange(i, i + term_text(t).len()) == term_text(t),
        t is Range && i + term_text(t).len() < s.len() ==> !is_digit(s[i + term_text(t).len()]),
    ensures
        term_at(s, i) == Some((t, i + term_text(t).len())),
{
    let tt = term_text(t);
    let n = tt.len() as int;
    assert forall|l: int| 0 <= l < n implies s[i + l] == tt[l] by {
        assert(s.subrange(i, i + n)[l] == s[i + l]);
    }
    match t {
        TermText::Key(k) => {
            assert(s[i] == tt[0]);
            assert forall|l: int| i + 1 <= l < i + 1 + k.len() implies s[l] != '/' by {
                assert(s[l] == tt[l - i]);
                assert(tt[l - i] == k[l - i - 1]);
            }
            assert(s[i + 1 + k.len()] == tt[n - 1]);
            lemma_slash_from_at(s, i + 1, i + 1 + k.len());
            assert forall|l: int| 0 <= l < k.len() implies s.subrange(i + 1, i + 1 + k.len())[l] == k[l] by {
                assert(s[i + 1 + l] == tt[1 + l]);
            }
            assert(s.subrange(i + 1, i + 1 + k.len()) =~= k);
        },
        TermText::Range(b, e) => {
            assert(s[i] == tt[0]);
            assert(tt[0] == b[0]);
            assert forall|l: int| i <= l < i + b.len() implies is_digit(s[l]) by {
                assert(s[l] == tt[l - i]);
                assert(tt[l - i] == b[l - i]);
            }
            assert(s[i + b.len()] == tt[b.len() as int]);
            lemma_digits_from_at(s, i, i + b.len());
            let j = i + b.len();
            assert forall|l: int| j + 1 <= l < j + 1 + e.len() implies is_digit(s[l]) by {
                assert(s[l] == tt[l - i]);
                assert(tt[l - i] == e[l - j - 1]);
            }
            lemma_digits_from_at(s, j + 1, j + 1 + e.len());
            assert forall|l: int| 0 <= l < b.len() implies s.subrange(i, j)[l] == b[l] by {
                assert(s[i + l] == tt[l]);
            }
            assert forall|l: int| 0 <= l < e.len() implies s.subrange(j + 1, j + 1 + e.len())[l] == e[l] by {
                assert(s[j + 1 + l] == tt[b.len() + 1 + l]);
            }
            assert(s.subrange(i, j) =~= b);
            assert(s.subrange(j + 1, j + 1 + e.len()) =~= e);
        },
    }
}

proof fn lemma_more_terms_complete(s: Seq<char>, i: int, ts: Seq<TermText>)
    requires
        forall|l: int| 0 <= l < ts.len() ==> term_ok(#[trigger] ts[l]),
        0 <= i,
        i + more_terms_text(ts).len() < s.len(),
        s.subrange(i, i + more_terms_text(ts).len()) == more_terms_text(ts),
        s[i + more_terms_text(ts).len()] != '.',
        !is_digit(s[i + more_terms_text(ts).len()]),
    ensures
        more_terms_at(s, i) == Some((ts, i + more_terms_text(ts).len())),
    decreases ts.len(),
{
    let mt = more_terms_text(ts);
    if ts.len() == 0 {
        assert(mt.len() == 0);
    } else {
        let t = ts[0];
        let rest = ts.drop_first();
        let tt = term_text(t);
        let j = i + 1 + tt.len();
        assert(mt == seq!['.'] + tt + more_terms_text(rest));
        assert(s[i] == mt[0]) by {
            assert(s.subrange(i, i + mt.len())[0] == s[i]);
        }
        assert(s.subrange(i + 1, j) =~= tt) by {
            assert forall|l: int| 0 <= l < tt.len() implies s.subrange(i + 1, j)[l] == tt[l] by {
                assert(s.subrange(i, i + mt.len())[1 + l] == mt[1 + l]);
            }
        }
        assert(s.subrange(j, j + more_terms_text(rest).len()) =~= more_terms_text(rest)) by {
            assert forall|l: int| 0 <= l < more_terms_text(rest).len() implies s.subrange(j, j + more_terms_text(rest).len())[l] == more_terms_text(rest)[l] by {
                assert(s.subrange(i, i + mt.len())[1 + tt.len() + l] == mt[1 + tt.len() + l]);
            }
        }
        assert(t is Range && j < s.len() ==> !is_digit(s[j])) by {
            if rest.len() > 0 {
                assert(more_terms_text(rest)[0] == '.');
                assert(s.subrange(j, j + more_terms_text(rest).len())[0] == s[j]);
            }
        }
        lemma_term_at_complete(s, i + 1, t);
        assert forall|l: int| 0 <= l < rest.len() implies term_ok(#[trigger] rest[l]) by {
            assert(rest[l] == ts[l + 1]);
        }
        lemma_more_terms_complete(s, j, rest);
        assert(seq![t] + rest =~= ts);
    }
}

proof fn lemma_body_complete(s: Seq<char>, i: int, b: BodyText)
    requires
        body_ok(b),
        0 <= i <= s.len(),
        s.subrange(i, s.len() as int) == body_text(b),
    ensures
        body_at(s, i) == Some(b),
{
    let bt = body_text(b);
    assert forall|l: int| 0 <= l < bt.len() implies s[i + l] == bt[l] by {
        assert(s.subrange(i, s.len() as int)[l] == s[i + l]);
    }
    match b {
        BodyText::Substitute(p, r, f) => {
            let j = i + 2 + p.len();
            let k = j + 1 + r.len();
            let n = s.len() as int;
            assert(bt.len() == p.len() + r.len() + f.len() + 4);
            assert(n == i + bt.len());
            assert(s[i] == bt[0]);
            assert(s[i + 1] == bt[1]);
            assert forall|l: int| 0 <= l < p.len() implies s[i + 2 + l] == p[l] by {
                assert(s[i + 2 + l] == bt[2 + l]);
            }
            assert forall|l: int| 0 <= l < r.len() implies s[j + 1 + l] == r[l] by {
                assert(s[j + 1 + l] == bt[3 + p.len() + l]);
            }
            assert forall|l: int| 0 <= l < f.len() implies s[k + 1 + l] == f[l] by {
                assert(s[k + 1 + l] == bt[4 + p.len() + r.len() + l]);
            }
            assert(s[j] == bt[j - i]);
            assert(s[k] == bt[k - i]);
            assert(bt[0] == 's');
            assert(bt[1] == '/');
            assert(bt[j - i] == '/');
            assert(bt[k - i] == '/');
            assert(s[i] == 's' && s[i + 1] == '/' && s[j] == '/' && s[k] == '/');
            assert forall|l: int| i + 2 <= l < j implies s[l] != '/' by {
                assert(s[i + 2 + (l - i - 2)] == p[l - i - 2]);
            }
            assert forall|l: int| j + 1 <= l < k implies s[l] != '/' by {
                assert(s[j + 1 + (l - j - 1)] == r[l - j - 1]);
            }
            assert forall|l: int| k + 1 <= l < n implies s[l] != '/' by {
                assert(s[k + 1 + (l - k - 1)] == f[l - k - 1]);
            }
            lemma_slash_from_at(s, i + 2, j);
            lemma_slash_from_at(s, j + 1, k);
            lemma_slash_from_at(s, k + 1, n);
            assert(s.subrange(i + 2, j) =~= p);
            assert(s.subrange(j + 1, k) =~= r);
            assert(s.subrange(k + 1, n) =~= f);
            assert(slash_from(s, i + 2) == j);
            assert(slash_from(s, j + 1) == k);
            assert(k < n);
            assert(slash_from(s, k + 1) == n);
            assert(s[i] != 'p');
            assert(body_at(s, i) == Some(BodyText::Substitute(s.subrange(i + 2, j), s.subrange(j + 1, k), s.subrange(k + 1, n))));
            assert(b == BodyText::Substitute(p, r, f));
            assert(body_at(s, i) == Some(b));
        },
        BodyText::Print => {
            assert(s[i] == bt[0]);
            assert(s.len() == i + 1);
        },
        BodyText::Other(t) => {
            assert(s[i] == bt[0]);
            assert(s.subrange(i, s.len() as int) == t);
        },
    }
}

proof fn lemma_address_complete(s: Seq<char>, ts: Seq<TermText>, i: int)
    requires
        forall|l: int| 0 <= l < ts.len() ==> term_ok(#[trigger] ts[l]),
        i == address_text(ts).len(),
        i < s.len(),
        s.subrange(0, i) == address_text(ts),
        s[i] == ' ' || is_letter(s[i]),
    ensures
        address_at(s) == Some((ts, i)),
{
    let at = address_text(ts);
    if ts.len() > 0 {
        let t = ts[0];
        let rest = ts.drop_first();
        let tt = term_text(t);
        let mt = more_terms_text(rest);
        assert(at == tt + mt);
        assert(s[0] == tt[0]) by {
            assert(s.subrange(0, i)[0] == s[0]);
        }
        assert(s[0] == '/' || is_digit(s[0])) by {
            match t {
                TermText::Key(k) => {},
                TermText::Range(bb, ee) => {
                    assert(tt[0] == bb[0]);
                },
            }
        }
        assert(s.subrange(0, tt.len() as int) =~= tt) by {
            assert forall|l: int| 0 <= l < tt.len() implies s.subrange(0, tt.len() as int)[l] == tt[l] by {
                assert(s.subrange(0, i)[l] == at[l]);
            }
        }
        assert(s.subrange(tt.len() as int, i) =~= mt) by {
            assert forall|l: int| 0 <= l < mt.len() implies s.subrange(tt.len() as int, i)[l] == mt[l] by {
                assert(s.subrange(0, i)[tt.len() + l] == at[tt.len() + l]);
            }
        }
        assert(t is Range && tt.len() < s.len() ==> !is_digit(s[tt.len() as int])) by {
            if rest.len() > 0 {
                assert(mt[0] == '.');
                assert(s.subrange(tt.len() as int, i)[0] == s[tt.len() as int]);
            }
        }
        assert(term_ok(t));
        lemma_term_at_complete(s, 0, t);
        assert forall|l: int| 0 <= l < rest.len() implies term_ok(#[trigger] rest[l]) by {
            assert(rest[l] == ts[l + 1]);
        }
        lemma_more_terms_complete(s, tt.len() as int, rest);
        assert(seq![t] + rest =~= ts);
    }
}

proof fn lemma_scanned_complete(s: Seq<char>, ts: Seq<TermText>, b: BodyText)
    requires
        reading(s, ts, b),
    ensures
        scanned(s) == Some((ts, b)),
{
    let at = address_text(ts);
    let bt = body_text(b);
    let spaced = s != at + bt;
    let i = at.len() as int;
    let j = if spaced { i + 1 } else { i };
    assert(bt.len() > 0) by {
        match b {
            BodyText::Other(t) => {},
            _ => {},
        }
    }
    assert(s.subrange(0, i) =~= at);
    assert(s.subrange(j, s.len() as int) =~= bt);
    assert(s[j] == bt[0]);
    assert(spaced ==> s[i] == ' ');
    assert(is_letter(bt[0])) by {
        match b {
            BodyText::Other(t) => {},
            _ => {},
        }
    }
    lemma_address_complete(s, ts, i);
    lemma_body_complete(s, j, b);
}

/// A command text has at most one reading.
pub proof fn lemma_one_reading(s: Seq<char>, ts1: Seq<TermText>, b1: BodyText, ts2: Seq<TermText>, b2: BodyText)
    requires
        reading(s, ts1, b1),
        reading(s, ts2, b2),
    ensures
        ts1 == ts2,
        b1 == b2,
{
    lemma_scanned_complete(s, ts1, b1);
    lemma_scanned_complete(s, ts2, b2);
}

fn slash_index(cs: &Vec<char>, j: usize) -> (r: usize)
    requires
        j <= cs.len(),
    ensures
        r as int == slash_from(cs@, j as int),
{
    let mut k = j;
    while k < cs.len() && cs[k] != '/'
        invariant
            j <= k <= cs.len(),
            slash_from(cs@, j as int) == slash_from(cs@, k as int),
        decreases cs.len() - k,
    {
        k = k + 1;
    }
    k
}

fn digits_end(cs: &Vec<char>, j: usize) -> (r: usize)
    requires
        j <= cs.len(),
    ensures
        r as int == digits_from(cs@, j as int),
{
    let mut k = j;
    while k < cs.len() && '0' <= cs[k] && cs[k] <= '9'
        invariant
            j <= k <= cs.len(),
            digits_from(cs@, j as int) == digits_from(cs@, k as int),
        decreases cs.len() - k,
    {
        k = k + 1;
    }
    k
}

/// The characters of `s` from `a` up to `b`.
fn piece(s: &str, a: usize, b: usize) -> (r: String)
    requires
        a <= b <= s@.len(),
    ensures
        r@ == s@.subrange(a as int, b as int),
{
    String::from_str(s.substring_char(a, b))
}

fn scan_term(s: &str, cs: &Vec<char>, i: usize) -> (r: Option<(Term, usize)>)
    requires
        cs@ == s@,
        i <= cs.len(),
    ensures
        match r {
            Some((t, j)) => term_at(cs@, i as int) == Some((t@, j as int)),
            None => term_at(cs@, i as int) is None,
        },
{
    let n = cs.len();
    if i < n && cs[i] == '/' {
        let j = slash_index(cs, i + 1);
        proof {
            lemma_slash_from(cs@, i + 1);
        }
        if j < n {
            Some((Term::Key(piece(s, i + 1, j)), j + 1))
        } else {
            None
        }
    } else if i < n && '0' <= cs[i] && cs[i] <= '9' {
        let j = digits_end(cs, i);
        proof {
            lemma_digits_from(cs@, i as int);
        }
        if j < n && cs[j] == ',' {
            let k = digits_end(cs, j + 1);
            proof {
                lemma_digits_from(cs@, j + 1);
            }
            if k > j + 1 {
                Some((Term::Range(piece(s, i, j), piece(s, j + 1, k)), k))
            } else {
                None
            }
        } else {
            None
        }
    } else {
        None
    }
}

fn scan_body(s: &str, cs: &Vec<char>, i: usize) -> (r: Option<Body>)
    requires
        cs@ == s@,
        i <= cs.len(),
    ensures
        match r {
            Some(b) => body_at(cs@, i as int) == Some(b@),
            None => body_at(cs@, i as int) is None,
        },
{
    let n = cs.len();
    if i >= n {
        None
    } else if cs[i] == 'p' {
        if i + 1 == n {
            Some(Body::Print)
        } else {
            None
        }
    } else if cs[i] == 's' {
        if i + 1 < n && cs[i + 1] == '/' {
            let j = slash_index(cs, i + 2);
            proof {
                lemma_slash_from(cs@, i + 2);
            }
            if j >= n {
                return None;
            }
            let k = slash_index(cs, j + 1);
            proof {
                lemma_slash_from(cs@, j + 1);
            }
            if k >= n {
                return None;
            }
            if slash_index(cs, k + 1) != n {
                return None;
            }
            Some(
                Body::Substitute {
                    pattern: piece(s, i + 2, j),
                    replacement: piece(s, j + 1, k),
                    flags: piece(s, k + 1, n),
                },
            )
        } else {
            None
        }
    } else if ('a' <= cs[i] && cs[i] <= 'z') || ('A' <= cs[i] && cs[i] <= 'Z') {
        Some(Body::Other(piece(s, i, n)))
    } else {
        None
    }
}

/// Splits a command into address terms and body. `Some` exactly when the
/// text has a reading, and then it is that reading (there is at most one).
pub fn parse_syntax(s: &str) -> (r: Option<Syntax>)
    ensures
        match r {
            Some(x) => {
                &&& reading(s@, term_texts(x.terms@), x.body@)
                &&& x.address@ == address_text(term_texts(x.terms@))
            },
            None => forall|ts: Seq<TermText>, b: BodyText| !reading(s@, ts, b),
        },
{
    let cs = chars_of(s);
    let n = cs.len();
    let mut terms: Vec<Term> = Vec::new();
    let mut i: usize = 0;
    if n > 0 && (cs[0] == '/' || ('0' <= cs[0] && cs[0] <= '9')) {
        match scan_term(s, &cs, 0) {
            Some((t, j)) => {
                proof {
                    lemma_term_at_sound(cs@, 0);
                    assert(term_texts(terms@.push(t)) =~= seq![t@]);
                }
                terms.push(t);
                i = j;
            },
            None => {
                proof {
                    assert forall|ts: Seq<TermText>, b: BodyText| !reading(s@, ts, b) by {
                        if reading(s@, ts, b) {
                            lemma_scanned_complete(s@, ts, b);
                        }
                    }
                }
                return None;
            },
        }
        while i < n && cs[i] == '.'
            invariant
                cs@ == s@,
                n == cs.len(),
                i <= n,
                address_at(cs@) == match more_terms_at(cs@, i as int) {
                    Some((ts, k)) => Some((term_texts(terms@) + ts, k)),
                    None => None,
                },
            decreases n - i,
        {
            match scan_term(s, &cs, i + 1) {
                Some((t, j)) => {
                    proof {
                        lemma_term_at_sound(cs@, i + 1);
                        let old_terms = term_texts(terms@);
                        let new_terms = term_texts(terms@.push(t));
                        assert(new_terms =~= old_terms.push(t@));
                        match more_terms_at(cs@, j as int) {
                            Some((ts, k)) => {
                                assert(new_terms + ts =~= old_terms + (seq![t@] + ts));
                            },
                            None => {},
                        }
                    }
                    terms.push(t);
                    i = j;
                },
                None => {
                    proof {
                        assert forall|ts: Seq<TermText>, b: BodyText| !reading(s@, ts, b) by {
                            if reading(s@, ts, b) {
                                lemma_scanned_complete(s@, ts, b);
                            }
                        }
                    }
                    return None;
                },
            }
        }
        assert(term_texts(terms@) + Seq::<TermText>::empty() =~= term_texts(terms@));
    } else {
        assert(term_texts(terms@) =~= Seq::<TermText>::empty());
    }
    assert(address_at(cs@) == Some((term_texts(terms@), i as int)));
    let start = if i < n && cs[i] == ' ' {
        i + 1
    } else {
        i
    };
    match scan_body(s, &cs, start) {
        Some(body) => {
            proof {
                lemma_scanned_sound(cs@);
                lemma_address_sound(cs@);
            }
            Some(Syntax { address: piece(s, 0, i), terms, body })
        },
        None => {
            proof {
                assert forall|ts: Seq<TermText>, b: BodyText| !reading(s@, ts, b) by {
                    if reading(s@, ts, b) {
                        lemma_scanned_complete(s@, ts, b);
                    }
                }
            }
            None
        },
    }
}

}
