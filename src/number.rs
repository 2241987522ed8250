//! Numbers: their canonical text, and reading a number back from text.
use vstd::prelude::*;

verus! {

pub open spec fn is_digit(c: char) -> bool {
    '0' <= c <= '9'
}

pub open spec fn digit_value(c: char) -> int {
    c as u32 as int - '0' as u32 as int
}

/// The value of a run of decimal digits, most significant first.
pub open spec fn digits_value(d: Seq<char>) -> int
    decreases d.len(),
{
    if d.len() == 0 {
        0
    } else {
        digits_value(d.drop_last()) * 10 + digit_value(d.last())
    }
}

pub open spec fn all_digits(d: Seq<char>) -> bool {
    d.len() > 0 && forall|i: int| 0 <= i < d.len() ==> is_digit(#[trigger] d[i])
}

/// The integer that `s` writes: an optional `+` or `-`, then one or more digits.
pub open spec fn signed_value(s: Seq<char>) -> Option<int> {
    if s.len() > 0 && s[0] == '-' {
        if all_digits(s.drop_first()) { Some(-digits_value(s.drop_first())) } else { None }
    } else if s.len() > 0 && s[0] == '+' {
        if all_digits(s.drop_first()) { Some(digits_value(s.drop_first())) } else { None }
    } else if all_digits(s) {
        Some(digits_value(s))
    } else {
        None
    }
}

/// The 128-bit signed integer that `s` writes, if it writes one that fits.
pub open spec fn int_value(s: Seq<char>) -> Option<int> {
    match signed_value(s) {
        Some(v) => if i128::MIN <= v <= i128::MAX { Some(v) } else { None },
        None => None,
    }
}

pub open spec fn digit_char(d: nat) -> char {
    seq!['0', '1', '2', '3', '4', '5', '6', '7', '8', '9'][d as int]
}

/// The decimal text of `n`, without leading zeros.
pub open spec fn decimal(n: nat) -> Seq<char>
    decreases n,
{
    if n < 10 {
        seq![digit_char(n)]
    } else {
        decimal(n / 10) + seq![digit_char(n % 10)]
    }
}

/// The canonical text of an integer.
pub open spec fn int_text(i: int) -> Seq<char> {
    if i < 0 {
        seq!['-'] + decimal((-i) as nat)
    } else {
        decimal(i as nat)
    }
}

/// The canonical text of the finite 64-bit float that `s` writes, as a JSON
/// number prints it; `None` where `s` writes no float or a non-finite one.
pub uninterp spec fn float_text_of(s: Seq<char>) -> Option<Seq<char>>;

/// The canonical text of the number that `s` writes: an integer when it reads
/// as one, a float otherwise.
pub open spec fn number_text(s: Seq<char>) -> Option<Seq<char>> {
    match int_value(s) {
        Some(i) => Some(int_text(i)),
        None => float_text_of(s),
    }
}

/// Relies on `str::parse` into a 64-bit float, on `serde_json::Number::from_f64`,
/// which takes finite values only, and on `serde_json::Number`'s `Display`.
#[verifier::external_body]
fn float_text(s: &str) -> (r: Option<String>)
    ensures
        match r {
            Some(t) => float_text_of(s@) == Some(t@),
            None => float_text_of(s@) is None,
        },
{
    match s.parse() {
        Ok(x) => serde_json::Number::from_f64(x).map(|n| n.to_string()),
        Err(_) => None,
    }
}

/// The characters of `s`.
pub fn chars_of(s: &str) -> (r: Vec<char>)
    ensures
        r@ == s@,
{
    let mut r: Vec<char> = Vec::new();
    for c in it: s.chars()
        invariant
            r@ == it.seq().take(it.index() as int),
            it.seq() == s@,
    {
        r.push(c);
    }
    r
}


/// A run of digits is worth at least as much as any prefix of it.
pub(crate) proof fn lemma_digits_value_prefix(d: Seq<char>, k: int)
    requires
        0 <= k <= d.len(),
        forall|i: int| 0 <= i < d.len() ==> is_digit(#[trigger] d[i]),
    ensures
        digits_value(d.take(k)) <= digits_value(d),
        0 <= digits_value(d),
    decreases d.len(),
{
    if d.len() > 0 {
        lemma_digits_value_prefix(d.drop_last(), if k == d.len() { k - 1 } else { k });
        if k < d.len() {
            assert(d.drop_last().take(k) =~= d.take(k));
        } else {
            assert(d.take(k) =~= d);
        }
    } else {
        assert(d.take(k) =~= d);
    }
}

/// Reads the 128-bit signed integer that `s` writes, as `str::parse` does:
/// an optional sign, then one or more decimal digits, within range.
pub fn parse_int(s: &str) -> (r: Option<i128>)
    ensures
        match r {
            Some(i) => int_value(s@) == Some(i as int),
            None => int_value(s@) is None,
        },
{
    let cs = chars_of(s);
    let n = cs.len();
    let mut start: usize = 0;
    let mut neg = false;
    if n > 0 && cs[0] == '-' {
        neg = true;
        start = 1;
    } else if n > 0 && cs[0] == '+' {
        start = 1;
    }
    let ghost d = cs@.subrange(start as int, n as int);
    assert(start == 1 ==> d =~= cs@.drop_first());
    assert(start == 0 ==> d =~= cs@);
    if start == n {
        return None;
    }
    assert(cs@ == s@);
    assert(signed_value(s@) == if all_digits(d) {
        Some(if neg { -digits_value(d) } else { digits_value(d) })
    } else {
        None
    });
    let bound: u128 = 0x8000_0000_0000_0000_0000_0000_0000_0000;
    let mut acc: u128 = 0;
    let mut i: usize = start;
    while i < n
        invariant
            start <= i <= n,
            n == cs.len(),
            bound == 0x8000_0000_0000_0000_0000_0000_0000_0000u128,
            signed_value(s@) == if all_digits(d) {
                Some(if neg { -digits_value(d) } else { digits_value(d) })
            } else {
                None
            },
            d == cs@.subrange(start as int, n as int),
            acc as int == digits_value(d.take(i - start)),
            acc <= bound,
            forall|j: int| 0 <= j < i - start ==> is_digit(#[trigger] d[j]),
        decreases n - i,
    {
        let c = cs[i];
        if !('0' <= c && c <= '9') {
            assert(d[i - start] == c);
            assert(!all_digits(d));
            return None;
        }
        let dv = (c as u32 - '0' as u32) as u128;
        assert(dv < 10);
        assert(d.take(i - start + 1).drop_last() =~= d.take(i - start));
        if acc > (bound - dv) / 10 {
            proof {
                assert(digits_value(d.take(i - start + 1)) > bound);
                if all_digits(d) {
                    lemma_digits_value_prefix(d, i - start + 1);
                }
            }
            return None;
        }
        assert(acc * 10 + dv <= bound) by (nonlinear_arith)
            requires
                acc <= (bound - dv) / 10,
                dv < 10,
        ;
        acc = acc * 10 + dv;
        i = i + 1;
    }
    assert(d.take(n - start) =~= d);
    assert(all_digits(d));
    if neg {
        if acc == bound {
            Some(i128::MIN)
        } else {
            Some(-(acc as i128))
        }
    } else if acc > i128::MAX as u128 {
        None
    } else {
        Some(acc as i128)
    }
}


/// A JSON number, held by its canonical text.
pub struct Number {
    text: String,
}

impl View for Number {
    type V = Seq<char>;

    closed spec fn view(&self) -> Seq<char> {
        self.text@
    }
}

fn digit_str(d: u128) -> (r: &'static str)
    requires
        d < 10,
    ensures
        r@ == seq![digit_char(d as nat)],
{
    proof {
        reveal_strlit("0");
        reveal_strlit("1");
        reveal_strlit("2");
        reveal_strlit("3");
        reveal_strlit("4");
        reveal_strlit("5");
        reveal_strlit("6");
        reveal_strlit("7");
        reveal_strlit("8");
        reveal_strlit("9");
    }
    let r = if d == 0 {
        "0"
    } else if d == 1 {
        "1"
    } else if d == 2 {
        "2"
    } else if d == 3 {
        "3"
    } else if d == 4 {
        "4"
    } else if d == 5 {
        "5"
    } else if d == 6 {
        "6"
    } else if d == 7 {
        "7"
    } else if d == 8 {
        "8"
    } else {
        "9"
    };
    assert(r@ =~= seq![digit_char(d as nat)]);
    r
}

/// Appends the decimal text of `n` to `out`.
fn push_decimal(out: &mut String, n: u128)
    ensures
        final(out)@ == old(out)@ + decimal(n as nat),
    decreases n,
{
    if n >= 10 {
        push_decimal(out, n / 10);
    }
    out.append(digit_str(n % 10));
    assert(final(out)@ =~= old(out)@ + decimal(n as nat));
}

impl Number {
    /// The number `i`.
    pub fn from_i128(i: i128) -> (r: Number)
        ensures
            r@ == int_text(i as int),
    {
        let mut text = String::new();
        if i < 0 {
            proof {
                reveal_strlit("-");
            }
            text.append("-");
            let m: u128 = if i == i128::MIN {
                0x8000_0000_0000_0000_0000_0000_0000_0000
            } else {
                (-i) as u128
            };
            push_decimal(&mut text, m);
        } else {
            push_decimal(&mut text, i as u128);
        }
        assert(text@ =~= int_text(i as int));
        Number { text }
    }

    /// The number that `s` writes, by its canonical text: an integer that fits
    /// in 128 bits where `s` reads as one, otherwise a finite 64-bit float.
    pub fn parse(s: &str) -> (r: Option<Number>)
        ensures
            match r {
                Some(n) => number_text(s@) == Some(n@),
                None => number_text(s@) is None,
            },
    {
        match parse_int(s) {
            Some(i) => Some(Number::from_i128(i)),
            None => match float_text(s) {
                Some(text) => Some(Number { text }),
                None => None,
            },
        }
    }

    /// The canonical text of the number.
    pub fn to_text(&self) -> (r: String)
        ensures
            r@ == self@,
    {
        self.text.clone()
    }
}

}
