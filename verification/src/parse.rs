//! The point source's line format.
//!
//! A line of the point source must decompose into exactly two
//! whitespace-separated tokens, each a floating-point literal in the
//! grammar that Rust's float parser documents: an optional sign, then
//! `inf`, `infinity` or `nan` in any letter case, or digits with an
//! optional point, an optional fraction and an optional exponent.
//! `parse_point` checks a line against that format and hands the two
//! coordinate tokens back, or reports the first token that is not a
//! number, or the whole line when the token count is wrong.  Turning the
//! validated tokens into machine numbers is the caller's business.

use vstd::prelude::*;
use vstd::string::*;

verus! {

/// Whether a character separates tokens.
pub uninterp spec fn is_space(c: char) -> bool;

/// Relies on `char::is_whitespace`: whether the character has the Unicode
/// `White_Space` property.  The result depends on the character alone.
pub assume_specification[ char::is_whitespace ](c: char) -> (r: bool)
    ensures
        r == is_space(c),
;

/// The error a line of the point source can provoke.
#[derive(Debug)]
pub enum PointParseError {
    /// The line does not hold exactly two tokens; carries the line.
    InvalidFormat(String),
    /// A token is not a floating-point literal; carries the token.
    ParseError(String),
    /// The point source itself could not be read; carries a description.
    IoError(String),
}

impl PointParseError {
    /// A human-readable description of the error.
    pub fn message(&self) -> (r: String)
        ensures
            (match self {
                PointParseError::InvalidFormat(m) => r@ == "Invalid format: "@ + m@,
                PointParseError::ParseError(m) => r@ == "Error parsing coordinate: "@ + m@,
                PointParseError::IoError(m) => r@ == "I/O Error: "@ + m@,
            }),
    {
        match self {
            PointParseError::InvalidFormat(m) => String::from_str("Invalid format: ").concat(
                m.as_str(),
            ),
            PointParseError::ParseError(m) => String::from_str("Error parsing coordinate: ").concat(
                m.as_str(),
            ),
            PointParseError::IoError(m) => String::from_str("I/O Error: ").concat(m.as_str()),
        }
    }
}

/// The end of the run of non-space characters that starts at `p`.
pub open spec fn token_end(s: Seq<char>, p: int) -> int
    decreases s.len() - p,
{
    if p < 0 || p >= s.len() || is_space(s[p]) {
        p
    } else {
        token_end(s, p + 1)
    }
}

/// The positions at which tokens start, scanning from `i` on; `in_tok`
/// says whether the character before `i` belongs to a token.
pub open spec fn token_starts_from(s: Seq<char>, i: int, in_tok: bool) -> Seq<int>
    decreases s.len() - i,
{
    if i < 0 || i >= s.len() {
        seq![]
    } else if !is_space(s[i]) && !in_tok {
        seq![i] + token_starts_from(s, i + 1, true)
    } else {
        token_starts_from(s, i + 1, !is_space(s[i]))
    }
}

/// The positions at which the line's tokens start, in order.
pub open spec fn token_starts(s: Seq<char>) -> Seq<int> {
    token_starts_from(s, 0, false)
}

/// The token that starts at position `p`.
pub open spec fn token_at(s: Seq<char>, p: int) -> Seq<char> {
    s.subrange(p, token_end(s, p))
}

/// The end of the run of decimal digits that starts at `i`.
pub open spec fn digits_end(s: Seq<char>, i: int) -> int
    decreases s.len() - i,
{
    if i < 0 || i >= s.len() || !is_digit(s[i]) {
        i
    } else {
        digits_end(s, i + 1)
    }
}

/// Whether `c` is a decimal digit.
pub open spec fn is_digit(c: char) -> bool {
    48 <= c as u32 <= 57
}

/// The character with an upper-case letter of the special words folded to
/// lower case.
pub open spec fn lower_special(c: char) -> char {
    if c == 'I' {
        'i'
    } else if c == 'N' {
        'n'
    } else if c == 'F' {
        'f'
    } else if c == 'A' {
        'a'
    } else if c == 'T' {
        't'
    } else if c == 'Y' {
        'y'
    } else {
        c
    }
}

/// The sequence with the special words' letters folded to lower case.
pub open spec fn lowered(t: Seq<char>) -> Seq<char> {
    t.map_values(|c: char| lower_special(c))
}

/// Whether the token from `off` on is one of the special values `inf`,
/// `infinity` or `nan`, in any letter case.
pub open spec fn is_special_at(t: Seq<char>, off: int) -> bool {
    let body = lowered(t.subrange(off, t.len() as int));
    ||| body == seq!['i', 'n', 'f']
    ||| body == seq!['i', 'n', 'f', 'i', 'n', 'i', 't', 'y']
    ||| body == seq!['n', 'a', 'n']
}

/// Whether position `i` is the end of the token or starts a well-formed
/// exponent part: `e` or `E`, an optional sign, and at least one digit
/// reaching the end of the token.
pub open spec fn is_exp_or_end(t: Seq<char>, i: int) -> bool {
    if i == t.len() {
        true
    } else if 0 <= i < t.len() && (t[i] == 'e' || t[i] == 'E') {
        let j = if i + 1 < t.len() && (t[i + 1] == '+' || t[i + 1] == '-') {
            i + 2
        } else {
            i + 1
        };
        j < t.len() && digits_end(t, j) == t.len()
    } else {
        false
    }
}

/// Whether the token from `off` on is a well-formed number: digits with an
/// optional point, an optional fraction and an optional exponent, or a
/// point followed by at least one digit and an optional exponent.
pub open spec fn is_number_at(t: Seq<char>, off: int) -> bool {
    let d1 = digits_end(t, off);
    if 0 <= off && d1 > off {
        if d1 == t.len() {
            true
        } else if t[d1] == '.' {
            is_exp_or_end(t, digits_end(t, d1 + 1))
        } else {
            is_exp_or_end(t, d1)
        }
    } else if 0 <= off < t.len() && t[off] == '.' {
        let d2 = digits_end(t, off + 1);
        d2 > off + 1 && is_exp_or_end(t, d2)
    } else {
        false
    }
}

/// Whether the whole token is a floating-point literal: an optional sign,
/// then a special value or a number.
pub open spec fn is_float_token(t: Seq<char>) -> bool {
    let off = if t.len() > 0 && (t[0] == '+' || t[0] == '-') {
        1int
    } else {
        0int
    };
    is_special_at(t, off) || is_number_at(t, off)
}

/// A run of non-space characters that is ended by a space or by the end of
/// the line is a whole token.
proof fn lemma_token_end_run(s: Seq<char>, p: int, e: int)
    requires
        0 <= p <= e <= s.len(),
        forall|q: int| p <= q < e ==> !is_space(#[trigger] s[q]),
        e == s.len() || is_space(s[e]),
    ensures
        token_end(s, p) == e,
    decreases e - p,
{
    if p < e {
        lemma_token_end_run(s, p + 1, e);
    }
}

/// Split a line into its whitespace-separated tokens, in order.
pub fn split_tokens(line: &str) -> (tokens: Vec<String>)
    ensures
        tokens@.len() == token_starts(line@).len(),
        forall|idx: int|
            0 <= idx < tokens@.len() ==> tokens@[idx]@ == token_at(
                line@,
                token_starts(line@)[idx],
            ),
{
    let ghost s = line@;
    let n = line.unicode_len();
    let mut tokens: Vec<String> = Vec::new();
    let ghost mut processed: Seq<int> = seq![];
    let mut in_tok: bool = false;
    let mut start: usize = 0;
    let mut i: usize = 0;
    while i < n
        invariant
            s == line@,
            n == s.len(),
            i <= n,
            token_starts(s) == processed + token_starts_from(s, i as int, in_tok),
            in_tok ==> processed.len() == tokens@.len() + 1 && processed.len() >= 1
                && processed.last() == start as int && start < i,
            in_tok ==> forall|q: int| start <= q < i ==> !is_space(#[trigger] s[q]),
            !in_tok ==> processed.len() == tokens@.len(),
            forall|idx: int|
                0 <= idx < tokens@.len() ==> tokens@[idx]@ == token_at(s, processed[idx]),
        decreases n - i,
    {
        let c = line.get_char(i);
        let sp = c.is_whitespace();
        if !sp && !in_tok {
            proof {
                assert(token_starts_from(s, i as int, false) == seq![i as int]
                    + token_starts_from(s, i + 1, true));
                assert(processed + (seq![i as int] + token_starts_from(s, i + 1, true))
                    =~= processed.push(i as int) + token_starts_from(s, i + 1, true));
                processed = processed.push(i as int);
            }
            start = i;
            in_tok = true;
        } else if sp && in_tok {
            proof {
                lemma_token_end_run(s, start as int, i as int);
                assert(token_at(s, start as int) =~= s.subrange(start as int, i as int));
            }
            let tok = line.substring_char(start, i);
            tokens.push(tok.to_owned());
            in_tok = false;
        }
        i += 1;
    }
    proof {
        assert(token_starts_from(s, n as int, in_tok) =~= Seq::<int>::empty());
        assert(token_starts(s) =~= processed);
    }
    if in_tok {
        proof {
            lemma_token_end_run(s, start as int, n as int);
            assert(token_at(s, start as int) =~= s.subrange(start as int, n as int));
        }
        let tok = line.substring_char(start, n);
        tokens.push(tok.to_owned());
    }
    tokens
}

/// Whether `c` is a decimal digit.
fn digit(c: char) -> (r: bool)
    ensures
        r == is_digit(c),
{
    let v: u32 = c as u32;
    48 <= v && v <= 57
}

/// The end of the digit run that starts at `i`.
fn digits_run_end(tok: &str, i: usize) -> (e: usize)
    requires
        i as int <= tok@.len(),
    ensures
        i <= e,
        e as int <= tok@.len(),
        e as int == digits_end(tok@, i as int),
{
    let ghost t = tok@;
    let n = tok.unicode_len();
    let mut e: usize = i;
    while e < n && digit(tok.get_char(e))
        invariant
            t == tok@,
            n == t.len(),
            i <= e <= n,
            digits_end(t, i as int) == digits_end(t, e as int),
        decreases n - e,
    {
        e += 1;
    }
    e
}

/// Whether position `i` of the token ends it or starts a well-formed
/// exponent part.
fn exp_or_end(tok: &str, i: usize) -> (r: bool)
    requires
        i as int <= tok@.len(),
    ensures
        r == is_exp_or_end(tok@, i as int),
{
    let n = tok.unicode_len();
    if i == n {
        return true;
    }
    let c = tok.get_char(i);
    if c == 'e' || c == 'E' {
        let j: usize = if i + 1 < n {
            let c2 = tok.get_char(i + 1);
            if c2 == '+' || c2 == '-' {
                i + 2
            } else {
                i + 1
            }
        } else {
            i + 1
        };
        if j < n {
            let e = digits_run_end(tok, j);
            e == n
        } else {
            false
        }
    } else {
        false
    }
}

/// Whether the token from `off` on is one of the special values.
fn special_at(tok: &str, off: usize) -> (r: bool)
    requires
        off as int <= tok@.len(),
    ensures
        r == is_special_at(tok@, off as int),
{
    let ghost t = tok@;
    let ghost body = lowered(t.subrange(off as int, t.len() as int));
    let n = tok.unicode_len();
    let m = n - off;
    if m == 3 {
        let c0 = tok.get_char(off);
        let c1 = tok.get_char(off + 1);
        let c2 = tok.get_char(off + 2);
        proof {
            assert(body.len() == 3);
            assert(body[0] == lower_special(t[off as int]));
            assert(body[1] == lower_special(t[off + 1]));
            assert(body[2] == lower_special(t[off + 2]));
        }
        let inf = (c0 == 'i' || c0 == 'I') && (c1 == 'n' || c1 == 'N') && (c2 == 'f' || c2 == 'F');
        let nan = (c0 == 'n' || c0 == 'N') && (c1 == 'a' || c1 == 'A') && (c2 == 'n' || c2 == 'N');
        proof {
            if inf {
                assert(body =~= seq!['i', 'n', 'f']);
            }
            if nan {
                assert(body =~= seq!['n', 'a', 'n']);
            }
        }
        inf || nan
    } else if m == 8 {
        let c0 = tok.get_char(off);
        let c1 = tok.get_char(off + 1);
        let c2 = tok.get_char(off + 2);
        let c3 = tok.get_char(off + 3);
        let c4 = tok.get_char(off + 4);
        let c5 = tok.get_char(off + 5);
        let c6 = tok.get_char(off + 6);
        let c7 = tok.get_char(off + 7);
        proof {
            assert(body.len() == 8);
            assert(body[0] == lower_special(t[off as int]));
            assert(body[1] == lower_special(t[off + 1]));
            assert(body[2] == lower_special(t[off + 2]));
            assert(body[3] == lower_special(t[off + 3]));
            assert(body[4] == lower_special(t[off + 4]));
            assert(body[5] == lower_special(t[off + 5]));
            assert(body[6] == lower_special(t[off + 6]));
            assert(body[7] == lower_special(t[off + 7]));
        }
        let infinity = (c0 == 'i' || c0 == 'I') && (c1 == 'n' || c1 == 'N') && (c2 == 'f' || c2
            == 'F') && (c3 == 'i' || c3 == 'I') && (c4 == 'n' || c4 == 'N') && (c5 == 'i' || c5
            == 'I') && (c6 == 't' || c6 == 'T') && (c7 == 'y' || c7 == 'Y');
        proof {
            if infinity {
                assert(body =~= seq!['i', 'n', 'f', 'i', 'n', 'i', 't', 'y']);
            }
        }
        infinity
    } else {
        proof {
            assert(body.len() == m);
        }
        false
    }
}

/// Whether the whole token is a floating-point literal.
pub fn is_numeric_token(tok: &str) -> (r: bool)
    ensures
        r == is_float_token(tok@),
{
    let ghost t = tok@;
    let n = tok.unicode_len();
    let off: usize = if n > 0 {
        let c0 = tok.get_char(0);
        if c0 == '+' || c0 == '-' {
            1
        } else {
            0
        }
    } else {
        0
    };
    if special_at(tok, off) {
        return true;
    }
    let d1 = digits_run_end(tok, off);
    if d1 > off {
        if d1 == n {
            true
        } else if tok.get_char(d1) == '.' {
            let d2 = digits_run_end(tok, d1 + 1);
            exp_or_end(tok, d2)
        } else {
            exp_or_end(tok, d1)
        }
    } else if off < n && tok.get_char(off) == '.' {
        let d2 = digits_run_end(tok, off + 1);
        if d2 > off + 1 {
            exp_or_end(tok, d2)
        } else {
            false
        }
    } else {
        false
    }
}

/// A well-formed line: exactly two tokens, both floating-point literals.
pub open spec fn line_valid(s: Seq<char>) -> bool {
    &&& token_starts(s).len() == 2
    &&& forall|j: int|
        0 <= j < token_starts(s).len() ==> is_float_token(
            token_at(s, #[trigger] token_starts(s)[j]),
        )
}

/// The error that line `s` provokes: the first token that is no
/// floating-point literal, or, with every token a literal, the whole line
/// when it does not hold exactly two of them.
pub open spec fn parse_error_for(e: PointParseError, s: Seq<char>) -> bool {
    match e {
        PointParseError::ParseError(tkn) => exists|idx: int|
            {
                &&& 0 <= idx < token_starts(s).len()
                &&& tkn@ == token_at(s, #[trigger] token_starts(s)[idx])
                &&& !is_float_token(tkn@)
                &&& forall|j: int|
                    0 <= j < idx ==> is_float_token(token_at(s, token_starts(s)[j]))
            },
        PointParseError::InvalidFormat(l) => {
            &&& l@ == s
            &&& token_starts(s).len() != 2
            &&& forall|j: int|
                0 <= j < token_starts(s).len() ==> is_float_token(
                    token_at(s, #[trigger] token_starts(s)[j]),
                )
        },
        PointParseError::IoError(_) => false,
    }
}

/// Check one line of the point source: it must hold exactly two tokens,
/// both floating-point literals.  On success the two coordinate tokens
/// come back in order; a token that is no number is reported before a
/// wrong token count, as the first offender, and the count error carries
/// the whole line.
pub fn parse_point(line: &str) -> (r: Result<(String, String), PointParseError>)
    ensures
        (match r {
            Ok((a, b)) => {
                &&& line_valid(line@)
                &&& a@ == token_at(line@, token_starts(line@)[0])
                &&& b@ == token_at(line@, token_starts(line@)[1])
                &&& is_float_token(a@)
                &&& is_float_token(b@)
            },
            Err(e) => parse_error_for(e, line@),
        }),
{
    let ghost s = line@;
    let tokens = split_tokens(line);
    let count = tokens.len();
    let mut idx: usize = 0;
    while idx < count
        invariant
            s == line@,
            count == tokens@.len(),
            tokens@.len() == token_starts(s).len(),
            idx <= count,
            forall|k: int|
                0 <= k < tokens@.len() ==> tokens@[k]@ == token_at(s, token_starts(s)[k]),
            forall|j: int|
                0 <= j < idx ==> is_float_token(token_at(s, #[trigger] token_starts(s)[j])),
        decreases count - idx,
    {
        if !is_numeric_token(tokens[idx].as_str()) {
            return Err(PointParseError::ParseError(tokens[idx].clone()));
        }
        idx += 1;
    }
    if count != 2 {
        return Err(PointParseError::InvalidFormat(line.to_owned()));
    }
    let a = tokens[0].clone();
    let b = tokens[1].clone();
    Ok((a, b))
}

/// Check a whole point source, one line per point.  Every line must be
/// well-formed; the first bad line aborts the run with its error, and no
/// partial result survives.  On success the coordinate tokens of each
/// line come back in the lines' order.
pub fn parse_points(lines: &Vec<String>) -> (r: Result<Vec<(String, String)>, PointParseError>)
    ensures
        (match r {
            Ok(pairs) => {
                &&& pairs@.len() == lines@.len()
                &&& forall|i: int| 0 <= i < lines@.len() ==> line_valid(#[trigger] lines@[i]@)
                &&& forall|i: int|
                    0 <= i < lines@.len() ==> (#[trigger] pairs@[i]).0@ == token_at(
                        lines@[i]@,
                        token_starts(lines@[i]@)[0],
                    ) && pairs@[i].1@ == token_at(lines@[i]@, token_starts(lines@[i]@)[1])
            },
            Err(e) => exists|i: int|
                {
                    &&& 0 <= i < lines@.len()
                    &&& parse_error_for(e, #[trigger] lines@[i]@)
                    &&& forall|j: int| 0 <= j < i ==> line_valid(lines@[j]@)
                },
        }),
{
    let mut pairs: Vec<(String, String)> = Vec::new();
    let mut i: usize = 0;
    while i < lines.len()
        invariant
            pairs@.len() == i,
            i <= lines@.len(),
            forall|k: int| 0 <= k < i ==> line_valid(#[trigger] lines@[k]@),
            forall|k: int|
                0 <= k < i ==> (#[trigger] pairs@[k]).0@ == token_at(
                    lines@[k]@,
                    token_starts(lines@[k]@)[0],
                ) && pairs@[k].1@ == token_at(lines@[k]@, token_starts(lines@[k]@)[1]),
        decreases lines@.len() - i,
    {
        match parse_point(lines[i].as_str()) {
            Ok(pair) => pairs.push(pair),
            Err(e) => {
                proof {
                    assert(parse_error_for(e, lines@[i as int]@));
                }
                return Err(e);
            },
        }
        i += 1;
    }
    Ok(pairs)
}

} // verus!
