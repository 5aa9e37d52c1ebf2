//! Parser and in-memory model for the DIMACS CNF textual format.
//!
//! The parser consumes the bytes of a CNF problem description line by line,
//! populating a [`model::Model`] with the comments, variables, literals and
//! clauses it encounters.  The model can then be rendered back to canonical
//! DIMACS text.

use vstd::prelude::*;

pub mod model;
pub mod render;
pub mod roundtrip;

use crate::model::{clause_valid, Clause, Literal, Model, ModelView, Sign};

verus! {

/// Line feed byte, the line terminator.
pub const NL: u8 = 10;

/// Carriage return byte, optionally preceding the line feed.
pub const CR: u8 = 13;

/// Space byte, the literal separator inside a clause line.
pub const SPACE: u8 = 32;

/// Minus byte, negating the literal being read.
pub const MINUS: u8 = 45;

/// Digit zero byte, the clause terminator.
pub const ZERO: u8 = 48;

/// Digit one byte, the smallest digit a variable name can hold.
pub const DIGIT1: u8 = 49;

/// Digit nine byte, the largest digit.
pub const DIGIT9: u8 = 57;

/// The letter `c`, marking a comment line.
pub const SMALL_C: u8 = 99;

/// The letter `f` of the header keyword `cnf`.
pub const SMALL_F: u8 = 102;

/// The letter `n` of the header keyword `cnf`.
pub const SMALL_N: u8 = 110;

/// The letter `p`, marking the problem-header line.
pub const SMALL_P: u8 = 112;

/// Everything that can go wrong while parsing; the first failure aborts the
/// parse and is handed to the caller, who keeps the partially filled model.
#[derive(PartialEq, Eq, Structural, Clone, Copy, Debug)]
pub enum ParseError {
    /// A line of zero length was read.
    EmptyLine,
    /// A byte outside the recognized set appeared in a clause line.
    InvalidToken,
    /// The problem-header line does not start with the required prefix.
    FormatError,
    /// A literal's digit buffer does not parse as an integer (empty or too
    /// large).
    NumberFormatError,
    /// A structurally impossible byte appeared inside a clause line, such as
    /// a marker letter in the middle of the line.
    InvalidClause,
}

/// Relevant ASCII bytes of a DIMACS file, as a closed token set; every byte
/// of a clause line must classify into one of these.
#[derive(PartialEq, Eq, Structural, Clone, Copy, Debug)]
pub enum Token {
    Space,
    Minus,
    Digit0,
    Digit1,
    Digit2,
    Digit3,
    Digit4,
    Digit5,
    Digit6,
    Digit7,
    Digit8,
    Digit9,
    SmallC,
    SmallP,
}

/// The byte a token stands for.
pub open spec fn token_byte(t: Token) -> u8 {
    match t {
        Token::Space => SPACE,
        Token::Minus => MINUS,
        Token::Digit0 => 48,
        Token::Digit1 => 49,
        Token::Digit2 => 50,
        Token::Digit3 => 51,
        Token::Digit4 => 52,
        Token::Digit5 => 53,
        Token::Digit6 => 54,
        Token::Digit7 => 55,
        Token::Digit8 => 56,
        Token::Digit9 => 57,
        Token::SmallC => SMALL_C,
        Token::SmallP => SMALL_P,
    }
}

/// Whether a byte belongs to the closed token set.
pub open spec fn is_token_byte(b: u8) -> bool {
    b == SPACE || b == MINUS || (48 <= b <= 57) || b == SMALL_C || b == SMALL_P
}

impl Token {
    /// Gets this ASCII character as a byte.
    pub fn to_u8(self) -> (b: u8)
        ensures
            b == token_byte(self),
    {
        match self {
            Token::Space => 32,
            Token::Minus => 45,
            Token::Digit0 => 48,
            Token::Digit1 => 49,
            Token::Digit2 => 50,
            Token::Digit3 => 51,
            Token::Digit4 => 52,
            Token::Digit5 => 53,
            Token::Digit6 => 54,
            Token::Digit7 => 55,
            Token::Digit8 => 56,
            Token::Digit9 => 57,
            Token::SmallC => 99,
            Token::SmallP => 112,
        }
    }

    /// Gets this ASCII character as a `char` Unicode scalar value.
    pub fn to_char(self) -> (c: char)
        ensures
            c == token_byte(self) as char,
    {
        self.to_u8() as char
    }

    /// Classify one byte, or fail with [`ParseError::InvalidToken`] for a
    /// byte outside the closed set.
    pub fn try_from_u8(value: u8) -> (r: Result<Token, ParseError>)
        ensures
            match r {
                Ok(t) => is_token_byte(value) && token_byte(t) == value,
                Err(e) => e == ParseError::InvalidToken && !is_token_byte(value),
            },
    {
        match value {
            32 => Ok(Token::Space),
            45 => Ok(Token::Minus),
            48 => Ok(Token::Digit0),
            49 => Ok(Token::Digit1),
            50 => Ok(Token::Digit2),
            51 => Ok(Token::Digit3),
            52 => Ok(Token::Digit4),
            53 => Ok(Token::Digit5),
            54 => Ok(Token::Digit6),
            55 => Ok(Token::Digit7),
            56 => Ok(Token::Digit8),
            57 => Ok(Token::Digit9),
            99 => Ok(Token::SmallC),
            112 => Ok(Token::SmallP),
            _ => Err(ParseError::InvalidToken),
        }
    }
}

/// Whether a byte is an ASCII decimal digit.
pub open spec fn is_digit(b: u8) -> bool {
    48 <= b <= 57
}

/// The integer value of a sequence of ASCII digit bytes, most significant
/// first.
pub open spec fn digits_value(s: Seq<u8>) -> int
    decreases s.len(),
{
    if s.len() == 0 {
        0
    } else {
        digits_value(s.drop_last()) * 10 + (s.last() - 48)
    }
}

/// The index just past the line that starts at `i`: one past the first line
/// feed at or after `i`, or the end of the input if there is none.
pub open spec fn end_of_line(s: Seq<u8>, i: int) -> int
    decreases s.len() - i,
{
    if i < 0 || i >= s.len() {
        s.len() as int
    } else if s[i] == NL {
        i + 1
    } else {
        end_of_line(s, i + 1)
    }
}

/// A raw line with its trailing line feed stripped and, when the line feed
/// was there, a then-trailing carriage return stripped too.
pub open spec fn trim_line(l: Seq<u8>) -> Seq<u8> {
    if l.len() > 0 && l.last() == NL {
        let l2 = l.drop_last();
        if l2.len() > 0 && l2.last() == CR {
            l2.drop_last()
        } else {
            l2
        }
    } else {
        l
    }
}

/// The clause sub-state-machine, scanning a trimmed clause line from byte
/// `i` on with a pending sign, a pending digit buffer and a pending clause.
/// A minus saturates the sign to negative; a digit joins the buffer; a space
/// closes a literal, which is registered in the model and appended to the
/// pending clause; a zero byte always closes the pending clause; the marker
/// letters and any byte outside the token set fail.  A pending clause still
/// open when the line ends is discarded.
pub open spec fn run_clause(
    m: ModelView,
    l: Seq<u8>,
    i: int,
    sign: Sign,
    buf: Seq<u8>,
    cl: Seq<Literal>,
) -> (ModelView, Option<ParseError>)
    decreases l.len() - i,
{
    if i < 0 || i >= l.len() {
        (m, None)
    } else {
        let b = l[i];
        if b == SMALL_C || b == SMALL_P {
            (m, Some(ParseError::InvalidClause))
        } else if b == MINUS {
            run_clause(m, l, i + 1, Sign::Negative, buf, cl)
        } else if b == SPACE {
            if buf.len() == 0 || digits_value(buf) > i64::MAX {
                (m, Some(ParseError::NumberFormatError))
            } else {
                let lit = Literal { var: digits_value(buf) as i64, sign };
                run_clause(
                    m.with_literal(lit),
                    l,
                    i + 1,
                    Sign::Positive,
                    Seq::empty(),
                    cl.push(lit),
                )
            }
        } else if b == ZERO {
            run_clause(m.with_clause(cl), l, i + 1, sign, buf, Seq::empty())
        } else if DIGIT1 <= b && b <= DIGIT9 {
            run_clause(m, l, i + 1, sign, buf.push(b), cl)
        } else {
            (m, Some(ParseError::InvalidToken))
        }
    }
}

/// Whether a trimmed line is an acceptable problem header: it must start
/// with exactly `p cnf `; whatever follows is ignored by design.
pub open spec fn is_header(l: Seq<u8>) -> bool {
    &&& l.len() >= 6
    &&& l[0] == SMALL_P
    &&& l[1] == SPACE
    &&& l[2] == SMALL_C
    &&& l[3] == SMALL_N
    &&& l[4] == SMALL_F
    &&& l[5] == SPACE
}

/// What one trimmed line does to the model.  An empty line fails; a line
/// starting with `c` appends a comment (the marker and at most one following
/// space stripped); a line starting with `p` must be a header and changes
/// nothing; any other line is a clause line.
pub open spec fn process_trimmed(m: ModelView, l: Seq<u8>) -> (ModelView, Option<ParseError>) {
    if l.len() == 0 {
        (m, Some(ParseError::EmptyLine))
    } else if l[0] == SMALL_C {
        let rest = l.subrange(1, l.len() as int);
        let c = if rest.len() > 0 && rest[0] == SPACE {
            rest.subrange(1, rest.len() as int)
        } else {
            rest
        };
        (m.with_comment(c), None)
    } else if l[0] == SMALL_P {
        if is_header(l) {
            (m, None)
        } else {
            (m, Some(ParseError::FormatError))
        }
    } else {
        run_clause(m, l, 0, Sign::Positive, Seq::empty(), Seq::empty())
    }
}

/// What one raw line (line feed still attached) does to the model.
pub open spec fn process_line(m: ModelView, raw: Seq<u8>) -> (ModelView, Option<ParseError>) {
    process_trimmed(m, trim_line(raw))
}

/// The whole parse, line by line from position `i` to the end of the input.
/// The first failure stops the parse; the model keeps everything done up to
/// that point.
pub open spec fn parse_from(m: ModelView, s: Seq<u8>, i: int) -> (ModelView, Option<ParseError>)
    decreases s.len() - i,
{
    if i < 0 || i >= s.len() {
        (m, None)
    } else {
        let j = end_of_line(s, i);
        let r = process_line(m, s.subrange(i, j));
        if r.1 is Some {
            r
        } else {
            proof {
                lemma_end_of_line_bounds(s, i);
            }
            parse_from(r.0, s, j)
        }
    }
}

/// The end of a line lies strictly beyond its start and within the input.
pub proof fn lemma_end_of_line_bounds(s: Seq<u8>, i: int)
    requires
        0 <= i < s.len(),
    ensures
        i < end_of_line(s, i) <= s.len(),
    decreases s.len() - i,
{
    if s[i] == NL {
    } else {
        assert(end_of_line(s, i) == end_of_line(s, i + 1));
        if i + 1 < s.len() {
            lemma_end_of_line_bounds(s, i + 1);
        } else {
            assert(end_of_line(s, i + 1) == s.len());
        }
    }
}

/// The value of a digit sequence is never negative.
pub proof fn lemma_dv_nonneg(s: Seq<u8>)
    requires
        forall|k: int| 0 <= k < s.len() ==> is_digit(#[trigger] s[k]),
    ensures
        digits_value(s) >= 0,
    decreases s.len(),
{
    if s.len() > 0 {
        lemma_dv_nonneg(s.drop_last());
    }
}

/// The value of a non-empty sequence of non-zero digits is at least one.
pub proof fn lemma_dv_pos(s: Seq<u8>)
    requires
        forall|k: int| 0 <= k < s.len() ==> DIGIT1 <= #[trigger] s[k] <= DIGIT9,
        s.len() > 0,
    ensures
        digits_value(s) >= 1,
{
    assert(forall|k: int| 0 <= k < s.drop_last().len() ==> is_digit(#[trigger] s.drop_last()[k]));
    lemma_dv_nonneg(s.drop_last());
}

/// Extending a digit sequence on the right never shrinks its value.
proof fn lemma_dv_prefix(s: Seq<u8>, j: int)
    requires
        forall|k: int| 0 <= k < s.len() ==> is_digit(#[trigger] s[k]),
        0 <= j <= s.len(),
    ensures
        digits_value(s.take(j)) <= digits_value(s),
    decreases s.len() - j,
{
    if j == s.len() {
        assert(s.take(j) =~= s);
    } else {
        lemma_dv_prefix(s, j + 1);
        let a = s.take(j);
        let b = s.take(j + 1);
        assert(b.drop_last() =~= a);
        assert(forall|k: int| 0 <= k < a.len() ==> is_digit(#[trigger] a[k]));
        lemma_dv_nonneg(a);
        assert(digits_value(b) == digits_value(a) * 10 + (s[j] - 48));
    }
}

/// Parse a buffer of ASCII digits as an `i64`, failing on an empty buffer or
/// on overflow, exactly as the textual integer parse of the standard library
/// does on such a buffer.
pub fn parse_digits(buf: &Vec<u8>) -> (r: Result<i64, ParseError>)
    requires
        forall|k: int| 0 <= k < buf@.len() ==> is_digit(#[trigger] buf@[k]),
    ensures
        match r {
            Ok(v) => buf@.len() > 0 && 0 <= digits_value(buf@) <= i64::MAX && v == digits_value(
                buf@,
            ),
            Err(e) => e == ParseError::NumberFormatError && (buf@.len() == 0 || digits_value(buf@)
                > i64::MAX),
        },
{
    let n = buf.len();
    if n == 0 {
        return Err(ParseError::NumberFormatError);
    }
    let mut acc: i64 = 0;
    let mut k: usize = 0;
    while k < n
        invariant
            0 <= k <= n,
            n == buf@.len(),
            forall|j: int| 0 <= j < buf@.len() ==> is_digit(#[trigger] buf@[j]),
            0 <= acc,
            acc == digits_value(buf@.take(k as int)),
        decreases n - k,
    {
        let d = (buf[k] - 48) as i64;
        let ghost pre = buf@.take(k as int);
        proof {
            assert(buf@.take(k + 1).drop_last() =~= pre);
            assert(buf@.take(k + 1).last() == buf@[k as int]);
        }
        if acc > (i64::MAX - d) / 10 {
            proof {
                vstd::arithmetic::div_mod::lemma_fundamental_div_mod(i64::MAX - d, 10);
                assert(digits_value(buf@.take(k + 1)) == acc * 10 + d);
                assert(acc * 10 + d > i64::MAX) by {
                    assert(acc >= (i64::MAX - d) / 10 + 1);
                    assert(acc * 10 >= ((i64::MAX - d) / 10 + 1) * 10) by (nonlinear_arith)
                        requires
                            acc >= (i64::MAX - d) / 10 + 1,
                    ;
                }
                assert(forall|j: int|
                    0 <= j < buf@.take(k + 1).len() ==> is_digit(#[trigger] buf@.take(k + 1)[j]));
                lemma_dv_prefix(buf@, k + 1);
                assert(buf@.take(n as int) =~= buf@);
                lemma_dv_prefix(buf@, n as int);
                assert(digits_value(buf@) > i64::MAX);
            }
            return Err(ParseError::NumberFormatError);
        }
        proof {
            vstd::arithmetic::div_mod::lemma_fundamental_div_mod(i64::MAX - d, 10);
            vstd::arithmetic::div_mod::lemma_mod_bound(i64::MAX - d, 10);
            assert(acc * 10 <= ((i64::MAX - d) / 10) * 10) by (nonlinear_arith)
                requires
                    acc <= (i64::MAX - d) / 10,
                    acc >= 0,
            ;
        }
        acc = acc * 10 + d;
        k += 1;
    }
    proof {
        assert(buf@.take(n as int) =~= buf@);
    }
    Ok(acc)
}

/// The incremental DIMACS parser.  It owns the bytes of the problem text and
/// fills a caller-supplied model in place, line by line.
pub struct Parser {
    input: Vec<u8>,
}

impl View for Parser {
    type V = Seq<u8>;

    closed spec fn view(&self) -> Seq<u8> {
        self.input@
    }
}

/// Find the index just past the line starting at `i`.
fn line_end(input: &Vec<u8>, i: usize) -> (j: usize)
    requires
        i <= input@.len(),
    ensures
        j == end_of_line(input@, i as int),
        i <= j <= input@.len(),
        i < input@.len() ==> i < j,
{
    let n = input.len();
    let mut k = i;
    while k < n
        invariant
            i <= k <= n,
            n == input@.len(),
            end_of_line(input@, i as int) == end_of_line(input@, k as int),
        decreases n - k,
    {
        if input[k] == NL {
            return k + 1;
        }
        k += 1;
    }
    n
}

/// Strip a trailing line feed and, when it was there, a then-trailing
/// carriage return from the line `input[i..j]`, returning the trimmed end.
fn trim_end(input: &Vec<u8>, i: usize, j: usize) -> (t: usize)
    requires
        i <= j <= input@.len(),
    ensures
        i <= t <= j,
        input@.subrange(i as int, t as int) == trim_line(input@.subrange(i as int, j as int)),
{
    let ghost raw = input@.subrange(i as int, j as int);
    let mut t = j;
    if t > i && input[t - 1] == NL {
        proof {
            assert(raw.last() == NL);
            assert(raw.drop_last() =~= input@.subrange(i as int, j - 1));
        }
        t = t - 1;
        if t > i && input[t - 1] == CR {
            proof {
                assert(raw.drop_last().drop_last() =~= input@.subrange(i as int, j - 2));
            }
            t = t - 1;
        }
    }
    proof {
        assert(input@.subrange(i as int, t as int) =~= trim_line(raw));
    }
    t
}

/// Copy the bytes `input[a..b]` into a fresh vector.
fn copy_range(input: &Vec<u8>, a: usize, b: usize) -> (v: Vec<u8>)
    requires
        a <= b <= input@.len(),
    ensures
        v@ == input@.subrange(a as int, b as int),
{
    let mut v: Vec<u8> = Vec::new();
    let mut k = a;
    proof {
        assert(v@ =~= input@.subrange(a as int, a as int));
    }
    while k < b
        invariant
            a <= k <= b <= input@.len(),
            v@ == input@.subrange(a as int, k as int),
        decreases b - k,
    {
        v.push(input[k]);
        proof {
            assert(input@.subrange(a as int, k + 1) =~= input@.subrange(a as int, k as int).push(
                input@[k as int],
            ));
        }
        k += 1;
    }
    v
}

/// Run the clause sub-state-machine over the trimmed line `input[i..t]`,
/// mutating the model exactly as [`run_clause`] describes.
#[verifier::loop_isolation(false)]
fn clause_line_exec(m: &mut Model, input: &Vec<u8>, i: usize, t: usize) -> (r: Result<
    (),
    ParseError,
>)
    requires
        old(m).wf(),
        i <= t <= input@.len(),
    ensures
        final(m).wf(),
        ({
            let pr = run_clause(
                old(m)@,
                input@.subrange(i as int, t as int),
                0,
                Sign::Positive,
                Seq::empty(),
                Seq::empty(),
            );
            final(m)@ == pr.0 && (match r {
                Ok(()) => pr.1 is None,
                Err(e) => pr.1 == Some(e),
            })
        }),
{
    let ghost l = input@.subrange(i as int, t as int);
    let mut p = i;
    let mut sign = Sign::Positive;
    let mut buf: Vec<u8> = Vec::new();
    let mut clause = Clause::new();
    while p < t
        invariant
            i <= p <= t,
            m.wf(),
            forall|k: int| 0 <= k < buf@.len() ==> DIGIT1 <= #[trigger] buf@[k] <= DIGIT9,
            clause_valid(clause@),
            run_clause(old(m)@, l, 0, Sign::Positive, Seq::empty(), Seq::empty()) == run_clause(
                m@,
                l,
                p - i,
                sign,
                buf@,
                clause@,
            ),
        decreases t - p,
    {
        let b = input[p];
        proof {
            assert(l[p - i] == b);
        }
        let tok = match Token::try_from_u8(b) {
            Ok(tok) => tok,
            Err(e) => {
                return Err(e);
            },
        };
        match tok {
            Token::SmallC | Token::SmallP => {
                return Err(ParseError::InvalidClause);
            },
            Token::Minus => {
                sign = Sign::Negative;
            },
            Token::Space => {
                proof {
                    assert(forall|k: int| 0 <= k < buf@.len() ==> is_digit(#[trigger] buf@[k]));
                }
                match parse_digits(&buf) {
                    Err(e) => {
                        return Err(e);
                    },
                    Ok(v) => {
                        proof {
                            lemma_dv_pos(buf@);
                        }
                        let lit = Literal { var: v, sign };
                        m.add_literal(lit);
                        clause.push(lit);
                        buf = Vec::new();
                        sign = Sign::Positive;
                    },
                }
            },
            Token::Digit0 => {
                m.add_clause(clause);
                clause = Clause::new();
            },
            _ => {
                proof {
                    assert(DIGIT1 <= b <= DIGIT9);
                }
                buf.push(b);
            },
        }
        p += 1;
    }
    Ok(())
}

/// Process one trimmed line `input[i..t]`, mutating the model exactly as
/// [`process_trimmed`] describes.
#[verifier::loop_isolation(false)]
fn process_trimmed_exec(m: &mut Model, input: &Vec<u8>, i: usize, t: usize) -> (r: Result<
    (),
    ParseError,
>)
    requires
        old(m).wf(),
        i <= t <= input@.len(),
    ensures
        final(m).wf(),
        ({
            let pr = process_trimmed(old(m)@, input@.subrange(i as int, t as int));
            final(m)@ == pr.0 && (match r {
                Ok(()) => pr.1 is None,
                Err(e) => pr.1 == Some(e),
            })
        }),
{
    let ghost l = input@.subrange(i as int, t as int);
    if t == i {
        return Err(ParseError::EmptyLine);
    }
    let first = input[i];
    proof {
        assert(l[0] == first);
    }
    if first == SMALL_C {
        let start = if t - i >= 2 && input[i + 1] == SPACE {
            i + 2
        } else {
            i + 1
        };
        proof {
            let rest = l.subrange(1, l.len() as int);
            assert(rest =~= input@.subrange(i + 1, t as int));
            if rest.len() > 0 && rest[0] == SPACE {
                assert(rest.subrange(1, rest.len() as int) =~= input@.subrange(i + 2, t as int));
            }
        }
        let comment = copy_range(input, start, t);
        m.add_comment(comment);
        Ok(())
    } else if first == SMALL_P {
        if t - i >= 6 && input[i + 1] == SPACE && input[i + 2] == SMALL_C && input[i + 3] == SMALL_N
            && input[i + 4] == SMALL_F && input[i + 5] == SPACE {
            proof {
                assert(is_header(l));
            }
            Ok(())
        } else {
            proof {
                assert(!is_header(l));
            }
            Err(ParseError::FormatError)
        }
    } else {
        clause_line_exec(m, input, i, t)
    }
}

impl Parser {
    /// Create a new DIMACS parser over the given problem text.
    pub fn new(input: Vec<u8>) -> (p: Parser)
        ensures
            p@ == input@,
    {
        Parser { input }
    }

    /// Parse the whole input into the model, line by line.  On failure the
    /// model keeps everything parsed before the failing byte; nothing is
    /// rolled back.
    #[verifier::loop_isolation(false)]
    pub fn parse_into(&mut self, m: &mut Model) -> (r: Result<(), ParseError>)
        requires
            old(m).wf(),
        ensures
            final(self)@ == old(self)@,
            final(m).wf(),
            final(m)@ == parse_from(old(m)@, old(self)@, 0).0,
            (match r {
                Ok(()) => parse_from(old(m)@, old(self)@, 0).1 is None,
                Err(e) => parse_from(old(m)@, old(self)@, 0).1 == Some(e),
            }),
    {
        let ghost s = self.input@;
        let ghost m0 = m@;
        let n = self.input.len();
        let mut i: usize = 0;
        while i < n
            invariant
                0 <= i <= n,
                self.input@ == s,
                n == s.len(),
                m.wf(),
                parse_from(m0, s, 0) == parse_from(m@, s, i as int),
            decreases n - i,
        {
            let j = line_end(&self.input, i);
            let t = trim_end(&self.input, i, j);
            let ghost mp = m@;
            let r = process_trimmed_exec(m, &self.input, i, t);
            proof {
                assert(process_line(mp, s.subrange(i as int, j as int)) == process_trimmed(
                    mp,
                    s.subrange(i as int, t as int),
                ));
            }
            match r {
                Ok(()) => {
                    i = j;
                },
                Err(e) => {
                    return Err(e);
                },
            }
        }
        Ok(())
    }
}

} // verus!
