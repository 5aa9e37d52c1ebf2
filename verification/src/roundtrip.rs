//! Laws relating parsing and rendering.
//!
//! The central result: rendering a model and parsing the rendered text back
//! into an empty model reproduces the variable set, the literal set and the
//! clause sequence, provided the model could have come out of a parse (its
//! literal set is exactly what its clauses mention), its comments hold no
//! line feed, and no variable has a zero among its decimal digits (a zero
//! digit would be read as a clause terminator, so such a model cannot round
//! trip).

use vstd::prelude::*;

use crate::model::{Literal, ModelView, Sign};
use crate::render::{
    clause_bytes, clauses_bytes, comment_line_bytes, comments_bytes, dec_of, header_bytes,
    lit_bytes, lits_bytes, render_spec,
};
use crate::{
    digits_value, end_of_line, parse_from, process_trimmed, run_clause, trim_line, CR, DIGIT1,
    DIGIT9, MINUS, NL, SMALL_C, SMALL_F, SMALL_N, SMALL_P, SPACE, ZERO,
};

verus! {

/// Whether the decimal digits of `n` contain no zero.
pub open spec fn no_zero_digit(n: int) -> bool
    decreases n,
{
    if n < 10 {
        n != 0
    } else {
        proof {
            vstd::arithmetic::div_mod::lemma_div_decreases(n, 10);
            vstd::arithmetic::div_mod::lemma_div_pos_is_pos(n, 10);
        }
        n % 10 != 0 && no_zero_digit(n / 10)
    }
}

/// A literal whose rendering parses back to itself: positive variable, no
/// zero digit.
pub open spec fn lit_renderable(l: Literal) -> bool {
    l.var >= 1 && no_zero_digit(l.var as int)
}

/// Every literal of the clause is renderable.
pub open spec fn clause_renderable(c: Seq<Literal>) -> bool {
    forall|i: int| 0 <= i < c.len() ==> lit_renderable(#[trigger] c[i])
}

/// Every clause is renderable.
pub open spec fn clauses_renderable(cs: Seq<Seq<Literal>>) -> bool {
    forall|i: int| 0 <= i < cs.len() ==> clause_renderable(#[trigger] cs[i])
}

/// A comment that stays on its own line when rendered: no line feed inside.
pub open spec fn comment_clean(c: Seq<u8>) -> bool {
    forall|k: int| 0 <= k < c.len() ==> #[trigger] c[k] != NL
}

/// Every comment is clean.
pub open spec fn comments_clean(cs: Seq<Seq<u8>>) -> bool {
    forall|i: int| 0 <= i < cs.len() ==> comment_clean(#[trigger] cs[i])
}

/// The set of literals mentioned by any clause of the sequence.
pub open spec fn clause_lits_set(cs: Seq<Seq<Literal>>) -> Set<Literal> {
    Set::new(|l: Literal| exists|k: int| 0 <= k < cs.len() && #[trigger] cs[k].contains(l))
}

/// The set of variables of a set of literals.
pub open spec fn set_vars(ls: Set<Literal>) -> Set<i64> {
    Set::new(|v: i64| exists|l: Literal| ls.contains(l) && l.var == v)
}

/// A comment as the parser reads it back: rendering appends a line feed, and
/// a carriage return that then precedes it is stripped on re-parsing.
pub open spec fn strip_cr(c: Seq<u8>) -> Seq<u8> {
    if c.len() > 0 && c.last() == CR {
        c.drop_last()
    } else {
        c
    }
}

/// The model after registering every literal of a clause, left to right.
pub open spec fn add_lits(m: ModelView, c: Seq<Literal>) -> ModelView
    decreases c.len(),
{
    if c.len() == 0 {
        m
    } else {
        add_lits(m.with_literal(c.first()), c.drop_first())
    }
}

/// The model after a whole well-formed clause line: every literal
/// registered, then the clause appended.
pub open spec fn add_clause_full(m: ModelView, c: Seq<Literal>) -> ModelView {
    add_lits(m, c).with_clause(c)
}

/// The model after a sequence of well-formed clause lines.
pub open spec fn add_clauses(m: ModelView, cs: Seq<Seq<Literal>>) -> ModelView
    decreases cs.len(),
{
    if cs.len() == 0 {
        m
    } else {
        add_clauses(add_clause_full(m, cs.first()), cs.drop_first())
    }
}

/// The model after re-parsing a sequence of rendered comment lines.
pub open spec fn add_comments_rt(m: ModelView, cs: Seq<Seq<u8>>) -> ModelView
    decreases cs.len(),
{
    if cs.len() == 0 {
        m
    } else {
        add_comments_rt(m.with_comment(strip_cr(cs.first())), cs.drop_first())
    }
}

/// The union of the literal sets of all clauses, front to back.
pub open spec fn all_lits(cs: Seq<Seq<Literal>>) -> Set<Literal>
    decreases cs.len(),
{
    if cs.len() == 0 {
        Set::empty()
    } else {
        cs.first().to_set() + all_lits(cs.drop_first())
    }
}

/// The set of a non-empty sequence is its head inserted into the set of its
/// tail.
proof fn lemma_seq_head_to_set<A>(s: Seq<A>)
    requires
        s.len() > 0,
    ensures
        s.to_set() == s.drop_first().to_set().insert(s.first()),
{
    let rest = s.drop_first();
    assert forall|x: A| s.to_set().contains(x) implies rest.to_set().insert(
        s.first(),
    ).contains(x) by {
        let i = choose|i: int| 0 <= i < s.len() && s[i] == x;
        if i != 0 {
            assert(rest[i - 1] == x);
            assert(rest.contains(x));
        }
    }
    assert forall|x: A| rest.to_set().insert(s.first()).contains(x) implies s.to_set().contains(
        x,
    ) by {
        if x == s.first() {
            assert(s[0] == x);
            assert(s.contains(x));
        } else {
            let i = choose|i: int| 0 <= i < rest.len() && rest[i] == x;
            assert(s[i + 1] == x);
            assert(s.contains(x));
        }
    }
    assert(s.to_set() =~= rest.to_set().insert(s.first()));
}

/// The decimal rendering of a non-negative integer is non-empty and made of
/// digit bytes.
pub proof fn lemma_dec_digits(n: int)
    requires
        n >= 0,
    ensures
        dec_of(n).len() >= 1,
        forall|k: int| 0 <= k < dec_of(n).len() ==> 48 <= #[trigger] dec_of(n)[k] <= 57,
    decreases n,
{
    if n < 10 {
    } else {
        vstd::arithmetic::div_mod::lemma_div_pos_is_pos(n, 10);
        vstd::arithmetic::div_mod::lemma_mod_bound(n, 10);
        lemma_dec_digits(n / 10);
        assert forall|k: int| 0 <= k < dec_of(n).len() implies 48 <= #[trigger] dec_of(n)[k]
            <= 57 by {
            if k < dec_of(n / 10).len() {
                assert(dec_of(n)[k] == dec_of(n / 10)[k]);
            }
        }
    }
}

/// With no zero digit, every byte of the rendering is a non-zero digit.
pub proof fn lemma_dec_nonzero_digits(n: int)
    requires
        n >= 1,
        no_zero_digit(n),
    ensures
        dec_of(n).len() >= 1,
        forall|k: int| 0 <= k < dec_of(n).len() ==> DIGIT1 <= #[trigger] dec_of(n)[k] <= DIGIT9,
    decreases n,
{
    if n < 10 {
    } else {
        vstd::arithmetic::div_mod::lemma_fundamental_div_mod(n, 10);
        vstd::arithmetic::div_mod::lemma_mod_bound(n, 10);
        assert(n / 10 >= 1);
        lemma_dec_nonzero_digits(n / 10);
        assert forall|k: int| 0 <= k < dec_of(n).len() implies DIGIT1 <= #[trigger] dec_of(n)[k]
            <= DIGIT9 by {
            if k < dec_of(n / 10).len() {
                assert(dec_of(n)[k] == dec_of(n / 10)[k]);
            }
        }
    }
}

/// Reading the decimal rendering back as digits gives the number itself.
pub proof fn lemma_dv_dec_of(n: int)
    requires
        n >= 0,
    ensures
        digits_value(dec_of(n)) == n,
    decreases n,
{
    if n < 10 {
        assert(dec_of(n).drop_last() =~= Seq::<u8>::empty());
        assert(((48 + n) as u8) as int == 48 + n);
        assert(dec_of(n).last() == (48 + n) as u8);
        assert(digits_value(dec_of(n)) == digits_value(Seq::<u8>::empty()) * 10 + ((48 + n) as u8
            - 48));
    } else {
        vstd::arithmetic::div_mod::lemma_fundamental_div_mod(n, 10);
        vstd::arithmetic::div_mod::lemma_mod_bound(n, 10);
        vstd::arithmetic::div_mod::lemma_div_pos_is_pos(n, 10);
        lemma_dv_dec_of(n / 10);
        assert(dec_of(n).drop_last() =~= dec_of(n / 10));
        assert(dec_of(n).last() == (48 + n % 10) as u8);
    }
}

/// Every byte of the rendered literals of a renderable clause is a minus, a
/// space or a non-zero digit.
proof fn lemma_lits_bytes_byteset(c: Seq<Literal>)
    requires
        clause_renderable(c),
    ensures
        forall|k: int|
            0 <= k < lits_bytes(c).len() ==> (#[trigger] lits_bytes(c)[k] == MINUS || lits_bytes(
                c,
            )[k] == SPACE || (DIGIT1 <= lits_bytes(c)[k] <= DIGIT9)),
    decreases c.len(),
{
    if c.len() == 0 {
    } else {
        let l0 = c.first();
        assert(lit_renderable(l0));
        lemma_dec_nonzero_digits(l0.var as int);
        assert(clause_renderable(c.drop_first())) by {
            assert(forall|i: int|
                0 <= i < c.drop_first().len() ==> #[trigger] c.drop_first()[i] == c[i + 1]);
        }
        lemma_lits_bytes_byteset(c.drop_first());
        let head = lit_bytes(l0) + seq![SPACE];
        assert(lits_bytes(c) == head + lits_bytes(c.drop_first()));
        assert forall|k: int|
            0 <= k < lits_bytes(c).len() implies (#[trigger] lits_bytes(c)[k] == MINUS
            || lits_bytes(c)[k] == SPACE || (DIGIT1 <= lits_bytes(c)[k] <= DIGIT9)) by {
            if k < head.len() {
                assert(lits_bytes(c)[k] == head[k]);
            } else {
                assert(lits_bytes(c)[k] == lits_bytes(c.drop_first())[k - head.len()]);
            }
        }
    }
}

/// Scanning a run of non-zero digit bytes only extends the pending buffer.
proof fn lemma_run_digits(
    m: ModelView,
    l: Seq<u8>,
    i: int,
    j: int,
    sign: Sign,
    buf: Seq<u8>,
    cl: Seq<Literal>,
)
    requires
        0 <= i <= j <= l.len(),
        forall|k: int| i <= k < j ==> DIGIT1 <= #[trigger] l[k] <= DIGIT9,
    ensures
        run_clause(m, l, i, sign, buf, cl) == run_clause(m, l, j, sign, buf + l.subrange(i, j), cl),
    decreases j - i,
{
    if i == j {
        assert(buf + l.subrange(i, j) =~= buf);
    } else {
        assert(DIGIT1 <= l[i] <= DIGIT9);
        assert(run_clause(m, l, i, sign, buf, cl) == run_clause(
            m,
            l,
            i + 1,
            sign,
            buf.push(l[i]),
            cl,
        ));
        lemma_run_digits(m, l, i + 1, j, sign, buf.push(l[i]), cl);
        assert(buf.push(l[i]) + l.subrange(i + 1, j) =~= buf + l.subrange(i, j));
    }
}

/// Scanning one rendered literal and its following space registers exactly
/// that literal and appends it to the pending clause.
proof fn lemma_run_lit(m: ModelView, l: Seq<u8>, i: int, lit: Literal, cl: Seq<Literal>)
    requires
        lit_renderable(lit),
        0 <= i,
        i + lit_bytes(lit).len() + 1 <= l.len(),
        l.subrange(i, i + lit_bytes(lit).len() as int) == lit_bytes(lit),
        l[i + lit_bytes(lit).len() as int] == SPACE,
    ensures
        run_clause(m, l, i, Sign::Positive, Seq::empty(), cl) == run_clause(
            m.with_literal(lit),
            l,
            i + lit_bytes(lit).len() + 1,
            Sign::Positive,
            Seq::empty(),
            cl.push(lit),
        ),
{
    let w = lit_bytes(lit).len() as int;
    let d = dec_of(lit.var as int);
    lemma_dec_nonzero_digits(lit.var as int);
    let neg = lit.sign == Sign::Negative;
    let ds = if neg {
        i + 1
    } else {
        i
    };
    // The digit run occupies l[ds .. i + w].
    assert forall|k: int| ds <= k < i + w implies DIGIT1 <= #[trigger] l[k] <= DIGIT9 by {
        assert(l[k] == lit_bytes(lit)[k - i]);
        if neg {
            assert(lit_bytes(lit)[k - i] == d[k - i - 1]);
        } else {
            assert(lit_bytes(lit)[k - i] == d[k - i]);
        }
    }
    if neg {
        assert(l[i] == lit_bytes(lit)[0]);
        assert(lit_bytes(lit)[0] == MINUS);
        assert(run_clause(m, l, i, Sign::Positive, Seq::empty(), cl) == run_clause(
            m,
            l,
            i + 1,
            Sign::Negative,
            Seq::empty(),
            cl,
        ));
        lemma_run_digits(m, l, i + 1, i + w, Sign::Negative, Seq::empty(), cl);
        assert(Seq::<u8>::empty() + l.subrange(i + 1, i + w) =~= d) by {
            assert forall|k: int| 0 <= k < w - 1 implies l.subrange(i + 1, i + w)[k] == d[k] by {
                assert(l[i + 1 + k] == lit_bytes(lit)[1 + k]);
            }
        }
    } else {
        lemma_run_digits(m, l, i, i + w, Sign::Positive, Seq::empty(), cl);
        assert(Seq::<u8>::empty() + l.subrange(i, i + w) =~= d) by {
            assert forall|k: int| 0 <= k < w implies l.subrange(i, i + w)[k] == d[k] by {
                assert(l[i + k] == lit_bytes(lit)[k]);
            }
        }
    }
    // Now at the space, with the digit buffer holding exactly `d`.
    lemma_dv_dec_of(lit.var as int);
    assert(digits_value(d) == lit.var as int);
    assert(d.len() > 0);
    let sign_now = if neg {
        Sign::Negative
    } else {
        Sign::Positive
    };
    assert(run_clause(m, l, i + w, sign_now, d, cl) == run_clause(
        m.with_literal(lit),
        l,
        i + w + 1,
        Sign::Positive,
        Seq::empty(),
        cl.push(lit),
    )) by {
        assert(l[i + w] == SPACE);
        assert(!(digits_value(d) > i64::MAX));
        assert(Literal { var: digits_value(d) as i64, sign: sign_now } == lit);
    }
}

/// Scanning the rendered literals of a clause followed by the terminating
/// zero at the very end of the line registers the literals in order and
/// appends the clause.
proof fn lemma_run_clause_lits(m: ModelView, l: Seq<u8>, i: int, c: Seq<Literal>, acc: Seq<Literal>)
    requires
        clause_renderable(c),
        0 <= i <= l.len(),
        l.subrange(i, l.len() as int) == lits_bytes(c) + seq![ZERO],
    ensures
        run_clause(m, l, i, Sign::Positive, Seq::empty(), acc) == (
        add_lits(m, c).with_clause(acc + c), None::<crate::ParseError>),
    decreases c.len(),
{
    let suffix = l.subrange(i, l.len() as int);
    if c.len() == 0 {
        assert(suffix =~= seq![ZERO]);
        assert(l[i] == suffix[0]);
        assert(l.len() == i + 1);
        assert(run_clause(m, l, i, Sign::Positive, Seq::empty(), acc) == run_clause(
            m.with_clause(acc),
            l,
            i + 1,
            Sign::Positive,
            Seq::empty(),
            Seq::empty(),
        ));
        assert(acc + c =~= acc);
    } else {
        let lit = c.first();
        let rest = c.drop_first();
        assert(clause_renderable(rest)) by {
            assert(forall|k: int| 0 <= k < rest.len() ==> #[trigger] rest[k] == c[k + 1]);
        }
        assert(lit_renderable(lit));
        let w = lit_bytes(lit).len() as int;
        assert(lits_bytes(c) == lit_bytes(lit) + seq![SPACE] + lits_bytes(rest));
        assert(suffix =~= lit_bytes(lit) + seq![SPACE] + (lits_bytes(rest) + seq![ZERO]));
        assert(l.subrange(i, i + w) =~= lit_bytes(lit)) by {
            assert forall|k: int| 0 <= k < w implies l.subrange(i, i + w)[k] == lit_bytes(
                lit,
            )[k] by {
                assert(l[i + k] == suffix[k]);
            }
        }
        assert(l[i + w] == suffix[w]);
        assert(suffix[w] == SPACE);
        lemma_run_lit(m, l, i, lit, acc);
        assert(l.subrange(i + w + 1, l.len() as int) =~= lits_bytes(rest) + seq![ZERO]) by {
            assert forall|k: int|
                0 <= k < l.len() - (i + w + 1) implies l.subrange(i + w + 1, l.len() as int)[k]
                == (lits_bytes(rest) + seq![ZERO])[k] by {
                assert(l[i + w + 1 + k] == suffix[w + 1 + k]);
            }
        }
        lemma_run_clause_lits(m.with_literal(lit), l, i + w + 1, rest, acc.push(lit));
        assert(acc.push(lit) + rest =~= acc + c);
        assert(add_lits(m, c) == add_lits(m.with_literal(lit), rest));
    }
}

/// The end of the line starting at `i` is just past the first line feed.
proof fn lemma_eol_scan(s: Seq<u8>, i: int, j: int)
    requires
        0 <= i <= j < s.len(),
        forall|k: int| i <= k < j ==> #[trigger] s[k] != NL,
        s[j] == NL,
    ensures
        end_of_line(s, i) == j + 1,
    decreases j - i,
{
    if i == j {
    } else {
        assert(s[i] != NL);
        lemma_eol_scan(s, i + 1, j);
    }
}

/// Re-parsing one rendered comment line appends that comment (with a
/// trailing carriage return, if any, stripped) and nothing else.
proof fn lemma_parse_comment_step(m: ModelView, s: Seq<u8>, i: int, c: Seq<u8>)
    requires
        comment_clean(c),
        0 <= i,
        i + c.len() + 3 <= s.len(),
        s.subrange(i, i + c.len() + 3) == comment_line_bytes(c),
    ensures
        parse_from(m, s, i) == parse_from(m.with_comment(strip_cr(c)), s, i + c.len() + 3),
{
    let clen = c.len() + 3;
    let raw = comment_line_bytes(c);
    assert forall|k: int| 0 <= k < clen implies s[i + k] == raw[k] by {
        assert(s.subrange(i, i + clen)[k] == s[i + k]);
    }
    assert(raw[clen - 1] == NL);
    assert forall|k: int| i <= k < i + clen - 1 implies #[trigger] s[k] != NL by {
        assert(s[k] == raw[k - i]);
        if k - i >= 2 {
            assert(raw[k - i] == c[k - i - 2]);
        }
    }
    lemma_eol_scan(s, i, i + clen - 1);
    assert(end_of_line(s, i) == i + clen);
    assert(s.subrange(i, i + clen) =~= raw);
    // Trimming strips the line feed and a then-trailing carriage return.
    let l2 = raw.drop_last();
    assert(l2 =~= seq![SMALL_C, SPACE] + c);
    let trimmed = trim_line(raw);
    let c2 = strip_cr(c);
    assert(trimmed =~= seq![SMALL_C, SPACE] + c2) by {
        if c.len() > 0 && c.last() == CR {
            assert(l2.last() == c.last());
            assert(l2.drop_last() =~= seq![SMALL_C, SPACE] + c.drop_last());
        } else {
            if l2.last() == CR {
                if c.len() == 0 {
                    assert(l2.last() == SPACE);
                } else {
                    assert(l2.last() == c.last());
                }
            }
        }
    }
    // The trimmed line is a comment line.
    assert(trimmed[0] == SMALL_C);
    assert(trimmed.len() >= 2);
    let rest = trimmed.subrange(1, trimmed.len() as int);
    assert(rest[0] == SPACE);
    assert(rest.subrange(1, rest.len() as int) =~= c2);
    assert(process_trimmed(m, trimmed) == (m.with_comment(c2), None::<crate::ParseError>));
    assert(parse_from(m, s, i) == parse_from(m.with_comment(c2), s, i + clen));
}

/// Re-parsing all rendered comment lines appends the comments and nothing
/// else.
proof fn lemma_parse_comments(m: ModelView, s: Seq<u8>, i: int, cs: Seq<Seq<u8>>)
    requires
        comments_clean(cs),
        0 <= i,
        i + comments_bytes(cs).len() <= s.len(),
        s.subrange(i, i + comments_bytes(cs).len() as int) == comments_bytes(cs),
    ensures
        parse_from(m, s, i) == parse_from(
            add_comments_rt(m, cs),
            s,
            i + comments_bytes(cs).len() as int,
        ),
    decreases cs.len(),
{
    if cs.len() == 0 {
    } else {
        let c = cs.first();
        let rest = cs.drop_first();
        assert(comments_clean(rest)) by {
            assert(forall|k: int| 0 <= k < rest.len() ==> #[trigger] rest[k] == cs[k + 1]);
        }
        let hd = comment_line_bytes(c);
        let total = comments_bytes(cs);
        assert(total == hd + comments_bytes(rest));
        assert forall|k: int| 0 <= k < total.len() implies s[i + k] == total[k] by {
            assert(s.subrange(i, i + total.len() as int)[k] == s[i + k]);
        }
        assert(s.subrange(i, i + c.len() + 3) =~= hd) by {
            assert forall|k: int| 0 <= k < hd.len() implies s[i + k] == hd[k] by {
                assert(total[k] == hd[k]);
            }
        }
        lemma_parse_comment_step(m, s, i, c);
        let i2 = i + hd.len() as int;
        assert(s.subrange(i2, i2 + comments_bytes(rest).len() as int) =~= comments_bytes(rest))
            by {
            assert forall|k: int|
                0 <= k < comments_bytes(rest).len() implies s[i2 + k] == comments_bytes(
                rest,
            )[k] by {
                assert(total[hd.len() + k] == comments_bytes(rest)[k]);
            }
        }
        lemma_parse_comments(m.with_comment(strip_cr(c)), s, i2, rest);
    }
}

/// Re-parsing the rendered header line changes nothing: the header is
/// checked for its prefix and its counts are ignored.
proof fn lemma_parse_header_step(m: ModelView, s: Seq<u8>, i: int, nv: int, nc: int)
    requires
        nv >= 0,
        nc >= 0,
        0 <= i,
        i + header_bytes(nv, nc).len() <= s.len(),
        s.subrange(i, i + header_bytes(nv, nc).len() as int) == header_bytes(nv, nc),
    ensures
        parse_from(m, s, i) == parse_from(m, s, i + header_bytes(nv, nc).len() as int),
{
    let raw = header_bytes(nv, nc);
    let hlen = raw.len() as int;
    lemma_dec_digits(nv);
    lemma_dec_digits(nc);
    assert forall|k: int| 0 <= k < hlen implies s[i + k] == raw[k] by {
        assert(s.subrange(i, i + hlen)[k] == s[i + k]);
    }
    let pre = seq![SMALL_P, SPACE, SMALL_C, SMALL_N, SMALL_F, SPACE];
    let body = pre + dec_of(nv) + seq![SPACE] + dec_of(nc);
    assert(raw =~= body + seq![NL]);
    assert forall|k: int| 0 <= k < body.len() implies #[trigger] body[k] != NL && 13 <= body[k] by {
        if k < pre.len() {
        } else if k < pre.len() + dec_of(nv).len() {
            assert(body[k] == dec_of(nv)[k - pre.len()]);
        } else if k == pre.len() + dec_of(nv).len() {
            assert(body[k] == SPACE);
        } else {
            assert(body[k] == dec_of(nc)[k - pre.len() - dec_of(nv).len() - 1]);
        }
    }
    assert(raw[hlen - 1] == NL);
    assert forall|k: int| i <= k < i + hlen - 1 implies #[trigger] s[k] != NL by {
        assert(s[k] == raw[k - i]);
        assert(raw[k - i] == body[k - i]);
    }
    lemma_eol_scan(s, i, i + hlen - 1);
    assert(s.subrange(i, i + hlen) =~= raw);
    let trimmed = trim_line(raw);
    assert(raw.drop_last() =~= body);
    assert(body.last() == dec_of(nc).last());
    assert(48 <= body.last() <= 57);
    assert(trimmed =~= body);
    assert(trimmed[0] == SMALL_P);
    assert(crate::is_header(trimmed));
    assert(process_trimmed(m, trimmed) == (m, None::<crate::ParseError>));
    assert(parse_from(m, s, i) == parse_from(m, s, i + hlen));
}

/// Re-parsing the rendered clause lines, which reach to the end of the
/// text, registers every literal of every clause and appends every clause,
/// in order.
proof fn lemma_parse_clause_lines(m: ModelView, s: Seq<u8>, i: int, cs: Seq<Seq<Literal>>)
    requires
        clauses_renderable(cs),
        0 <= i <= s.len(),
        s.subrange(i, s.len() as int) == clauses_bytes(cs),
    ensures
        parse_from(m, s, i) == (add_clauses(m, cs), None::<crate::ParseError>),
    decreases cs.len(),
{
    if cs.len() == 0 {
        assert(s.subrange(i, s.len() as int).len() == 0);
        assert(i == s.len());
    } else {
        let c = cs.first();
        let rest = cs.drop_first();
        assert(clauses_renderable(rest)) by {
            assert(forall|k: int| 0 <= k < rest.len() ==> #[trigger] rest[k] == cs[k + 1]);
        }
        assert(clause_renderable(c));
        let line = clause_bytes(c);
        let llen = line.len() as int;
        let total = clauses_bytes(cs);
        assert(total == line + clauses_bytes(rest));
        assert forall|k: int| 0 <= k < total.len() implies s[i + k] == total[k] by {
            assert(s.subrange(i, s.len() as int)[k] == s[i + k]);
        }
        lemma_lits_bytes_byteset(c);
        let lb = lits_bytes(c);
        assert(line =~= (lb + seq![ZERO]) + seq![NL]);
        assert(line[llen - 1] == NL);
        assert forall|k: int| i <= k < i + llen - 1 implies #[trigger] s[k] != NL by {
            assert(s[k] == total[k - i]);
            assert(total[k - i] == line[k - i]);
            if k - i < lb.len() {
                assert(line[k - i] == lb[k - i]);
            } else {
                assert(line[k - i] == ZERO);
            }
        }
        assert(i + llen - 1 < s.len());
        let last = llen - 1;
        assert(total[last] == line[last]);
        assert(s[i + last] == total[last]);
        assert(s[i + llen - 1] == line[llen - 1]);
        lemma_eol_scan(s, i, i + llen - 1);
        assert(end_of_line(s, i) == i + llen);
        let raw = s.subrange(i, i + llen);
        assert(raw =~= line) by {
            assert forall|k: int| 0 <= k < llen implies raw[k] == line[k] by {
                assert(raw[k] == s[i + k]);
                assert(total[k] == line[k]);
            }
        }
        let trimmed = trim_line(line);
        assert(line.drop_last() =~= lb + seq![ZERO]);
        assert((lb + seq![ZERO]).last() == ZERO);
        assert(trimmed =~= lb + seq![ZERO]);
        // The first byte of the trimmed line puts it on the clause branch.
        assert(trimmed.len() > 0);
        assert(trimmed[0] != SMALL_C && trimmed[0] != SMALL_P) by {
            if lb.len() == 0 {
                assert(trimmed[0] == ZERO);
            } else {
                assert(trimmed[0] == lb[0]);
            }
        }
        assert(trimmed.subrange(0, trimmed.len() as int) =~= lits_bytes(c) + seq![ZERO]);
        lemma_run_clause_lits(m, trimmed, 0, c, Seq::empty());
        assert(Seq::<Literal>::empty() + c =~= c);
        assert(process_trimmed(m, trimmed) == (
            add_clause_full(m, c),
            None::<crate::ParseError>,
        ));
        assert(parse_from(m, s, i) == parse_from(add_clause_full(m, c), s, i + llen));
        assert(s.subrange(i + llen, s.len() as int) =~= clauses_bytes(rest)) by {
            assert forall|k: int|
                0 <= k < s.len() - (i + llen) implies s[i + llen + k] == clauses_bytes(
                rest,
            )[k] by {
                assert(total[llen + k] == clauses_bytes(rest)[k]);
            }
        }
        lemma_parse_clause_lines(add_clause_full(m, c), s, i + llen, rest);
        assert(add_clauses(m, cs) == add_clauses(add_clause_full(m, c), rest));
    }
}

/// Appending comments leaves variables, literals and clauses untouched.
proof fn lemma_add_comments_rt_effect(m: ModelView, cs: Seq<Seq<u8>>)
    ensures
        add_comments_rt(m, cs).vars == m.vars,
        add_comments_rt(m, cs).lits == m.lits,
        add_comments_rt(m, cs).clauses == m.clauses,
    decreases cs.len(),
{
    if cs.len() == 0 {
    } else {
        lemma_add_comments_rt_effect(m.with_comment(strip_cr(cs.first())), cs.drop_first());
    }
}

/// The sets of variables of two united literal sets unite.
proof fn lemma_set_vars_union(a: Set<Literal>, b: Set<Literal>)
    ensures
        set_vars(a + b) == set_vars(a) + set_vars(b),
{
    assert forall|v: i64| set_vars(a + b).contains(v) implies (set_vars(a) + set_vars(
        b,
    )).contains(v) by {
        let l = choose|l: Literal| (a + b).contains(l) && l.var == v;
        if a.contains(l) {
            assert(set_vars(a).contains(v));
        } else {
            assert(set_vars(b).contains(v));
        }
    }
    assert forall|v: i64| (set_vars(a) + set_vars(b)).contains(v) implies set_vars(
        a + b,
    ).contains(v) by {
        if set_vars(a).contains(v) {
            let l = choose|l: Literal| a.contains(l) && l.var == v;
            assert((a + b).contains(l));
        } else {
            let l = choose|l: Literal| b.contains(l) && l.var == v;
            assert((a + b).contains(l));
        }
    }
    assert(set_vars(a + b) =~= set_vars(a) + set_vars(b));
}

/// Registering the literals of a clause adds exactly its literal set and
/// the matching variables; comments and clauses stay.
proof fn lemma_add_lits_effect(m: ModelView, c: Seq<Literal>)
    ensures
        add_lits(m, c).comments == m.comments,
        add_lits(m, c).clauses == m.clauses,
        add_lits(m, c).lits == m.lits + c.to_set(),
        add_lits(m, c).vars == m.vars + set_vars(c.to_set()),
    decreases c.len(),
{
    if c.len() == 0 {
        assert(c.to_set() =~= Set::<Literal>::empty());
        assert(set_vars(c.to_set()) =~= Set::<i64>::empty()) by {
            assert forall|v: i64| !set_vars(c.to_set()).contains(v) by {
                if set_vars(c.to_set()).contains(v) {
                    let l = choose|l: Literal| c.to_set().contains(l) && l.var == v;
                    assert(c.contains(l));
                }
            }
        }
        assert(m.lits + c.to_set() =~= m.lits);
        assert(m.vars + set_vars(c.to_set()) =~= m.vars);
    } else {
        let l0 = c.first();
        let rest = c.drop_first();
        let m1 = m.with_literal(l0);
        lemma_add_lits_effect(m1, rest);
        lemma_seq_head_to_set(c);
        assert(c.to_set() == rest.to_set().insert(l0));
        assert(m1.lits + rest.to_set() =~= m.lits + c.to_set());
        // Variables.
        lemma_set_vars_union(rest.to_set(), Set::empty().insert(l0));
        assert(rest.to_set() + Set::empty().insert(l0) =~= c.to_set());
        assert(set_vars(Set::empty().insert(l0)) =~= Set::empty().insert(l0.var)) by {
            assert(Set::empty().insert(l0).contains(l0));
            assert forall|v: i64|
                set_vars(Set::empty().insert(l0)).contains(v) implies v == l0.var by {
                let l = choose|l: Literal| Set::empty().insert(l0).contains(l) && l.var == v;
            }
        }
        assert(m1.vars + set_vars(rest.to_set()) =~= m.vars + set_vars(c.to_set()));
    }
}

/// Appending a run of clause lines appends the clauses in order and unites
/// in their literal sets and variables; comments stay.
proof fn lemma_add_clauses_effect(m: ModelView, cs: Seq<Seq<Literal>>)
    ensures
        add_clauses(m, cs).comments == m.comments,
        add_clauses(m, cs).clauses == m.clauses + cs,
        add_clauses(m, cs).lits == m.lits + all_lits(cs),
        add_clauses(m, cs).vars == m.vars + set_vars(all_lits(cs)),
    decreases cs.len(),
{
    if cs.len() == 0 {
        assert(m.clauses + cs =~= m.clauses);
        assert(all_lits(cs) =~= Set::<Literal>::empty());
        assert(set_vars(all_lits(cs)) =~= Set::<i64>::empty()) by {
            assert forall|v: i64| !set_vars(all_lits(cs)).contains(v) by {
                if set_vars(all_lits(cs)).contains(v) {
                    let l = choose|l: Literal| all_lits(cs).contains(l) && l.var == v;
                }
            }
        }
        assert(m.lits + all_lits(cs) =~= m.lits);
        assert(m.vars + set_vars(all_lits(cs)) =~= m.vars);
    } else {
        let c0 = cs.first();
        let rest = cs.drop_first();
        let m1 = add_clause_full(m, c0);
        lemma_add_lits_effect(m, c0);
        lemma_add_clauses_effect(m1, rest);
        assert(all_lits(cs) == c0.to_set() + all_lits(rest));
        assert(m1.clauses + rest =~= m.clauses + cs) by {
            assert(m1.clauses == m.clauses.push(c0));
        }
        assert(m1.lits + all_lits(rest) =~= m.lits + all_lits(cs));
        lemma_set_vars_union(c0.to_set(), all_lits(rest));
        assert(m1.vars + set_vars(all_lits(rest)) =~= m.vars + set_vars(all_lits(cs)));
    }
}

/// The union of the per-clause literal sets is the set of literals any
/// clause mentions.
proof fn lemma_all_lits_eq(cs: Seq<Seq<Literal>>)
    ensures
        all_lits(cs) == clause_lits_set(cs),
    decreases cs.len(),
{
    if cs.len() == 0 {
        assert(all_lits(cs) =~= clause_lits_set(cs)) by {
            assert forall|l: Literal| !clause_lits_set(cs).contains(l) by {
                if clause_lits_set(cs).contains(l) {
                    let k = choose|k: int| 0 <= k < cs.len() && #[trigger] cs[k].contains(l);
                }
            }
        }
    } else {
        let rest = cs.drop_first();
        lemma_all_lits_eq(rest);
        assert forall|l: Literal| all_lits(cs).contains(l) implies clause_lits_set(cs).contains(
            l,
        ) by {
            if cs.first().to_set().contains(l) {
                assert(cs[0].contains(l));
            } else {
                assert(clause_lits_set(rest).contains(l));
                let k = choose|k: int| 0 <= k < rest.len() && #[trigger] rest[k].contains(l);
                assert(cs[k + 1].contains(l));
            }
        }
        assert forall|l: Literal| clause_lits_set(cs).contains(l) implies all_lits(cs).contains(
            l,
        ) by {
            let k = choose|k: int| 0 <= k < cs.len() && #[trigger] cs[k].contains(l);
            if k == 0 {
                assert(cs.first().to_set().contains(l));
            } else {
                assert(rest[k - 1].contains(l));
                assert(clause_lits_set(rest).contains(l));
            }
        }
        assert(all_lits(cs) =~= clause_lits_set(cs));
    }
}

/// Rendering a model and re-parsing the rendered text into an empty model
/// yields the same variable set, the same literal set and the same clause
/// sequence, and the parse succeeds.  The model must be one a parse could
/// have produced: its literal set is exactly what its clauses mention, its
/// comments hold no line feed, and no variable has a zero among its decimal
/// digits.
pub proof fn theorem_render_parse_round_trip(m: ModelView)
    requires
        m.wf(),
        m.lits == clause_lits_set(m.clauses),
        clauses_renderable(m.clauses),
        comments_clean(m.comments),
    ensures
        ({
            let (m2, e) = parse_from(ModelView::empty(), render_spec(m), 0);
            e is None && m2.vars == m.vars && m2.lits == m.lits && m2.clauses == m.clauses
        }),
{
    let s = render_spec(m);
    let a = comments_bytes(m.comments);
    let b = header_bytes(m.vars.len() as int, m.clauses.len() as int);
    let c = clauses_bytes(m.clauses);
    assert(s == a + b + c);
    let m0 = ModelView::empty();
    // Comment lines.
    assert(s.subrange(0, a.len() as int) =~= a);
    lemma_parse_comments(m0, s, 0, m.comments);
    let m1 = add_comments_rt(m0, m.comments);
    // Header line.
    assert(s.subrange(a.len() as int, (a.len() + b.len()) as int) =~= b);
    lemma_parse_header_step(m1, s, a.len() as int, m.vars.len() as int, m.clauses.len() as int);
    // Clause lines.
    assert(s.subrange((a.len() + b.len()) as int, s.len() as int) =~= c);
    lemma_parse_clause_lines(m1, s, (a.len() + b.len()) as int, m.clauses);
    let m2 = add_clauses(m1, m.clauses);
    assert(parse_from(m0, s, 0) == (m2, None::<crate::ParseError>));
    // The resulting sets and sequences.
    lemma_add_comments_rt_effect(m0, m.comments);
    lemma_add_clauses_effect(m1, m.clauses);
    lemma_all_lits_eq(m.clauses);
    assert(m2.clauses =~= m.clauses);
    assert(m2.lits =~= m.lits);
    assert(m2.vars =~= m.vars) by {
        assert forall|v: i64| m2.vars.contains(v) implies m.vars.contains(v) by {
            assert(set_vars(all_lits(m.clauses)).contains(v));
            let l = choose|l: Literal| all_lits(m.clauses).contains(l) && l.var == v;
            assert(m.lits.contains(l));
        }
        assert forall|v: i64| m.vars.contains(v) implies m2.vars.contains(v) by {
            let l = choose|l: Literal| m.lits.contains(l) && l.var == v;
            assert(all_lits(m.clauses).contains(l));
            assert(set_vars(all_lits(m.clauses)).contains(v));
        }
    }
}

/// A well-formed clause line parses to exactly the literals written on it,
/// in their written order: the line's clause is appended as written and its
/// literals join the global literal set.
pub proof fn lemma_clause_line_parses_in_order(m: ModelView, c: Seq<Literal>)
    requires
        clause_renderable(c),
    ensures
        ({
            let (m2, e) = process_trimmed(m, lits_bytes(c) + seq![ZERO]);
            e is None && m2.clauses == m.clauses.push(c) && m2.lits == m.lits + c.to_set()
        }),
{
    let l = lits_bytes(c) + seq![ZERO];
    lemma_lits_bytes_byteset(c);
    assert(l.len() > 0);
    assert(l[0] != SMALL_C && l[0] != SMALL_P) by {
        if lits_bytes(c).len() == 0 {
            assert(l[0] == ZERO);
        } else {
            assert(l[0] == lits_bytes(c)[0]);
        }
    }
    assert(l.subrange(0, l.len() as int) =~= lits_bytes(c) + seq![ZERO]);
    lemma_run_clause_lits(m, l, 0, c, Seq::empty());
    assert(Seq::<Literal>::empty() + c =~= c);
    lemma_add_lits_effect(m, c);
}

/// A literal shared by two clauses is registered once in the global literal
/// set, while each clause keeps its own occurrence.
pub proof fn lemma_literal_in_two_clauses(m: ModelView, l: Literal)
    ensures
        add_clause_full(add_clause_full(m, seq![l]), seq![l]).lits == m.lits.insert(l),
        add_clause_full(add_clause_full(m, seq![l]), seq![l]).clauses == m.clauses.push(
            seq![l],
        ).push(seq![l]),
{
    let m1 = add_clause_full(m, seq![l]);
    let m2 = add_clause_full(m1, seq![l]);
    lemma_add_lits_effect(m, seq![l]);
    lemma_add_lits_effect(m1, seq![l]);
    assert(seq![l].to_set() =~= Set::empty().insert(l)) by {
        assert(seq![l][0] == l);
        assert(seq![l].contains(l));
        assert forall|x: Literal| seq![l].to_set().contains(x) implies x == l by {
            let i = choose|i: int| 0 <= i < seq![l].len() && seq![l][i] == x;
        }
    }
    assert(m1.lits =~= m.lits.insert(l));
    assert(m2.lits =~= m.lits.insert(l));
}

/// A clause line that never reaches a terminating zero appends no clause:
/// the pending clause is scoped to its line and is discarded at the line's
/// end.
pub proof fn lemma_unterminated_clause_discarded(m: ModelView, l: Seq<u8>)
    requires
        l.len() > 0,
        l[0] != SMALL_C,
        l[0] != SMALL_P,
        forall|k: int| 0 <= k < l.len() ==> #[trigger] l[k] != ZERO,
    ensures
        process_trimmed(m, l).0.clauses == m.clauses,
{
    lemma_run_no_zero(m, l, 0, Sign::Positive, Seq::empty(), Seq::empty());
}

/// Helper for the law above: without a zero byte ahead, the clause machine
/// never appends a clause.
proof fn lemma_run_no_zero(
    m: ModelView,
    l: Seq<u8>,
    i: int,
    sign: Sign,
    buf: Seq<u8>,
    cl: Seq<Literal>,
)
    requires
        0 <= i,
        forall|k: int| i <= k < l.len() ==> #[trigger] l[k] != ZERO,
    ensures
        run_clause(m, l, i, sign, buf, cl).0.clauses == m.clauses,
    decreases l.len() - i,
{
    if i >= l.len() {
    } else {
        let b = l[i];
        if b == SMALL_C || b == SMALL_P {
        } else if b == MINUS {
            lemma_run_no_zero(m, l, i + 1, Sign::Negative, buf, cl);
        } else if b == SPACE {
            if buf.len() == 0 || digits_value(buf) > i64::MAX {
            } else {
                let lit = Literal { var: digits_value(buf) as i64, sign };
                lemma_run_no_zero(
                    m.with_literal(lit),
                    l,
                    i + 1,
                    Sign::Positive,
                    Seq::empty(),
                    cl.push(lit),
                );
            }
        } else if DIGIT1 <= b && b <= DIGIT9 {
            lemma_run_no_zero(m, l, i + 1, sign, buf.push(b), cl);
        }
    }
}

/// A line starting with the header marker succeeds exactly when it starts
/// with the full required prefix, and never changes the model; a malformed
/// header is a format error.
pub proof fn lemma_header_line_exact(m: ModelView, l: Seq<u8>)
    requires
        l.len() > 0,
        l[0] == SMALL_P,
    ensures
        crate::is_header(l) ==> process_trimmed(m, l) == (m, None::<crate::ParseError>),
        !crate::is_header(l) ==> process_trimmed(m, l) == (
            m,
            Some(crate::ParseError::FormatError),
        ),
{
}

} // verus!
