//! Canonical textual re-serialization of a model back to DIMACS CNF text:
//! one line per comment, one header line carrying the counts of variables
//! and clauses actually stored, then one line per clause.

use vstd::prelude::*;

use crate::model::{Literal, Model, ModelView, Sign};
use crate::{MINUS, NL, SMALL_C, SMALL_F, SMALL_N, SMALL_P, SPACE, ZERO};

verus! {

/// The decimal digits of a non-negative integer, most significant first.
pub open spec fn dec_of(n: int) -> Seq<u8>
    decreases n,
{
    if n < 10 {
        seq![(48 + n) as u8]
    } else {
        proof {
            vstd::arithmetic::div_mod::lemma_div_decreases(n, 10);
            vstd::arithmetic::div_mod::lemma_div_pos_is_pos(n, 10);
        }
        dec_of(n / 10).push((48 + n % 10) as u8)
    }
}

/// The bytes of one rendered comment line: the marker, one space, the
/// comment text, a line feed.
pub open spec fn comment_line_bytes(c: Seq<u8>) -> Seq<u8> {
    seq![SMALL_C, SPACE] + c + seq![NL]
}

/// The bytes of all rendered comment lines, in order.
pub open spec fn comments_bytes(cs: Seq<Seq<u8>>) -> Seq<u8>
    decreases cs.len(),
{
    if cs.len() == 0 {
        Seq::empty()
    } else {
        comment_line_bytes(cs.first()) + comments_bytes(cs.drop_first())
    }
}

/// The bytes of the rendered header line `p cnf <variables> <clauses>`.
pub open spec fn header_bytes(nv: int, nc: int) -> Seq<u8> {
    seq![SMALL_P, SPACE, SMALL_C, SMALL_N, SMALL_F, SPACE] + dec_of(nv) + seq![SPACE] + dec_of(nc)
        + seq![NL]
}

/// The bytes of one rendered literal: an optional minus, then the decimal
/// value of the variable.
pub open spec fn lit_bytes(l: Literal) -> Seq<u8> {
    (if l.sign == Sign::Negative {
        seq![MINUS]
    } else {
        Seq::<u8>::empty()
    }) + dec_of(l.var as int)
}

/// The bytes of the rendered literals of a clause, each followed by one
/// space.
pub open spec fn lits_bytes(c: Seq<Literal>) -> Seq<u8>
    decreases c.len(),
{
    if c.len() == 0 {
        Seq::empty()
    } else {
        lit_bytes(c.first()) + seq![SPACE] + lits_bytes(c.drop_first())
    }
}

/// The bytes of one rendered clause line: the literals, the terminating
/// zero, a line feed.
pub open spec fn clause_bytes(c: Seq<Literal>) -> Seq<u8> {
    lits_bytes(c) + seq![ZERO, NL]
}

/// The bytes of all rendered clause lines, in order.
pub open spec fn clauses_bytes(cs: Seq<Seq<Literal>>) -> Seq<u8>
    decreases cs.len(),
{
    if cs.len() == 0 {
        Seq::empty()
    } else {
        clause_bytes(cs.first()) + clauses_bytes(cs.drop_first())
    }
}

/// The canonical DIMACS rendering of a whole model.
pub open spec fn render_spec(m: ModelView) -> Seq<u8> {
    comments_bytes(m.comments) + header_bytes(m.vars.len() as int, m.clauses.len() as int)
        + clauses_bytes(m.clauses)
}

/// Append the decimal digits of `n` to `out`.
pub fn push_dec(out: &mut Vec<u8>, n: u64)
    ensures
        final(out)@ == old(out)@ + dec_of(n as int),
    decreases n,
{
    if n < 10 {
        out.push(48 + n as u8);
        proof {
            assert(old(out)@ + dec_of(n as int) =~= old(out)@.push((48 + n as int) as u8));
        }
    } else {
        let ghost mid = old(out)@ + dec_of(n as int / 10);
        push_dec(out, n / 10);
        out.push(48 + (n % 10) as u8);
        proof {
            assert(old(out)@ + dec_of(n as int) =~= mid.push((48 + n as int % 10) as u8));
        }
    }
}

/// Append all bytes of `c` to `out`.
fn push_bytes(out: &mut Vec<u8>, c: &Vec<u8>)
    ensures
        final(out)@ == old(out)@ + c@,
{
    let n = c.len();
    let mut k: usize = 0;
    proof {
        assert(out@ =~= old(out)@ + c@.subrange(0, 0));
    }
    while k < n
        invariant
            0 <= k <= n,
            n == c@.len(),
            out@ == old(out)@ + c@.subrange(0, k as int),
        decreases n - k,
    {
        out.push(c[k]);
        proof {
            assert(old(out)@ + c@.subrange(0, k + 1) =~= (old(out)@ + c@.subrange(
                0,
                k as int,
            )).push(c@[k as int]));
        }
        k += 1;
    }
    proof {
        assert(c@.subrange(0, n as int) =~= c@);
    }
}

impl Model {
    /// Render the model as canonical DIMACS text: the stored comments, a
    /// header carrying the counts of distinct variables and of clauses
    /// actually stored, then the stored clauses.
    #[verifier::loop_isolation(false)]
    pub fn render(&self) -> (out: Vec<u8>)
        requires
            self.wf(),
        ensures
            out@ == render_spec(self@),
    {
        let ghost mv = self@;
        proof {
            self.lemma_wf_view();
        }
        let mut out: Vec<u8> = Vec::new();

        // Comment lines.
        let ncom = self.num_comments();
        let mut i: usize = 0;
        proof {
            assert(mv.comments.skip(0) =~= mv.comments);
            assert(out@ + comments_bytes(mv.comments) =~= comments_bytes(mv.comments));
        }
        while i < ncom
            invariant
                0 <= i <= ncom,
                ncom == mv.comments.len(),
                self.wf(),
                self@ == mv,
                out@ + comments_bytes(mv.comments.skip(i as int)) == comments_bytes(mv.comments),
            decreases ncom - i,
        {
            let ghost pre = out@;
            out.push(SMALL_C);
            out.push(SPACE);
            push_bytes(&mut out, self.comment_at(i));
            out.push(NL);
            proof {
                let rest = mv.comments.skip(i as int);
                assert(rest.drop_first() =~= mv.comments.skip(i + 1));
                assert(out@ =~= pre + comment_line_bytes(mv.comments[i as int]));
                assert(out@ + comments_bytes(mv.comments.skip(i + 1)) =~= pre + comments_bytes(
                    rest,
                ));
            }
            i += 1;
        }
        proof {
            assert(mv.comments.skip(ncom as int) =~= Seq::<Seq<u8>>::empty());
            assert(out@ =~= comments_bytes(mv.comments));
        }

        // Header line.
        let ghost after_comments = out@;
        out.push(SMALL_P);
        out.push(SPACE);
        out.push(SMALL_C);
        out.push(SMALL_N);
        out.push(SMALL_F);
        out.push(SPACE);
        push_dec(&mut out, self.num_variables() as u64);
        out.push(SPACE);
        push_dec(&mut out, self.num_clauses() as u64);
        out.push(NL);
        proof {
            assert(out@ =~= after_comments + header_bytes(
                mv.vars.len() as int,
                mv.clauses.len() as int,
            ));
        }

        // Clause lines.
        let ghost after_header = out@;
        let ncl = self.num_clauses();
        let mut i: usize = 0;
        proof {
            assert(mv.clauses.skip(0) =~= mv.clauses);
            assert(out@ + clauses_bytes(mv.clauses) =~= after_header + clauses_bytes(mv.clauses));
        }
        while i < ncl
            invariant
                0 <= i <= ncl,
                ncl == mv.clauses.len(),
                self.wf(),
                self@ == mv,
                out@ + clauses_bytes(mv.clauses.skip(i as int)) == after_header + clauses_bytes(
                    mv.clauses,
                ),
            decreases ncl - i,
        {
            let ghost cl = mv.clauses[i as int];
            let ghost clause_start = out@;
            let nlit = self.clause_len(i);
            let mut j: usize = 0;
            proof {
                assert(cl.skip(0) =~= cl);
                assert(out@ + lits_bytes(cl) =~= clause_start + lits_bytes(cl));
            }
            while j < nlit
                invariant
                    0 <= j <= nlit,
                    i < mv.clauses.len(),
                    cl == mv.clauses[i as int],
                    nlit == cl.len(),
                    self.wf(),
                    self@ == mv,
                    out@ + lits_bytes(cl.skip(j as int)) == clause_start + lits_bytes(cl),
                decreases nlit - j,
            {
                let ghost lit_start = out@;
                let lit = self.clause_lit(i, j);
                if lit.sign == Sign::Negative {
                    out.push(MINUS);
                }
                proof {
                    assert(crate::model::clause_valid(cl));
                    assert(lit.var >= 1);
                }
                push_dec(&mut out, lit.var as u64);
                out.push(SPACE);
                proof {
                    let rest = cl.skip(j as int);
                    assert(rest.drop_first() =~= cl.skip(j + 1));
                    assert(out@ =~= lit_start + lit_bytes(lit) + seq![SPACE]);
                    assert(out@ + lits_bytes(cl.skip(j + 1)) =~= lit_start + lits_bytes(rest));
                }
                j += 1;
            }
            out.push(ZERO);
            out.push(NL);
            proof {
                assert(cl.skip(nlit as int) =~= Seq::<Literal>::empty());
                let rest = mv.clauses.skip(i as int);
                assert(rest.drop_first() =~= mv.clauses.skip(i + 1));
                assert(out@ =~= clause_start + clause_bytes(cl));
                assert(out@ + clauses_bytes(mv.clauses.skip(i + 1)) =~= clause_start
                    + clauses_bytes(rest));
            }
            i += 1;
        }
        proof {
            assert(mv.clauses.skip(ncl as int) =~= Seq::<Seq<Literal>>::empty());
            assert(out@ =~= render_spec(mv));
        }
        out
    }
}

} // verus!
