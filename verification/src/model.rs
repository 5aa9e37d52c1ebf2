//! The formula model: signs, literals, clauses and the whole CNF formula.
//!
//! A [`Model`] is an append-only container.  It keeps the comment lines seen
//! while parsing, the set of distinct variables, the set of distinct signed
//! literals, and the ordered sequence of clauses.

use vstd::prelude::*;

verus! {

/// A variable identifier; the data model keeps them strictly positive.
pub type Var = i64;

/// The polarity of a literal.
#[derive(PartialEq, Eq, Structural, Clone, Copy, Debug)]
pub enum Sign {
    Positive,
    Negative,
}

/// A literal is a signed variable.
#[derive(PartialEq, Eq, Structural, Clone, Copy, Debug)]
pub struct Literal {
    pub var: Var,
    pub sign: Sign,
}

/// A literal is valid when its variable identifier is positive.
pub open spec fn lit_valid(l: Literal) -> bool {
    l.var >= 1
}

impl Literal {
    /// A fresh literal: variable `0`, positive sign.  The parser fills the
    /// variable in later; a literal is only ever stored once its variable is
    /// positive.
    pub fn new() -> (l: Literal)
        ensures
            l.var == 0,
            l.sign == Sign::Positive,
    {
        Literal { var: 0, sign: Sign::Positive }
    }

    /// Make the literal negative.  Negation saturates: a literal that is
    /// already negative stays negative, so a repeated minus does not cancel
    /// out.  This mirrors the behaviour the rest of the crate depends on.
    pub fn negate(&mut self)
        ensures
            final(self).var == old(self).var,
            final(self).sign == Sign::Negative,
    {
        self.sign = if self.sign == Sign::Positive {
            Sign::Negative
        } else {
            Sign::Negative
        };
    }
}

/// A clause is an ordered disjunction of literals; input order is preserved.
pub struct Clause(Vec<Literal>);

impl View for Clause {
    type V = Seq<Literal>;

    closed spec fn view(&self) -> Seq<Literal> {
        self.0@
    }
}

/// Every literal of the clause is valid.
pub open spec fn clause_valid(c: Seq<Literal>) -> bool {
    forall|i: int| 0 <= i < c.len() ==> lit_valid(#[trigger] c[i])
}

impl Clause {
    /// An empty clause.
    pub fn new() -> (c: Clause)
        ensures
            c@ == Seq::<Literal>::empty(),
    {
        Clause(Vec::new())
    }

    /// Append a literal at the end of the clause.
    pub fn push(&mut self, value: Literal)
        ensures
            final(self)@ == old(self)@.push(value),
    {
        self.0.push(value);
    }

    /// Number of literals in the clause.
    pub fn len(&self) -> (n: usize)
        ensures
            n == self@.len(),
    {
        self.0.len()
    }

    /// The literal at position `i`.
    pub fn get(&self, i: usize) -> (l: Literal)
        requires
            i < self@.len(),
        ensures
            l == self@[i as int],
    {
        self.0[i]
    }
}

/// The mathematical value of a [`Model`]: the comment lines in order, the
/// set of variables, the set of literals, and the clauses in order.
#[verifier::ext_equal]
pub ghost struct ModelView {
    pub comments: Seq<Seq<u8>>,
    pub vars: Set<Var>,
    pub lits: Set<Literal>,
    pub clauses: Seq<Seq<Literal>>,
}

impl ModelView {
    /// The value of a freshly constructed model.
    pub open spec fn empty() -> ModelView {
        ModelView {
            comments: Seq::empty(),
            vars: Set::empty(),
            lits: Set::empty(),
            clauses: Seq::empty(),
        }
    }

    /// The model after appending one comment line.
    pub open spec fn with_comment(self, c: Seq<u8>) -> ModelView {
        ModelView { comments: self.comments.push(c), ..self }
    }

    /// The model after registering one literal: the literal joins the global
    /// literal set and its variable joins the variable set.
    pub open spec fn with_literal(self, l: Literal) -> ModelView {
        ModelView { vars: self.vars.insert(l.var), lits: self.lits.insert(l), ..self }
    }

    /// The model after appending one clause.
    pub open spec fn with_clause(self, c: Seq<Literal>) -> ModelView {
        ModelView { clauses: self.clauses.push(c), ..self }
    }

    /// The variable set is exactly the set of variables of the literal set.
    pub open spec fn vars_match_lits(self) -> bool {
        forall|v: Var|
            self.vars.contains(v) <==> exists|l: Literal| self.lits.contains(l) && l.var == v
    }

    /// Well-formedness: finite sets, variables matching literals, and only
    /// valid (positive-variable) literals anywhere.
    pub open spec fn wf(self) -> bool {
        &&& self.vars.finite()
        &&& self.lits.finite()
        &&& self.vars_match_lits()
        &&& forall|l: Literal| self.lits.contains(l) ==> lit_valid(l)
        &&& forall|i: int| 0 <= i < self.clauses.len() ==> clause_valid(#[trigger] self.clauses[i])
    }

    /// Registering a valid literal preserves well-formedness.
    pub proof fn lemma_with_literal_wf(self, l: Literal)
        requires
            self.wf(),
            lit_valid(l),
        ensures
            self.with_literal(l).wf(),
    {
        let m2 = self.with_literal(l);
        assert forall|v: Var|
            m2.vars.contains(v) implies exists|x: Literal| m2.lits.contains(x) && x.var == v by {
            if v == l.var {
                assert(m2.lits.contains(l) && l.var == v);
            } else {
                let x = choose|x: Literal| self.lits.contains(x) && x.var == v;
                assert(m2.lits.contains(x) && x.var == v);
            }
        }
        assert forall|v: Var|
            (exists|x: Literal| m2.lits.contains(x) && x.var == v) implies m2.vars.contains(
            v,
        ) by {
            let x = choose|x: Literal| m2.lits.contains(x) && x.var == v;
            if x == l {
                assert(m2.vars.contains(l.var));
            } else {
                assert(self.lits.contains(x));
            }
        }
    }
}

/// Pushing an element that is not yet present keeps a sequence free of
/// duplicates.
proof fn lemma_push_no_duplicates<A>(s: Seq<A>, x: A)
    requires
        s.no_duplicates(),
        !s.contains(x),
    ensures
        s.push(x).no_duplicates(),
{
    let t = s.push(x);
    assert forall|i: int, j: int| 0 <= i < j < t.len() implies t[i] != t[j] by {
        if j == t.len() - 1 {
            assert(s.contains(s[i]));
        }
    }
}

/// The set of a sequence after at most one push of `x`, when the result is
/// known to contain `x`, is the old set with `x` inserted.
proof fn lemma_to_set_insert<A>(s0: Seq<A>, s1: Seq<A>, x: A)
    requires
        s1 == s0 || (s1 == s0.push(x) && !s0.contains(x)),
        s1 == s0 ==> s0.contains(x),
    ensures
        s1.to_set() == s0.to_set().insert(x),
{
    if s1 == s0 {
        assert(s1.to_set() =~= s0.to_set().insert(x));
    } else {
        assert forall|y: A| s1.contains(y) implies s0.contains(y) || y == x by {
            let i = choose|i: int| 0 <= i < s1.len() && s1[i] == y;
            if i < s0.len() {
                assert(s0[i] == y);
            }
        }
        assert forall|y: A| s0.contains(y) implies s1.contains(y) by {
            let i = choose|i: int| 0 <= i < s0.len() && s0[i] == y;
            assert(s1[i] == y);
        }
        assert(s1.contains(x)) by {
            assert(s1[s1.len() - 1] == x);
        }
        assert(s1.to_set() =~= s0.to_set().insert(x));
    }
}

/// CNF representation of a boolean formula as an AND of clauses.  The
/// comments of the parsed DIMACS text are kept, and the variables and
/// literals seen are kept separately from the clauses.
pub struct Model {
    comments: Vec<Vec<u8>>,
    variables: Vec<Var>,
    literals: Vec<Literal>,
    clauses: Vec<Clause>,
}

impl View for Model {
    type V = ModelView;

    closed spec fn view(&self) -> ModelView {
        ModelView {
            comments: self.comments@.map_values(|c: Vec<u8>| c@),
            vars: self.variables@.to_set(),
            lits: self.literals@.to_set(),
            clauses: self.clauses@.map_values(|c: Clause| c@),
        }
    }
}

impl Model {
    /// Representation invariant: the variable and literal vectors hold no
    /// duplicates (they stand for sets) and the abstract value is
    /// well-formed.
    pub closed spec fn wf(&self) -> bool {
        &&& self.variables@.no_duplicates()
        &&& self.literals@.no_duplicates()
        &&& self@.wf()
    }

    /// Well-formedness of the container carries to its abstract value.
    pub proof fn lemma_wf_view(&self)
        requires
            self.wf(),
        ensures
            self@.wf(),
    {
    }

    /// An empty model.
    pub fn new() -> (m: Model)
        ensures
            m@ == ModelView::empty(),
            m.wf(),
    {
        let m = Model {
            comments: Vec::new(),
            variables: Vec::new(),
            literals: Vec::new(),
            clauses: Vec::new(),
        };
        proof {
            assert(m@ =~= ModelView::empty());
        }
        m
    }

    /// Append a comment line.
    pub fn add_comment(&mut self, value: Vec<u8>)
        requires
            old(self).wf(),
        ensures
            final(self).wf(),
            final(self)@ == old(self)@.with_comment(value@),
    {
        let ghost pre = self@;
        self.comments.push(value);
        proof {
            assert(self@ =~= pre.with_comment(value@));
        }
    }

    /// Register a literal: it is inserted into the global literal set and
    /// its variable into the variable set.  Registration is idempotent; a
    /// literal seen before changes nothing.
    pub fn add_literal(&mut self, value: Literal)
        requires
            old(self).wf(),
            lit_valid(value),
        ensures
            final(self).wf(),
            final(self)@ == old(self)@.with_literal(value),
    {
        let ghost pre = self@;
        let ghost vs0 = self.variables@;
        let ghost ls0 = self.literals@;
        if !self.contains_var(value.var) {
            self.variables.push(value.var);
            proof {
                lemma_push_no_duplicates(vs0, value.var);
            }
        }
        if !self.contains_literal(value) {
            self.literals.push(value);
            proof {
                lemma_push_no_duplicates(ls0, value);
            }
        }
        proof {
            lemma_to_set_insert(vs0, self.variables@, value.var);
            lemma_to_set_insert(ls0, self.literals@, value);
            assert(self@ =~= pre.with_literal(value));
            pre.lemma_with_literal_wf(value);
        }
    }

    /// Append a clause to the ordered clause sequence.
    pub fn add_clause(&mut self, value: Clause)
        requires
            old(self).wf(),
            clause_valid(value@),
        ensures
            final(self).wf(),
            final(self)@ == old(self)@.with_clause(value@),
    {
        let ghost pre = self@;
        let ghost cv = value@;
        self.clauses.push(value);
        proof {
            assert(self@ =~= pre.with_clause(cv));
        }
    }

    fn contains_var(&self, v: Var) -> (r: bool)
        ensures
            r == self@.vars.contains(v),
    {
        let n = self.variables.len();
        let mut i: usize = 0;
        while i < n
            invariant
                0 <= i <= n,
                n == self.variables@.len(),
                forall|k: int| 0 <= k < i ==> self.variables@[k] != v,
            decreases n - i,
        {
            if self.variables[i] == v {
                proof {
                    assert(self.variables@.contains(v));
                }
                return true;
            }
            i += 1;
        }
        proof {
            assert(!self.variables@.contains(v));
        }
        false
    }

    /// Whether the given literal has been registered.
    pub fn contains_literal(&self, l: Literal) -> (r: bool)
        ensures
            r == self@.lits.contains(l),
    {
        let n = self.literals.len();
        let mut i: usize = 0;
        while i < n
            invariant
                0 <= i <= n,
                n == self.literals@.len(),
                forall|k: int| 0 <= k < i ==> self.literals@[k] != l,
            decreases n - i,
        {
            if self.literals[i] == l {
                proof {
                    assert(self.literals@.contains(l));
                }
                return true;
            }
            i += 1;
        }
        proof {
            assert(!self.literals@.contains(l));
        }
        false
    }

    /// Number of distinct variables registered so far.
    pub fn num_variables(&self) -> (n: usize)
        requires
            self.wf(),
        ensures
            n == self@.vars.len(),
    {
        proof {
            self.variables@.unique_seq_to_set();
        }
        self.variables.len()
    }

    /// Number of distinct literals registered so far.
    pub fn num_literals(&self) -> (n: usize)
        requires
            self.wf(),
        ensures
            n == self@.lits.len(),
    {
        proof {
            self.literals@.unique_seq_to_set();
        }
        self.literals.len()
    }

    /// Number of clauses stored so far.
    pub fn num_clauses(&self) -> (n: usize)
        ensures
            n == self@.clauses.len(),
    {
        self.clauses.len()
    }

    /// Number of literals of clause `i`.
    pub fn clause_len(&self, i: usize) -> (n: usize)
        requires
            i < self@.clauses.len(),
        ensures
            n == self@.clauses[i as int].len(),
    {
        self.clauses[i].len()
    }

    /// The literal at position `j` of clause `i`.
    pub fn clause_lit(&self, i: usize, j: usize) -> (l: Literal)
        requires
            i < self@.clauses.len(),
            j < self@.clauses[i as int].len(),
        ensures
            l == self@.clauses[i as int][j as int],
    {
        self.clauses[i].get(j)
    }

    /// Number of comment lines stored so far.
    pub fn num_comments(&self) -> (n: usize)
        ensures
            n == self@.comments.len(),
    {
        self.comments.len()
    }

    /// The comment line at position `i`.
    pub fn comment_at(&self, i: usize) -> (c: &Vec<u8>)
        requires
            i < self@.comments.len(),
        ensures
            c@ == self@.comments[i as int],
    {
        &self.comments[i]
    }
}

} // verus!
