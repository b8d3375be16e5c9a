use vstd::prelude::*;

verus! {

/// Mathematical model of a literal: a variable name with a negation flag.
pub ghost struct LitV {
    pub name: Seq<char>,
    pub neg: bool,
}

/// A propositional literal: a variable name, possibly negated.
/// Immutable once created.
pub struct Literal {
    name: String,
    is_negated: bool,
}

impl View for Literal {
    type V = LitV;

    closed spec fn view(&self) -> LitV {
        LitV { name: self.name@, neg: self.is_negated }
    }
}

/// Two literals are opposite when they share a name and differ in negation.
pub open spec fn is_opp(a: LitV, b: LitV) -> bool {
    a.name == b.name && a.neg == !b.neg
}

/// Some literal of `b` is the opposite of `l`.
pub open spec fn has_opposite(b: Seq<LitV>, l: LitV) -> bool {
    exists|j: int| 0 <= j < b.len() && is_opp(l, b[j])
}

/// Textual form of a literal: the NOT sign before the name when negated.
pub open spec fn lit_text(l: LitV) -> Seq<char> {
    (if l.neg {
        "¬"@
    } else {
        Seq::<char>::empty()
    }) + l.name
}

impl Literal {
    pub fn new(name: String, is_negated: bool) -> (r: Literal)
        ensures
            r@ == (LitV { name: name@, neg: is_negated }),
    {
        Literal { name, is_negated }
    }

    /// A fresh literal with the same name and negation flag.
    pub fn duplicate(&self) -> (r: Literal)
        ensures
            r@ == self@,
    {
        Literal { name: self.name.clone(), is_negated: self.is_negated }
    }

    /// Value equality of two literals: same name and same negation flag.
    pub fn equals(&self, other: &Literal) -> (r: bool)
        ensures
            r == (self@ == other@),
    {
        let r = self.name == other.name && self.is_negated == other.is_negated;
        proof {
            if self@.name == other@.name && self@.neg == other@.neg {
                assert(self@ == other@);
            }
        }
        r
    }

    pub fn is_opposite(&self, other_literal: &Literal) -> (r: bool)
        ensures
            r == is_opp(self@, other_literal@),
    {
        self.name == other_literal.name && self.is_negated == !other_literal.is_negated
    }

    /// Renders the literal as text.
    pub fn to_text(&self) -> (r: String)
        ensures
            r@ == lit_text(self@),
    {
        let mut s = String::new();
        if self.is_negated {
            s.append("¬");
        }
        s.append(self.name.as_str());
        proof {
            assert(s@ == lit_text(self@));
        }
        s
    }
}

/// Keep-first deduplication, one element at a time.
pub open spec fn dedup_push(acc: Seq<LitV>, x: LitV) -> Seq<LitV> {
    if acc.contains(x) {
        acc
    } else {
        acc.push(x)
    }
}

/// Keep-first deduplication of a whole sequence.
pub open spec fn dedup_seq(s: Seq<LitV>) -> Seq<LitV>
    decreases s.len(),
{
    if s.len() == 0 {
        Seq::<LitV>::empty()
    } else {
        dedup_push(dedup_seq(s.drop_last()), s.last())
    }
}

/// Deduplication never invents or loses literals, and leaves no duplicates.
pub proof fn lemma_dedup_seq(s: Seq<LitV>)
    ensures
        dedup_seq(s).no_duplicates(),
        forall|x: LitV| dedup_seq(s).contains(x) <==> s.contains(x),
        dedup_seq(s).len() <= s.len(),
    decreases s.len(),
{
    if s.len() == 0 {
    } else {
        lemma_dedup_seq(s.drop_last());
        let d = dedup_seq(s.drop_last());
        assert forall|x: LitV| dedup_seq(s).contains(x) implies s.contains(x) by {
            if d.contains(x) {
                assert(s.drop_last().contains(x));
                let j = choose|j: int| 0 <= j < s.drop_last().len() && s.drop_last()[j] == x;
                assert(s.drop_last()[j] == s[j]);
                assert(s.contains(x));
            } else {
                assert(x == s.last());
                assert(s[s.len() - 1] == x);
                assert(s.contains(x));
            }
        }
        assert forall|x: LitV| s.contains(x) implies dedup_seq(s).contains(x) by {
            let j = choose|j: int| 0 <= j < s.len() && s[j] == x;
            if j < s.len() - 1 {
                assert(s.drop_last()[j] == s[j]);
                assert(s.drop_last().contains(x));
                assert(d.contains(x));
                if !d.contains(s.last()) {
                    let k = choose|k: int| 0 <= k < d.len() && d[k] == x;
                    assert(d.push(s.last())[k] == x);
                    assert(dedup_seq(s).contains(x));
                }
            } else {
                assert(x == s.last());
                if !d.contains(x) {
                    assert(d.push(x)[d.len() as int] == x);
                    assert(dedup_seq(s).contains(x));
                }
            }
        }
    }
}

/// A deduplicated, order-irrelevant collection of literals.
/// The empty clause stands for a contradiction.
pub struct Clause {
    literals: Vec<Literal>,
}

impl View for Clause {
    type V = Seq<LitV>;

    closed spec fn view(&self) -> Seq<LitV> {
        self.literals@.map_values(|l: Literal| l@)
    }
}

/// Genuine set equality of clause contents: both directions of containment.
pub open spec fn content_eq(a: Seq<LitV>, b: Seq<LitV>) -> bool {
    (forall|i: int| 0 <= i < a.len() ==> b.contains(a[i])) && (forall|i: int|
        0 <= i < b.len() ==> a.contains(b[i]))
}

/// All of `a` without the literal `l`, order preserved.
pub open spec fn remove_lit(s: Seq<LitV>, l: LitV) -> Seq<LitV>
    decreases s.len(),
{
    if s.len() == 0 {
        Seq::<LitV>::empty()
    } else {
        remove_lit(s.drop_last(), l) + (if s.last() == l {
            Seq::<LitV>::empty()
        } else {
            seq![s.last()]
        })
    }
}

/// All of `s` without the opposites of `l`, order preserved.
pub open spec fn remove_opp(s: Seq<LitV>, l: LitV) -> Seq<LitV>
    decreases s.len(),
{
    if s.len() == 0 {
        Seq::<LitV>::empty()
    } else {
        remove_opp(s.drop_last(), l) + (if is_opp(s.last(), l) {
            Seq::<LitV>::empty()
        } else {
            seq![s.last()]
        })
    }
}

pub proof fn lemma_remove_lit(s: Seq<LitV>, l: LitV)
    ensures
        forall|x: LitV| remove_lit(s, l).contains(x) <==> (s.contains(x) && x != l),
    decreases s.len(),
{
    broadcast use vstd::seq_lib::group_seq_properties;

    if s.len() == 0 {
    } else {
        lemma_remove_lit(s.drop_last(), l);
        let r = remove_lit(s, l);
        let rp = remove_lit(s.drop_last(), l);
        assert forall|x: LitV| r.contains(x) implies (s.contains(x) && x != l) by {
            let j = choose|j: int| 0 <= j < r.len() && r[j] == x;
            if j < rp.len() {
                assert(r[j] == rp[j]);
                assert(rp.contains(x));
                assert(s.drop_last().contains(x));
                let k = choose|k: int| 0 <= k < s.drop_last().len() && s.drop_last()[k] == x;
                assert(s.drop_last()[k] == s[k]);
                assert(s.contains(x));
            } else {
                assert(r[j] == s.last());
                assert(s[s.len() - 1] == x);
                assert(s.contains(x));
            }
        }
        assert forall|x: LitV| (s.contains(x) && x != l) implies r.contains(x) by {
            let j = choose|j: int| 0 <= j < s.len() && s[j] == x;
            if j < s.len() - 1 {
                assert(s.drop_last()[j] == s[j]);
                assert(s.drop_last().contains(x));
                assert(rp.contains(x));
                let k = choose|k: int| 0 <= k < rp.len() && rp[k] == x;
                assert(r[k] == rp[k]);
                assert(r.contains(x));
            } else {
                assert(s.last() == x);
                assert(r[r.len() - 1] == x);
                assert(r.contains(x));
            }
        }
    }
}

pub proof fn lemma_remove_opp(s: Seq<LitV>, l: LitV)
    ensures
        forall|x: LitV| remove_opp(s, l).contains(x) <==> (s.contains(x) && !is_opp(x, l)),
    decreases s.len(),
{
    broadcast use vstd::seq_lib::group_seq_properties;

    if s.len() == 0 {
    } else {
        lemma_remove_opp(s.drop_last(), l);
        let r = remove_opp(s, l);
        let rp = remove_opp(s.drop_last(), l);
        assert forall|x: LitV| r.contains(x) implies (s.contains(x) && !is_opp(x, l)) by {
            let j = choose|j: int| 0 <= j < r.len() && r[j] == x;
            if j < rp.len() {
                assert(r[j] == rp[j]);
                assert(rp.contains(x));
                assert(s.drop_last().contains(x));
                let k = choose|k: int| 0 <= k < s.drop_last().len() && s.drop_last()[k] == x;
                assert(s.drop_last()[k] == s[k]);
                assert(s.contains(x));
            } else {
                assert(r[j] == s.last());
                assert(s[s.len() - 1] == x);
                assert(s.contains(x));
            }
        }
        assert forall|x: LitV| (s.contains(x) && !is_opp(x, l)) implies r.contains(x) by {
            let j = choose|j: int| 0 <= j < s.len() && s[j] == x;
            if j < s.len() - 1 {
                assert(s.drop_last()[j] == s[j]);
                assert(s.drop_last().contains(x));
                assert(rp.contains(x));
                let k = choose|k: int| 0 <= k < rp.len() && rp[k] == x;
                assert(r[k] == rp[k]);
                assert(r.contains(x));
            } else {
                assert(s.last() == x);
                assert(r[r.len() - 1] == x);
                assert(r.contains(x));
            }
        }
    }
}

/// The resolvent of `a` and `b` on the literal `l` of `a`: everything of `a`
/// but `l`, everything of `b` but the opposites of `l`, deduplicated.
pub open spec fn resolvent_seq(a: Seq<LitV>, b: Seq<LitV>, l: LitV) -> Seq<LitV> {
    dedup_seq(remove_lit(a, l) + remove_opp(b, l))
}

/// Resolution correctness: the resolvent holds every literal of `a` except
/// `l`, every literal of `b` except the opposites of `l`, nothing else, and
/// no duplicates.
pub proof fn lemma_resolution_correctness(a: Seq<LitV>, b: Seq<LitV>, l: LitV)
    ensures
        forall|x: LitV|
            resolvent_seq(a, b, l).contains(x) <==> ((a.contains(x) && x != l) || (b.contains(x)
                && !is_opp(x, l))),
        resolvent_seq(a, b, l).no_duplicates(),
{
    let u = remove_lit(a, l) + remove_opp(b, l);
    lemma_dedup_seq(u);
    lemma_remove_lit(a, l);
    lemma_remove_opp(b, l);
    assert forall|x: LitV|
        resolvent_seq(a, b, l).contains(x) <==> ((a.contains(x) && x != l) || (b.contains(x)
            && !is_opp(x, l))) by {
        assert(dedup_seq(u).contains(x) <==> u.contains(x));
        if u.contains(x) {
            let j = choose|j: int| 0 <= j < u.len() && u[j] == x;
            if j < remove_lit(a, l).len() {
                assert(remove_lit(a, l)[j] == x);
                assert(remove_lit(a, l).contains(x));
            } else {
                assert(remove_opp(b, l)[j - remove_lit(a, l).len()] == x);
                assert(remove_opp(b, l).contains(x));
            }
        }
        if a.contains(x) && x != l {
            assert(remove_lit(a, l).contains(x));
            let j = choose|j: int| 0 <= j < remove_lit(a, l).len() && remove_lit(a, l)[j] == x;
            assert(u[j] == x);
            assert(u.contains(x));
        }
        if b.contains(x) && !is_opp(x, l) {
            assert(remove_opp(b, l).contains(x));
            let j = choose|j: int| 0 <= j < remove_opp(b, l).len() && remove_opp(b, l)[j] == x;
            assert(u[remove_lit(a, l).len() + j] == x);
            assert(u.contains(x));
        }
    }
}

/// The list of resolvents of `a` against `b`, one per literal of `a` (from
/// position `i` on) that has an opposite in `b`, paired with the clashing
/// variable's name.
pub open spec fn clash_from(a: Seq<LitV>, b: Seq<LitV>, i: int) -> Seq<(Seq<LitV>, Seq<char>)>
    decreases a.len() - i,
{
    if i < 0 || i >= a.len() {
        Seq::<(Seq<LitV>, Seq<char>)>::empty()
    } else {
        (if has_opposite(b, a[i]) {
            seq![(resolvent_seq(a, b, a[i]), a[i].name)]
        } else {
            Seq::<(Seq<LitV>, Seq<char>)>::empty()
        }) + clash_from(a, b, i + 1)
    }
}

/// All resolvents obtainable from clauses `a` and `b`, driven by the distinct
/// literals of `a` in order.
pub open spec fn clash_list(a: Seq<LitV>, b: Seq<LitV>) -> Seq<(Seq<LitV>, Seq<char>)> {
    clash_from(a, b, 0)
}

/// Textual form of a clause body: its literals joined by commas.
pub open spec fn lits_joined(c: Seq<LitV>) -> Seq<char>
    decreases c.len(),
{
    if c.len() == 0 {
        Seq::<char>::empty()
    } else if c.len() == 1 {
        lit_text(c[0])
    } else {
        lits_joined(c.drop_last()) + ", "@ + lit_text(c.last())
    }
}

/// Textual form of a clause: its literals joined by commas, inside braces.
pub open spec fn clause_text(c: Seq<LitV>) -> Seq<char> {
    "{"@ + lits_joined(c) + "}"@
}

/// Textual form of a clause list: the clauses joined by commas.
pub open spec fn clauses_text(cs: Seq<Seq<LitV>>) -> Seq<char>
    decreases cs.len(),
{
    if cs.len() == 0 {
        Seq::<char>::empty()
    } else if cs.len() == 1 {
        clause_text(cs[0])
    } else {
        clauses_text(cs.drop_last()) + ", "@ + clause_text(cs.last())
    }
}

impl Clause {
    /// Builds a clause from the given literals, collapsing duplicates and
    /// keeping first-seen order.
    pub fn new(literals: Vec<Literal>) -> (r: Clause)
        ensures
            r@ == dedup_seq(literals@.map_values(|l: Literal| l@)),
            r@.no_duplicates(),
    {
        let ghost all = literals@.map_values(|l: Literal| l@);
        let mut c = Clause { literals: Vec::new() };
        assert(c@ =~= Seq::<LitV>::empty());
        let mut i: usize = 0;
        proof {
            lemma_dedup_seq(all.take(0));
            assert(all.take(0) =~= Seq::<LitV>::empty());
        }
        while i < literals.len()
            invariant
                i <= literals.len(),
                all == literals@.map_values(|l: Literal| l@),
                c@ == dedup_seq(all.take(i as int)),
                c@.no_duplicates(),
            decreases literals.len() - i,
        {
            let l = literals[i].duplicate();
            proof {
                assert(all.take(i + 1).drop_last() =~= all.take(i as int));
                assert(all.take(i + 1).last() == l@);
            }
            c.insert(l);
            proof {
                lemma_dedup_seq(all.take(i + 1));
            }
            i = i + 1;
        }
        proof {
            assert(all.take(literals@.len() as int) =~= all);
        }
        c
    }

    /// Adds a literal unless an equal one is already present, keeping the
    /// clause deduplicated. Inserting a literal already present leaves the
    /// clause exactly as it was.
    pub fn insert(&mut self, literal: Literal)
        requires
            old(self)@.no_duplicates(),
        ensures
            final(self)@ == dedup_push(old(self)@, literal@),
            final(self)@.no_duplicates(),
            old(self)@.contains(literal@) ==> final(self)@ == old(self)@,
    {
        let present = self.has_lit(&literal);
        if !present {
            let ghost before = self@;
            self.literals.push(literal);
            proof {
                assert(self@ =~= before.push(literal@));
            }
        }
    }

    /// Whether an equal literal is already in the clause.
    pub fn has_lit(&self, l: &Literal) -> (r: bool)
        ensures
            r == self@.contains(l@),
    {
        let mut j: usize = 0;
        let mut found = false;
        while j < self.literals.len()
            invariant
                j <= self.literals.len(),
                found == exists|k: int| 0 <= k < j && self@[k] == l@,
            decreases self.literals.len() - j,
        {
            if self.literals[j].equals(l) {
                proof {
                    assert(self@[j as int] == l@);
                }
                found = true;
            }
            j = j + 1;
        }
        found
    }

    /// The number of literals in the clause.
    pub fn len(&self) -> (r: usize)
        ensures
            r == self@.len(),
    {
        self.literals.len()
    }

    /// Whether this is the empty clause, the contradiction.
    pub fn is_empty(&self) -> (r: bool)
        ensures
            r == (self@.len() == 0),
    {
        self.literals.len() == 0
    }

    /// Genuine set equality of two clauses: containment in both directions.
    pub fn set_equals(&self, other: &Clause) -> (r: bool)
        ensures
            r == content_eq(self@, other@),
    {
        let mut i: usize = 0;
        while i < self.literals.len()
            invariant
                i <= self.literals.len(),
                forall|k: int| 0 <= k < i ==> other@.contains(self@[k]),
            decreases self.literals.len() - i,
        {
            if !other.has_lit(&self.literals[i]) {
                proof {
                    assert(!other@.contains(self@[i as int]));
                }
                return false;
            }
            i = i + 1;
        }
        let mut j: usize = 0;
        while j < other.literals.len()
            invariant
                j <= other.literals.len(),
                forall|k: int| 0 <= k < self@.len() ==> other@.contains(self@[k]),
                forall|k: int| 0 <= k < j ==> self@.contains(other@[k]),
            decreases other.literals.len() - j,
        {
            if !self.has_lit(&other.literals[j]) {
                proof {
                    assert(!self@.contains(other@[j as int]));
                }
                return false;
            }
            j = j + 1;
        }
        true
    }

    /// Computes every resolvent of `self` against `other_clause`: for each
    /// literal of `self` with an opposite in `other_clause`, the union of
    /// both clauses minus that literal and its opposites, paired with the
    /// clashing variable's name. Neither clause is changed.
    pub fn try_clash(&self, other_clause: &Clause) -> (r: Vec<(Clause, String)>)
        ensures
            r@.map_values(|p: (Clause, String)| (p.0@, p.1@)) == clash_list(self@, other_clause@),
            forall|k: int| 0 <= k < r@.len() ==> (#[trigger] r@[k].0)@.no_duplicates(),
    {
        let ghost a = self@;
        let ghost b = other_clause@;
        let mut result: Vec<(Clause, String)> = Vec::new();
        let mut i: usize = 0;
        while i < self.literals.len()
            invariant
                i <= self.literals.len(),
                a == self@,
                b == other_clause@,
                result@.map_values(|p: (Clause, String)| (p.0@, p.1@)) + clash_from(a, b, i as int)
                    == clash_list(a, b),
                forall|k: int| 0 <= k < result@.len() ==> (#[trigger] result@[k].0)@.no_duplicates(),
            decreases self.literals.len() - i,
        {
            let ghost pairs_before = result@.map_values(|p: (Clause, String)| (p.0@, p.1@));
            let literal = &self.literals[i];
            let mut found = false;
            let mut j: usize = 0;
            while j < other_clause.literals.len()
                invariant
                    j <= other_clause.literals.len(),
                    b == other_clause@,
                    a == self@,
                    i < self.literals.len(),
                    literal@ == a[i as int],
                    found == exists|k: int| 0 <= k < j && is_opp(a[i as int], b[k]),
                decreases other_clause.literals.len() - j,
            {
                if literal.is_opposite(&other_clause.literals[j]) {
                    proof {
                        assert(is_opp(a[i as int], b[j as int]));
                    }
                    found = true;
                }
                j = j + 1;
            }
            proof {
                assert(found == has_opposite(b, a[i as int]));
            }
            if found {
                // everything of self except the clashing literal
                let mut set1: Vec<Literal> = Vec::new();
                let mut k: usize = 0;
                while k < self.literals.len()
                    invariant
                        k <= self.literals.len(),
                        a == self@,
                        i < self.literals.len(),
                        literal@ == a[i as int],
                        set1@.map_values(|l: Literal| l@) == remove_lit(
                            a.take(k as int),
                            a[i as int],
                        ),
                    decreases self.literals.len() - k,
                {
                    let ghost sofar = set1@.map_values(|l: Literal| l@);
                    let keep = !self.literals[k].equals(literal);
                    proof {
                        assert(a.take(k + 1).drop_last() =~= a.take(k as int));
                        assert(a.take(k + 1).last() == a[k as int]);
                    }
                    if keep {
                        set1.push(self.literals[k].duplicate());
                        proof {
                            assert(set1@.map_values(|l: Literal| l@) =~= sofar.push(a[k as int]));
                            assert(set1@.map_values(|l: Literal| l@) =~= remove_lit(
                                a.take(k + 1),
                                a[i as int],
                            ));
                        }
                    } else {
                        proof {
                            assert(remove_lit(a.take(k + 1), a[i as int]) =~= sofar);
                        }
                    }
                    k = k + 1;
                }
                // everything of the other clause except opposites of the clashing literal
                let mut set2: Vec<Literal> = Vec::new();
                let mut m: usize = 0;
                while m < other_clause.literals.len()
                    invariant
                        m <= other_clause.literals.len(),
                        b == other_clause@,
                        a == self@,
                        i < self.literals.len(),
                        literal@ == a[i as int],
                        set2@.map_values(|l: Literal| l@) == remove_opp(
                            b.take(m as int),
                            a[i as int],
                        ),
                    decreases other_clause.literals.len() - m,
                {
                    let ghost sofar = set2@.map_values(|l: Literal| l@);
                    let ol = &other_clause.literals[m];
                    let keep = !ol.is_opposite(literal);
                    proof {
                        assert(b.take(m + 1).drop_last() =~= b.take(m as int));
                        assert(b.take(m + 1).last() == b[m as int]);
                        assert(is_opp(b[m as int], a[i as int]) == is_opp(a[i as int], b[m as int]));
                    }
                    if keep {
                        set2.push(ol.duplicate());
                        proof {
                            assert(set2@.map_values(|l: Literal| l@) =~= sofar.push(b[m as int]));
                            assert(set2@.map_values(|l: Literal| l@) =~= remove_opp(
                                b.take(m + 1),
                                a[i as int],
                            ));
                        }
                    } else {
                        proof {
                            assert(remove_opp(b.take(m + 1), a[i as int]) =~= sofar);
                        }
                    }
                    m = m + 1;
                }
                proof {
                    assert(a.take(a.len() as int) =~= a);
                    assert(b.take(b.len() as int) =~= b);
                }
                let mut s2 = set2;
                set1.append(&mut s2);
                proof {
                    assert(set1@.map_values(|l: Literal| l@) =~= remove_lit(a, a[i as int])
                        + remove_opp(b, a[i as int]));
                }
                let resolvent = Clause::new(set1);
                let name = literal.name.clone();
                proof {
                    assert(resolvent@ == resolvent_seq(a, b, a[i as int]));
                    assert(name@ == a[i as int].name);
                }
                result.push((resolvent, name));
                proof {
                    let pairs_after = result@.map_values(|p: (Clause, String)| (p.0@, p.1@));
                    assert(pairs_after =~= pairs_before.push(
                        (resolvent_seq(a, b, a[i as int]), a[i as int].name),
                    ));
                    assert(clash_from(a, b, i as int) =~= seq![
                        (resolvent_seq(a, b, a[i as int]), a[i as int].name),
                    ] + clash_from(a, b, i + 1));
                    assert(pairs_after + clash_from(a, b, i + 1) =~= pairs_before + clash_from(
                        a,
                        b,
                        i as int,
                    ));
                }
            } else {
                proof {
                    assert(clash_from(a, b, i as int) =~= clash_from(a, b, i + 1));
                }
            }
            i = i + 1;
        }
        proof {
            assert(clash_from(a, b, a.len() as int) =~= Seq::<(Seq<LitV>, Seq<char>)>::empty());
            let pairs = result@.map_values(|p: (Clause, String)| (p.0@, p.1@));
            assert(pairs + Seq::<(Seq<LitV>, Seq<char>)>::empty() =~= pairs);
        }
        result
    }

    /// Renders the clause as text: its literals, comma-joined, in braces.
    pub fn to_text(&self) -> (r: String)
        ensures
            r@ == clause_text(self@),
    {
        let mut s = String::new();
        s.append("{");
        let mut i: usize = 0;
        while i < self.literals.len()
            invariant
                i <= self.literals.len(),
                s@ == "{"@ + lits_joined(self@.take(i as int)),
            decreases self.literals.len() - i,
        {
            proof {
                assert(self@.take(i + 1).drop_last() =~= self@.take(i as int));
                assert(self@.take(i + 1).last() == self@[i as int]);
            }
            if i > 0 {
                s.append(", ");
            }
            let t = self.literals[i].to_text();
            s.append(t.as_str());
            proof {
                if i == 0 {
                    assert(lits_joined(self@.take(1)) == lit_text(self@[0]));
                    assert(s@ =~= "{"@ + lits_joined(self@.take(1)));
                } else {
                    assert(s@ =~= "{"@ + lits_joined(self@.take(i + 1)));
                }
            }
            i = i + 1;
        }
        proof {
            assert(self@.take(self@.len() as int) =~= self@);
        }
        s.append("}");
        proof {
            assert(s@ =~= clause_text(self@));
        }
        s
    }
}

/// Renders a clause list as text: the clauses, comma-joined.
pub fn display_clauses(clauses: &Vec<Clause>) -> (r: String)
    ensures
        r@ == clauses_text(clauses@.map_values(|c: Clause| c@)),
{
    let ghost cs = clauses@.map_values(|c: Clause| c@);
    let mut s = String::new();
    let mut i: usize = 0;
    while i < clauses.len()
        invariant
            i <= clauses.len(),
            cs == clauses@.map_values(|c: Clause| c@),
            s@ == clauses_text(cs.take(i as int)),
        decreases clauses.len() - i,
    {
        proof {
            assert(cs.take(i + 1).drop_last() =~= cs.take(i as int));
            assert(cs.take(i + 1).last() == cs[i as int]);
        }
        if i > 0 {
            s.append(", ");
        }
        let t = clauses[i].to_text();
        s.append(t.as_str());
        proof {
            if i == 0 {
                assert(s@ =~= clauses_text(cs.take(1)));
            } else {
                assert(s@ =~= clauses_text(cs.take(i + 1)));
            }
        }
        i = i + 1;
    }
    proof {
        assert(cs.take(cs.len() as int) =~= cs);
    }
    s
}

/// Idempotence of insertion: adding a literal already present leaves the
/// clause exactly as it was, its length and its displayed form included.
pub proof fn lemma_insert_idempotent(c: Seq<LitV>, l: LitV)
    requires
        c.contains(l),
    ensures
        dedup_push(c, l) == c,
        dedup_push(c, l).len() == c.len(),
        clause_text(dedup_push(c, l)) == clause_text(c),
{
}

} // verus!
