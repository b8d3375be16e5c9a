use vstd::prelude::*;

use crate::clause::{LitV, Clause, clause_text, clauses_text, display_clauses};
use crate::graph::{ClauseEdge, ClauseGraph, ClauseRef, EdgeV, GraphV, RefV, graph_wf};
use crate::text::{append_dec, dec_str};

verus! {

/// Three to the power `n`.
pub open spec fn pow3(n: nat) -> int
    decreases n,
{
    if n == 0 {
        1
    } else {
        3 * pow3((n - 1) as nat)
    }
}

pub proof fn lemma_pow3_pos(n: nat)
    ensures
        pow3(n) >= 1,
    decreases n,
{
    if n > 0 {
        lemma_pow3_pos((n - 1) as nat);
    }
}

pub proof fn lemma_pow3_mono(m: nat, n: nat)
    requires
        m <= n,
    ensures
        pow3(m) <= pow3(n),
    decreases n,
{
    if m < n {
        lemma_pow3_mono(m, (n - 1) as nat);
        lemma_pow3_pos((n - 1) as nat);
    }
}

/// Every entry names a derived clause instance of the graph.
pub open spec fn steps_ok(g: GraphV, steps: Seq<RefV>) -> bool {
    forall|k: int|
        0 <= k < steps.len() ==> 1 <= (#[trigger] steps[k]).gen < g.gens.len() && 0 <= steps[k].idx
            < g.gens[steps[k].gen].len()
}

/// The termination measure of the backward walk: every unprocessed entry
/// weighs three to its generation, so replacing an entry by at most two
/// parents of strictly smaller generation shrinks the sum.
pub open spec fn walk_measure(steps: Seq<RefV>, idx: int) -> int
    decreases steps.len() - idx,
{
    if idx < 0 || idx >= steps.len() {
        0
    } else {
        pow3(if steps[idx].gen >= 0 {
            steps[idx].gen as nat
        } else {
            0
        }) + walk_measure(steps, idx + 1)
    }
}

pub proof fn lemma_walk_measure_nonneg(steps: Seq<RefV>, idx: int)
    ensures
        walk_measure(steps, idx) >= 0,
    decreases steps.len() - idx,
{
    if idx < 0 || idx >= steps.len() {
    } else {
        lemma_pow3_pos(
            if steps[idx].gen >= 0 {
                steps[idx].gen as nat
            } else {
                0
            },
        );
        lemma_walk_measure_nonneg(steps, idx + 1);
    }
}

pub proof fn lemma_walk_measure_push(steps: Seq<RefV>, p: RefV, idx: int)
    requires
        0 <= idx <= steps.len(),
    ensures
        walk_measure(steps.push(p), idx) == walk_measure(steps, idx) + pow3(
            if p.gen >= 0 {
                p.gen as nat
            } else {
                0
            },
        ),
    decreases steps.len() - idx,
{
    if idx < steps.len() {
        assert(steps.push(p)[idx] == steps[idx]);
        lemma_walk_measure_push(steps, p, idx + 1);
        assert(walk_measure(steps.push(p), idx) == pow3(
            if steps[idx].gen >= 0 {
                steps[idx].gen as nat
            } else {
                0
            },
        ) + walk_measure(steps.push(p), idx + 1));
    } else {
        assert(steps.push(p)[idx] == p);
        assert(walk_measure(steps.push(p), idx + 1) == 0);
        assert(walk_measure(steps, idx) == 0);
    }
}

/// The edge that derived the instance `r`.
pub open spec fn edge_at(g: GraphV, r: RefV) -> EdgeV {
    g.edges[r.gen][r.idx]
}

/// Processes one work-list entry: appends the generating parents that are
/// derived instances and not yet listed; the second parent is skipped when
/// it is the same instance as the first.
pub open spec fn process_one(g: GraphV, steps: Seq<RefV>, idx: int) -> Seq<RefV> {
    let e = edge_at(g, steps[idx]);
    let p1 = e.from_a;
    let p2 = e.from_b;
    let s1 = if p1.gen >= 1 && !steps.contains(p1) {
        steps.push(p1)
    } else {
        steps
    };
    if p1 != p2 && p2.gen >= 1 && !s1.contains(p2) {
        s1.push(p2)
    } else {
        s1
    }
}

pub proof fn lemma_process_one(g: GraphV, steps: Seq<RefV>, idx: int)
    requires
        graph_wf(g),
        steps_ok(g, steps),
        0 <= idx < steps.len(),
    ensures
        steps_ok(g, process_one(g, steps, idx)),
        steps.len() <= process_one(g, steps, idx).len(),
        walk_measure(process_one(g, steps, idx), idx + 1) < walk_measure(steps, idx),
{
    let r = steps[idx];
    let kgen = r.gen;
    assert(1 <= kgen < g.edges.len());
    assert(g.edges[kgen].len() == g.gens[kgen].len());
    let e = edge_at(g, r);
    let p1 = e.from_a;
    let p2 = e.from_b;
    assert(0 <= p1.gen < kgen && 0 <= p1.idx < g.gens[p1.gen].len());
    assert(p2.gen == kgen - 1 && 0 <= p2.idx < g.gens[kgen - 1].len());
    let s1 = if p1.gen >= 1 && !steps.contains(p1) {
        steps.push(p1)
    } else {
        steps
    };
    let s2 = if p1 != p2 && p2.gen >= 1 && !s1.contains(p2) {
        s1.push(p2)
    } else {
        s1
    };
    assert forall|k: int|
        0 <= k < s2.len() implies 1 <= (#[trigger] s2[k]).gen < g.gens.len() && 0 <= s2[k].idx
        < g.gens[s2[k].gen].len() by {
        if k < steps.len() {
            assert(s2[k] == steps[k]);
        } else if k < s1.len() {
            assert(s2[k] == p1);
        } else {
            assert(s2[k] == p2);
        }
    }
    lemma_walk_measure_nonneg(steps, idx + 1);
    let w1 = pow3(
        if p1.gen >= 0 {
            p1.gen as nat
        } else {
            0
        },
    );
    let w2 = pow3(
        if p2.gen >= 0 {
            p2.gen as nat
        } else {
            0
        },
    );
    let wk = pow3(kgen as nat);
    lemma_pow3_mono(p1.gen as nat, (kgen - 1) as nat);
    lemma_pow3_mono(p2.gen as nat, (kgen - 1) as nat);
    lemma_pow3_pos((kgen - 1) as nat);
    assert(w1 <= pow3((kgen - 1) as nat));
    assert(w2 <= pow3((kgen - 1) as nat));
    assert(wk == 3 * pow3((kgen - 1) as nat));
    if s1 == steps {
        if s2 == s1 {
            assert(walk_measure(s2, idx + 1) < walk_measure(steps, idx));
        } else {
            lemma_walk_measure_push(s1, p2, idx + 1);
            assert(walk_measure(s2, idx + 1) == walk_measure(steps, idx + 1) + w2);
            assert(walk_measure(s2, idx + 1) < walk_measure(steps, idx));
        }
    } else {
        lemma_walk_measure_push(steps, p1, idx + 1);
        if s2 == s1 {
            assert(walk_measure(s2, idx + 1) == walk_measure(steps, idx + 1) + w1);
            assert(walk_measure(s2, idx + 1) < walk_measure(steps, idx));
        } else {
            lemma_walk_measure_push(s1, p2, idx + 1);
            assert(walk_measure(s2, idx + 1) == walk_measure(steps, idx + 1) + w1 + w2);
            assert(walk_measure(s2, idx + 1) < walk_measure(steps, idx));
        }
    }
}

/// The backward reconstruction: grows the work list from the entry at
/// `idx` on until every entry has been processed.
pub open spec fn walk(g: GraphV, steps: Seq<RefV>, idx: int) -> Seq<RefV>
    decreases walk_measure(steps, idx)
        when graph_wf(g) && steps_ok(g, steps) && 0 <= idx
        via walk_decreases
{
    if idx >= steps.len() {
        steps
    } else {
        walk(g, process_one(g, steps, idx), idx + 1)
    }
}

#[via_fn]
proof fn walk_decreases(g: GraphV, steps: Seq<RefV>, idx: int) {
    if idx < steps.len() {
        lemma_process_one(g, steps, idx);
        lemma_walk_measure_nonneg(process_one(g, steps, idx), idx + 1);
    }
}

/// The complete refutation recorded for one empty-clause instance: the
/// seed's generating edge and, transitively, the generating edges of every
/// derived parent, in discovery order.
pub open spec fn proof_steps(g: GraphV, seed: RefV) -> Seq<RefV> {
    walk(g, seq![seed], 0)
}

impl ClauseGraph {
    /// Collects one refutation by walking the recorded edges backward from
    /// the given derived instance, with a growing work list keyed by
    /// instance identity.
    pub(crate) fn collect_steps(&self, seed: ClauseRef) -> (r: Vec<ClauseRef>)
        requires
            graph_wf(self@),
            1 <= seed@.gen < self@.gens.len(),
            0 <= seed@.idx < self@.gens[seed@.gen].len(),
        ensures
            r@.map_values(|c: ClauseRef| c@) == proof_steps(self@, seed@),
            steps_ok(self@, r@.map_values(|c: ClauseRef| c@)),
            r@.len() >= 1,
    {
        let ghost g = self@;
        let mut steps: Vec<ClauseRef> = Vec::new();
        steps.push(seed);
        proof {
            assert(steps@.map_values(|c: ClauseRef| c@) =~= seq![seed@]);
        }
        let mut idx: usize = 0;
        while idx < steps.len()
            invariant
                g == self@,
                graph_wf(g),
                0 <= idx <= steps.len(),
                steps@.len() >= 1,
                steps_ok(g, steps@.map_values(|c: ClauseRef| c@)),
                walk(g, steps@.map_values(|c: ClauseRef| c@), idx as int) == proof_steps(g, seed@),
            decreases walk_measure(steps@.map_values(|c: ClauseRef| c@), idx as int),
        {
            let ghost sv = steps@.map_values(|c: ClauseRef| c@);
            proof {
                lemma_process_one(g, sv, idx as int);
            }
            let r = steps[idx];
            proof {
                assert(r@ == sv[idx as int]);
                assert(1 <= r@.gen < g.edges.len());
                assert(g.edges[r@.gen].len() == g.gens[r@.gen].len());
            }
            let p1 = self.edges[r.generation][r.position].from.0;
            let p2 = self.edges[r.generation][r.position].from.1;
            proof {
                assert(g.edges[r@.gen][r@.idx] == edge_at(g, sv[idx as int]));
                assert(p1@ == edge_at(g, sv[idx as int]).from_a);
                assert(p2@ == edge_at(g, sv[idx as int]).from_b);
            }
            let ghost e = edge_at(g, sv[idx as int]);
            if p1.generation >= 1 && !contains_ref(&steps, p1) {
                steps.push(p1);
                proof {
                    assert(steps@.map_values(|c: ClauseRef| c@) =~= sv.push(p1@));
                }
            } else {
                proof {
                    if p1.generation >= 1 {
                        assert(sv.contains(p1@));
                    } else {
                        assert(!(e.from_a.gen >= 1));
                    }
                }
            }
            let ghost s1 = steps@.map_values(|c: ClauseRef| c@);
            proof {
                assert(s1 == (if e.from_a.gen >= 1 && !sv.contains(e.from_a) {
                    sv.push(e.from_a)
                } else {
                    sv
                }));
            }
            let differs = p1.generation != p2.generation || p1.position != p2.position;
            proof {
                assert(differs == (p1@ != p2@));
            }
            if differs && p2.generation >= 1 && !contains_ref(&steps, p2) {
                steps.push(p2);
                proof {
                    assert(steps@.map_values(|c: ClauseRef| c@) =~= s1.push(p2@));
                }
            }
            proof {
                assert(steps@.map_values(|c: ClauseRef| c@) == process_one(g, sv, idx as int));
                lemma_walk_measure_nonneg(steps@.map_values(|c: ClauseRef| c@), idx + 1);
            }
            idx = idx + 1;
        }
        proof {
            assert(walk(g, steps@.map_values(|c: ClauseRef| c@), idx as int) == steps@.map_values(
                |c: ClauseRef| c@,
            ));
        }
        steps
    }
}

/// Whether the list holds an equal reference.
pub fn contains_ref(v: &Vec<ClauseRef>, x: ClauseRef) -> (r: bool)
    ensures
        r == v@.map_values(|c: ClauseRef| c@).contains(x@),
{
    let ghost vv = v@.map_values(|c: ClauseRef| c@);
    let mut i: usize = 0;
    while i < v.len()
        invariant
            0 <= i <= v.len(),
            vv == v@.map_values(|c: ClauseRef| c@),
            vv.len() == v@.len(),
            forall|k: int| 0 <= k < i ==> vv[k] != x@,
        decreases v.len() - i,
    {
        if v[i].generation == x.generation && v[i].position == x.position {
            proof {
                assert(vv[i as int] == x@);
            }
            return true;
        }
        proof {
            assert(vv[i as int] == v@[i as int]@);
            assert(vv[i as int] != x@);
        }
        i = i + 1;
    }
    proof {
        if vv.contains(x@) {
            let k = choose|k: int| 0 <= k < vv.len() && vv[k] == x@;
            assert(false);
        }
    }
    false
}

/// Textual form of a resolution step.
pub open spec fn edge_text(g: GraphV, e: EdgeV) -> Seq<char> {
    "Resolve "@ + clause_text(g.gens[e.from_a.gen][e.from_a.idx]) + " and "@ + clause_text(
        g.gens[e.from_b.gen][e.from_b.idx],
    ) + " on literal <span class='literal'>"@ + e.lit + "</span> to obtain "@ + clause_text(
        g.gens[e.to.gen][e.to.idx],
    )
}

/// All three references of the edge point into the graph.
pub open spec fn edge_refs_ok(g: GraphV, e: EdgeV) -> bool {
    &&& 0 <= e.from_a.gen < g.gens.len() && 0 <= e.from_a.idx < g.gens[e.from_a.gen].len()
    &&& 0 <= e.from_b.gen < g.gens.len() && 0 <= e.from_b.idx < g.gens[e.from_b.gen].len()
    &&& 0 <= e.to.gen < g.gens.len() && 0 <= e.to.idx < g.gens[e.to.gen].len()
}

impl ClauseGraph {
    /// Renders one recorded resolution step.
    pub(crate) fn edge_to_text(&self, e: &ClauseEdge) -> (r: String)
        requires
            edge_refs_ok(self@, e@),
        ensures
            r@ == edge_text(self@, e@),
    {
        let mut s = String::new();
        s.append("Resolve ");
        let t1 = self.node_groups[e.from.0.generation][e.from.0.position].to_text();
        s.append(t1.as_str());
        s.append(" and ");
        let t2 = self.node_groups[e.from.1.generation][e.from.1.position].to_text();
        s.append(t2.as_str());
        s.append(" on literal <span class='literal'>");
        s.append(e.clashing_literal.as_str());
        s.append("</span> to obtain ");
        let t3 = self.node_groups[e.to.generation][e.to.position].to_text();
        s.append(t3.as_str());
        proof {
            assert(s@ =~= edge_text(self@, e@));
        }
        s
    }
}

/// The per-iteration lines of the closure listing, from generation `k` on.
pub open spec fn iters_text(gens: Seq<Seq<Seq<LitV>>>, k: int) -> Seq<char>
    decreases gens.len() - k,
{
    if k < 1 || k >= gens.len() {
        Seq::<char>::empty()
    } else {
        "Iteration "@ + dec_str(k) + ": "@ + clauses_text(gens[k]) + "\n"@ + iters_text(gens, k + 1)
    }
}

/// The closure listing: the given clauses, then every later generation.
pub open spec fn resolvents_text(gens: Seq<Seq<Seq<LitV>>>) -> Seq<char> {
    "Given: "@ + clauses_text(gens[0]) + "\n"@ + iters_text(gens, 1)
}

impl ClauseGraph {
    /// Lists the clauses of every generation: the given clauses first, then
    /// one line per later iteration.
    pub fn get_resolvents(&self) -> (r: String)
        requires
            self@.gens.len() >= 1,
        ensures
            r@ == resolvents_text(self@.gens),
    {
        let ghost gv = self@.gens;
        let mut s = String::new();
        s.append("Given: ");
        let t0 = display_clauses(&self.node_groups[0]);
        s.append(t0.as_str());
        s.append("\n");
        let mut k: usize = 1;
        proof {
            assert(s@ + iters_text(gv, 1) =~= resolvents_text(gv));
        }
        while k < self.node_groups.len()
            invariant
                1 <= k,
                k <= self.node_groups.len() || k == 1,
                gv == self@.gens,
                gv.len() == self.node_groups.len(),
                s@ + iters_text(gv, k as int) == resolvents_text(gv),
            decreases self.node_groups.len() - k,
        {
            let ghost before = s@;
            s.append("Iteration ");
            append_dec(&mut s, k as u128);
            s.append(": ");
            let tk = display_clauses(&self.node_groups[k]);
            s.append(tk.as_str());
            s.append("\n");
            proof {
                assert(s@ =~= before + ("Iteration "@ + dec_str(k as int) + ": "@ + clauses_text(
                    gv[k as int],
                ) + "\n"@));
                assert(s@ + iters_text(gv, k + 1) =~= before + iters_text(gv, k as int));
            }
            k = k + 1;
        }
        proof {
            assert(iters_text(gv, k as int) =~= Seq::<char>::empty());
            assert(s@ + Seq::<char>::empty() =~= s@);
        }
        s
    }
}

/// Whether a generation holds an empty clause.
pub open spec fn gen_has_empty(gen: Seq<Seq<LitV>>) -> bool {
    exists|j: int| 0 <= j < gen.len() && gen[j].len() == 0
}

/// The index of the earliest generation from `k` on that holds the empty
/// clause, or -1 when none does.
pub open spec fn first_empty(gens: Seq<Seq<Seq<LitV>>>, k: int) -> int
    decreases gens.len() - k,
{
    if k < 0 || k >= gens.len() {
        -1
    } else if gen_has_empty(gens[k]) {
        k
    } else {
        first_empty(gens, k + 1)
    }
}

pub proof fn lemma_first_empty(gens: Seq<Seq<Seq<LitV>>>, k: int, i: int)
    requires
        0 <= k <= i <= gens.len(),
        forall|k2: int| k <= k2 < i ==> !gen_has_empty(#[trigger] gens[k2]),
        i == gens.len() || gen_has_empty(gens[i]),
    ensures
        first_empty(gens, k) == (if i == gens.len() {
            -1int
        } else {
            i
        }),
    decreases i - k,
{
    if k < i {
        lemma_first_empty(gens, k + 1, i);
    } else if i == gens.len() {
        if k < gens.len() {
            lemma_first_empty(gens, k + 1, i);
        }
    }
}

/// The recorded refutations, one per empty-clause instance of generation
/// `i` from position `j` on.
pub open spec fn options_from(g: GraphV, i: int, j: int) -> Seq<Seq<RefV>>
    decreases (if 0 <= i < g.gens.len() {
        g.gens[i].len() - j
    } else {
        0
    }),
{
    if i < 0 || i >= g.gens.len() || j < 0 || j >= g.gens[i].len() {
        Seq::<Seq<RefV>>::empty()
    } else {
        (if g.gens[i][j].len() == 0 {
            seq![proof_steps(g, RefV { gen: i, idx: j })]
        } else {
            Seq::<Seq<RefV>>::empty()
        }) + options_from(g, i, j + 1)
    }
}

pub proof fn lemma_options_nonempty(g: GraphV, i: int, j: int)
    requires
        0 <= i < g.gens.len(),
        0 <= j,
        exists|j2: int| j <= j2 < g.gens[i].len() && g.gens[i][j2].len() == 0,
    ensures
        options_from(g, i, j).len() >= 1,
    decreases (if 0 <= i < g.gens.len() {
        g.gens[i].len() - j
    } else {
        0
    }),
{
    let j2 = choose|j2: int| j <= j2 < g.gens[i].len() && g.gens[i][j2].len() == 0;
    if j < j2 {
        assert(exists|j3: int| j + 1 <= j3 < g.gens[i].len() && g.gens[i][j3].len() == 0);
        lemma_options_nonempty(g, i, j + 1);
    }
}

/// The fewest steps among the collected refutations.
pub open spec fn min_opts(opts: Seq<Seq<RefV>>) -> int
    decreases opts.len(),
{
    if opts.len() == 0 {
        0
    } else if opts.len() == 1 {
        opts[0].len() as int
    } else {
        let m = min_opts(opts.drop_last());
        if opts.last().len() < m {
            opts.last().len() as int
        } else {
            m
        }
    }
}

/// The refutations of exactly `m` steps, in order.
pub open spec fn keep_min(opts: Seq<Seq<RefV>>, k: int, m: int) -> Seq<Seq<RefV>>
    decreases opts.len() - k,
{
    if k < 0 || k >= opts.len() {
        Seq::<Seq<RefV>>::empty()
    } else {
        (if opts[k].len() == m {
            seq![opts[k]]
        } else {
            Seq::<Seq<RefV>>::empty()
        }) + keep_min(opts, k + 1, m)
    }
}

/// One refutation's lines, printed in forward derivation order: the steps
/// from position `t` back to the first collected.
pub open spec fn steps_text(g: GraphV, steps: Seq<RefV>, t: int) -> Seq<char>
    decreases t + 1,
{
    if t < 0 {
        Seq::<char>::empty()
    } else {
        edge_text(g, edge_at(g, steps[t])) + "\n"@ + steps_text(g, steps, t - 1)
    }
}

/// The numbered alternatives, from position `k` on.
pub open spec fn opts_text(g: GraphV, kept: Seq<Seq<RefV>>, k: int) -> Seq<char>
    decreases kept.len() - k,
{
    if k < 0 || k >= kept.len() {
        Seq::<char>::empty()
    } else {
        "\nOption "@ + dec_str(k + 1) + ":\n"@ + steps_text(g, kept[k], kept[k].len() - 1)
            + opts_text(g, kept, k + 1)
    }
}

/// The unsatisfiable report body: the single quickest refutation, or every
/// tied-for-quickest alternative.
pub open spec fn unsat_text(g: GraphV, i: int) -> Seq<char> {
    let opts = options_from(g, i, 0);
    let m = min_opts(opts);
    let kept = keep_min(opts, 0, m);
    if kept.len() == 1 {
        "The quickest way to get the empty set is to do these "@ + dec_str(m) + " steps:\n"@
            + steps_text(g, kept[0], kept[0].len() - 1)
    } else {
        "There are "@ + dec_str(kept.len() as int) + " ways to get the empty set, all taking "@
            + dec_str(m) + " steps:\n"@ + opts_text(g, kept, 0)
    }
}

/// The lines of one edge batch, from position `e` on.
pub open spec fn edges_lines(g: GraphV, k: int, e: int) -> Seq<char>
    decreases (if 0 <= k < g.edges.len() {
        g.edges[k].len() - e
    } else {
        0
    }),
{
    if k < 0 || k >= g.edges.len() || e < 0 || e >= g.edges[k].len() {
        Seq::<char>::empty()
    } else {
        edge_text(g, g.edges[k][e]) + "\n"@ + edges_lines(g, k, e + 1)
    }
}

/// The per-iteration sections of the satisfiable report, from `k` on.
pub open spec fn gen_sections(g: GraphV, k: int) -> Seq<char>
    decreases g.edges.len() - k,
{
    if k < 1 || k >= g.edges.len() {
        Seq::<char>::empty()
    } else {
        "\nIteration "@ + dec_str(k) + ":\n"@ + edges_lines(g, k, 0) + gen_sections(g, k + 1)
    }
}

/// The number of clauses across all generations.
pub open spec fn total_nodes(gens: Seq<Seq<Seq<LitV>>>) -> int
    decreases gens.len(),
{
    if gens.len() == 0 {
        0
    } else {
        total_nodes(gens.drop_last()) + gens.last().len()
    }
}

/// The satisfiable report body: every recorded step, then the closure.
pub open spec fn sat_text(g: GraphV) -> Seq<char> {
    "The formula is satisfiable! Take these steps to get all possible clauses:\n"@ + gen_sections(
        g,
        1,
    ) + "\nAt the end you should get these "@ + dec_str(total_nodes(g.gens))
        + " clauses:\n"@ + resolvents_text(g.gens)
}

/// One report line wrapped in its container; an empty line becomes a
/// non-breaking space.
pub open spec fn wrap_line(l: Seq<char>) -> Seq<char> {
    "<div class='result-line'>"@ + (if l.len() == 0 {
        "&nbsp;"@
    } else {
        l
    }) + "</div>"@
}

/// Wraps every newline-separated line of `s`, the current line having
/// started at `start`.
pub open spec fn wrap_from(s: Seq<char>, i: int, start: int, out: Seq<char>) -> Seq<char>
    decreases s.len() - i,
{
    if i < 0 || i > s.len() || start < 0 || start > i {
        out
    } else if i == s.len() {
        out + wrap_line(s.subrange(start, i))
    } else if s[i] == '\n' {
        wrap_from(s, i + 1, i + 1, out + wrap_line(s.subrange(start, i)))
    } else {
        wrap_from(s, i + 1, start, out)
    }
}

pub open spec fn wrap_text(s: Seq<char>) -> Seq<char> {
    wrap_from(s, 0, 0, Seq::<char>::empty())
}

/// The complete report: the refutation or closure body, each line wrapped
/// in its container.
pub open spec fn solution_text(g: GraphV) -> Seq<char> {
    let fe = first_empty(g.gens, 0);
    if fe >= 0 {
        wrap_text(unsat_text(g, fe))
    } else {
        wrap_text(sat_text(g))
    }
}

/// Wraps each newline-separated line of the body in its line container.
fn wrap_lines(body: &str) -> (r: String)
    ensures
        r@ == wrap_text(body@),
{
    let ghost bv = body@;
    let n = body.unicode_len();
    let mut out = String::new();
    let mut start: usize = 0;
    let mut i: usize = 0;
    proof {
        assert(out@ =~= Seq::<char>::empty());
    }
    while i < n
        invariant
            0 <= start <= i <= n,
            n == bv.len(),
            bv == body@,
            wrap_from(bv, i as int, start as int, out@) == wrap_text(bv),
        decreases n - i,
    {
        let c = body.get_char(i);
        if c == '\n' {
            let ghost before = out@;
            out.append("<div class='result-line'>");
            if i == start {
                out.append("&nbsp;");
            } else {
                let piece = body.substring_char(start, i);
                out.append(piece);
            }
            out.append("</div>");
            proof {
                if i == start {
                    assert(bv.subrange(start as int, i as int).len() == 0);
                    assert(out@ =~= before + wrap_line(bv.subrange(start as int, i as int)));
                } else {
                    assert(bv.subrange(start as int, i as int).len() > 0);
                    assert(out@ =~= before + wrap_line(bv.subrange(start as int, i as int)));
                }
            }
            start = i + 1;
        }
        i = i + 1;
    }
    let ghost before = out@;
    out.append("<div class='result-line'>");
    if n == start {
        out.append("&nbsp;");
    } else {
        let piece = body.substring_char(start, n);
        out.append(piece);
    }
    out.append("</div>");
    proof {
        if n == start {
            assert(bv.subrange(start as int, n as int).len() == 0);
        } else {
            assert(bv.subrange(start as int, n as int).len() > 0);
        }
        assert(out@ =~= before + wrap_line(bv.subrange(start as int, n as int)));
        assert(out@ == wrap_from(bv, n as int, start as int, before));
    }
    out
}

impl ClauseGraph {
    /// Produces the full report. An unsatisfiable formula yields its
    /// quickest refutation, or every tied alternative; a satisfiable one
    /// yields the complete audit trail and closure. Every line is wrapped
    /// in its container.
    pub fn get_solution(&self) -> (r: String)
        requires
            graph_wf(self@),
            forall|i: int| 0 <= i < self@.gens[0].len() ==> (#[trigger] self@.gens[0][i]).len() >= 1,
        ensures
            r@ == solution_text(self@),
    {
        let ghost g = self@;
        let mut body = String::new();
        match self.check_satisfiability() {
            Some(index) => {
                proof {
                    assert forall|k2: int| 0 <= k2 < index implies !gen_has_empty(
                        #[trigger] g.gens[k2],
                    ) by {
                        if gen_has_empty(g.gens[k2]) {
                            let j = choose|j: int|
                                0 <= j < g.gens[k2].len() && g.gens[k2][j].len() == 0;
                            assert(false);
                        }
                    }
                    lemma_first_empty(g.gens, 0, index as int);
                    assert(first_empty(g.gens, 0) == index as int);
                    assert(index >= 1) by {
                        if index == 0 {
                            let j = choose|j: int|
                                0 <= j < g.gens[0].len() && g.gens[0][j].len() == 0;
                            assert(g.gens[0][j].len() >= 1);
                        }
                    }
                }
                // collect one refutation per empty-clause instance
                let mut all_options: Vec<Vec<ClauseRef>> = Vec::new();
                let mut j: usize = 0;
                proof {
                    assert(all_options@.map_values(
                        |o: Vec<ClauseRef>| o@.map_values(|c: ClauseRef| c@),
                    ) =~= Seq::<Seq<RefV>>::empty());
                    assert(Seq::<Seq<RefV>>::empty() + options_from(g, index as int, 0)
                        =~= options_from(g, index as int, 0));
                }
                while j < self.node_groups[index].len()
                    invariant
                        g == self@,
                        graph_wf(g),
                        1 <= index < g.gens.len(),
                        index < self.node_groups@.len(),
                        0 <= j <= self.node_groups[index as int].len(),
                        g.gens[index as int].len() == self.node_groups[index as int]@.len(),
                        all_options@.map_values(
                            |o: Vec<ClauseRef>| o@.map_values(|c: ClauseRef| c@),
                        ) + options_from(g, index as int, j as int) == options_from(
                            g,
                            index as int,
                            0,
                        ),
                        forall|q: int|
                            0 <= q < all_options@.len() ==> steps_ok(
                                g,
                                (#[trigger] all_options@[q])@.map_values(|c: ClauseRef| c@),
                            ) && all_options@[q]@.len() >= 1,
                    decreases self.node_groups[index as int].len() - j,
                {
                    let ghost optsb = all_options@.map_values(
                        |o: Vec<ClauseRef>| o@.map_values(|c: ClauseRef| c@),
                    );
                    if self.node_groups[index][j].is_empty() {
                        let steps = self.collect_steps(
                            ClauseRef { generation: index, position: j },
                        );
                        all_options.push(steps);
                        proof {
                            assert(all_options@.map_values(
                                |o: Vec<ClauseRef>| o@.map_values(|c: ClauseRef| c@),
                            ) =~= optsb.push(proof_steps(g, RefV { gen: index as int, idx: j as int })));
                            assert(optsb.push(
                                proof_steps(g, RefV { gen: index as int, idx: j as int }),
                            ) + options_from(g, index as int, j + 1) =~= optsb + options_from(
                                g,
                                index as int,
                                j as int,
                            ));
                        }
                    } else {
                        proof {
                            assert(options_from(g, index as int, j + 1) == options_from(
                                g,
                                index as int,
                                j as int,
                            ));
                        }
                    }
                    j = j + 1;
                }
                let ghost opts = options_from(g, index as int, 0);
                proof {
                    assert(options_from(g, index as int, j as int) =~= Seq::<Seq<RefV>>::empty());
                    assert(all_options@.map_values(
                        |o: Vec<ClauseRef>| o@.map_values(|c: ClauseRef| c@),
                    ) + Seq::<Seq<RefV>>::empty() =~= all_options@.map_values(
                        |o: Vec<ClauseRef>| o@.map_values(|c: ClauseRef| c@),
                    ));
                    assert(all_options@.map_values(
                        |o: Vec<ClauseRef>| o@.map_values(|c: ClauseRef| c@),
                    ) == opts);
                    lemma_options_nonempty(g, index as int, 0);
                }
                // the fewest steps among the refutations
                let mut m: usize = all_options[0].len();
                let mut t: usize = 1;
                proof {
                    assert(opts.take(1).drop_last() =~= Seq::<Seq<RefV>>::empty());
                    assert(opts.take(1)[0] == opts[0]);
                    assert(m as int == min_opts(opts.take(1)));
                }
                while t < all_options.len()
                    invariant
                        1 <= t <= all_options@.len(),
                        opts == all_options@.map_values(
                            |o: Vec<ClauseRef>| o@.map_values(|c: ClauseRef| c@),
                        ),
                        opts.len() == all_options@.len(),
                        m as int == min_opts(opts.take(t as int)),
                    decreases all_options@.len() - t,
                {
                    proof {
                        assert(opts.take(t + 1).drop_last() =~= opts.take(t as int));
                        assert(opts.take(t + 1).last() == opts[t as int]);
                        assert(opts[t as int].len() == all_options@[t as int]@.len());
                    }
                    if all_options[t].len() < m {
                        m = all_options[t].len();
                    }
                    t = t + 1;
                }
                proof {
                    assert(opts.take(opts.len() as int) =~= opts);
                }
                // keep only the refutations of the fewest steps
                let mut kept: Vec<Vec<ClauseRef>> = Vec::new();
                let ghost total_opts = opts.len();
                let mut remaining = all_options;
                proof {
                    assert(kept@.map_values(|o: Vec<ClauseRef>| o@.map_values(|c: ClauseRef| c@))
                        =~= Seq::<Seq<RefV>>::empty());
                    assert(Seq::<Seq<RefV>>::empty() + keep_min(opts, 0, m as int) =~= keep_min(
                        opts,
                        0,
                        m as int,
                    ));
                }
                while remaining.len() > 0
                    invariant
                        opts.len() == total_opts,
                        remaining@.map_values(|o: Vec<ClauseRef>| o@.map_values(|c: ClauseRef| c@))
                            == opts.skip(total_opts - remaining@.len()),
                        remaining@.len() <= total_opts,
                        kept@.map_values(|o: Vec<ClauseRef>| o@.map_values(|c: ClauseRef| c@))
                            + keep_min(opts, total_opts - remaining@.len(), m as int) == keep_min(
                            opts,
                            0,
                            m as int,
                        ),
                        forall|q: int|
                            0 <= q < opts.len() ==> steps_ok(g, #[trigger] opts[q]),
                        forall|q: int|
                            0 <= q < kept@.len() ==> steps_ok(
                                g,
                                (#[trigger] kept@[q])@.map_values(|c: ClauseRef| c@),
                            ),
                    decreases remaining@.len(),
                {
                    let ghost tt = total_opts - remaining@.len();
                    let ghost keptb = kept@.map_values(
                        |o: Vec<ClauseRef>| o@.map_values(|c: ClauseRef| c@),
                    );
                    let ghost remb = remaining@;
                    let o = remaining.remove(0);
                    proof {
                        let f = |o: Vec<ClauseRef>| o@.map_values(|c: ClauseRef| c@);
                        assert(remb.map_values(f)[0] == f(remb[0]));
                        assert(opts.skip(tt)[0] == opts[tt]);
                        assert(o@.map_values(|c: ClauseRef| c@) == opts[tt]);
                        assert(remaining@ == remb.remove(0));
                        assert forall|u: int|
                            0 <= u < remaining@.len() implies remaining@.map_values(f)[u]
                            == opts.skip(tt + 1)[u] by {
                            assert(remaining@[u] == remb[u + 1]);
                            assert(remb.map_values(f)[u + 1] == f(remb[u + 1]));
                            assert(opts.skip(tt)[u + 1] == opts[tt + 1 + u]);
                            assert(opts.skip(tt + 1)[u] == opts[tt + 1 + u]);
                        }
                        assert(remaining@.map_values(f) =~= opts.skip(tt + 1));
                    }
                    if o.len() == m {
                        kept.push(o);
                        proof {
                            assert(kept@.map_values(
                                |o2: Vec<ClauseRef>| o2@.map_values(|c: ClauseRef| c@),
                            ) =~= keptb.push(opts[tt]));
                            assert(keptb.push(opts[tt]) + keep_min(opts, tt + 1, m as int)
                                =~= keptb + keep_min(opts, tt, m as int));
                        }
                    } else {
                        proof {
                            assert(keep_min(opts, tt + 1, m as int) == keep_min(
                                opts,
                                tt,
                                m as int,
                            ));
                        }
                    }
                }
                let ghost keptv = keep_min(opts, 0, m as int);
                proof {
                    assert(keep_min(opts, total_opts as int, m as int) =~= Seq::<
                        Seq<RefV>,
                    >::empty());
                    assert(kept@.map_values(|o: Vec<ClauseRef>| o@.map_values(|c: ClauseRef| c@))
                        + Seq::<Seq<RefV>>::empty() =~= kept@.map_values(
                        |o: Vec<ClauseRef>| o@.map_values(|c: ClauseRef| c@),
                    ));
                    assert(kept@.map_values(|o: Vec<ClauseRef>| o@.map_values(|c: ClauseRef| c@))
                        == keptv);
                }
                if kept.len() == 1 {
                    body.append("The quickest way to get the empty set is to do these ");
                    append_dec(&mut body, m as u128);
                    body.append(" steps:\n");
                    let ghost pre = body@;
                    let ghost sv = keptv[0];
                    let mut t2: usize = kept[0].len();
                    proof {
                        assert(kept@[0]@.map_values(|c: ClauseRef| c@) == keptv[0]);
                        assert(body@ + steps_text(g, sv, t2 - 1) =~= pre + steps_text(
                            g,
                            sv,
                            sv.len() - 1,
                        ));
                    }
                    while t2 > 0
                        invariant
                            g == self@,
                            graph_wf(g),
                            0 <= t2 <= sv.len(),
                            kept@.len() == 1,
                            sv == keptv[0],
                            kept@[0]@.map_values(|c: ClauseRef| c@) == sv,
                            kept@[0]@.len() == sv.len(),
                            steps_ok(g, sv),
                            body@ + steps_text(g, sv, t2 as int - 1) == pre + steps_text(
                                g,
                                sv,
                                sv.len() - 1,
                            ),
                        decreases t2,
                    {
                        t2 = t2 - 1;
                        let sr = kept[0][t2];
                        proof {
                            assert(sr@ == sv[t2 as int]);
                            assert(1 <= sr@.gen < g.edges.len());
                            assert(g.edges[sr@.gen].len() == g.gens[sr@.gen].len());
                            assert(edge_refs_ok(g, edge_at(g, sv[t2 as int])));
                        }
                        let line = self.edge_to_text(&self.edges[sr.generation][sr.position]);
                        let ghost before = body@;
                        body.append(line.as_str());
                        body.append("\n");
                        proof {
                            assert(body@ =~= before + (edge_text(g, edge_at(g, sv[t2 as int]))
                                + "\n"@));
                            assert(body@ + steps_text(g, sv, t2 as int - 1) =~= before
                                + steps_text(g, sv, t2 as int));
                        }
                    }
                    proof {
                        assert(steps_text(g, sv, -1) =~= Seq::<char>::empty());
                        assert(body@ + Seq::<char>::empty() =~= body@);
                        assert(body@ == unsat_text(g, index as int));
                    }
                } else {
                    body.append("There are ");
                    append_dec(&mut body, kept.len() as u128);
                    body.append(" ways to get the empty set, all taking ");
                    append_dec(&mut body, m as u128);
                    body.append(" steps:\n");
                    let ghost pre = body@;
                    let mut q: usize = 0;
                    proof {
                        assert(body@ + opts_text(g, keptv, 0) =~= pre + opts_text(g, keptv, 0));
                    }
                    while q < kept.len()
                        invariant
                            g == self@,
                            graph_wf(g),
                            0 <= q <= kept@.len(),
                            kept@.len() == keptv.len(),
                            kept@.map_values(|o: Vec<ClauseRef>| o@.map_values(|c: ClauseRef| c@))
                                == keptv,
                            forall|q2: int| 0 <= q2 < keptv.len() ==> steps_ok(g, #[trigger] keptv[q2]),
                            body@ + opts_text(g, keptv, q as int) == pre + opts_text(g, keptv, 0),
                        decreases kept@.len() - q,
                    {
                        let ghost chunk_pre = body@;
                        body.append("\nOption ");
                        append_dec(&mut body, (q + 1) as u128);
                        body.append(":\n");
                        let ghost sv = keptv[q as int];
                        let ghost steps_pre = body@;
                        let mut t2: usize = kept[q].len();
                        proof {
                            assert(kept@[q as int]@.map_values(|c: ClauseRef| c@) == keptv[q as int]);
                            assert(kept@[q as int]@.len() == sv.len());
                            assert(body@ + steps_text(g, sv, t2 - 1) =~= steps_pre + steps_text(
                                g,
                                sv,
                                sv.len() - 1,
                            ));
                        }
                        while t2 > 0
                            invariant
                                g == self@,
                                graph_wf(g),
                                0 <= q < kept@.len(),
                                0 <= t2 <= sv.len(),
                                sv == keptv[q as int],
                                kept@[q as int]@.map_values(|c: ClauseRef| c@) == sv,
                                kept@[q as int]@.len() == sv.len(),
                                steps_ok(g, sv),
                                body@ + steps_text(g, sv, t2 as int - 1) == steps_pre + steps_text(
                                    g,
                                    sv,
                                    sv.len() - 1,
                                ),
                            decreases t2,
                        {
                            t2 = t2 - 1;
                            let sr = kept[q][t2];
                            proof {
                                assert(sr@ == sv[t2 as int]);
                                assert(1 <= sr@.gen < g.edges.len());
                                assert(g.edges[sr@.gen].len() == g.gens[sr@.gen].len());
                                assert(edge_refs_ok(g, edge_at(g, sv[t2 as int])));
                            }
                            let line = self.edge_to_text(&self.edges[sr.generation][sr.position]);
                            let ghost before = body@;
                            body.append(line.as_str());
                            body.append("\n");
                            proof {
                                assert(body@ =~= before + (edge_text(g, edge_at(g, sv[t2 as int]))
                                    + "\n"@));
                                assert(body@ + steps_text(g, sv, t2 as int - 1) =~= before
                                    + steps_text(g, sv, t2 as int));
                            }
                        }
                        proof {
                            assert(steps_text(g, sv, -1) =~= Seq::<char>::empty());
                            assert(body@ + Seq::<char>::empty() =~= body@);
                            assert(body@ =~= chunk_pre + ("\nOption "@ + dec_str(q + 1) + ":\n"@
                                + steps_text(g, sv, sv.len() - 1)));
                            assert(body@ + opts_text(g, keptv, q + 1) =~= chunk_pre + opts_text(
                                g,
                                keptv,
                                q as int,
                            ));
                        }
                        q = q + 1;
                    }
                    proof {
                        assert(opts_text(g, keptv, q as int) =~= Seq::<char>::empty());
                        assert(body@ + Seq::<char>::empty() =~= body@);
                        assert(body@ == unsat_text(g, index as int));
                    }
                }
            },
            None => {
                proof {
                    assert forall|k2: int| 0 <= k2 < g.gens.len() implies !gen_has_empty(
                        #[trigger] g.gens[k2],
                    ) by {
                        if gen_has_empty(g.gens[k2]) {
                            let j = choose|j: int|
                                0 <= j < g.gens[k2].len() && g.gens[k2][j].len() == 0;
                            assert(false);
                        }
                    }
                    lemma_first_empty(g.gens, 0, g.gens.len() as int);
                    assert(first_empty(g.gens, 0) == -1);
                }
                body.append(
                    "The formula is satisfiable! Take these steps to get all possible clauses:\n",
                );
                let ghost pre = body@;
                let mut k: usize = 1;
                proof {
                    assert(body@ + gen_sections(g, 1) =~= pre + gen_sections(g, 1));
                }
                while k < self.edges.len()
                    invariant
                        g == self@,
                        graph_wf(g),
                        1 <= k,
                        k <= self.edges@.len() || k == 1,
                        g.edges.len() == self.edges@.len(),
                        body@ + gen_sections(g, k as int) == pre + gen_sections(g, 1),
                    decreases self.edges@.len() - k,
                {
                    let ghost chunk_pre = body@;
                    body.append("\nIteration ");
                    append_dec(&mut body, k as u128);
                    body.append(":\n");
                    let ghost lines_pre = body@;
                    let mut e: usize = 0;
                    proof {
                        assert(body@ + edges_lines(g, k as int, 0) =~= lines_pre + edges_lines(
                            g,
                            k as int,
                            0,
                        ));
                    }
                    while e < self.edges[k].len()
                        invariant
                            g == self@,
                            graph_wf(g),
                            1 <= k < self.edges@.len(),
                            g.edges.len() == self.edges@.len(),
                            0 <= e <= self.edges[k as int]@.len(),
                            g.edges[k as int].len() == self.edges[k as int]@.len(),
                            body@ + edges_lines(g, k as int, e as int) == lines_pre + edges_lines(
                                g,
                                k as int,
                                0,
                            ),
                        decreases self.edges[k as int]@.len() - e,
                    {
                        proof {
                            assert(g.edges[k as int][e as int].to == (RefV {
                                gen: k as int,
                                idx: e as int,
                            }));
                            assert(g.edges[k as int].len() == g.gens[k as int].len());
                            assert(edge_refs_ok(g, g.edges[k as int][e as int]));
                        }
                        let line = self.edge_to_text(&self.edges[k][e]);
                        let ghost before = body@;
                        body.append(line.as_str());
                        body.append("\n");
                        proof {
                            assert(body@ =~= before + (edge_text(g, g.edges[k as int][e as int])
                                + "\n"@));
                            assert(body@ + edges_lines(g, k as int, e + 1) =~= before
                                + edges_lines(g, k as int, e as int));
                        }
                        e = e + 1;
                    }
                    proof {
                        assert(edges_lines(g, k as int, e as int) =~= Seq::<char>::empty());
                        assert(body@ + Seq::<char>::empty() =~= body@);
                        assert(body@ =~= chunk_pre + ("\nIteration "@ + dec_str(k as int) + ":\n"@
                            + edges_lines(g, k as int, 0)));
                        assert(body@ + gen_sections(g, k + 1) =~= chunk_pre + gen_sections(
                            g,
                            k as int,
                        ));
                    }
                    k = k + 1;
                }
                proof {
                    assert(gen_sections(g, k as int) =~= Seq::<char>::empty());
                    assert(body@ + Seq::<char>::empty() =~= body@);
                }
                body.append("\nAt the end you should get these ");
                // count every clause across the generations
                let mut total: u128 = 0;
                let mut k2: usize = 0;
                proof {
                    assert(g.gens.take(0) =~= Seq::<Seq<Seq<LitV>>>::empty());
                }
                while k2 < self.node_groups.len()
                    invariant
                        g == self@,
                        0 <= k2 <= self.node_groups@.len(),
                        g.gens.len() == self.node_groups@.len(),
                        total as int == total_nodes(g.gens.take(k2 as int)),
                        total <= (k2 as u128) * (usize::MAX as u128),
                    decreases self.node_groups@.len() - k2,
                {
                    let len = self.node_groups[k2].len();
                    proof {
                        assert(g.gens.take(k2 + 1).drop_last() =~= g.gens.take(k2 as int));
                        assert(g.gens.take(k2 + 1).last() == g.gens[k2 as int]);
                        assert(g.gens[k2 as int].len() == self.node_groups[k2 as int]@.len());
                        assert((len as u128) <= (usize::MAX as u128));
                        assert((usize::MAX as u128) <= 0xffff_ffff_ffff_ffffu128);
                        assert((k2 as u128) <= 0xffff_ffff_ffff_ffffu128);
                        assert(total + (len as u128) <= ((k2 as u128) + 1) * (
                        usize::MAX as u128)) by (nonlinear_arith)
                            requires
                                total <= (k2 as u128) * (usize::MAX as u128),
                                (len as u128) <= (usize::MAX as u128),
                        ;
                        assert(((k2 as u128) + 1) * (usize::MAX as u128) <= 0xffff_ffff_ffff_ffffu128
                            * 0x1_0000_0000_0000_0000u128) by (nonlinear_arith)
                            requires
                                (k2 as u128) <= 0xffff_ffff_ffff_ffffu128,
                                (usize::MAX as u128) <= 0xffff_ffff_ffff_ffffu128,
                        ;
                    }
                    total = total + (len as u128);
                    k2 = k2 + 1;
                }
                proof {
                    assert(g.gens.take(k2 as int) =~= g.gens);
                    assert(total as int == total_nodes(g.gens));
                }
                append_dec(&mut body, total);
                body.append(" clauses:\n");
                let closure = self.get_resolvents();
                body.append(closure.as_str());
                proof {
                    assert(body@ =~= sat_text(g));
                }
            },
        }
        let r = wrap_lines(body.as_str());
        proof {
            assert(r@ == solution_text(g));
        }
        r
    }
}

} // verus!
