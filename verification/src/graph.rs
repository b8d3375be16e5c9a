use vstd::prelude::*;

use crate::clause::{Clause, LitV, clash_list, content_eq, has_opposite,
    lemma_resolution_correctness, resolvent_seq};

verus! {

/// Stable identity of a clause instance: the generation that produced it
/// and its position there. Distinct instances may share content.
pub ghost struct RefV {
    pub gen: int,
    pub idx: int,
}

#[derive(PartialEq, Eq, Structural, Clone, Copy)]
pub struct ClauseRef {
    pub generation: usize,
    pub position: usize,
}

impl View for ClauseRef {
    type V = RefV;

    open spec fn view(&self) -> RefV {
        RefV { gen: self.generation as int, idx: self.position as int }
    }
}

/// Mathematical model of a resolution step.
pub ghost struct EdgeV {
    pub from_a: RefV,
    pub from_b: RefV,
    pub to: RefV,
    pub lit: Seq<char>,
}

/// One recorded resolution step: the two parent instances, the clashing
/// variable's name, and the derived instance.
pub struct ClauseEdge {
    pub from: (ClauseRef, ClauseRef),
    pub to: ClauseRef,
    pub clashing_literal: String,
}

impl View for ClauseEdge {
    type V = EdgeV;

    open spec fn view(&self) -> EdgeV {
        EdgeV { from_a: self.from.0@, from_b: self.from.1@, to: self.to@, lit: self.clashing_literal@ }
    }
}

/// Mathematical model of the derivation graph: the generations of clause
/// contents and the per-generation edge batches.
pub ghost struct GraphV {
    pub gens: Seq<Seq<Seq<LitV>>>,
    pub edges: Seq<Seq<EdgeV>>,
}

/// The derivation graph: generation 0 is the input; each later generation
/// holds the clauses newly discovered by one resolution pass, and a
/// parallel edge batch records how each was derived.
pub struct ClauseGraph {
    pub node_groups: Vec<Vec<Clause>>,
    pub edges: Vec<Vec<ClauseEdge>>,
}

impl View for ClauseGraph {
    type V = GraphV;

    open spec fn view(&self) -> GraphV {
        GraphV {
            gens: self.node_groups@.map_values(
                |g: Vec<Clause>| g@.map_values(|c: Clause| c@),
            ),
            edges: self.edges@.map_values(|b: Vec<ClauseEdge>| b@.map_values(|e: ClauseEdge| e@)),
        }
    }
}

/// The content stored for a clause reference.
pub open spec fn clause_of(gens: Seq<Seq<Seq<LitV>>>, r: RefV) -> Seq<LitV> {
    gens[r.gen][r.idx]
}

pub open spec fn valid_ref(gens: Seq<Seq<Seq<LitV>>>, r: RefV) -> bool {
    0 <= r.gen < gens.len() && 0 <= r.idx < gens[r.gen].len()
}

/// Whether content equal to `c` appears anywhere in the generations.
pub open spec fn contains_content(gens: Seq<Seq<Seq<LitV>>>, c: Seq<LitV>) -> bool {
    exists|k: int, i: int|
        0 <= k < gens.len() && 0 <= i < gens[k].len() && content_eq(gens[k][i], c)
}

/// Whether content equal to `c` is already staged in this pass.
pub open spec fn pending_has(pn: Seq<Seq<LitV>>, c: Seq<LitV>) -> bool {
    exists|k: int| 0 <= k < pn.len() && content_eq(pn[k], c)
}

/// Whether an edge staged in this pass already clashes on `nm`.
pub open spec fn pending_lit(pe: Seq<EdgeV>, nm: Seq<char>) -> bool {
    exists|k: int| 0 <= k < pe.len() && pe[k].lit == nm
}

/// The acceptance rule for a resolvent: its content is new to the graph and
/// to this pass's staging, or it is the empty clause and no staged edge
/// clashes on the same variable yet.
pub open spec fn accepts(
    gens: Seq<Seq<Seq<LitV>>>,
    pn: Seq<Seq<LitV>>,
    pe: Seq<EdgeV>,
    c: Seq<LitV>,
    nm: Seq<char>,
) -> bool {
    (!contains_content(gens, c) && !pending_has(pn, c)) || (c.len() == 0 && !pending_lit(pe, nm))
}

/// Stages the candidate resolvents of one clause pair, in order.
pub open spec fn stage_cands(
    gens: Seq<Seq<Seq<LitV>>>,
    aref: RefV,
    bref: RefV,
    cands: Seq<(Seq<LitV>, Seq<char>)>,
    t: int,
    pn: Seq<Seq<LitV>>,
    pe: Seq<EdgeV>,
) -> (Seq<Seq<LitV>>, Seq<EdgeV>)
    decreases cands.len() - t,
{
    if t < 0 || t >= cands.len() {
        (pn, pe)
    } else {
        let c = cands[t].0;
        let nm = cands[t].1;
        if accepts(gens, pn, pe, c, nm) {
            stage_cands(
                gens,
                aref,
                bref,
                cands,
                t + 1,
                pn.push(c),
                pe.push(
                    EdgeV {
                        from_a: aref,
                        from_b: bref,
                        to: RefV { gen: gens.len() as int, idx: pn.len() as int },
                        lit: nm,
                    },
                ),
            )
        } else {
            stage_cands(gens, aref, bref, cands, t + 1, pn, pe)
        }
    }
}

/// Stages one clause against the whole frontier, in order.
pub open spec fn stage_frontier(
    gens: Seq<Seq<Seq<LitV>>>,
    g: int,
    i: int,
    j: int,
    pn: Seq<Seq<LitV>>,
    pe: Seq<EdgeV>,
) -> (Seq<Seq<LitV>>, Seq<EdgeV>)
    decreases gens.last().len() - j,
{
    if gens.len() == 0 || j < 0 || j >= gens.last().len() {
        (pn, pe)
    } else {
        let cands = clash_list(gens[g][i], gens.last()[j]);
        let r = stage_cands(
            gens,
            RefV { gen: g, idx: i },
            RefV { gen: gens.len() - 1, idx: j },
            cands,
            0,
            pn,
            pe,
        );
        stage_frontier(gens, g, i, j + 1, r.0, r.1)
    }
}

/// Stages every clause of generation `g` from position `i` on.
pub open spec fn stage_nodes(
    gens: Seq<Seq<Seq<LitV>>>,
    g: int,
    i: int,
    pn: Seq<Seq<LitV>>,
    pe: Seq<EdgeV>,
) -> (Seq<Seq<LitV>>, Seq<EdgeV>)
    decreases (if 0 <= g < gens.len() {
        gens[g].len() - i
    } else {
        0
    }),
{
    if g < 0 || g >= gens.len() || i < 0 || i >= gens[g].len() {
        (pn, pe)
    } else {
        let r = stage_frontier(gens, g, i, 0, pn, pe);
        stage_nodes(gens, g, i + 1, r.0, r.1)
    }
}

/// Stages every generation from `g` on against the frontier.
pub open spec fn stage_gen(
    gens: Seq<Seq<Seq<LitV>>>,
    g: int,
    pn: Seq<Seq<LitV>>,
    pe: Seq<EdgeV>,
) -> (Seq<Seq<LitV>>, Seq<EdgeV>)
    decreases gens.len() - g,
{
    if g < 0 || g >= gens.len() {
        (pn, pe)
    } else {
        let r = stage_nodes(gens, g, 0, pn, pe);
        stage_gen(gens, g + 1, r.0, r.1)
    }
}

/// One full resolution pass: every known clause against the frontier, each
/// acceptable resolvent staged as a new node with its edge.
pub open spec fn stage(gens: Seq<Seq<Seq<LitV>>>) -> (Seq<Seq<LitV>>, Seq<EdgeV>) {
    stage_gen(gens, 0, Seq::<Seq<LitV>>::empty(), Seq::<EdgeV>::empty())
}

/// Whether some literal of some clause of the generations equals `x`.
pub open spec fn lit_in_gens(gens: Seq<Seq<Seq<LitV>>>, x: LitV) -> bool {
    exists|k: int, i: int|
        0 <= k < gens.len() && 0 <= i < gens[k].len() && gens[k][i].contains(x)
}

/// The well-formedness of a staged batch against the generations it was
/// staged from: one edge per node, in lockstep; every edge's child is its
/// own staged position in the next generation; parents are valid earlier
/// references, the second from the frontier; staged clauses are
/// deduplicated, draw their literals from the graph, and a staged non-empty
/// clause's content is new to the graph and to the batch before it.
pub open spec fn batch_wf(
    gens: Seq<Seq<Seq<LitV>>>,
    pn: Seq<Seq<LitV>>,
    pe: Seq<EdgeV>,
) -> bool {
    &&& pe.len() == pn.len()
    &&& forall|k: int|
        0 <= k < pe.len() ==> (#[trigger] pe[k]).to == RefV { gen: gens.len() as int, idx: k }
    &&& forall|k: int|
        0 <= k < pe.len() ==> valid_ref(gens, (#[trigger] pe[k]).from_a) && valid_ref(
            gens,
            pe[k].from_b,
        ) && pe[k].from_b.gen == gens.len() - 1
    &&& forall|k: int| 0 <= k < pn.len() ==> (#[trigger] pn[k]).no_duplicates()
    &&& forall|k: int, x: LitV|
        0 <= k < pn.len() && #[trigger] pn[k].contains(x) ==> lit_in_gens(gens, x)
    &&& forall|k: int|
        0 <= k < pn.len() && (#[trigger] pn[k]).len() > 0 ==> !contains_content(gens, pn[k])
            && (forall|k2: int| 0 <= k2 < k ==> !content_eq(pn[k2], pn[k]))
}

impl ClauseGraph {
    /// Whether a clause of this content is already anywhere in the graph.
    pub(crate) fn contains_clause(&self, clause: &Clause) -> (r: bool)
        ensures
            r == contains_content(self@.gens, clause@),
    {
        let ghost gv = self@.gens;
        let mut k: usize = 0;
        while k < self.node_groups.len()
            invariant
                0 <= k <= self.node_groups.len(),
                gv == self@.gens,
                gv.len() == self.node_groups.len(),
                forall|k2: int, i2: int|
                    0 <= k2 < k && 0 <= i2 < gv[k2].len() ==> !content_eq(
                        #[trigger] gv[k2][i2],
                        clause@,
                    ),
            decreases self.node_groups.len() - k,
        {
            let mut i: usize = 0;
            while i < self.node_groups[k].len()
                invariant
                    0 <= k < self.node_groups.len(),
                    0 <= i <= self.node_groups[k as int].len(),
                    gv == self@.gens,
                    gv.len() == self.node_groups.len(),
                    gv[k as int].len() == self.node_groups[k as int]@.len(),
                    forall|k2: int, i2: int|
                        0 <= k2 < k && 0 <= i2 < gv[k2].len() ==> !content_eq(
                            #[trigger] gv[k2][i2],
                            clause@,
                        ),
                    forall|i2: int|
                        0 <= i2 < i ==> !content_eq(#[trigger] gv[k as int][i2], clause@),
                decreases self.node_groups[k as int].len() - i,
            {
                if self.node_groups[k][i].set_equals(clause) {
                    proof {
                        assert(content_eq(gv[k as int][i as int], clause@));
                        assert(contains_content(gv, clause@));
                    }
                    return true;
                }
                i = i + 1;
            }
            k = k + 1;
        }
        proof {
            if contains_content(gv, clause@) {
                let (k2, i2) = choose|k2: int, i2: int|
                    0 <= k2 < gv.len() && 0 <= i2 < gv[k2].len() && content_eq(
                        gv[k2][i2],
                        clause@,
                    );
                assert(!content_eq(gv[k2][i2], clause@));
                assert(false);
            }
        }
        false
    }

    /// Runs one resolution pass: resolves every known clause against every
    /// frontier clause and stages exactly the acceptable resolvents, as
    /// nodes paired with the edges that produced them.
    pub(crate) fn resolve_pass(&self) -> (r: (Vec<Clause>, Vec<ClauseEdge>))
        requires
            self@.gens.len() >= 1,
        ensures
            (r.0@.map_values(|c: Clause| c@), r.1@.map_values(|e: ClauseEdge| e@)) == stage(
                self@.gens,
            ),
            batch_wf(
                self@.gens,
                r.0@.map_values(|c: Clause| c@),
                r.1@.map_values(|e: ClauseEdge| e@),
            ),
    {
        let ghost gv = self@.gens;
        let mut pn: Vec<Clause> = Vec::new();
        let mut pe: Vec<ClauseEdge> = Vec::new();
        let gcount = self.node_groups.len();
        let last = gcount - 1;
        let fcount = self.node_groups[last].len();
        proof {
            assert(pn@.map_values(|c: Clause| c@) =~= Seq::<Seq<LitV>>::empty());
            assert(pe@.map_values(|e: ClauseEdge| e@) =~= Seq::<EdgeV>::empty());
            assert(gv.last() == gv[gcount - 1]);
        }
        let mut g: usize = 0;
        while g < gcount
            invariant
                0 <= g <= gcount,
                gv == self@.gens,
                gcount == self.node_groups.len(),
                gcount == gv.len(),
                gcount >= 1,
                last == gcount - 1,
                fcount == gv.last().len(),
                stage_gen(
                    gv,
                    g as int,
                    pn@.map_values(|c: Clause| c@),
                    pe@.map_values(|e: ClauseEdge| e@),
                ) == stage(gv),
                batch_wf(gv, pn@.map_values(|c: Clause| c@), pe@.map_values(|e: ClauseEdge| e@)),
            decreases gcount - g,
        {
            let icount = self.node_groups[g].len();
            let ghost pn0 = pn@.map_values(|c: Clause| c@);
            let ghost pe0 = pe@.map_values(|e: ClauseEdge| e@);
            let mut i: usize = 0;
            while i < icount
                invariant
                    0 <= i <= icount,
                    0 <= g < gcount,
                    gv == self@.gens,
                    gcount == self.node_groups.len(),
                    gcount == gv.len(),
                    gcount >= 1,
                    last == gcount - 1,
                    fcount == gv.last().len(),
                    icount == gv[g as int].len(),
                    stage_nodes(
                        gv,
                        g as int,
                        i as int,
                        pn@.map_values(|c: Clause| c@),
                        pe@.map_values(|e: ClauseEdge| e@),
                    ) == stage_nodes(gv, g as int, 0, pn0, pe0),
                    batch_wf(
                        gv,
                        pn@.map_values(|c: Clause| c@),
                        pe@.map_values(|e: ClauseEdge| e@),
                    ),
                decreases icount - i,
            {
                let ghost pn1 = pn@.map_values(|c: Clause| c@);
                let ghost pe1 = pe@.map_values(|e: ClauseEdge| e@);
                let mut j: usize = 0;
                while j < fcount
                    invariant
                        0 <= j <= fcount,
                        0 <= i < icount,
                        0 <= g < gcount,
                        gv == self@.gens,
                        gcount == self.node_groups.len(),
                        gcount == gv.len(),
                        gcount >= 1,
                        last == gcount - 1,
                        fcount == gv.last().len(),
                        icount == gv[g as int].len(),
                        stage_frontier(
                            gv,
                            g as int,
                            i as int,
                            j as int,
                            pn@.map_values(|c: Clause| c@),
                            pe@.map_values(|e: ClauseEdge| e@),
                        ) == stage_frontier(gv, g as int, i as int, 0, pn1, pe1),
                        batch_wf(
                            gv,
                            pn@.map_values(|c: Clause| c@),
                            pe@.map_values(|e: ClauseEdge| e@),
                        ),
                    decreases fcount - j,
                {
                    let ghost pn2 = pn@.map_values(|c: Clause| c@);
                    let ghost pe2 = pe@.map_values(|e: ClauseEdge| e@);
                    let ghost aC = gv[g as int][i as int];
                    let ghost bC = gv.last()[j as int];
                    let mut cands = self.node_groups[g][i].try_clash(&self.node_groups[last][j]);
                    let ghost candsv = cands@.map_values(|p: (Clause, String)| (p.0@, p.1@));
                    proof {
                        assert(candsv == clash_list(aC, bC));
                        lemma_clash_from_elements(aC, bC, 0);
                    }
                    let ghost total = candsv.len();
                    while cands.len() > 0
                        invariant
                            0 <= j < fcount,
                            0 <= i < icount,
                            0 <= g < gcount,
                            gv == self@.gens,
                            gcount == gv.len(),
                            gcount >= 1,
                            last == gcount - 1,
                            fcount == gv.last().len(),
                            icount == gv[g as int].len(),
                            aC == gv[g as int][i as int],
                            bC == gv.last()[j as int],
                            total == candsv.len(),
                            cands@.map_values(|p: (Clause, String)| (p.0@, p.1@)) == candsv.skip(
                                total - cands@.len(),
                            ),
                            cands@.len() <= total,
                            forall|t: int|
                                0 <= t < candsv.len() ==> exists|ix: int|
                                    0 <= ix < aC.len() && #[trigger] candsv[t] == (
                                    resolvent_seq(aC, bC, aC[ix]),
                                    aC[ix].name,
                                    ),
                            stage_cands(
                                gv,
                                RefV { gen: g as int, idx: i as int },
                                RefV { gen: last as int, idx: j as int },
                                candsv,
                                total - cands@.len(),
                                pn@.map_values(|c: Clause| c@),
                                pe@.map_values(|e: ClauseEdge| e@),
                            ) == stage_cands(
                                gv,
                                RefV { gen: g as int, idx: i as int },
                                RefV { gen: last as int, idx: j as int },
                                candsv,
                                0,
                                pn2,
                                pe2,
                            ),
                            batch_wf(
                                gv,
                                pn@.map_values(|c: Clause| c@),
                                pe@.map_values(|e: ClauseEdge| e@),
                            ),
                        decreases cands@.len(),
                    {
                        let ghost t = total - cands@.len();
                        let ghost pnb = pn@.map_values(|c: Clause| c@);
                        let ghost peb = pe@.map_values(|e: ClauseEdge| e@);
                        let ghost candsb = cands@;
                        let pair = cands.remove(0);
                        let resolvent = pair.0;
                        let name = pair.1;
                        proof {
                            let f = |p: (Clause, String)| (p.0@, p.1@);
                            assert(candsb.map_values(f) == candsv.skip(t));
                            assert(candsb.map_values(f)[0] == f(candsb[0]));
                            assert(candsv.skip(t)[0] == candsv[t]);
                            assert(resolvent@ == candsv[t].0);
                            assert(name@ == candsv[t].1);
                            assert(cands@ == candsb.remove(0));
                            assert forall|u: int| 0 <= u < cands@.len() implies cands@.map_values(
                                f,
                            )[u] == candsv.skip(t + 1)[u] by {
                                assert(cands@[u] == candsb[u + 1]);
                                assert(candsb.map_values(f)[u + 1] == f(candsb[u + 1]));
                                assert(candsv.skip(t)[u + 1] == candsv[t + 1 + u]);
                                assert(candsv.skip(t + 1)[u] == candsv[t + 1 + u]);
                            }
                            assert(cands@.map_values(f) =~= candsv.skip(t + 1));
                        }
                        // the acceptance rule
                        let in_graph = self.contains_clause(&resolvent);
                        let mut in_pending = false;
                        let mut q: usize = 0;
                        while q < pn.len()
                            invariant
                                0 <= q <= pn.len(),
                                pnb == pn@.map_values(|c: Clause| c@),
                                in_pending == exists|k2: int|
                                    0 <= k2 < q && content_eq(pnb[k2], resolvent@),
                            decreases pn.len() - q,
                        {
                            if pn[q].set_equals(&resolvent) {
                                proof {
                                    assert(content_eq(pnb[q as int], resolvent@));
                                }
                                in_pending = true;
                            }
                            q = q + 1;
                        }
                        let mut lit_staged = false;
                        let mut w: usize = 0;
                        while w < pe.len()
                            invariant
                                0 <= w <= pe.len(),
                                peb == pe@.map_values(|e: ClauseEdge| e@),
                                lit_staged == exists|k2: int|
                                    0 <= k2 < w && peb[k2].lit == name@,
                            decreases pe.len() - w,
                        {
                            if pe[w].clashing_literal == name {
                                proof {
                                    assert(peb[w as int].lit == name@);
                                }
                                lit_staged = true;
                            }
                            w = w + 1;
                        }
                        let is_empty = resolvent.is_empty();
                        proof {
                            assert(in_pending == pending_has(pnb, resolvent@));
                            assert(lit_staged == pending_lit(peb, name@));
                        }
                        if (!in_graph && !in_pending) || (is_empty && !lit_staged) {
                            proof {
                                assert(accepts(gv, pnb, peb, candsv[t].0, candsv[t].1));
                                // the staged clause draws its literals from the graph
                                let ix = choose|ix: int|
                                    0 <= ix < aC.len() && #[trigger] candsv[t] == (
                                    resolvent_seq(aC, bC, aC[ix]),
                                    aC[ix].name,
                                    );
                                lemma_resolution_correctness(aC, bC, aC[ix]);
                            }
                            let edge = ClauseEdge {
                                from: (
                                    ClauseRef { generation: g, position: i },
                                    ClauseRef { generation: last, position: j },
                                ),
                                to: ClauseRef { generation: gcount, position: pn.len() },
                                clashing_literal: name,
                            };
                            pn.push(resolvent);
                            pe.push(edge);
                            proof {
                                let pna = pn@.map_values(|c: Clause| c@);
                                let pea = pe@.map_values(|e: ClauseEdge| e@);
                                assert(pna =~= pnb.push(candsv[t].0));
                                assert(pea =~= peb.push(
                                    EdgeV {
                                        from_a: RefV { gen: g as int, idx: i as int },
                                        from_b: RefV { gen: last as int, idx: j as int },
                                        to: RefV { gen: gv.len() as int, idx: pnb.len() as int },
                                        lit: candsv[t].1,
                                    },
                                ));
                                let ix = choose|ix: int|
                                    0 <= ix < aC.len() && #[trigger] candsv[t] == (
                                    resolvent_seq(aC, bC, aC[ix]),
                                    aC[ix].name,
                                    );
                                assert forall|x: LitV| pna.last().contains(x) implies lit_in_gens(
                                    gv,
                                    x,
                                ) by {
                                    lemma_resolution_correctness(aC, bC, aC[ix]);
                                    if aC.contains(x) {
                                        assert(0 <= g < gv.len() && 0 <= i < gv[g as int].len()
                                            && gv[g as int][i as int].contains(x));
                                    } else {
                                        assert(bC.contains(x));
                                        assert(0 <= last < gv.len() && 0 <= j < gv[
                                            last as int].len() && gv[last as int][j as int].contains(
                                            x,
                                        ));
                                    }
                                }
                                lemma_resolution_correctness(aC, bC, aC[ix]);
                                assert(batch_wf(gv, pna, pea));
                            }
                        } else {
                            proof {
                                assert(!accepts(gv, pnb, peb, candsv[t].0, candsv[t].1));
                            }
                        }
                    }
                    proof {
                        assert(candsv.skip(total - 0) =~= Seq::<(Seq<LitV>, Seq<char>)>::empty());
                        // one pair fully staged
                        assert(stage_frontier(gv, g as int, i as int, j as int, pn1, pe1)
                            == stage_frontier(gv, g as int, i as int, j as int, pn1, pe1));
                    }
                    j = j + 1;
                }
                i = i + 1;
            }
            g = g + 1;
        }
        proof {
            assert(stage_gen(
                gv,
                gcount as int,
                pn@.map_values(|c: Clause| c@),
                pe@.map_values(|e: ClauseEdge| e@),
            ) == (pn@.map_values(|c: Clause| c@), pe@.map_values(|e: ClauseEdge| e@)));
        }
        (pn, pe)
    }
}

/// Every entry of the candidate list is the resolvent on some literal of
/// the first clause, paired with that literal's name.
pub proof fn lemma_clash_from_elements(a: Seq<LitV>, b: Seq<LitV>, i: int)
    ensures
        forall|t: int|
            0 <= t < crate::clause::clash_from(a, b, i).len() ==> exists|ix: int|
                0 <= ix < a.len() && #[trigger] crate::clause::clash_from(a, b, i)[t] == (
                resolvent_seq(a, b, a[ix]),
                a[ix].name,
                ),
    decreases a.len() - i,
{
    if i < 0 || i >= a.len() {
    } else {
        lemma_clash_from_elements(a, b, i + 1);
        let cur = crate::clause::clash_from(a, b, i);
        let rest = crate::clause::clash_from(a, b, i + 1);
        assert forall|t: int| 0 <= t < cur.len() implies exists|ix: int|
            0 <= ix < a.len() && #[trigger] cur[t] == (resolvent_seq(a, b, a[ix]), a[ix].name) by {
            if has_opposite(b, a[i]) {
                if t == 0 {
                    assert(cur[0] == (resolvent_seq(a, b, a[i]), a[i].name));
                } else {
                    assert(cur[t] == rest[t - 1]);
                    let ix = choose|ix: int|
                        0 <= ix < a.len() && #[trigger] rest[t - 1] == (
                        resolvent_seq(a, b, a[ix]),
                        a[ix].name,
                        );
                    assert(cur[t] == (resolvent_seq(a, b, a[ix]), a[ix].name));
                }
            } else {
                assert(cur[t] == rest[t]);
                let ix = choose|ix: int|
                    0 <= ix < a.len() && #[trigger] rest[t] == (
                    resolvent_seq(a, b, a[ix]),
                    a[ix].name,
                    );
                assert(cur[t] == (resolvent_seq(a, b, a[ix]), a[ix].name));
            }
        }
    }
}

/// Structural well-formedness of the graph: one edge per derived node, in
/// lockstep; each edge's child is its own position; parents are valid
/// references into strictly earlier generations, the second parent into
/// the generation just before; every stored clause is deduplicated.
pub open spec fn graph_wf(g: GraphV) -> bool {
    &&& g.gens.len() == g.edges.len()
    &&& g.gens.len() >= 1
    &&& g.edges[0].len() == 0
    &&& forall|k: int| 1 <= k < g.gens.len() ==> (#[trigger] g.edges[k]).len() == g.gens[k].len()
    &&& forall|k: int, e: int|
        1 <= k < g.edges.len() && 0 <= e < g.edges[k].len() ==> (#[trigger] g.edges[k][e]).to
            == (RefV { gen: k, idx: e }) && 0 <= g.edges[k][e].from_a.gen < k && 0 <= g.edges[k][e].from_a.idx
            < g.gens[g.edges[k][e].from_a.gen].len() && g.edges[k][e].from_b.gen == k - 1 && 0 <= g.edges[k][e].from_b.idx
            < g.gens[k - 1].len()
    &&& forall|k: int, i: int|
        0 <= k < g.gens.len() && 0 <= i < g.gens[k].len() ==> (#[trigger] g.gens[k][i]).no_duplicates()
}

/// The graph is exactly the resolution closure of `init`: generation 0 is
/// `init`, each later generation with its edge batch is exactly what one
/// pass stages from the generations before it, and one further pass stages
/// nothing.
pub open spec fn is_closure_of(g: GraphV, init: Seq<Seq<LitV>>) -> bool {
    &&& graph_wf(g)
    &&& g.gens[0] == init
    &&& forall|k: int|
        1 <= k < g.gens.len() ==> ((#[trigger] g.gens[k]), g.edges[k]) == stage(g.gens.take(k))
    &&& stage(g.gens) == (Seq::<Seq<LitV>>::empty(), Seq::<EdgeV>::empty())
}

/// Two to the power `n`.
pub open spec fn pow2(n: nat) -> int
    decreases n,
{
    if n == 0 {
        1
    } else {
        2 * pow2((n - 1) as nat)
    }
}

pub proof fn lemma_pow2_pos(n: nat)
    ensures
        pow2(n) >= 1,
    decreases n,
{
    if n > 0 {
        lemma_pow2_pos((n - 1) as nat);
    }
}

/// The number whose binary digits record which literals of `L` the clause
/// `c` holds.
pub open spec fn encode(c: Seq<LitV>, L: Seq<LitV>) -> int
    decreases L.len(),
{
    if L.len() == 0 {
        0
    } else {
        (if c.contains(L[0]) {
            1int
        } else {
            0int
        }) + 2 * encode(c, L.drop_first())
    }
}

pub proof fn lemma_encode_range(c: Seq<LitV>, L: Seq<LitV>)
    ensures
        0 <= encode(c, L) < pow2(L.len()),
    decreases L.len(),
{
    if L.len() == 0 {
    } else {
        lemma_encode_range(c, L.drop_first());
        lemma_pow2_pos((L.len() - 1) as nat);
    }
}

/// Clauses with the same code agree on every literal of `L`.
pub proof fn lemma_encode_agree(c: Seq<LitV>, d: Seq<LitV>, L: Seq<LitV>)
    requires
        encode(c, L) == encode(d, L),
    ensures
        forall|x: LitV| L.contains(x) ==> (c.contains(x) <==> d.contains(x)),
    decreases L.len(),
{
    if L.len() == 0 {
    } else {
        let bc: int = if c.contains(L[0]) {
            1
        } else {
            0
        };
        let bd: int = if d.contains(L[0]) {
            1
        } else {
            0
        };
        assert(bc + 2 * encode(c, L.drop_first()) == bd + 2 * encode(d, L.drop_first()));
        lemma_encode_range(c, L.drop_first());
        lemma_encode_range(d, L.drop_first());
        assert(bc == bd);
        assert(encode(c, L.drop_first()) == encode(d, L.drop_first()));
        lemma_encode_agree(c, d, L.drop_first());
        assert forall|x: LitV| L.contains(x) implies (c.contains(x) <==> d.contains(x)) by {
            let j = choose|j: int| 0 <= j < L.len() && L[j] == x;
            if j == 0 {
                assert(x == L[0]);
            } else {
                assert(L.drop_first()[j - 1] == L[j]);
                assert(L.drop_first().contains(x));
            }
        }
    }
}

/// Clauses of different content, drawn from `L`, have different codes.
pub proof fn lemma_encode_distinct(c: Seq<LitV>, d: Seq<LitV>, L: Seq<LitV>)
    requires
        !content_eq(c, d),
        forall|x: LitV| c.contains(x) ==> L.contains(x),
        forall|x: LitV| d.contains(x) ==> L.contains(x),
    ensures
        encode(c, L) != encode(d, L),
{
    if encode(c, L) == encode(d, L) {
        lemma_encode_agree(c, d, L);
        if exists|i: int| 0 <= i < c.len() && !d.contains(c[i]) {
            let i = choose|i: int| 0 <= i < c.len() && !d.contains(c[i]);
            assert(c.contains(c[i]));
            assert(L.contains(c[i]));
            assert(d.contains(c[i]));
            assert(false);
        } else {
            let i = choose|i: int| 0 <= i < d.len() && !c.contains(d[i]);
            assert(d.contains(d[i]));
            assert(L.contains(d[i]));
            assert(c.contains(d[i]));
            assert(false);
        }
    }
}

/// All the literals of a clause list, concatenated.
pub open spec fn all_lits(cs: Seq<Seq<LitV>>) -> Seq<LitV>
    decreases cs.len(),
{
    if cs.len() == 0 {
        Seq::<LitV>::empty()
    } else {
        all_lits(cs.drop_last()) + cs.last()
    }
}

pub proof fn lemma_all_lits(cs: Seq<Seq<LitV>>)
    ensures
        forall|i: int, x: LitV|
            0 <= i < cs.len() && #[trigger] cs[i].contains(x) ==> all_lits(cs).contains(x),
    decreases cs.len(),
{
    if cs.len() > 0 {
        lemma_all_lits(cs.drop_last());
        let a = all_lits(cs);
        let ap = all_lits(cs.drop_last());
        assert forall|i: int, x: LitV|
            0 <= i < cs.len() && #[trigger] cs[i].contains(x) implies a.contains(x) by {
            if i < cs.len() - 1 {
                assert(cs.drop_last()[i] == cs[i]);
                assert(ap.contains(x));
                let j = choose|j: int| 0 <= j < ap.len() && ap[j] == x;
                assert(a[j] == x);
            } else {
                let j = choose|j: int| 0 <= j < cs[i].len() && cs[i][j] == x;
                assert(a[ap.len() + j] == x);
            }
        }
    }
}

/// Every literal of the generations is drawn from `L`.
pub open spec fn all_in_l(gens: Seq<Seq<Seq<LitV>>>, L: Seq<LitV>) -> bool {
    forall|x: LitV| lit_in_gens(gens, x) ==> L.contains(x)
}

/// The codes of the non-empty clauses of a batch, in order.
pub open spec fn codes_of(pn: Seq<Seq<LitV>>, L: Seq<LitV>) -> Seq<int>
    decreases pn.len(),
{
    if pn.len() == 0 {
        Seq::<int>::empty()
    } else {
        codes_of(pn.drop_last(), L) + (if pn.last().len() > 0 {
            seq![encode(pn.last(), L)]
        } else {
            Seq::<int>::empty()
        })
    }
}

/// The number `cv` is the code of some derived non-empty clause.
pub open spec fn code_names_clause(gens: Seq<Seq<Seq<LitV>>>, cv: int, L: Seq<LitV>) -> bool {
    exists|k: int, i: int|
        1 <= k < gens.len() && 0 <= i < gens[k].len() && (#[trigger] gens[k][i]).len() > 0 && cv
            == encode(gens[k][i], L)
}

/// Every recorded code is the code of some derived non-empty clause.
pub open spec fn codes_match(gens: Seq<Seq<Seq<LitV>>>, codes: Seq<int>, L: Seq<LitV>) -> bool {
    forall|c: int| 0 <= c < codes.len() ==> code_names_clause(gens, #[trigger] codes[c], L)
}

/// A duplicate-free list of numbers below `m` has at most `m` entries.
pub proof fn lemma_distinct_bounded(codes: Seq<int>, m: int)
    requires
        codes.no_duplicates(),
        forall|c: int| 0 <= c < codes.len() ==> 0 <= #[trigger] codes[c] < m,
        m >= 0,
    ensures
        codes.len() <= m,
{
    codes.unique_seq_to_set();
    vstd::set_lib::lemma_int_range(0, m);
    assert(codes.to_set().subset_of(vstd::set_lib::set_int_range(0, m))) by {
        assert forall|x: int| codes.to_set().contains(x) implies vstd::set_lib::set_int_range(
            0,
            m,
        ).contains(x) by {
            assert(codes.contains(x));
            let c = choose|c: int| 0 <= c < codes.len() && codes[c] == x;
            assert(0 <= codes[c] < m);
        }
    }
    vstd::set_lib::lemma_len_subset(codes.to_set(), vstd::set_lib::set_int_range(0, m));
}

/// A clause named by a code of the old graph is still named in the grown
/// graph.
pub proof fn lemma_code_names_push(
    gens: Seq<Seq<Seq<LitV>>>,
    pn: Seq<Seq<LitV>>,
    cv: int,
    L: Seq<LitV>,
)
    requires
        code_names_clause(gens, cv, L),
    ensures
        code_names_clause(gens.push(pn), cv, L),
{
    let (k, i) = choose|k: int, i: int|
        1 <= k < gens.len() && 0 <= i < gens[k].len() && (#[trigger] gens[k][i]).len() > 0 && cv
            == encode(gens[k][i], L);
    assert(gens.push(pn)[k] == gens[k]);
    assert(1 <= k < gens.push(pn).len() && 0 <= i < gens.push(pn)[k].len() && gens.push(
        pn,
    )[k][i].len() > 0 && cv == encode(gens.push(pn)[k][i], L));
}

/// Appending a staged batch keeps the code list duplicate-free, in range,
/// and matched to the grown graph; it grows when the batch has a non-empty
/// clause.
pub proof fn lemma_codes_extend(
    gens: Seq<Seq<Seq<LitV>>>,
    pn: Seq<Seq<LitV>>,
    codes: Seq<int>,
    L: Seq<LitV>,
)
    requires
        gens.len() >= 1,
        forall|k: int|
            0 <= k < pn.len() && (#[trigger] pn[k]).len() > 0 ==> !contains_content(gens, pn[k])
                && (forall|k2: int| 0 <= k2 < k ==> !content_eq(pn[k2], pn[k])),
        forall|k: int, x: LitV|
            0 <= k < pn.len() && #[trigger] pn[k].contains(x) ==> L.contains(x),
        all_in_l(gens, L),
        codes_match(gens, codes, L),
        codes.no_duplicates(),
        forall|c: int| 0 <= c < codes.len() ==> 0 <= #[trigger] codes[c] < pow2(L.len()),
    ensures
        (codes + codes_of(pn, L)).no_duplicates(),
        forall|c: int|
            0 <= c < (codes + codes_of(pn, L)).len() ==> 0 <= #[trigger] (codes + codes_of(
                pn,
                L,
            ))[c] < pow2(L.len()),
        codes_match(gens.push(pn), codes + codes_of(pn, L), L),
        (exists|k: int| 0 <= k < pn.len() && pn[k].len() > 0) ==> (codes + codes_of(pn, L)).len()
            > codes.len(),
    decreases pn.len(),
{
    let gens2 = gens.push(pn);
    if pn.len() == 0 {
        assert(codes + codes_of(pn, L) =~= codes);
        assert forall|c: int| 0 <= c < codes.len() implies code_names_clause(
            gens2,
            #[trigger] codes[c],
            L,
        ) by {
            assert(code_names_clause(gens, codes[c], L));
            lemma_code_names_push(gens, pn, codes[c], L);
        }
    } else {
        let pnp = pn.drop_last();
        assert forall|k: int|
            0 <= k < pnp.len() && (#[trigger] pnp[k]).len() > 0 implies !contains_content(
            gens,
            pnp[k],
        ) && (forall|k2: int| 0 <= k2 < k ==> !content_eq(pnp[k2], pnp[k])) by {
            assert(pnp[k] == pn[k]);
            assert forall|k2: int| 0 <= k2 < k implies !content_eq(pnp[k2], pnp[k]) by {
                assert(pnp[k2] == pn[k2]);
            }
        }
        assert forall|k: int, x: LitV|
            0 <= k < pnp.len() && #[trigger] pnp[k].contains(x) implies L.contains(x) by {
            assert(pnp[k] == pn[k]);
            assert(pn[k].contains(x));
        }
        lemma_codes_extend(gens, pnp, codes, L);
        let codesp = codes + codes_of(pnp, L);
        let last = pn.last();
        let li = pn.len() - 1;
        // a code of the shorter staging also names a clause of the grown graph
        assert forall|c: int| 0 <= c < codesp.len() implies code_names_clause(
            gens2,
            #[trigger] codesp[c],
            L,
        ) by {
            assert(code_names_clause(gens.push(pnp), codesp[c], L));
            let (k, i) = choose|k: int, i: int|
                1 <= k < gens.push(pnp).len() && 0 <= i < gens.push(pnp)[k].len() && (
                #[trigger] gens.push(pnp)[k][i]).len() > 0 && codesp[c] == encode(
                    gens.push(pnp)[k][i],
                    L,
                );
            if k < gens.len() {
                assert(gens2[k] == gens.push(pnp)[k]);
                assert(1 <= k < gens2.len() && 0 <= i < gens2[k].len() && gens2[k][i].len() > 0
                    && codesp[c] == encode(gens2[k][i], L));
            } else {
                assert(gens.push(pnp)[k] == pnp);
                assert(pnp[i] == pn[i]);
                assert(gens2[gens.len() as int] == pn);
                assert(1 <= gens.len() < gens2.len() && 0 <= i < gens2[gens.len() as int].len()
                    && gens2[gens.len() as int][i].len() > 0 && codesp[c] == encode(
                    gens2[gens.len() as int][i],
                    L,
                ));
            }
        }
        if last.len() == 0 {
            assert(codes_of(pn, L) =~= codes_of(pnp, L));
            assert(codes + codes_of(pn, L) =~= codesp);
            assert((codes + codes_of(pn, L)).no_duplicates());
            assert forall|c: int| 0 <= c < (codes + codes_of(pn, L)).len() implies 0 <= #[trigger] (
            codes + codes_of(pn, L))[c] < pow2(L.len()) by {
                assert((codes + codes_of(pn, L))[c] == codesp[c]);
            }
            assert(codes_match(gens2, codes + codes_of(pn, L), L));
            if exists|k: int| 0 <= k < pn.len() && pn[k].len() > 0 {
                let k = choose|k: int| 0 <= k < pn.len() && pn[k].len() > 0;
                assert(k < pn.len() - 1);
                assert(pnp[k] == pn[k]);
                assert(exists|k2: int| 0 <= k2 < pnp.len() && pnp[k2].len() > 0);
                assert(codesp.len() > codes.len());
            }
        } else {
            let e = encode(last, L);
            lemma_encode_range(last, L);
            assert(codes + codes_of(pn, L) =~= codesp.push(e));
            // the new code differs from every recorded one
            assert forall|c: int| 0 <= c < codesp.len() implies codesp[c] != e by {
                assert(code_names_clause(gens.push(pnp), codesp[c], L));
                let (k, i) = choose|k: int, i: int|
                    1 <= k < gens.push(pnp).len() && 0 <= i < gens.push(pnp)[k].len() && (
                    #[trigger] gens.push(pnp)[k][i]).len() > 0 && codesp[c] == encode(
                        gens.push(pnp)[k][i],
                        L,
                    );
                assert(pn[li] == last);
                if k < gens.len() {
                    let d = gens[k][i];
                    assert(gens.push(pnp)[k] == gens[k]);
                    assert(!contains_content(gens, last));
                    assert(!content_eq(gens[k][i], last));
                    assert forall|x: LitV| d.contains(x) implies L.contains(x) by {
                        assert(lit_in_gens(gens, x));
                    }
                    lemma_encode_distinct(d, last, L);
                } else {
                    assert(k == gens.len());
                    assert(gens.push(pnp)[k] == pnp);
                    let d = pnp[i];
                    assert(i < li);
                    assert(d == pn[i]);
                    assert(!content_eq(pn[i], pn[li]));
                    assert forall|x: LitV| d.contains(x) implies L.contains(x) by {
                        assert(pn[i].contains(x));
                    }
                    lemma_encode_distinct(d, last, L);
                }
            }
            assert((codesp.push(e)).no_duplicates()) by {
                assert(forall|c: int| 0 <= c < codesp.len() ==> #[trigger] codesp[c] != e);
                assert(codesp.no_duplicates());
                assert forall|c1: int, c2: int|
                    0 <= c1 < codesp.push(e).len() && 0 <= c2 < codesp.push(e).len() && c1 != c2
                        implies codesp.push(e)[c1] != codesp.push(e)[c2] by {
                    if c1 < codesp.len() && c2 < codesp.len() {
                        assert(codesp.push(e)[c1] == codesp[c1]);
                        assert(codesp.push(e)[c2] == codesp[c2]);
                    } else if c1 < codesp.len() {
                        assert(codesp.push(e)[c2] == e);
                        assert(codesp.push(e)[c1] == codesp[c1]);
                    } else {
                        assert(codesp.push(e)[c1] == e);
                        assert(codesp.push(e)[c2] == codesp[c2]);
                    }
                }
            }
            // every code still names a derived non-empty clause
            assert forall|c: int| 0 <= c < codesp.push(e).len() implies code_names_clause(
                gens2,
                #[trigger] codesp.push(e)[c],
                L,
            ) by {
                if c < codesp.len() {
                    assert(codesp.push(e)[c] == codesp[c]);
                    assert(code_names_clause(gens2, codesp[c], L));
                } else {
                    assert(gens2[gens.len() as int] == pn);
                    assert(pn[li] == last);
                    assert(codesp.push(e)[c] == e);
                    assert(1 <= gens.len() < gens2.len() && 0 <= li < gens2[gens.len() as int].len()
                        && gens2[gens.len() as int][li].len() > 0 && e == encode(
                        gens2[gens.len() as int][li],
                        L,
                    ));
                }
            }
            assert(codes + codes_of(pn, L) == codesp.push(e));
            assert(codes_match(gens2, codes + codes_of(pn, L), L));
            assert((codes + codes_of(pn, L)).no_duplicates());
            assert forall|c: int| 0 <= c < (codes + codes_of(pn, L)).len() implies 0 <= #[trigger] (
            codes + codes_of(pn, L))[c] < pow2(L.len()) by {
                if c < codesp.len() {
                    assert((codes + codes_of(pn, L))[c] == codesp[c]);
                } else {
                    assert((codes + codes_of(pn, L))[c] == e);
                }
            }
            assert((codes + codes_of(pn, L)).len() == codesp.len() + 1 > codes.len());
        }
    }
}


pub proof fn lemma_codes_of_empty(pn: Seq<Seq<LitV>>, L: Seq<LitV>)
    requires
        forall|k: int| 0 <= k < pn.len() ==> (#[trigger] pn[k]).len() == 0,
    ensures
        codes_of(pn, L).len() == 0,
    decreases pn.len(),
{
    if pn.len() > 0 {
        assert forall|k: int| 0 <= k < pn.drop_last().len() implies (#[trigger] pn.drop_last()[k]).len()
            == 0 by {
            assert(pn.drop_last()[k] == pn[k]);
        }
        lemma_codes_of_empty(pn.drop_last(), L);
        assert(pn.last().len() == 0);
    }
}

pub proof fn lemma_clash_from_empty(a: Seq<LitV>, b: Seq<LitV>, i: int)
    requires
        b.len() == 0,
    ensures
        crate::clause::clash_from(a, b, i).len() == 0,
    decreases a.len() - i,
{
    if i < 0 || i >= a.len() {
    } else {
        lemma_clash_from_empty(a, b, i + 1);
    }
}

/// Whether any clause of a generation is non-empty.
pub open spec fn has_nonempty(gen: Seq<Seq<LitV>>) -> bool {
    exists|j: int| 0 <= j < gen.len() && gen[j].len() > 0
}

pub proof fn lemma_stage_frontier_id(
    gens: Seq<Seq<Seq<LitV>>>,
    g: int,
    i: int,
    j: int,
    pn: Seq<Seq<LitV>>,
    pe: Seq<EdgeV>,
)
    requires
        gens.len() >= 1,
        !has_nonempty(gens.last()),
    ensures
        stage_frontier(gens, g, i, j, pn, pe) == (pn, pe),
    decreases gens.last().len() - j,
{
    if j < 0 || j >= gens.last().len() {
    } else {
        assert(gens.last()[j].len() == 0);
        lemma_clash_from_empty(gens[g][i], gens.last()[j], 0);
        let cands = clash_list(gens[g][i], gens.last()[j]);
        assert(stage_cands(
            gens,
            RefV { gen: g, idx: i },
            RefV { gen: gens.len() - 1, idx: j },
            cands,
            0,
            pn,
            pe,
        ) == (pn, pe));
        lemma_stage_frontier_id(gens, g, i, j + 1, pn, pe);
    }
}

pub proof fn lemma_stage_nodes_id(
    gens: Seq<Seq<Seq<LitV>>>,
    g: int,
    i: int,
    pn: Seq<Seq<LitV>>,
    pe: Seq<EdgeV>,
)
    requires
        gens.len() >= 1,
        !has_nonempty(gens.last()),
    ensures
        stage_nodes(gens, g, i, pn, pe) == (pn, pe),
    decreases (if 0 <= g < gens.len() {
        gens[g].len() - i
    } else {
        0
    }),
{
    if g < 0 || g >= gens.len() || i < 0 || i >= gens[g].len() {
    } else {
        lemma_stage_frontier_id(gens, g, i, 0, pn, pe);
        lemma_stage_nodes_id(gens, g, i + 1, pn, pe);
    }
}

pub proof fn lemma_stage_gen_id(
    gens: Seq<Seq<Seq<LitV>>>,
    g: int,
    pn: Seq<Seq<LitV>>,
    pe: Seq<EdgeV>,
)
    requires
        gens.len() >= 1,
        !has_nonempty(gens.last()),
    ensures
        stage_gen(gens, g, pn, pe) == (pn, pe),
    decreases gens.len() - g,
{
    if g < 0 || g >= gens.len() {
    } else {
        lemma_stage_nodes_id(gens, g, 0, pn, pe);
        lemma_stage_gen_id(gens, g + 1, pn, pe);
    }
}

/// A frontier of empty clauses generates nothing: one more pass stages
/// neither nodes nor edges.
pub proof fn lemma_stage_empty_frontier(gens: Seq<Seq<Seq<LitV>>>)
    requires
        gens.len() >= 1,
        !has_nonempty(gens.last()),
    ensures
        stage(gens) == (Seq::<Seq<LitV>>::empty(), Seq::<EdgeV>::empty()),
{
    lemma_stage_gen_id(gens, 0, Seq::<Seq<LitV>>::empty(), Seq::<EdgeV>::empty());
}

impl ClauseGraph {
    /// Runs the closure fixpoint: repeatedly stages a new generation from
    /// the frontier until a pass stages nothing. The loop terminates
    /// because every staged non-empty clause is content new to the graph,
    /// drawn from the finite vocabulary of the input, and a frontier of
    /// empty clauses generates nothing.
    pub(crate) fn resolve(&mut self)
        requires
            old(self)@.gens.len() == 1,
            old(self)@.edges.len() == 1,
            old(self)@.edges[0].len() == 0,
            forall|i: int|
                0 <= i < old(self)@.gens[0].len() ==> (#[trigger] old(
                    self,
                )@.gens[0][i]).no_duplicates(),
        ensures
            is_closure_of(final(self)@, old(self)@.gens[0]),
            final(self)@.gens.len() <= 2 + pow2(
                crate::clause::dedup_seq(all_lits(old(self)@.gens[0])).len(),
            ),
    {
        let ghost init = self@.gens[0];
        let ghost bigl = crate::clause::dedup_seq(all_lits(init));
        let ghost mut codes: Seq<int> = Seq::<int>::empty();
        proof {
            crate::clause::lemma_dedup_seq(all_lits(init));
            lemma_all_lits(init);
            assert(graph_wf(self@));
            assert forall|x: LitV| lit_in_gens(self@.gens, x) implies bigl.contains(x) by {
                let (k, i) = choose|k: int, i: int|
                    0 <= k < self@.gens.len() && 0 <= i < self@.gens[k].len()
                        && self@.gens[k][i].contains(x);
                assert(k == 0);
                assert(init[i].contains(x));
                assert(all_lits(init).contains(x));
            }
        }
        loop
            invariant
                self@.gens.len() == self@.edges.len(),
                self@.gens.len() >= 1,
                self@.gens[0] == init,
                graph_wf(self@),
                forall|k: int|
                    1 <= k < self@.gens.len() ==> ((#[trigger] self@.gens[k]), self@.edges[k])
                        == stage(self@.gens.take(k)),
                all_in_l(self@.gens, bigl),
                codes.no_duplicates(),
                forall|c: int| 0 <= c < codes.len() ==> 0 <= #[trigger] codes[c] < pow2(bigl.len()),
                codes_match(self@.gens, codes, bigl),
                has_nonempty(self@.gens.last()) ==> self@.gens.len() <= 1 + codes.len(),
                self@.gens.len() <= 2 + codes.len(),
            ensures
                is_closure_of(self@, init),
                self@.gens.len() <= 2 + pow2(bigl.len()),
            decreases
                pow2(bigl.len()) - codes.len(),
                (if has_nonempty(self@.gens.last()) {
                    1int
                } else {
                    0int
                }),
        {
            let pair = self.resolve_pass();
            let pn = pair.0;
            let pe = pair.1;
            let ghost pnv = pn@.map_values(|c: Clause| c@);
            let ghost pev = pe@.map_values(|e: ClauseEdge| e@);
            let ghost gensb = self@.gens;
            let ghost edgesb = self@.edges;
            if pn.len() == 0 && pe.len() == 0 {
                proof {
                    assert(pnv =~= Seq::<Seq<LitV>>::empty());
                    assert(pev =~= Seq::<EdgeV>::empty());
                    assert(stage(self@.gens) == (
                        Seq::<Seq<LitV>>::empty(),
                        Seq::<EdgeV>::empty(),
                    ));
                    lemma_pow2_pos(bigl.len());
                    lemma_distinct_bounded(codes, pow2(bigl.len()));
                }
                break ;
            }
            proof {
                lemma_pow2_pos(bigl.len());
                lemma_distinct_bounded(codes, pow2(bigl.len()));
                // something was staged, so the frontier held a non-empty clause
                if !has_nonempty(gensb.last()) {
                    lemma_stage_empty_frontier(gensb);
                    assert(pnv.len() == 0 && pev.len() == 0);
                    assert(false);
                }
            }
            self.node_groups.push(pn);
            self.edges.push(pe);
            proof {
                let gens2 = self@.gens;
                let edges2 = self@.edges;
                let gbig = gensb.len();
                assert(gens2 =~= gensb.push(pnv));
                assert(edges2 =~= edgesb.push(pev));
                // the batch draws from the vocabulary
                assert forall|k: int, x: LitV|
                    0 <= k < pnv.len() && #[trigger] pnv[k].contains(x) implies bigl.contains(
                    x,
                ) by {
                    assert(lit_in_gens(gensb, x));
                }
                lemma_codes_extend(gensb, pnv, codes, bigl);
                codes = codes + codes_of(pnv, bigl);
                lemma_distinct_bounded(codes, pow2(bigl.len()));
                // the graph stays well-formed
                assert(graph_wf(self@)) by {
                    assert(gens2[0] == gensb[0]);
                    assert(edges2[0] == edgesb[0]);
                    assert forall|k: int| 1 <= k < gens2.len() implies (#[trigger] edges2[k]).len()
                        == gens2[k].len() by {
                        if k < gbig {
                            assert(edges2[k] == edgesb[k]);
                            assert(gens2[k] == gensb[k]);
                        } else {
                            assert(edges2[k] == pev);
                            assert(gens2[k] == pnv);
                        }
                    }
                    assert forall|k: int, e: int|
                        1 <= k < edges2.len() && 0 <= e < edges2[k].len() implies (
                    #[trigger] edges2[k][e]).to == (RefV { gen: k, idx: e }) && 0 <= edges2[k][e].from_a.gen
                        < k && 0 <= edges2[k][e].from_a.idx < gens2[edges2[k][e].from_a.gen].len()
                        && edges2[k][e].from_b.gen == k - 1 && 0 <= edges2[k][e].from_b.idx < gens2[k
                        - 1].len() by {
                        if k < gbig {
                            assert(edges2[k] == edgesb[k]);
                            assert(gens2[edgesb[k][e].from_a.gen] == gensb[edgesb[k][e].from_a.gen]);
                            assert(gens2[k - 1] == gensb[k - 1]);
                        } else {
                            assert(edges2[k] == pev);
                            assert(valid_ref(gensb, pev[e].from_a));
                            assert(gens2[pev[e].from_a.gen] == gensb[pev[e].from_a.gen]);
                            assert(pev[e].from_b.gen == gbig - 1);
                            assert(gensb.last() == gensb[gbig - 1]);
                            assert(gens2[k - 1] == gensb[gbig - 1]);
                        }
                    }
                    assert forall|k: int, i: int|
                        0 <= k < gens2.len() && 0 <= i < gens2[k].len() implies (
                    #[trigger] gens2[k][i]).no_duplicates() by {
                        if k < gbig {
                            assert(gens2[k] == gensb[k]);
                        } else {
                            assert(gens2[k] == pnv);
                        }
                    }
                }
                // each generation is exactly what one pass stages
                assert forall|k: int|
                    1 <= k < gens2.len() implies ((#[trigger] gens2[k]), edges2[k]) == stage(
                    gens2.take(k),
                ) by {
                    if k < gbig {
                        assert(gens2[k] == gensb[k]);
                        assert(edges2[k] == edgesb[k]);
                        assert(gens2.take(k) =~= gensb.take(k));
                    } else {
                        assert(gens2[k] == pnv);
                        assert(edges2[k] == pev);
                        assert(gens2.take(k) =~= gensb);
                    }
                }
                // the vocabulary still covers the graph
                assert forall|x: LitV| lit_in_gens(gens2, x) implies bigl.contains(x) by {
                    let (k, i) = choose|k: int, i: int|
                        0 <= k < gens2.len() && 0 <= i < gens2[k].len() && gens2[k][i].contains(x);
                    if k < gbig {
                        assert(gens2[k] == gensb[k]);
                        assert(lit_in_gens(gensb, x));
                    } else {
                        assert(gens2[k] == pnv);
                        assert(pnv[i].contains(x));
                        assert(lit_in_gens(gensb, x));
                    }
                }
                // the measure falls: a batch with a non-empty clause grows the
                // code list; a batch of empty clauses empties the frontier,
                // which the previous frontier was not
                if !(exists|k: int| 0 <= k < pnv.len() && pnv[k].len() > 0) {
                    lemma_codes_of_empty(pnv, bigl);
                    assert(gens2.last() == pnv);
                    if has_nonempty(gens2.last()) {
                        let j = choose|j: int| 0 <= j < pnv.len() && pnv[j].len() > 0;
                        assert(false);
                    }
                }
            }
        }
    }

    /// The index of the earliest generation holding the empty clause, if
    /// the formula is unsatisfiable; nothing otherwise.
    pub(crate) fn check_satisfiability(&self) -> (r: Option<usize>)
        ensures
            r matches Some(k) ==> 0 <= k < self@.gens.len() && (exists|i: int|
                0 <= i < self@.gens[k as int].len() && self@.gens[k as int][i].len() == 0) && (
            forall|k2: int, i: int|
                0 <= k2 < k && 0 <= i < self@.gens[k2].len() ==> (#[trigger] self@.gens[k2][i]).len()
                    != 0),
            r is None ==> forall|k2: int, i: int|
                0 <= k2 < self@.gens.len() && 0 <= i < self@.gens[k2].len() ==> (
                #[trigger] self@.gens[k2][i]).len() != 0,
    {
        let ghost gv = self@.gens;
        let mut k: usize = 0;
        while k < self.node_groups.len()
            invariant
                0 <= k <= self.node_groups.len(),
                gv == self@.gens,
                gv.len() == self.node_groups.len(),
                forall|k2: int, i: int|
                    0 <= k2 < k && 0 <= i < gv[k2].len() ==> (#[trigger] gv[k2][i]).len() != 0,
            decreases self.node_groups.len() - k,
        {
            let mut i: usize = 0;
            while i < self.node_groups[k].len()
                invariant
                    0 <= k < self.node_groups.len(),
                    0 <= i <= self.node_groups[k as int].len(),
                    gv == self@.gens,
                    gv.len() == self.node_groups.len(),
                    gv[k as int].len() == self.node_groups[k as int]@.len(),
                    forall|k2: int, i2: int|
                        0 <= k2 < k && 0 <= i2 < gv[k2].len() ==> (#[trigger] gv[k2][i2]).len()
                            != 0,
                    forall|i2: int| 0 <= i2 < i ==> (#[trigger] gv[k as int][i2]).len() != 0,
                decreases self.node_groups[k as int].len() - i,
            {
                if self.node_groups[k][i].is_empty() {
                    proof {
                        assert(gv[k as int][i as int].len() == 0);
                    }
                    return Some(k);
                }
                i = i + 1;
            }
            k = k + 1;
        }
        None
    }

    /// Parses the input and, on success, builds the full resolution
    /// closure: generation 0 is the parsed clause list, and the fixpoint
    /// loop has run to stability.
    pub fn new(input: &str) -> (r: Result<ClauseGraph, String>)
        ensures
            r is Ok <==> crate::clause_parser::spec_parse_input(input@) is Ok,
            r matches Ok(g) ==> is_closure_of(
                g@,
                crate::clause_parser::spec_parse_input(input@)->Ok_0,
            ) && (forall|i: int| 0 <= i < g@.gens[0].len() ==> (#[trigger] g@.gens[0][i]).len() >= 1)
                && g@.gens.len() <= 2 + pow2(
                crate::clause::dedup_seq(
                    all_lits(crate::clause_parser::spec_parse_input(input@)->Ok_0),
                ).len(),
            ),
            r matches Err(m) ==> m@ == crate::clause_parser::spec_parse_input(input@)->Err_0,
    {
        match crate::clause_parser::parse_input(input) {
            Ok(start_clauses) => {
                let ghost init = start_clauses@.map_values(|c: Clause| c@);
                let mut groups: Vec<Vec<Clause>> = Vec::new();
                groups.push(start_clauses);
                let mut batches: Vec<Vec<ClauseEdge>> = Vec::new();
                batches.push(Vec::new());
                let mut result = ClauseGraph { node_groups: groups, edges: batches };
                proof {
                    assert(result@.gens =~= seq![init]);
                    assert(result@.edges.len() == 1);
                    assert(result@.edges[0] =~= Seq::<EdgeV>::empty());
                }
                result.resolve();
                Ok(result)
            },
            Err(message) => Err(message),
        }
    }
}

} // verus!
