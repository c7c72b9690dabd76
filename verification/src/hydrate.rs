//! The hydration engine.
//!
//! Hydration walks a description tree alongside an existing live subtree,
//! node by node in document order.  Where description and live node agree —
//! two elements with the same tag, or two text nodes — the position counts
//! as matched; the description's attributes and content stand regardless,
//! since the live markup is not assumed to reflect current state.  Where
//! they disagree, or the live children run out, the described node is built
//! fresh and the live node at that position is discarded; live children left
//! over beyond the description are discarded too.  Hydration never fails: it
//! always converges to a live tree that is exactly the description, and the
//! walk only accumulates statistics for the caller's diagnostics.
//!
//! In the arena, a description node becomes the live node itself: hydration
//! promotes every node of the description subtree to
//! [`Stage::LiveOnly`] and changes nothing else, so the resulting live tree
//! is the description tree, with the consumed live nodes abandoned.

use vstd::prelude::*;

use crate::arena::{d_tag, d_text, Arena, NodeRep, Stage};
use crate::node::{node_id, DomNodeData};

verus! {

/// Counters of one hydration attempt.  They saturate at `usize::MAX`.
pub struct HydrationStats {
    /// Positions where the live node was reused as matching.
    pub matched: usize,
    /// Live nodes discarded: mismatched positions and leftover children.
    pub mismatched: usize,
    /// Matched text nodes whose content had to be overwritten.
    pub text_updates: usize,
}

impl HydrationStats {
    pub fn new() -> (s: HydrationStats)
        ensures
            s.matched == 0,
            s.mismatched == 0,
            s.text_updates == 0,
    {
        HydrationStats { matched: 0, mismatched: 0, text_updates: 0 }
    }
}

/// The three counters as mathematical values.
pub open spec fn stats_v(s: HydrationStats) -> (nat, nat, nat) {
    (s.matched as nat, s.mismatched as nat, s.text_updates as nat)
}

/// Addition saturating at `usize::MAX`.
pub open spec fn sat_add(a: nat, b: nat) -> nat {
    if a + b > usize::MAX {
        usize::MAX as nat
    } else {
        a + b
    }
}

/// Counter-wise saturating addition.
pub open spec fn s3(a: (nat, nat, nat), b: (nat, nat, nat)) -> (nat, nat, nat) {
    (sat_add(a.0, b.0), sat_add(a.1, b.1), sat_add(a.2, b.2))
}

fn sat_add_usize(a: usize, b: usize) -> (r: usize)
    ensures
        r as nat == sat_add(a as nat, b as nat),
{
    if a > usize::MAX - b {
        usize::MAX
    } else {
        a + b
    }
}

/// A description subtree can be walked: every node exists, is awaiting
/// hydration or already live, and carries only children created before it.
pub open spec fn hydratable(nodes: Seq<NodeRep>, id: int) -> bool
    decreases id,
{
    &&& 0 <= id < nodes.len()
    &&& (nodes[id].stage == Stage::Hydrating || nodes[id].stage == Stage::LiveOnly)
    &&& forall|k: int|
        0 <= k < nodes[id].children@.len() ==> 0 <= (#[trigger] nodes[id].children@[k]) < id
            && hydratable(nodes, nodes[id].children@[k] as int)
}

/// Every node of the subtree is live.
pub open spec fn all_live(nodes: Seq<NodeRep>, id: int) -> bool
    decreases id,
{
    &&& 0 <= id < nodes.len()
    &&& nodes[id].stage == Stage::LiveOnly
    &&& forall|k: int|
        0 <= k < nodes[id].children@.len() ==> 0 <= (#[trigger] nodes[id].children@[k]) < id
            && all_live(nodes, nodes[id].children@[k] as int)
}

/// Stage changes from `n1` to `n2` only promote awaiting nodes to live, and
/// nothing else changes.
pub open spec fn stages_monotone(n1: Seq<NodeRep>, n2: Seq<NodeRep>) -> bool {
    &&& n2.len() == n1.len()
    &&& forall|j: int|
        0 <= j < n1.len() ==> {
            &&& (#[trigger] n2[j]).data == n1[j].data
            &&& n2[j].children == n1[j].children
            &&& n2[j].stored == n1[j].stored
            &&& n2[j].listeners == n1[j].listeners
            &&& (n2[j].stage == n1[j].stage || (n1[j].stage == Stage::Hydrating && n2[j].stage
                == Stage::LiveOnly))
        }
}

/// The statistics one walk of `id` against the live candidate `cand` adds:
/// (matched, mismatched or discarded, text contents overwritten).
pub open spec fn hyd_stats(nodes: Seq<NodeRep>, id: int, cand: Option<int>) -> (nat, nat, nat)
    decreases id, 1int, 0int,
{
    if !(0 <= id < nodes.len()) {
        (0, 0, 0)
    } else {
        let d = nodes[id].data;
        let cs = nodes[id].children@;
        match cand {
            Some(c) => {
                if 0 <= c < nodes.len() {
                    let cd = nodes[c].data;
                    let ls = nodes[c].children@;
                    if d is Element && cd is Element && d_tag(d) == d_tag(cd) {
                        let sub = hyd_stats_children(nodes, id, cs, ls, 0);
                        let extra: nat = if ls.len() > cs.len() {
                            (ls.len() - cs.len()) as nat
                        } else {
                            0
                        };
                        (sat_add(1, sub.0), sat_add(sub.1, extra), sub.2)
                    } else if d is Text && cd is Text {
                        let sub = hyd_stats_children(nodes, id, cs, Seq::empty(), 0);
                        let upd: nat = if d_text(d) == d_text(cd) {
                            0
                        } else {
                            1
                        };
                        (sat_add(1, sub.0), sub.1, sat_add(upd, sub.2))
                    } else {
                        let sub = hyd_stats_children(nodes, id, cs, Seq::empty(), 0);
                        (sub.0, sat_add(1, sub.1), sub.2)
                    }
                } else {
                    let sub = hyd_stats_children(nodes, id, cs, Seq::empty(), 0);
                    (sub.0, sat_add(1, sub.1), sub.2)
                }
            },
            None => hyd_stats_children(nodes, id, cs, Seq::empty(), 0),
        }
    }
}

/// The statistics the walk of the children `cs[i..]` adds, paired position
/// by position with the live children `ls[i..]`.
pub open spec fn hyd_stats_children(
    nodes: Seq<NodeRep>,
    parent: int,
    cs: Seq<usize>,
    ls: Seq<usize>,
    i: int,
) -> (nat, nat, nat)
    decreases parent, 0int, cs.len() - i,
{
    if parent < 0 || i < 0 || i >= cs.len() {
        (0, 0, 0)
    } else if cs[i] < parent {
        let cand: Option<int> = if i < ls.len() {
            Some(ls[i] as int)
        } else {
            None
        };
        let a = hyd_stats(nodes, cs[i] as int, cand);
        let b = hyd_stats_children(nodes, parent, cs, ls, i + 1);
        s3(a, b)
    } else {
        (0, 0, 0)
    }
}

proof fn lemma_sat_add_assoc(a: nat, b: nat, c: nat)
    ensures
        sat_add(sat_add(a, b), c) == sat_add(a, sat_add(b, c)),
{
}

/// The statistics depend only on data and children, never on stages.
proof fn lemma_hyd_stats_congruence(
    n1: Seq<NodeRep>,
    n2: Seq<NodeRep>,
    id: int,
    cand: Option<int>,
)
    requires
        stages_monotone(n1, n2),
    ensures
        hyd_stats(n2, id, cand) == hyd_stats(n1, id, cand),
    decreases id, 1int, 0int,
{
    if 0 <= id < n1.len() {
        assert(n2[id].data == n1[id].data && n2[id].children == n1[id].children);
        match cand {
            Some(c) => {
                if 0 <= c < n1.len() {
                    assert(n2[c].data == n1[c].data && n2[c].children == n1[c].children);
                    lemma_hyd_stats_children_congruence(
                        n1,
                        n2,
                        id,
                        n1[id].children@,
                        n1[c].children@,
                        0,
                    );
                }
                lemma_hyd_stats_children_congruence(n1, n2, id, n1[id].children@, Seq::empty(), 0);
            },
            None => {
                lemma_hyd_stats_children_congruence(n1, n2, id, n1[id].children@, Seq::empty(), 0);
            },
        }
    }
}

proof fn lemma_hyd_stats_children_congruence(
    n1: Seq<NodeRep>,
    n2: Seq<NodeRep>,
    parent: int,
    cs: Seq<usize>,
    ls: Seq<usize>,
    i: int,
)
    requires
        stages_monotone(n1, n2),
    ensures
        hyd_stats_children(n2, parent, cs, ls, i) == hyd_stats_children(n1, parent, cs, ls, i),
    decreases parent, 0int, cs.len() - i,
{
    if parent >= 0 && 0 <= i < cs.len() && cs[i] < parent {
        let cand: Option<int> = if i < ls.len() {
            Some(ls[i] as int)
        } else {
            None
        };
        lemma_hyd_stats_congruence(n1, n2, cs[i] as int, cand);
        lemma_hyd_stats_children_congruence(n1, n2, parent, cs, ls, i + 1);
    }
}

/// A walkable subtree stays walkable while stages only move forward.
proof fn lemma_hydratable_monotone(n1: Seq<NodeRep>, n2: Seq<NodeRep>, id: int)
    requires
        stages_monotone(n1, n2),
        hydratable(n1, id),
    ensures
        hydratable(n2, id),
    decreases id,
{
    assert forall|k: int| 0 <= k < n2[id].children@.len() implies 0 <= (
    #[trigger] n2[id].children@[k]) < id && hydratable(n2, n2[id].children@[k] as int) by {
        assert(n1[id].children@[k] < id);
        assert(hydratable(n1, n1[id].children@[k] as int));
        lemma_hydratable_monotone(n1, n2, n1[id].children@[k] as int);
    }
}

/// A fully live subtree stays fully live while stages only move forward.
proof fn lemma_all_live_monotone(n1: Seq<NodeRep>, n2: Seq<NodeRep>, id: int)
    requires
        stages_monotone(n1, n2),
        all_live(n1, id),
    ensures
        all_live(n2, id),
    decreases id,
{
    assert forall|k: int| 0 <= k < n2[id].children@.len() implies 0 <= (
    #[trigger] n2[id].children@[k]) < id && all_live(n2, n2[id].children@[k] as int) by {
        assert(n1[id].children@[k] < id);
        assert(all_live(n1, n1[id].children@[k] as int));
        lemma_all_live_monotone(n1, n2, n1[id].children@[k] as int);
    }
}

/// Forward stage movement composes.
proof fn lemma_stages_monotone_trans(n1: Seq<NodeRep>, n2: Seq<NodeRep>, n3: Seq<NodeRep>)
    requires
        stages_monotone(n1, n2),
        stages_monotone(n2, n3),
    ensures
        stages_monotone(n1, n3),
{
}

proof fn lemma_s3_assoc(a: (nat, nat, nat), b: (nat, nat, nat), c: (nat, nat, nat))
    ensures
        s3(s3(a, b), c) == s3(a, s3(b, c)),
{
    lemma_sat_add_assoc(a.0, b.0, c.0);
    lemma_sat_add_assoc(a.1, b.1, c.1);
    lemma_sat_add_assoc(a.2, b.2, c.2);
}

/// A description subtree still awaiting hydration: like [`hydratable`], but
/// no node has been consumed yet.  Hydration consumes such a subtree exactly
/// once — afterwards no node of it is `Hydrating` any more.
pub open spec fn desc_awaiting(nodes: Seq<NodeRep>, id: int) -> bool
    decreases id,
{
    &&& 0 <= id < nodes.len()
    &&& nodes[id].stage == Stage::Hydrating
    &&& forall|k: int|
        0 <= k < nodes[id].children@.len() ==> 0 <= (#[trigger] nodes[id].children@[k]) < id
            && desc_awaiting(nodes, nodes[id].children@[k] as int)
}

proof fn lemma_desc_awaiting_hydratable(nodes: Seq<NodeRep>, id: int)
    requires
        desc_awaiting(nodes, id),
    ensures
        hydratable(nodes, id),
    decreases id,
{
    assert forall|k: int| 0 <= k < nodes[id].children@.len() implies 0 <= (
    #[trigger] nodes[id].children@[k]) < id && hydratable(nodes, nodes[id].children@[k] as int) by {
        lemma_desc_awaiting_hydratable(nodes, nodes[id].children@[k] as int);
    }
}

/// The candidate as a mathematical value.
pub open spec fn cand_v(cand: Option<usize>) -> Option<int> {
    match cand {
        Some(c) => Some(c as int),
        None => None,
    }
}

/// Hydrate the description subtree at `id` against the live candidate
/// `cand`: every node of the subtree becomes live, nothing else in the
/// arena changes, and the statistics of the walk are added to `stats`.
/// The resulting live tree is exactly the description tree — hydration
/// always converges, whatever the live markup held.
pub fn hydrate_node(arena: &mut Arena, id: usize, cand: Option<usize>, stats: &mut HydrationStats)
    requires
        old(arena).wf(),
        hydratable(old(arena)@, id as int),
        (match cand {
            Some(c) => c < old(arena)@.len(),
            None => true,
        }),
    ensures
        final(arena).wf(),
        stages_monotone(old(arena)@, final(arena)@),
        all_live(final(arena)@, id as int),
        stats_v(*final(stats)) == s3(
            stats_v(*old(stats)),
            hyd_stats(old(arena)@, id as int, cand_v(cand)),
        ),
    decreases id, 1int,
{
    let ghost nodes0 = old(arena)@;
    arena.set_live(id);
    proof {
        assert(stages_monotone(nodes0, arena@));
        assert forall|k: int| 0 <= k < arena@[id as int].children@.len() implies 0 <= (
        #[trigger] arena@[id as int].children@[k]) < id && hydratable(
            arena@,
            arena@[id as int].children@[k] as int,
        ) by {
            assert(nodes0[id as int].children@[k] < id);
            assert(hydratable(nodes0, nodes0[id as int].children@[k] as int));
            lemma_hydratable_monotone(nodes0, arena@, nodes0[id as int].children@[k] as int);
        }
    }
    let ghost entry = arena@;
    let ghost spec_total = hyd_stats(nodes0, id as int, cand_v(cand));
    match cand {
        Some(c) => {
            if arena.tags_match(id, c) {
                let ghost sub = hyd_stats_children(
                    nodes0,
                    id as int,
                    nodes0[id as int].children@,
                    nodes0[c as int].children@,
                    0,
                );
                stats.matched = sat_add_usize(stats.matched, 1);
                let ghost stats1 = *stats;
                hydrate_children(arena, id, Some(c), stats);
                proof {
                    lemma_hyd_stats_children_congruence(
                        nodes0,
                        entry,
                        id as int,
                        nodes0[id as int].children@,
                        nodes0[c as int].children@,
                        0,
                    );
                    assert(stats_v(*stats) == s3(stats_v(stats1), sub));
                }
                let n = arena.child_count(id);
                let m = arena.child_count(c);
                if m > n {
                    stats.mismatched = sat_add_usize(stats.mismatched, m - n);
                }
                proof {
                    lemma_sat_add_assoc(stats_v(*old(stats)).0, 1, sub.0);
                    lemma_sat_add_assoc(
                        stats_v(*old(stats)).1,
                        sub.1,
                        (if m > n {
                            (m - n) as nat
                        } else {
                            0
                        }),
                    );
                    assert(spec_total == (sat_add(1, sub.0), sat_add(
                        sub.1,
                        (if m > n {
                            (m - n) as nat
                        } else {
                            0
                        }),
                    ), sub.2));
                    lemma_sat_add_assoc(1, sub.0, 0);
                    assert(sat_add(sat_add(stats_v(*old(stats)).0, 1), sub.0) == sat_add(
                        stats_v(*old(stats)).0,
                        sat_add(1, sub.0),
                    ));
                }
            } else {
                let both_text = arena.is_text_at(id) && arena.is_text_at(c);
                if both_text {
                    let ghost sub = hyd_stats_children(
                        nodes0,
                        id as int,
                        nodes0[id as int].children@,
                        Seq::empty(),
                        0,
                    );
                    stats.matched = sat_add_usize(stats.matched, 1);
                    if !arena.texts_equal(id, c) {
                        stats.text_updates = sat_add_usize(stats.text_updates, 1);
                    }
                    let ghost stats1 = *stats;
                    hydrate_children(arena, id, None, stats);
                    proof {
                        lemma_hyd_stats_children_congruence(
                            nodes0,
                            entry,
                            id as int,
                            nodes0[id as int].children@,
                            Seq::empty(),
                            0,
                        );
                        assert(stats_v(*stats) == s3(stats_v(stats1), sub));
                        lemma_sat_add_assoc(stats_v(*old(stats)).0, 1, sub.0);
                        lemma_sat_add_assoc(
                            stats_v(*old(stats)).2,
                            (if d_text(nodes0[id as int].data) == d_text(nodes0[c as int].data) {
                                0nat
                            } else {
                                1nat
                            }),
                            sub.2,
                        );
                    }
                } else {
                    let ghost sub = hyd_stats_children(
                        nodes0,
                        id as int,
                        nodes0[id as int].children@,
                        Seq::empty(),
                        0,
                    );
                    stats.mismatched = sat_add_usize(stats.mismatched, 1);
                    let ghost stats1 = *stats;
                    hydrate_children(arena, id, None, stats);
                    proof {
                        lemma_hyd_stats_children_congruence(
                            nodes0,
                            entry,
                            id as int,
                            nodes0[id as int].children@,
                            Seq::empty(),
                            0,
                        );
                        assert(stats_v(*stats) == s3(stats_v(stats1), sub));
                        lemma_sat_add_assoc(stats_v(*old(stats)).1, 1, sub.1);
                    }
                }
            }
        },
        None => {
            hydrate_children(arena, id, None, stats);
            proof {
                lemma_hyd_stats_children_congruence(
                    nodes0,
                    entry,
                    id as int,
                    nodes0[id as int].children@,
                    Seq::empty(),
                    0,
                );
            }
        },
    }
    proof {
        assert(all_live(arena@, id as int)) by {
            assert(arena@[id as int].stage == Stage::LiveOnly);
        }
    }
}

/// Hydrate the children of `id` in order, paired position by position with
/// the live children of `cand_elem` when there is a matched live element.
fn hydrate_children(
    arena: &mut Arena,
    id: usize,
    cand_elem: Option<usize>,
    stats: &mut HydrationStats,
)
    requires
        old(arena).wf(),
        id < old(arena)@.len(),
        forall|k: int|
            0 <= k < old(arena)@[id as int].children@.len() ==> 0 <= (#[trigger] old(
                arena,
            )@[id as int].children@[k]) < id && hydratable(
                old(arena)@,
                old(arena)@[id as int].children@[k] as int,
            ),
        (match cand_elem {
            Some(c) => c < old(arena)@.len(),
            None => true,
        }),
    ensures
        final(arena).wf(),
        stages_monotone(old(arena)@, final(arena)@),
        forall|k: int|
            0 <= k < old(arena)@[id as int].children@.len() ==> all_live(
                final(arena)@,
                (#[trigger] old(arena)@[id as int].children@[k]) as int,
            ),
        stats_v(*final(stats)) == s3(
            stats_v(*old(stats)),
            hyd_stats_children(
                old(arena)@,
                id as int,
                old(arena)@[id as int].children@,
                (match cand_elem {
                    Some(c) => old(arena)@[c as int].children@,
                    None => Seq::<usize>::empty(),
                }),
                0,
            ),
        ),
    decreases id, 0int,
{
    let ghost nodes0 = old(arena)@;
    let ghost cs = nodes0[id as int].children@;
    let ghost ls = (match cand_elem {
        Some(c) => nodes0[c as int].children@,
        None => Seq::<usize>::empty(),
    });
    let n = arena.child_count(id);
    let mut i: usize = 0;
    while i < n
        invariant
            arena.wf(),
            i <= n,
            id < nodes0.len(),
            n == cs.len(),
            stages_monotone(nodes0, arena@),
            cs == nodes0[id as int].children@,
            forall|k: int|
                0 <= k < cs.len() ==> 0 <= (#[trigger] cs[k]) < id && hydratable(
                    nodes0,
                    cs[k] as int,
                ),
            (match cand_elem {
                Some(c) => c < nodes0.len() && ls == nodes0[c as int].children@,
                None => ls == Seq::<usize>::empty(),
            }),
            forall|k: int| 0 <= k < i ==> all_live(arena@, (#[trigger] cs[k]) as int),
            s3(stats_v(*stats), hyd_stats_children(nodes0, id as int, cs, ls, i as int)) == s3(
                stats_v(*old(stats)),
                hyd_stats_children(nodes0, id as int, cs, ls, 0),
            ),
        decreases n - i,
    {
        let child = arena.child_at(id, i);
        let cc: Option<usize> = match cand_elem {
            Some(c) => {
                if i < arena.child_count(c) {
                    Some(arena.child_at(c, i))
                } else {
                    None
                }
            },
            None => None,
        };
        let ghost pre_arena = arena@;
        let ghost pre_stats = *stats;
        proof {
            lemma_hydratable_monotone(nodes0, arena@, cs[i as int] as int);
            if cc is Some {
                assert(crate::arena::node_ok(arena@, cand_elem->0 as int));
            }
        }
        hydrate_node(arena, child, cc, stats);
        proof {
            lemma_stages_monotone_trans(nodes0, pre_arena, arena@);
            lemma_hyd_stats_congruence(nodes0, pre_arena, cs[i as int] as int, cand_v(cc));
            let delta = hyd_stats(nodes0, cs[i as int] as int, cand_v(cc));
            let suffix1 = hyd_stats_children(nodes0, id as int, cs, ls, i + 1);
            assert(hyd_stats_children(nodes0, id as int, cs, ls, i as int) == s3(delta, suffix1));
            lemma_s3_assoc(stats_v(pre_stats), delta, suffix1);
            assert forall|k: int| 0 <= k < i + 1 implies all_live(arena@, (#[trigger] cs[k]) as int)
                by {
                if k < i {
                    lemma_all_live_monotone(pre_arena, arena@, cs[k] as int);
                }
            }
        }
        i = i + 1;
    }
    proof {
        assert(hyd_stats_children(nodes0, id as int, cs, ls, n as int) == ((0nat, 0nat, 0nat)));
        assert(s3(stats_v(*stats), (0nat, 0nat, 0nat)) == stats_v(*stats));
    }
}

/// Hydrate the description `node` against the live child `child` of the
/// live `parent`, and put the hydrated tree in `child`'s place (or at the
/// end, when the live children were already exhausted).  The consumed live
/// child and its subtree simply drop out of the document.
pub fn hydrate_child(
    arena: &mut Arena,
    node: DomNodeData,
    parent: usize,
    child: Option<usize>,
    stats: &mut HydrationStats,
)
    requires
        old(arena).wf(),
        desc_awaiting(old(arena)@, node_id(node) as int),
        parent < old(arena)@.len(),
        old(arena).stage_of(parent as int) == Stage::LiveOnly,
        (match child {
            Some(c) => c < old(arena)@.len(),
            None => true,
        }),
    ensures
        final(arena).wf(),
        final(arena)@.len() == old(arena)@.len(),
        all_live(final(arena)@, node_id(node) as int),
        forall|j: int|
            0 <= j < old(arena)@.len() ==> {
                &&& (#[trigger] final(arena)@[j]).data == old(arena)@[j].data
                &&& final(arena)@[j].stored == old(arena)@[j].stored
                &&& final(arena)@[j].listeners == old(arena)@[j].listeners
                &&& (final(arena)@[j].stage == old(arena)@[j].stage || (old(arena)@[j].stage
                    == Stage::Hydrating && final(arena)@[j].stage == Stage::LiveOnly))
                &&& (j != parent ==> final(arena)@[j].children == old(arena)@[j].children)
            },
        final(arena).children_of(parent as int) == (match child {
            Some(c) => crate::arena::replace_first_spec(
                old(arena).children_of(parent as int),
                c,
                node_id(node),
            ),
            None => old(arena).children_of(parent as int).push(node_id(node)),
        }),
        stats_v(*final(stats)) == s3(
            stats_v(*old(stats)),
            hyd_stats(old(arena)@, node_id(node) as int, cand_v(child)),
        ),
{
    let ghost nodes0 = old(arena)@;
    let id = crate::node::node_id_of(node);
    proof {
        lemma_desc_awaiting_hydratable(nodes0, id as int);
    }
    hydrate_node(arena, id, child, stats);
    let ghost hydrated = arena@;
    match child {
        Some(c) => arena.replace_child_first(parent, id, c),
        None => arena.append_child(parent, id),
    }
    proof {
        lemma_all_live_except(nodes0, hydrated, arena@, id as int, parent as int);
    }
}

impl crate::node::DomElement {
    /// Hydrate this element's description against the live `child` of the
    /// live `parent`; see [`hydrate_child`].
    pub fn hydrate_child(
        &self,
        arena: &mut Arena,
        parent: usize,
        child: Option<usize>,
        stats: &mut HydrationStats,
    )
        requires
            old(arena).wf(),
            desc_awaiting(old(arena)@, self.id as int),
            parent < old(arena)@.len(),
            old(arena).stage_of(parent as int) == Stage::LiveOnly,
            (match child {
                Some(c) => c < old(arena)@.len(),
                None => true,
            }),
        ensures
            final(arena).wf(),
            final(arena)@.len() == old(arena)@.len(),
            forall|j: int|
                0 <= j < old(arena)@.len() ==> {
                    &&& (#[trigger] final(arena)@[j]).data == old(arena)@[j].data
                    &&& final(arena)@[j].stored == old(arena)@[j].stored
                    &&& final(arena)@[j].listeners == old(arena)@[j].listeners
                    &&& (final(arena)@[j].stage == old(arena)@[j].stage || (old(arena)@[j].stage
                        == Stage::Hydrating && final(arena)@[j].stage == Stage::LiveOnly))
                    &&& (j != parent ==> final(arena)@[j].children == old(arena)@[j].children)
                },
            all_live(final(arena)@, self.id as int),
            final(arena).children_of(parent as int) == (match child {
                Some(c) => crate::arena::replace_first_spec(
                    old(arena).children_of(parent as int),
                    c,
                    self.id,
                ),
                None => old(arena).children_of(parent as int).push(self.id),
            }),
            stats_v(*final(stats)) == s3(
                stats_v(*old(stats)),
                hyd_stats(old(arena)@, self.id as int, cand_v(child)),
            ),
    {
        hydrate_child(arena, DomNodeData::Element(*self), parent, child, stats);
    }
}

impl crate::node::DomText {
    /// Hydrate this text description against the live `child` of the live
    /// `parent`; see [`hydrate_child`].
    pub fn hydrate_child(
        &self,
        arena: &mut Arena,
        parent: usize,
        child: Option<usize>,
        stats: &mut HydrationStats,
    )
        requires
            old(arena).wf(),
            desc_awaiting(old(arena)@, self.id as int),
            parent < old(arena)@.len(),
            old(arena).stage_of(parent as int) == Stage::LiveOnly,
            (match child {
                Some(c) => c < old(arena)@.len(),
                None => true,
            }),
        ensures
            final(arena).wf(),
            final(arena)@.len() == old(arena)@.len(),
            forall|j: int|
                0 <= j < old(arena)@.len() ==> {
                    &&& (#[trigger] final(arena)@[j]).data == old(arena)@[j].data
                    &&& final(arena)@[j].stored == old(arena)@[j].stored
                    &&& final(arena)@[j].listeners == old(arena)@[j].listeners
                    &&& (final(arena)@[j].stage == old(arena)@[j].stage || (old(arena)@[j].stage
                        == Stage::Hydrating && final(arena)@[j].stage == Stage::LiveOnly))
                    &&& (j != parent ==> final(arena)@[j].children == old(arena)@[j].children)
                },
            all_live(final(arena)@, self.id as int),
            final(arena).children_of(parent as int) == (match child {
                Some(c) => crate::arena::replace_first_spec(
                    old(arena).children_of(parent as int),
                    c,
                    self.id,
                ),
                None => old(arena).children_of(parent as int).push(self.id),
            }),
            stats_v(*final(stats)) == s3(
                stats_v(*old(stats)),
                hyd_stats(old(arena)@, self.id as int, cand_v(child)),
            ),
    {
        hydrate_child(arena, DomNodeData::Text(*self), parent, child, stats);
    }
}

impl DomNodeData {
    /// Hydrate this description against the live `child` of the live
    /// `parent`; see [`hydrate_child`].
    pub fn hydrate_child(
        &self,
        arena: &mut Arena,
        parent: usize,
        child: Option<usize>,
        stats: &mut HydrationStats,
    )
        requires
            old(arena).wf(),
            desc_awaiting(old(arena)@, node_id(*self) as int),
            parent < old(arena)@.len(),
            old(arena).stage_of(parent as int) == Stage::LiveOnly,
            (match child {
                Some(c) => c < old(arena)@.len(),
                None => true,
            }),
        ensures
            final(arena).wf(),
            final(arena)@.len() == old(arena)@.len(),
            forall|j: int|
                0 <= j < old(arena)@.len() ==> {
                    &&& (#[trigger] final(arena)@[j]).data == old(arena)@[j].data
                    &&& final(arena)@[j].stored == old(arena)@[j].stored
                    &&& final(arena)@[j].listeners == old(arena)@[j].listeners
                    &&& (final(arena)@[j].stage == old(arena)@[j].stage || (old(arena)@[j].stage
                        == Stage::Hydrating && final(arena)@[j].stage == Stage::LiveOnly))
                    &&& (j != parent ==> final(arena)@[j].children == old(arena)@[j].children)
                },
            all_live(final(arena)@, node_id(*self) as int),
            final(arena).children_of(parent as int) == (match child {
                Some(c) => crate::arena::replace_first_spec(
                    old(arena).children_of(parent as int),
                    c,
                    node_id(*self),
                ),
                None => old(arena).children_of(parent as int).push(node_id(*self)),
            }),
            stats_v(*final(stats)) == s3(
                stats_v(*old(stats)),
                hyd_stats(old(arena)@, node_id(*self) as int, cand_v(child)),
            ),
    {
        hydrate_child(arena, *self, parent, child, stats);
    }
}

/// A hydrated subtree stays fully live when one node outside it — one that
/// was not awaiting hydration when the walk began — changes its children.
proof fn lemma_all_live_except(
    n0: Seq<NodeRep>,
    n1: Seq<NodeRep>,
    n2: Seq<NodeRep>,
    id: int,
    p: int,
)
    requires
        desc_awaiting(n0, id),
        stages_monotone(n0, n1),
        all_live(n1, id),
        n2.len() == n1.len(),
        forall|j: int| 0 <= j < n1.len() && j != p ==> n2[j] == n1[j],
        0 <= p < n0.len(),
        n0[p].stage != Stage::Hydrating,
    ensures
        all_live(n2, id),
    decreases id,
{
    assert(id != p);
    assert(n2[id] == n1[id]);
    assert forall|k: int| 0 <= k < n2[id].children@.len() implies 0 <= (
    #[trigger] n2[id].children@[k]) < id && all_live(n2, n2[id].children@[k] as int) by {
        assert(n1[id].children@[k] < id);
        assert(all_live(n1, n1[id].children@[k] as int));
        assert(desc_awaiting(n0, n0[id].children@[k] as int));
        lemma_all_live_except(n0, n1, n2, n1[id].children@[k] as int, p);
    }
}

} // verus!
