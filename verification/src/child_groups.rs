//! Child-group reconciler.
//!
//! A [`ChildGroups`] manages ordered regions of children — slots — under one
//! live parent node.  Each slot holds at most one anchor child; slot indices
//! are stable once reserved, and the live document order of the occupied
//! slots' anchors always equals ascending slot order.  Insertion finds its
//! place by scanning for the nearest occupied slot after the target, so no
//! sibling ever needs renumbering.

use vstd::prelude::*;

use crate::arena::{
    first_index_of, insert_before_spec, lemma_first_index_of, remove_first_spec, Arena, Stage,
};

verus! {

/// One slot's contribution to the document: its anchor, if occupied.
pub open spec fn occ1(s: Option<usize>) -> Seq<usize> {
    match s {
        Some(c) => seq![c],
        None => Seq::empty(),
    }
}

/// The anchors of the occupied slots, in slot order.
pub open spec fn occupants(s: Seq<Option<usize>>) -> Seq<usize>
    decreases s.len(),
{
    if s.len() == 0 {
        Seq::empty()
    } else {
        occ1(s[0]) + occupants(s.drop_first())
    }
}

/// The anchor of the first occupied slot, if any slot is occupied.
pub open spec fn first_occupant(s: Seq<Option<usize>>) -> Option<usize>
    decreases s.len(),
{
    if s.len() == 0 {
        None
    } else {
        match s[0] {
            Some(c) => Some(c),
            None => first_occupant(s.drop_first()),
        }
    }
}

/// No two occupied slots hold the same anchor.
pub open spec fn distinct_occupants(s: Seq<Option<usize>>) -> bool {
    forall|i: int, j: int|
        0 <= i < j < s.len() && s[i] is Some && s[j] is Some ==> s[i] != s[j]
}

/// An anchor occupies some slot of `s`.
pub open spec fn is_occupant(s: Seq<Option<usize>>, c: usize) -> bool {
    exists|i: int| 0 <= i < s.len() && s[i] == Some(c)
}

proof fn lemma_occupants_push(s: Seq<Option<usize>>, x: Option<usize>)
    ensures
        occupants(s.push(x)) =~= occupants(s) + occ1(x),
    decreases s.len(),
{
    let t = s.push(x);
    if s.len() == 0 {
        assert(t[0] == x);
        assert(t.drop_first() =~= Seq::<Option<usize>>::empty());
        assert(occupants(t.drop_first()) =~= Seq::<usize>::empty());
        assert(occupants(t) =~= occ1(t[0]) + occupants(t.drop_first()));
        assert(occupants(s) =~= Seq::<usize>::empty());
        assert(occupants(t) =~= occupants(s) + occ1(x));
    } else {
        assert(t[0] == s[0]);
        assert(t.drop_first() =~= s.drop_first().push(x));
        lemma_occupants_push(s.drop_first(), x);
        assert(occupants(t) =~= occ1(s[0]) + occupants(s.drop_first().push(x)));
        assert(occupants(s.drop_first().push(x)) =~= occupants(s.drop_first()) + occ1(x));
        assert(occupants(s) =~= occ1(s[0]) + occupants(s.drop_first()));
        assert(occupants(t) =~= occupants(s) + occ1(x));
    }
}

proof fn lemma_occupants_decompose(s: Seq<Option<usize>>, i: int)
    requires
        0 <= i < s.len(),
    ensures
        occupants(s) =~= occupants(s.take(i)) + occ1(s[i]) + occupants(s.skip(i + 1)),
    decreases s.len(),
{
    if i == 0 {
        assert(s.take(0) =~= Seq::<Option<usize>>::empty());
        assert(s.skip(1) =~= s.drop_first());
        assert(occupants(s.take(0)) =~= Seq::<usize>::empty());
    } else {
        let t = s.drop_first();
        lemma_occupants_decompose(t, i - 1);
        assert(s.take(i).drop_first() =~= t.take(i - 1));
        assert(s.take(i)[0] == s[0]);
        assert(s.take(i).len() > 0);
        assert(occupants(s.take(i)) =~= occ1(s[0]) + occupants(t.take(i - 1)));
        assert(s.skip(i + 1) =~= t.skip(i));
        assert(t[i - 1] == s[i]);
    }
}

/// The first occupant heads the occupant list.
proof fn lemma_first_occupant(s: Seq<Option<usize>>)
    ensures
        match first_occupant(s) {
            Some(c) => occupants(s).len() > 0 && occupants(s)[0] == c && is_occupant(s, c),
            None => occupants(s).len() == 0,
        },
    decreases s.len(),
{
    if s.len() > 0 {
        match s[0] {
            Some(c) => {},
            None => {
                lemma_first_occupant(s.drop_first());
                if first_occupant(s.drop_first()) is Some {
                    let c = first_occupant(s.drop_first())->0;
                    let i = choose|i: int|
                        0 <= i < s.drop_first().len() && s.drop_first()[i] == Some(c);
                    assert(s[i + 1] == Some(c));
                }
            },
        }
    }
}

/// An anchor appears among the occupants exactly when it occupies a slot.
proof fn lemma_occupant_membership(s: Seq<Option<usize>>, c: usize)
    ensures
        occupants(s).contains(c) <==> is_occupant(s, c),
    decreases s.len(),
{
    if s.len() > 0 {
        let t = s.drop_first();
        lemma_occupant_membership(t, c);
        if occupants(s).contains(c) {
            let p = choose|p: int| 0 <= p < occupants(s).len() && occupants(s)[p] == c;
            if s[0] == Some(c) {
                assert(is_occupant(s, c));
            } else {
                assert(occupants(s) =~= occ1(s[0]) + occupants(t));
                assert(occupants(t).contains(c)) by {
                    if s[0] is Some {
                        assert(occupants(s)[0] == s[0]->0);
                        assert(p >= 1);
                        assert(occupants(t)[p - 1] == c);
                    } else {
                        assert(occupants(t)[p] == c);
                    }
                }
                let i = choose|i: int| 0 <= i < t.len() && t[i] == Some(c);
                assert(s[i + 1] == Some(c));
            }
        }
        if is_occupant(s, c) {
            let i = choose|i: int| 0 <= i < s.len() && s[i] == Some(c);
            if i == 0 {
                assert(occupants(s)[0] == c);
            } else {
                assert(t[i - 1] == Some(c));
                assert(is_occupant(t, c));
                assert(occupants(t).contains(c));
                let p = choose|p: int| 0 <= p < occupants(t).len() && occupants(t)[p] == c;
                assert(occupants(s)[p + occ1(s[0]).len()] == c);
            }
        }
    }
}

/// In a list shaped `a + b` where `x` heads `b` and does not occur in `a`,
/// the first occurrence of `x` is right after `a`.
proof fn lemma_first_index_append(a: Seq<usize>, b: Seq<usize>, x: usize)
    requires
        !a.contains(x),
        b.len() > 0,
        b[0] == x,
    ensures
        first_index_of(a + b, x) == Some(a.len() as int),
{
    let s = a + b;
    lemma_first_index_of(s, x);
    assert(s[a.len() as int] == x);
    assert forall|j: int| 0 <= j < a.len() implies s[j] != x by {
        assert(s[j] == a[j]);
        if a[j] == x {
            assert(a.contains(x));
        }
    }
    match first_index_of(s, x) {
        Some(i) => {
            if i < a.len() {
                assert(s[i] != x);
            }
            if i > a.len() {
                assert(s[a.len() as int] != x);
            }
        },
        None => {
            assert(s[a.len() as int] != x);
        },
    }
}

/// Removing slot `index`'s occupant from the document leaves exactly the
/// other slots' occupants, in order.
proof fn lemma_doc_remove(s: Seq<Option<usize>>, index: int, e: usize)
    requires
        0 <= index < s.len(),
        s[index] == Some(e),
        distinct_occupants(s),
    ensures
        remove_first_spec(occupants(s), e) =~= occupants(s.take(index)) + occupants(
            s.skip(index + 1),
        ),
{
    lemma_occupants_decompose(s, index);
    let x = occupants(s.take(index));
    let y = occupants(s.skip(index + 1));
    lemma_occupant_membership(s.take(index), e);
    assert(!x.contains(e)) by {
        if is_occupant(s.take(index), e) {
            let i = choose|i: int| 0 <= i < s.take(index).len() && s.take(index)[i] == Some(e);
            assert(s[i] == Some(e));
            assert(false);
        }
    }
    assert(occupants(s) =~= x + (seq![e] + y));
    lemma_first_index_append(x, seq![e] + y, e);
    assert(first_index_of(occupants(s), e) == Some(x.len() as int));
    assert(occupants(s).remove(x.len() as int) =~= x + y);
}

/// Inserting slot `index`'s occupant before the first occupant after
/// `index` restores exactly the slots' occupants, in order.
proof fn lemma_doc_insert(s: Seq<Option<usize>>, index: int, c: usize)
    requires
        0 <= index < s.len(),
        s[index] == Some(c),
        distinct_occupants(s),
    ensures
        insert_before_spec(
            occupants(s.take(index)) + occupants(s.skip(index + 1)),
            c,
            first_occupant(s.skip(index + 1)),
        ) =~= occupants(s),
{
    lemma_occupants_decompose(s, index);
    let x = occupants(s.take(index));
    let y = occupants(s.skip(index + 1));
    assert(occupants(s) =~= x + seq![c] + y);
    match first_occupant(s.skip(index + 1)) {
        Some(a0) => {
            lemma_first_occupant(s.skip(index + 1));
            assert(y[0] == a0);
            lemma_occupant_membership(s.take(index), a0);
            assert(!x.contains(a0)) by {
                if is_occupant(s.take(index), a0) {
                    let i = choose|i: int|
                        0 <= i < s.take(index).len() && s.take(index)[i] == Some(a0);
                    assert(s[i] == Some(a0));
                    let k = choose|k: int|
                        0 <= k < s.skip(index + 1).len() && (#[trigger] s.skip(index + 1)[k])
                            == Some(a0);
                    assert(s[index + 1 + k] == Some(a0));
                    assert(false);
                }
            }
            lemma_first_index_append(x, y, a0);
            assert(first_index_of(x + y, a0) == Some(x.len() as int));
            assert((x + y).insert(x.len() as int, c) =~= x + seq![c] + y);
        },
        None => {
            lemma_first_occupant(s.skip(index + 1));
            assert(y.len() == 0);
            assert((x + y).push(c) =~= x + seq![c] + y);
        },
    }
}

/// The first occupied slot of `t`, found at position `i`, gives the first
/// occupant.
proof fn lemma_first_occupant_at(t: Seq<Option<usize>>, i: int)
    requires
        0 <= i < t.len(),
        t[i] is Some,
        forall|j: int| 0 <= j < i ==> t[j] is None,
    ensures
        first_occupant(t) == Some(t[i]->0),
    decreases i,
{
    if i > 0 {
        assert(t.drop_first()[i - 1] == t[i]);
        assert(forall|j: int| 0 <= j < i - 1 ==> t.drop_first()[j] == t[j + 1]);
        lemma_first_occupant_at(t.drop_first(), i - 1);
    }
}

/// With every slot of `t` empty there is no first occupant.
proof fn lemma_first_occupant_none(t: Seq<Option<usize>>)
    requires
        forall|j: int| 0 <= j < t.len() ==> t[j] is None,
    ensures
        first_occupant(t) is None,
    decreases t.len(),
{
    if t.len() > 0 {
        assert(forall|j: int| 0 <= j < t.drop_first().len() ==> t.drop_first()[j] == t[j + 1]);
        lemma_first_occupant_none(t.drop_first());
    }
}

/// Ordered, independently growable regions of children under one live
/// parent.
pub struct ChildGroups {
    parent: usize,
    children: Vec<Option<usize>>,
    /// Whether the most recently reserved slot's occupant may still change
    /// without a new registration.
    last_is_dynamic: bool,
    group_count: usize,
}

impl ChildGroups {
    /// The parent node whose children the slots order.
    pub closed spec fn parent_of(self) -> usize {
        self.parent
    }

    /// The slots, each holding its anchor child if occupied.
    pub closed spec fn slots(self) -> Seq<Option<usize>> {
        self.children@
    }

    /// Whether the last reserved slot is still dynamic.
    pub closed spec fn last_dynamic(self) -> bool {
        self.last_is_dynamic
    }

    /// How many regions have been registered.
    pub closed spec fn groups(self) -> nat {
        self.group_count as nat
    }

    /// The reconciler's invariant against the arena: the parent is a live
    /// node, every anchor is a valid node held by exactly one slot, and the
    /// parent's live children are exactly the occupied slots' anchors in
    /// ascending slot order.
    pub open spec fn slots_wf(self, arena: Arena) -> bool {
        &&& arena.valid(self.parent_of() as int)
        &&& arena.stage_of(self.parent_of() as int) == Stage::LiveOnly
        &&& self.groups() == self.slots().len()
        &&& (self.last_dynamic() ==> self.slots().len() > 0)
        &&& forall|i: int|
            0 <= i < self.slots().len() ==> (#[trigger] self.slots()[i] matches Some(c) ==> c
                < arena@.len())
        &&& distinct_occupants(self.slots())
        &&& arena.children_of(self.parent_of() as int) == occupants(self.slots())
    }

    /// Track the children of `parent`, which must be live and so far empty.
    pub fn new(arena: &Arena, parent: usize) -> (cg: ChildGroups)
        requires
            arena.valid(parent as int),
            arena.stage_of(parent as int) == Stage::LiveOnly,
            arena.children_of(parent as int) == Seq::<usize>::empty(),
        ensures
            cg.slots_wf(*arena),
            cg.parent_of() == parent,
            cg.slots() == Seq::<Option<usize>>::empty(),
            cg.groups() == 0,
            !cg.last_dynamic(),
    {
        let cg = ChildGroups {
            parent,
            children: Vec::new(),
            last_is_dynamic: false,
            group_count: 0,
        };
        proof {
            assert(cg.slots() =~= Seq::<Option<usize>>::empty());
            assert(occupants(cg.slots()) =~= Seq::<usize>::empty());
        }
        cg
    }

    /// Whether exactly one region is registered, so callers can take faster
    /// paths when no interleaving is possible.
    pub fn is_single_group(&self) -> (r: bool)
        ensures
            r == (self.groups() == 1),
    {
        self.group_count == 1
    }

    /// Reserve the next slot index for a region whose content a reactive
    /// computation will determine later.  The slot starts empty and the last
    /// slot is marked dynamic.
    pub fn new_group(&mut self, arena: &Arena) -> (index: usize)
        requires
            old(self).slots_wf(*arena),
            old(self).slots().len() < usize::MAX,
        ensures
            final(self).slots_wf(*arena),
            index == old(self).slots().len(),
            final(self).slots() == old(self).slots().push(None),
            final(self).groups() == old(self).groups() + 1,
            final(self).last_dynamic(),
            final(self).parent_of() == old(self).parent_of(),
    {
        self.group_count = self.group_count + 1;
        self.last_is_dynamic = true;
        let index = self.children.len();
        self.children.push(None);
        proof {
            lemma_occupants_push(old(self).slots(), None);
            assert(occupants(self.slots()) =~= occupants(old(self).slots()));
        }
        index
    }

    /// The anchor of the first occupied slot strictly after `index`: the
    /// place before which a child of region `index` must be inserted.
    pub fn get_next_group_elem(&self, index: usize) -> (r: Option<usize>)
        requires
            index < self.slots().len(),
        ensures
            r == first_occupant(self.slots().skip(index as int + 1)),
    {
        let ghost t = self.slots().skip(index as int + 1);
        proof {
            assert(forall|j: int| 0 <= j < t.len() ==> t[j] == self.slots()[index + 1 + j]);
        }
        let n = self.children.len();
        let mut i: usize = index + 1;
        while i < n
            invariant
                index + 1 <= i <= n,
                n == self.slots().len(),
                t == self.slots().skip(index as int + 1),
                forall|j: int| 0 <= j < t.len() ==> t[j] == self.slots()[index + 1 + j],
                forall|j: int| index + 1 <= j < i ==> self.slots()[j] is None,
            decreases n - i,
        {
            match self.children[i] {
                Some(c) => {
                    proof {
                        assert(t[i - index - 1] == Some(c));
                        lemma_first_occupant_at(t, i - index - 1);
                    }
                    return Some(c);
                },
                None => {},
            }
            i = i + 1;
        }
        proof {
            assert(forall|j: int| 0 <= j < t.len() ==> t[j] is None);
            lemma_first_occupant_none(t);
        }
        None
    }

    /// Put `child`, already recorded as slot `index`'s occupant, into the
    /// live document: immediately before the first occupant after `index`,
    /// or at the end when every later slot is empty.  This is the catch-up
    /// half of an upsert, for callers that updated the slot first.
    pub fn insert_last_child(&self, arena: &mut Arena, index: usize, child: usize)
        requires
            old(arena).wf(),
            old(arena).valid(self.parent_of() as int),
            old(arena).stage_of(self.parent_of() as int) == Stage::LiveOnly,
            index < self.slots().len(),
            self.slots()[index as int] == Some(child),
            distinct_occupants(self.slots()),
            forall|i: int|
                0 <= i < self.slots().len() ==> (#[trigger] self.slots()[i] matches Some(c) ==> c
                    < old(arena)@.len()),
            old(arena).children_of(self.parent_of() as int) == occupants(
                self.slots().take(index as int),
            ) + occupants(self.slots().skip(index as int + 1)),
        ensures
            final(arena).wf(),
            Arena::same_but_children(old(arena)@, final(arena)@, self.parent_of() as int),
            final(arena).children_of(self.parent_of() as int) == occupants(self.slots()),
    {
        let anchor = self.get_next_group_elem(index);
        proof {
            assert(self.slots()[index as int] matches Some(c) ==> c < old(arena)@.len());
        }
        arena.insert_child_before_anchor(self.parent, child, anchor);
        proof {
            lemma_doc_insert(self.slots(), index as int, child);
        }
    }

    /// Make `child` the only occupant of slot `index`: a previous occupant
    /// leaves the live document first, and `child` is inserted before the
    /// nearest occupant after `index`.  Returns whether a previous occupant
    /// existed.
    pub fn upsert_only_child(&mut self, arena: &mut Arena, index: usize, child: usize) -> (existed:
        bool)
        requires
            old(self).slots_wf(*old(arena)),
            old(arena).wf(),
            index < old(self).slots().len(),
            child < old(arena)@.len(),
            forall|i: int|
                0 <= i < old(self).slots().len() && i != index ==> old(self).slots()[i] != Some(
                    child,
                ),
        ensures
            final(self).slots_wf(*final(arena)),
            final(arena).wf(),
            existed == (old(self).slots()[index as int] is Some),
            final(self).slots() == old(self).slots().update(index as int, Some(child)),
            final(self).parent_of() == old(self).parent_of(),
            final(self).groups() == old(self).groups(),
            final(self).last_dynamic() == old(self).last_dynamic(),
            final(arena)@.len() == old(arena)@.len(),
            forall|j: int|
                0 <= j < old(arena)@.len() && j != old(self).parent_of() ==> final(arena)@[j]
                    == old(arena)@[j],
            final(arena)@[old(self).parent_of() as int].data == old(arena)@[old(
                self,
            ).parent_of() as int].data,
            final(arena)@[old(self).parent_of() as int].stage == old(arena)@[old(
                self,
            ).parent_of() as int].stage,
            final(arena)@[old(self).parent_of() as int].stored == old(arena)@[old(
                self,
            ).parent_of() as int].stored,
            final(arena)@[old(self).parent_of() as int].listeners == old(arena)@[old(
                self,
            ).parent_of() as int].listeners,
            final(arena).children_of(old(self).parent_of() as int) == occupants(
                final(self).slots(),
            ),
            final(arena).children_of(old(self).parent_of() as int).contains(child),
            (match old(self).slots()[index as int] {
                Some(e) => e != child ==> !final(arena).children_of(
                    old(self).parent_of() as int,
                ).contains(e),
                None => true,
            }),
    {
        let ghost s = old(self).slots();
        let ghost s2 = s.update(index as int, Some(child));
        let old_occ: Option<usize> = self.children[index];
        {
            let e = &mut self.children[index];
            *e = Some(child);
        }
        proof {
            assert(self.slots() =~= s2);
            assert(s2.take(index as int) =~= s.take(index as int));
            assert(s2.skip(index as int + 1) =~= s.skip(index as int + 1));
        }
        if let Some(ex) = old_occ {
            arena.remove_child_first(self.parent, ex);
            proof {
                lemma_doc_remove(s, index as int, ex);
            }
        } else {
            proof {
                lemma_occupants_decompose(s, index as int);
                assert(occupants(s) =~= occupants(s.take(index as int)) + occupants(
                    s.skip(index as int + 1),
                ));
            }
        }
        proof {
            assert(arena.children_of(self.parent_of() as int) == occupants(
                self.slots().take(index as int),
            ) + occupants(self.slots().skip(index as int + 1)));
            assert(distinct_occupants(s2)) by {
                assert forall|i: int, j: int|
                    0 <= i < j < s2.len() && s2[i] is Some && s2[j] is Some implies s2[i]
                    != s2[j] by {
                    if i != index && j != index {
                        assert(s[i] == s2[i] && s[j] == s2[j]);
                    }
                }
            }
        }
        self.insert_last_child(arena, index, child);
        proof {
            lemma_occupant_membership(s2, child);
            assert(s2[index as int] == Some(child));
            assert(is_occupant(s2, child));
            if let Some(e) = s[index as int] {
                if e != child {
                    lemma_occupant_membership(s2, e);
                    assert(!is_occupant(s2, e)) by {
                        if is_occupant(s2, e) {
                            let i = choose|i: int| 0 <= i < s2.len() && s2[i] == Some(e);
                            assert(i != index);
                            assert(s[i] == Some(e));
                            assert(false);
                        }
                    }
                }
            }
        }
        old_occ.is_some()
    }

    /// Like an upsert, for a region asserted to be empty: the caller promises
    /// no occupant exists in slot `index`.
    pub fn insert_only_child(&mut self, arena: &mut Arena, index: usize, child: usize)
        requires
            old(self).slots_wf(*old(arena)),
            old(arena).wf(),
            index < old(self).slots().len(),
            old(self).slots()[index as int] is None,
            child < old(arena)@.len(),
            forall|i: int|
                0 <= i < old(self).slots().len() && i != index ==> old(self).slots()[i] != Some(
                    child,
                ),
        ensures
            final(self).slots_wf(*final(arena)),
            final(arena).wf(),
            final(self).slots() == old(self).slots().update(index as int, Some(child)),
            final(self).parent_of() == old(self).parent_of(),
            final(self).groups() == old(self).groups(),
            final(self).last_dynamic() == old(self).last_dynamic(),
            final(arena)@.len() == old(arena)@.len(),
            forall|j: int|
                0 <= j < old(arena)@.len() && j != old(self).parent_of() ==> final(arena)@[j]
                    == old(arena)@[j],
            final(arena).children_of(old(self).parent_of() as int) == occupants(
                final(self).slots(),
            ),
            final(arena).children_of(old(self).parent_of() as int).contains(child),
    {
        let existed = self.upsert_only_child(arena, index, child);
        proof {
            assert(!existed);
        }
    }

    /// Append a statically known trailing child without waiting for a flush:
    /// it fills the still-dynamic last slot if there is one, else it gets a
    /// fresh fixed slot; either way it is appended at the end of the live
    /// children and the last slot is no longer dynamic.
    pub fn append_new_group_sync(&mut self, arena: &mut Arena, child: usize)
        requires
            old(self).slots_wf(*old(arena)),
            old(arena).wf(),
            child < old(arena)@.len(),
            !old(self).last_dynamic() ==> old(self).slots().len() < usize::MAX,
            forall|i: int|
                0 <= i < old(self).slots().len() && !(old(self).last_dynamic() && i == old(
                    self,
                ).slots().len() - 1) ==> old(self).slots()[i] != Some(child),
        ensures
            final(self).slots_wf(*final(arena)),
            final(arena).wf(),
            !final(self).last_dynamic(),
            final(self).parent_of() == old(self).parent_of(),
            old(self).last_dynamic() ==> {
                &&& final(self).slots() == old(self).slots().update(
                    old(self).slots().len() - 1,
                    Some(child),
                )
                &&& final(self).groups() == old(self).groups()
            },
            !old(self).last_dynamic() ==> {
                &&& final(self).slots() == old(self).slots().push(Some(child))
                &&& final(self).groups() == old(self).groups() + 1
            },
            final(arena)@.len() == old(arena)@.len(),
            forall|j: int|
                0 <= j < old(arena)@.len() && j != old(self).parent_of() ==> final(arena)@[j]
                    == old(arena)@[j],
            final(arena).children_of(old(self).parent_of() as int) == occupants(
                final(self).slots(),
            ),
    {
        if self.last_is_dynamic {
            let index = self.children.len() - 1;
            let _ = self.upsert_only_child(arena, index, child);
            self.last_is_dynamic = false;
        } else {
            let ghost s = old(self).slots();
            self.children.push(Some(child));
            self.group_count = self.group_count + 1;
            arena.append_child(self.parent, child);
            self.last_is_dynamic = false;
            proof {
                lemma_occupants_push(s, Some(child));
                assert(final(arena).children_of(self.parent_of() as int) =~= occupants(
                    self.slots(),
                ));
                assert(distinct_occupants(self.slots())) by {
                    let s2 = self.slots();
                    assert forall|i: int, j: int|
                        0 <= i < j < s2.len() && s2[i] is Some && s2[j] is Some implies s2[i]
                        != s2[j] by {
                        if j < s.len() {
                            assert(s[i] == s2[i] && s[j] == s2[j]);
                        } else {
                            assert(s2[j] == Some(child));
                            assert(s[i] == s2[i]);
                        }
                    }
                }
            }
        }
    }

    /// Remove slot `index`'s occupant from the live document, if there is
    /// one, and clear the slot.
    pub fn remove_child(&mut self, arena: &mut Arena, index: usize)
        requires
            old(self).slots_wf(*old(arena)),
            old(arena).wf(),
            index < old(self).slots().len(),
        ensures
            final(self).slots_wf(*final(arena)),
            final(arena).wf(),
            final(self).slots() == old(self).slots().update(index as int, None),
            final(self).parent_of() == old(self).parent_of(),
            final(self).groups() == old(self).groups(),
            final(self).last_dynamic() == old(self).last_dynamic(),
            final(arena)@.len() == old(arena)@.len(),
            forall|j: int|
                0 <= j < old(arena)@.len() && j != old(self).parent_of() ==> final(arena)@[j]
                    == old(arena)@[j],
            final(arena).children_of(old(self).parent_of() as int) == occupants(
                final(self).slots(),
            ),
            (match old(self).slots()[index as int] {
                Some(e) => !final(arena).children_of(old(self).parent_of() as int).contains(e),
                None => final(arena)@ == old(arena)@,
            }),
    {
        let ghost s = old(self).slots();
        let ghost s2 = s.update(index as int, None);
        let old_occ: Option<usize> = self.children[index];
        {
            let e = &mut self.children[index];
            *e = None;
        }
        proof {
            assert(self.slots() =~= s2);
            assert(s2.take(index as int) =~= s.take(index as int));
            assert(s2.skip(index as int + 1) =~= s.skip(index as int + 1));
            lemma_occupants_decompose(s2, index as int);
        }
        if let Some(ex) = old_occ {
            arena.remove_child_first(self.parent, ex);
            proof {
                lemma_doc_remove(s, index as int, ex);
                assert(arena.children_of(self.parent_of() as int) =~= occupants(s2));
                lemma_occupant_membership(s2, ex);
                assert(!is_occupant(s2, ex)) by {
                    if is_occupant(s2, ex) {
                        let i = choose|i: int| 0 <= i < s2.len() && s2[i] == Some(ex);
                        assert(i != index);
                        assert(s[i] == Some(ex));
                        assert(false);
                    }
                }
            }
        } else {
            proof {
                lemma_occupants_decompose(s, index as int);
                assert(occupants(s2) =~= occupants(s));
            }
        }
    }

    /// Record `child` as slot `index`'s occupant without touching the live
    /// document: the region's own reconciler already performed the mutation,
    /// so the caller promises the live children already reflect the new
    /// slot.
    pub fn set_first_child(&mut self, arena: &Arena, index: usize, child: usize)
        requires
            arena.valid(old(self).parent_of() as int),
            arena.stage_of(old(self).parent_of() as int) == Stage::LiveOnly,
            old(self).groups() == old(self).slots().len(),
            old(self).last_dynamic() ==> old(self).slots().len() > 0,
            index < old(self).slots().len(),
            child < arena@.len(),
            distinct_occupants(old(self).slots()),
            forall|i: int|
                0 <= i < old(self).slots().len() ==> (#[trigger] old(self).slots()[i] matches Some(
                    c,
                ) ==> c < arena@.len()),
            forall|i: int|
                0 <= i < old(self).slots().len() && i != index ==> old(self).slots()[i] != Some(
                    child,
                ),
            arena.children_of(old(self).parent_of() as int) == occupants(
                old(self).slots().update(index as int, Some(child)),
            ),
        ensures
            final(self).slots_wf(*arena),
            final(self).slots() == old(self).slots().update(index as int, Some(child)),
            final(self).parent_of() == old(self).parent_of(),
            final(self).groups() == old(self).groups(),
            final(self).last_dynamic() == old(self).last_dynamic(),
    {
        let ghost s = old(self).slots();
        let ghost s2 = s.update(index as int, Some(child));
        let e = &mut self.children[index];
        *e = Some(child);
        proof {
            assert(self.slots() =~= s2);
            assert(distinct_occupants(s2)) by {
                assert forall|i: int, j: int|
                    0 <= i < j < s2.len() && s2[i] is Some && s2[j] is Some implies s2[i]
                    != s2[j] by {
                    if i != index && j != index {
                        assert(s[i] == s2[i] && s[j] == s2[j]);
                    }
                }
            }
        }
    }

    /// Clear slot `index` without touching the live document: the region's
    /// own reconciler already removed the child, so the caller promises the
    /// live children already reflect the empty slot.
    pub fn clear_first_child(&mut self, arena: &Arena, index: usize)
        requires
            arena.valid(old(self).parent_of() as int),
            arena.stage_of(old(self).parent_of() as int) == Stage::LiveOnly,
            old(self).groups() == old(self).slots().len(),
            old(self).last_dynamic() ==> old(self).slots().len() > 0,
            index < old(self).slots().len(),
            distinct_occupants(old(self).slots()),
            forall|i: int|
                0 <= i < old(self).slots().len() ==> (#[trigger] old(self).slots()[i] matches Some(
                    c,
                ) ==> c < arena@.len()),
            arena.children_of(old(self).parent_of() as int) == occupants(
                old(self).slots().update(index as int, None),
            ),
        ensures
            final(self).slots_wf(*arena),
            final(self).slots() == old(self).slots().update(index as int, None),
            final(self).parent_of() == old(self).parent_of(),
            final(self).groups() == old(self).groups(),
            final(self).last_dynamic() == old(self).last_dynamic(),
    {
        let ghost s = old(self).slots();
        let ghost s2 = s.update(index as int, None);
        let e = &mut self.children[index];
        *e = None;
        proof {
            assert(self.slots() =~= s2);
            assert(distinct_occupants(s2)) by {
                assert forall|i: int, j: int|
                    0 <= i < j < s2.len() && s2[i] is Some && s2[j] is Some implies s2[i]
                    != s2[j] by {
                    if i != index && j != index {
                        assert(s[i] == s2[i] && s[j] == s2[j]);
                    }
                }
            }
        }
    }

    /// Release spare slot capacity; no observable change.
    pub fn shrink_to_fit(&mut self)
        ensures
            final(self).slots() == old(self).slots(),
            final(self).parent_of() == old(self).parent_of(),
            final(self).groups() == old(self).groups(),
            final(self).last_dynamic() == old(self).last_dynamic(),
    {
        crate::arena::shrink_vec(&mut self.children);
    }
}

/// Slot ordering, stated against the live document: under a well-formed
/// reconciler, the anchor of a lower occupied slot stands before the anchor
/// of a higher occupied slot among the parent's live children, whatever
/// order the slots were filled in.
pub proof fn lemma_document_order_follows_slot_order(
    cg: ChildGroups,
    arena: Arena,
    i: int,
    j: int,
)
    requires
        cg.slots_wf(arena),
        0 <= i < j < cg.slots().len(),
        cg.slots()[i] is Some,
        cg.slots()[j] is Some,
    ensures
        (match (
            first_index_of(arena.children_of(cg.parent_of() as int), cg.slots()[i]->0),
            first_index_of(arena.children_of(cg.parent_of() as int), cg.slots()[j]->0),
        ) {
            (Some(pa), Some(pb)) => pa < pb,
            _ => false,
        }),
{
    lemma_slot_ordering(cg.slots(), i, j);
}

/// Slot ordering over the slots alone: among the occupants in slot order,
/// the anchor of a lower occupied slot always comes first.
pub proof fn lemma_slot_ordering(s: Seq<Option<usize>>, i: int, j: int)
    requires
        0 <= i < j < s.len(),
        s[i] is Some,
        s[j] is Some,
        distinct_occupants(s),
    ensures
        (match (first_index_of(occupants(s), s[i]->0), first_index_of(occupants(s), s[j]->0)) {
            (Some(pa), Some(pb)) => pa < pb,
            _ => false,
        }),
{
    let a = s[i]->0;
    let b = s[j]->0;
    lemma_occupants_decompose(s, j);
    let x = occupants(s.take(j));
    let y = occupants(s.skip(j + 1));
    lemma_occupant_membership(s.take(j), b);
    assert(!x.contains(b)) by {
        if is_occupant(s.take(j), b) {
            let k = choose|k: int| 0 <= k < s.take(j).len() && s.take(j)[k] == Some(b);
            assert(s[k] == Some(b));
            assert(false);
        }
    }
    assert(occupants(s) =~= x + (seq![b] + y));
    lemma_first_index_append(x, seq![b] + y, b);
    assert(first_index_of(occupants(s), b) == Some(x.len() as int));
    lemma_occupants_decompose(s.take(j), i);
    assert(s.take(j)[i] == s[i]);
    let x1 = occupants(s.take(j).take(i));
    let y1 = occupants(s.take(j).skip(i + 1));
    assert(s.take(j).take(i) =~= s.take(i));
    lemma_occupant_membership(s.take(i), a);
    assert(!x1.contains(a)) by {
        if is_occupant(s.take(i), a) {
            let k = choose|k: int| 0 <= k < s.take(i).len() && s.take(i)[k] == Some(a);
            assert(s[k] == Some(a));
            assert(false);
        }
    }
    assert(occupants(s) =~= x1 + (seq![a] + (y1 + (seq![b] + y))));
    lemma_first_index_append(x1, seq![a] + (y1 + (seq![b] + y)), a);
    assert(first_index_of(occupants(s), a) == Some(x1.len() as int));
    assert(x =~= x1 + (seq![a] + y1));
    assert(x1.len() < x.len());
}

} // verus!
