//! Mount and document binding.
//!
//! Mounting replaces an existing element of the live document — the mount
//! point, identified by its `id` attribute — with the root of a tree, and
//! tracks the mounted tree in a registry so it can be stopped or unmounted
//! later.  Every failure is a typed result: a missing mount point or a
//! mount point that no parent holds ends the attempt with an error, and a
//! duplicate head-mount id is a contract violation the caller must rule
//! out.

use vstd::prelude::*;

use crate::arena::{
    attrs_have, d_attrs, d_tag, replace_first_spec, remove_first_spec, Arena, NodeRep, Stage,
};
use crate::hydrate::{
    all_live, desc_awaiting, hyd_stats, hydrate_child, s3, stats_v, HydrationStats,
};
use crate::node::DomElement;
use crate::render::markup_tree;

verus! {

/// Why a mount attempt failed.
#[derive(Clone, Copy, PartialEq, Eq, Structural, Debug)]
pub enum MountError {
    /// No element in the document carries the requested id.
    MountPointNotFound,
    /// The mount point exists, but no node holds it as a child.
    MountPointDetached,
    /// The document has no head element.
    HeadNotFound,
}

/// Node `j` is an element whose `id` attribute is `idv`.
pub open spec fn has_elem_id(nodes: Seq<NodeRep>, j: int, idv: Seq<char>) -> bool {
    &&& 0 <= j < nodes.len()
    &&& nodes[j].data is Element
    &&& attrs_have(d_attrs(nodes[j].data), "id"@, idv)
}

/// The first element with `id` attribute `idv`, searching from position `i`.
pub open spec fn first_elem_with_id_from(nodes: Seq<NodeRep>, idv: Seq<char>, i: int) -> Option<
    int,
>
    decreases nodes.len() - i,
{
    if i < 0 || i >= nodes.len() {
        None
    } else if has_elem_id(nodes, i, idv) {
        Some(i)
    } else {
        first_elem_with_id_from(nodes, idv, i + 1)
    }
}

/// The first element of the document with `id` attribute `idv`, in creation
/// order.
pub open spec fn first_elem_with_id(nodes: Seq<NodeRep>, idv: Seq<char>) -> Option<int> {
    first_elem_with_id_from(nodes, idv, 0)
}

proof fn lemma_first_elem_with_id_from(nodes: Seq<NodeRep>, idv: Seq<char>, i: int)
    requires
        0 <= i,
    ensures
        match first_elem_with_id_from(nodes, idv, i) {
            Some(j) => i <= j < nodes.len() && has_elem_id(nodes, j, idv) && (forall|k: int|
                i <= k < j ==> !has_elem_id(nodes, k, idv)),
            None => forall|k: int| i <= k < nodes.len() ==> !has_elem_id(nodes, k, idv),
        },
    decreases nodes.len() - i,
{
    if i < nodes.len() && !has_elem_id(nodes, i, idv) {
        lemma_first_elem_with_id_from(nodes, idv, i + 1);
    }
}

/// Node `p` holds `c` as a child.
pub open spec fn holds_child(nodes: Seq<NodeRep>, p: int, c: usize) -> bool {
    0 <= p < nodes.len() && nodes[p].children@.contains(c)
}

/// The first node holding `c` as a child, searching from position `i`.
pub open spec fn first_parent_from(nodes: Seq<NodeRep>, c: usize, i: int) -> Option<int>
    decreases nodes.len() - i,
{
    if i < 0 || i >= nodes.len() {
        None
    } else if holds_child(nodes, i, c) {
        Some(i)
    } else {
        first_parent_from(nodes, c, i + 1)
    }
}

/// The first node of the document holding `c` as a child, in creation
/// order.
pub open spec fn first_parent_of(nodes: Seq<NodeRep>, c: usize) -> Option<int> {
    first_parent_from(nodes, c, 0)
}

proof fn lemma_first_parent_from(nodes: Seq<NodeRep>, c: usize, i: int)
    requires
        0 <= i,
    ensures
        match first_parent_from(nodes, c, i) {
            Some(j) => i <= j < nodes.len() && holds_child(nodes, j, c) && (forall|k: int|
                i <= k < j ==> !holds_child(nodes, k, c)),
            None => forall|k: int| i <= k < nodes.len() ==> !holds_child(nodes, k, c),
        },
    decreases nodes.len() - i,
{
    if i < nodes.len() && !holds_child(nodes, i, c) {
        lemma_first_parent_from(nodes, c, i + 1);
    }
}

/// The first element of the document with `id` attribute `idv`, or nothing.
pub fn get_element_by_id(arena: &Arena, idv: &str) -> (r: Option<usize>)
    ensures
        (match r {
            Some(j) => first_elem_with_id(arena@, idv@) == Some(j as int),
            None => first_elem_with_id(arena@, idv@) is None,
        }),
{
    proof {
        lemma_first_elem_with_id_from(arena@, idv@, 0);
    }
    let idv_s = idv.to_owned();
    let n = arena.node_count();
    let mut i: usize = 0;
    while i < n
        invariant
            i <= n,
            n == arena@.len(),
            idv_s@ == idv@,
            forall|k: int| 0 <= k < i ==> !has_elem_id(arena@, k, idv@),
        decreases n - i,
    {
        if arena.is_element_at(i) {
            match arena.get_attribute(i, "id") {
                Some(v) => {
                    if v.eq(&idv_s) {
                        proof {
                            assert(attrs_have(d_attrs(arena@[i as int].data), "id"@, v@));
                            assert(has_elem_id(arena@, i as int, idv@));
                            lemma_first_elem_with_id_from(arena@, idv@, 0);
                        }
                        return Some(i);
                    }
                },
                None => {},
            }
        }
        i = i + 1;
    }
    proof {
        lemma_first_elem_with_id_from(arena@, idv@, 0);
    }
    None
}

/// The first node of the document holding `c` as a child, or nothing.
pub fn find_parent_of(arena: &Arena, c: usize) -> (r: Option<usize>)
    ensures
        (match r {
            Some(j) => first_parent_of(arena@, c) == Some(j as int),
            None => first_parent_of(arena@, c) is None,
        }),
{
    proof {
        lemma_first_parent_from(arena@, c, 0);
    }
    let n = arena.node_count();
    let mut i: usize = 0;
    while i < n
        invariant
            i <= n,
            n == arena@.len(),
            forall|k: int| 0 <= k < i ==> !holds_child(arena@, k, c),
        decreases n - i,
    {
        if node_has_child(arena, i, c) {
            proof {
                assert(holds_child(arena@, i as int, c));
                lemma_first_parent_from(arena@, c, 0);
            }
            return Some(i);
        }
        i = i + 1;
    }
    proof {
        lemma_first_parent_from(arena@, c, 0);
    }
    None
}

/// The registry of mounted trees: each tracked root under the handle
/// identity it was given.
pub struct Mounts {
    next_id: u128,
    elements: Vec<(u128, usize)>,
}

/// The first entry with handle identity `id`, searching from `i`.
pub open spec fn first_entry_from(entries: Seq<(u128, usize)>, id: u128, i: int) -> Option<int>
    decreases entries.len() - i,
{
    if i < 0 || i >= entries.len() {
        None
    } else if entries[i].0 == id {
        Some(i)
    } else {
        first_entry_from(entries, id, i + 1)
    }
}

proof fn lemma_first_entry_from(entries: Seq<(u128, usize)>, id: u128, i: int)
    requires
        0 <= i,
    ensures
        match first_entry_from(entries, id, i) {
            Some(j) => i <= j < entries.len() && entries[j].0 == id && (forall|k: int|
                i <= k < j ==> entries[k].0 != id),
            None => forall|k: int| i <= k < entries.len() ==> entries[k].0 != id,
        },
    decreases entries.len() - i,
{
    if i < entries.len() && entries[i].0 != id {
        lemma_first_entry_from(entries, id, i + 1);
    }
}

impl Mounts {
    /// The tracked entries, oldest first.
    pub closed spec fn entries(self) -> Seq<(u128, usize)> {
        self.elements@
    }

    /// The identity the next tracked tree will get.
    pub closed spec fn next(self) -> u128 {
        self.next_id
    }

    /// Identities are handed out once and never reused.
    pub open spec fn mounts_wf(self) -> bool {
        forall|i: int| 0 <= i < self.entries().len() ==> (#[trigger] self.entries()[i]).0 < self.next()
    }

    pub fn new() -> (m: Mounts)
        ensures
            m.mounts_wf(),
            m.entries() == Seq::<(u128, usize)>::empty(),
            m.next() == 0,
    {
        let m = Mounts { next_id: 0, elements: Vec::new() };
        proof {
            assert(m.entries() =~= Seq::<(u128, usize)>::empty());
        }
        m
    }

    /// Hand out the next handle identity.
    pub fn next_node_handle_id(&mut self) -> (id: u128)
        requires
            old(self).next() < u128::MAX,
        ensures
            id == old(self).next(),
            final(self).next() == old(self).next() + 1,
            final(self).entries() == old(self).entries(),
            old(self).mounts_wf() ==> final(self).mounts_wf(),
    {
        let id = self.next_id;
        self.next_id = self.next_id + 1;
        id
    }

    /// Track a mounted tree root; returns its handle identity.
    pub fn insert_element(&mut self, element: usize) -> (id: u128)
        requires
            old(self).mounts_wf(),
            old(self).next() < u128::MAX,
        ensures
            final(self).mounts_wf(),
            id == old(self).next(),
            final(self).next() == old(self).next() + 1,
            final(self).entries() == old(self).entries().push((id, element)),
    {
        let id = self.next_node_handle_id();
        self.elements.push((id, element));
        id
    }

    /// How many trees are tracked.
    pub fn mounted_count(&self) -> (n: usize)
        ensures
            n == self.entries().len(),
    {
        self.elements.len()
    }

    /// Stop tracking the tree under `id`, returning its root if it was
    /// tracked.
    pub fn remove_element(&mut self, id: u128) -> (r: Option<usize>)
        requires
            old(self).mounts_wf(),
        ensures
            final(self).mounts_wf(),
            final(self).next() == old(self).next(),
            (match first_entry_from(old(self).entries(), id, 0) {
                Some(j) => r == Some(old(self).entries()[j].1) && final(self).entries() == old(
                    self,
                ).entries().remove(j),
                None => r is None && final(self).entries() == old(self).entries(),
            }),
    {
        proof {
            lemma_first_entry_from(self.elements@, id, 0);
        }
        let n = self.elements.len();
        let mut i: usize = 0;
        while i < n
            invariant
                i <= n,
                n == self.elements@.len(),
                *self == *old(self),
                old(self).mounts_wf(),
                forall|k: int| 0 <= k < i ==> self.elements@[k].0 != id,
            decreases n - i,
        {
            if self.elements[i].0 == id {
                let e = self.elements[i].1;
                proof {
                    lemma_first_entry_from(self.elements@, id, 0);
                    assert(first_entry_from(self.elements@, id, 0) == Some(i as int));
                    self.elements@.remove_ensures(i as int);
                }
                self.elements.remove(i);
                proof {
                    assert forall|k: int|
                        0 <= k < self.entries().len() implies (#[trigger] self.entries()[k]).0
                        < self.next() by {
                        assert(old(self).mounts_wf());
                        if k < i {
                            assert(old(self).entries()[k].0 < old(self).next());
                        } else {
                            assert(old(self).entries()[k + 1].0 < old(self).next());
                        }
                    }
                }
                return Some(e);
            }
            i = i + 1;
        }
        proof {
            lemma_first_entry_from(self.elements@, id, 0);
        }
        None
    }
}

/// How one tracked root leaves the document: it is removed from the children
/// of the first node holding it, if one does.
pub open spec fn removal_applies(pre: Seq<NodeRep>, post: Seq<NodeRep>, e: usize) -> bool {
    match first_parent_of(pre, e) {
        Some(p) => {
            &&& Arena::same_but_children(pre, post, p)
            &&& post[p].children@ == remove_first_spec(pre[p].children@, e)
        },
        None => post == pre,
    }
}

/// How the document changes when the tracked roots of `entries` leave it in
/// order.
pub open spec fn removals_apply(pre: Seq<NodeRep>, post: Seq<NodeRep>, entries: Seq<(u128, usize)>) -> bool
    decreases entries.len(),
{
    if entries.len() == 0 {
        post == pre
    } else {
        exists|mid: Seq<NodeRep>|
            removals_apply(pre, mid, entries.drop_last()) && #[trigger] removal_applies(
                mid,
                post,
                entries.last().1,
            )
    }
}

proof fn lemma_removals_apply_snoc(
    pre: Seq<NodeRep>,
    mid: Seq<NodeRep>,
    post: Seq<NodeRep>,
    entries: Seq<(u128, usize)>,
    e: (u128, usize),
)
    requires
        removals_apply(pre, mid, entries),
        removal_applies(mid, post, e.1),
    ensures
        removals_apply(pre, post, entries.push(e)),
{
    let es = entries.push(e);
    assert(es.drop_last() =~= entries);
    assert(es.last() == e);
    assert(removals_apply(pre, mid, es.drop_last()));
    assert(removal_applies(mid, post, es.last().1));
    assert(exists|m: Seq<NodeRep>|
        removals_apply(pre, m, es.drop_last()) && #[trigger] removal_applies(
            m,
            post,
            es.last().1,
        ));
}

/// Remove every tracked mounted tree from the document, oldest first, and
/// clear the registry.  Mount points are not restored; this resets the
/// document between independent runs.
pub fn remove_all_mounted(arena: &mut Arena, mounts: &mut Mounts)
    requires
        old(arena).wf(),
        old(mounts).mounts_wf(),
    ensures
        final(arena).wf(),
        removals_apply(old(arena)@, final(arena)@, old(mounts).entries()),
        final(mounts).mounts_wf(),
        final(mounts).entries() == Seq::<(u128, usize)>::empty(),
        final(mounts).next() == old(mounts).next(),
{
    let n = mounts.elements.len();
    let mut i: usize = 0;
    while i < n
        invariant
            arena.wf(),
            i <= n,
            n == mounts.elements@.len(),
            *mounts == *old(mounts),
            removals_apply(old(arena)@, arena@, mounts.entries().take(i as int)),
        decreases n - i,
    {
        let e = mounts.elements[i].1;
        let ghost pre = arena@;
        match find_parent_of(arena, e) {
            Some(p) => {
                proof {
                    lemma_first_parent_from(arena@, e, 0);
                }
                arena.remove_child_first(p, e);
            },
            None => {},
        }
        proof {
            assert(removal_applies(pre, arena@, mounts.entries()[i as int].1));
            lemma_removals_apply_snoc(
                old(arena)@,
                pre,
                arena@,
                mounts.entries().take(i as int),
                mounts.entries()[i as int],
            );
            assert(mounts.entries().take(i + 1) =~= mounts.entries().take(i as int).push(
                mounts.entries()[i as int],
            ));
        }
        i = i + 1;
    }
    proof {
        assert(mounts.entries().take(n as int) =~= mounts.entries());
    }
    mounts.elements.clear();
    proof {
        assert(mounts.entries() =~= Seq::<(u128, usize)>::empty());
    }
}

/// What the host does with a mount handle it is about to discard.
#[derive(Clone, Copy, PartialEq, Eq, Structural)]
pub enum DropAction {
    /// Only release the tree's reactive resources.
    Stop,
    /// Release the tree and put the original mount point back.
    Unmount,
}

/// A handle to one mounted tree: its registry identity and the mount point
/// it replaced.
pub struct MountHandle {
    id: u128,
    mount_point: usize,
    on_drop: Option<DropAction>,
}

impl MountHandle {
    pub closed spec fn handle_id(self) -> u128 {
        self.id
    }

    pub closed spec fn point(self) -> usize {
        self.mount_point
    }

    pub closed spec fn drop_action(self) -> Option<DropAction> {
        self.on_drop
    }

    /// Stop the mounted tree being reactive: the registry releases it, and
    /// the document keeps whatever was rendered.
    pub fn stop(self, mounts: &mut Mounts)
        requires
            old(mounts).mounts_wf(),
        ensures
            final(mounts).mounts_wf(),
            final(mounts).next() == old(mounts).next(),
            (match first_entry_from(old(mounts).entries(), self.handle_id(), 0) {
                Some(j) => final(mounts).entries() == old(mounts).entries().remove(j),
                None => final(mounts).entries() == old(mounts).entries(),
            }),
    {
        let _ = mounts.remove_element(self.id);
    }

    /// Record that discarding the handle should stop the tree.
    pub fn stop_on_drop(&mut self)
        ensures
            final(self).drop_action() == Some(DropAction::Stop),
            final(self).handle_id() == old(self).handle_id(),
            final(self).point() == old(self).point(),
    {
        self.on_drop = Some(DropAction::Stop);
    }

    /// Record that discarding the handle should unmount the tree.
    pub fn unmount_on_drop(&mut self)
        ensures
            final(self).drop_action() == Some(DropAction::Unmount),
            final(self).handle_id() == old(self).handle_id(),
            final(self).point() == old(self).point(),
    {
        self.on_drop = Some(DropAction::Unmount);
    }

    /// Remove the mounted tree and restore the mount point: the tree's root
    /// gives its place among its live parent's children back to the node it
    /// replaced.
    pub fn unmount(self, arena: &mut Arena, mounts: &mut Mounts)
        requires
            old(arena).wf(),
            old(mounts).mounts_wf(),
            self.point() < old(arena)@.len(),
        ensures
            final(arena).wf(),
            final(mounts).mounts_wf(),
            final(mounts).next() == old(mounts).next(),
            (match first_entry_from(old(mounts).entries(), self.handle_id(), 0) {
                Some(j) => {
                    &&& final(mounts).entries() == old(mounts).entries().remove(j)
                    &&& (match first_parent_of(old(arena)@, old(mounts).entries()[j].1) {
                        Some(p) => if old(arena)@[p].stage == Stage::LiveOnly {
                            &&& Arena::same_but_children(old(arena)@, final(arena)@, p)
                            &&& final(arena)@[p].children@ == replace_first_spec(
                                old(arena)@[p].children@,
                                old(mounts).entries()[j].1,
                                self.point(),
                            )
                        } else {
                            final(arena)@ == old(arena)@
                        },
                        None => final(arena)@ == old(arena)@,
                    })
                },
                None => final(mounts).entries() == old(mounts).entries() && final(arena)@ == old(
                    arena,
                )@,
            }),
    {
        match mounts.remove_element(self.id) {
            Some(e) => {
                match find_parent_of(arena, e) {
                    Some(p) => {
                        proof {
                            lemma_first_parent_from(arena@, e, 0);
                        }
                        if arena.stage_at(p) == Stage::LiveOnly {
                            arena.replace_child_first(p, self.mount_point, e);
                        }
                    },
                    None => {},
                }
            },
            None => {},
        }
    }

    /// Apply the recorded drop action, as discarding the handle does in a
    /// host with implicit destruction: nothing, a stop, or an unmount.
    pub fn finish(self, arena: &mut Arena, mounts: &mut Mounts)
        requires
            old(arena).wf(),
            old(mounts).mounts_wf(),
            self.point() < old(arena)@.len(),
        ensures
            final(arena).wf(),
            final(mounts).mounts_wf(),
            final(mounts).next() == old(mounts).next(),
            self.drop_action() is None ==> final(arena)@ == old(arena)@ && final(mounts).entries()
                == old(mounts).entries(),
            self.drop_action() == Some(DropAction::Stop) ==> {
                &&& final(arena)@ == old(arena)@
                &&& (match first_entry_from(old(mounts).entries(), self.handle_id(), 0) {
                    Some(j) => final(mounts).entries() == old(mounts).entries().remove(j),
                    None => final(mounts).entries() == old(mounts).entries(),
                })
            },
            self.drop_action() == Some(DropAction::Unmount) ==> (match first_entry_from(
                old(mounts).entries(),
                self.handle_id(),
                0,
            ) {
                Some(j) => {
                    &&& final(mounts).entries() == old(mounts).entries().remove(j)
                    &&& (match first_parent_of(old(arena)@, old(mounts).entries()[j].1) {
                        Some(p) => if old(arena)@[p].stage == Stage::LiveOnly {
                            &&& Arena::same_but_children(old(arena)@, final(arena)@, p)
                            &&& final(arena)@[p].children@ == replace_first_spec(
                                old(arena)@[p].children@,
                                old(mounts).entries()[j].1,
                                self.point(),
                            )
                        } else {
                            final(arena)@ == old(arena)@
                        },
                        None => final(arena)@ == old(arena)@,
                    })
                },
                None => final(mounts).entries() == old(mounts).entries() && final(arena)@ == old(
                    arena,
                )@,
            }),
    {
        match self.on_drop {
            Some(DropAction::Stop) => {
                let _ = mounts.remove_element(self.id);
            },
            Some(DropAction::Unmount) => {
                let this = MountHandle { on_drop: None, ..self };
                this.unmount(arena, mounts);
            },
            None => {},
        }
    }
}

/// Mount `element` on the document: the element replaces the mount point —
/// the existing element whose `id` attribute is `id` — among its live
/// parent's children, and is tracked under a fresh handle.  Fails exactly
/// when no element carries the id, or none of its occurrences stands under
/// a live parent node.
pub fn mount(arena: &mut Arena, mounts: &mut Mounts, id: &str, element: DomElement) -> (r: Result<
    MountHandle,
    MountError,
>)
    requires
        old(arena).wf(),
        old(mounts).mounts_wf(),
        old(mounts).next() < u128::MAX,
        element.id < old(arena)@.len(),
        old(arena).stage_of(element.id as int) == Stage::LiveOnly,
    ensures
        final(arena).wf(),
        final(mounts).mounts_wf(),
        (match r {
            Ok(h) => {
                &&& first_elem_with_id(old(arena)@, id@) matches Some(m)
                &&& first_parent_of(old(arena)@, (first_elem_with_id(old(arena)@, id@)->0) as usize) matches Some(p)
                &&& old(arena)@[first_parent_of(
                    old(arena)@,
                    (first_elem_with_id(old(arena)@, id@)->0) as usize,
                )->0].stage == Stage::LiveOnly
                &&& {
                    let m = first_elem_with_id(old(arena)@, id@)->0;
                    let p = first_parent_of(old(arena)@, m as usize)->0;
                    &&& Arena::same_but_children(old(arena)@, final(arena)@, p)
                    &&& final(arena)@[p].children@ == replace_first_spec(
                        old(arena)@[p].children@,
                        m as usize,
                        element.id,
                    )
                    &&& h.handle_id() == old(mounts).next()
                    &&& h.point() == m as usize
                    &&& h.drop_action() is None
                    &&& final(mounts).entries() == old(mounts).entries().push(
                        (old(mounts).next(), element.id),
                    )
                    &&& final(mounts).next() == old(mounts).next() + 1
                }
            },
            Err(e) => {
                &&& final(arena)@ == old(arena)@
                &&& final(mounts).entries() == old(mounts).entries()
                &&& final(mounts).next() == old(mounts).next()
                &&& (e == MountError::MountPointNotFound <==> first_elem_with_id(
                    old(arena)@,
                    id@,
                ) is None)
                &&& (e == MountError::MountPointNotFound || e == MountError::MountPointDetached)
                &&& (e == MountError::MountPointDetached ==> (match first_parent_of(
                    old(arena)@,
                    (first_elem_with_id(old(arena)@, id@)->0) as usize,
                ) {
                    Some(p) => old(arena)@[p].stage != Stage::LiveOnly,
                    None => true,
                }))
            },
        }),
{
    let m = match get_element_by_id(arena, id) {
        Some(m) => m,
        None => {
            return Err(MountError::MountPointNotFound);
        },
    };
    proof {
        lemma_first_elem_with_id_from(arena@, id@, 0);
    }
    let p = match find_parent_of(arena, m) {
        Some(p) => p,
        None => {
            return Err(MountError::MountPointDetached);
        },
    };
    proof {
        lemma_first_parent_from(arena@, m, 0);
    }
    if !(arena.stage_at(p) == Stage::LiveOnly) {
        return Err(MountError::MountPointDetached);
    }
    arena.replace_child_first(p, element.id, m);
    let handle_id = mounts.insert_element(element.id);
    Ok(MountHandle { id: handle_id, mount_point: m, on_drop: None })
}

/// Mount `element` on the document by hydration: the existing element whose
/// `id` attribute is `id` is walked as the live counterpart of `element`'s
/// description, the description becomes the live tree in its place, and the
/// tree is tracked under a fresh handle.  The walk's statistics are added
/// to `stats`.  Fails exactly as [`mount`] does, leaving everything
/// unchanged.
pub fn hydrate(
    arena: &mut Arena,
    mounts: &mut Mounts,
    id: &str,
    element: DomElement,
    stats: &mut HydrationStats,
) -> (r: Result<MountHandle, MountError>)
    requires
        old(arena).wf(),
        old(mounts).mounts_wf(),
        old(mounts).next() < u128::MAX,
        desc_awaiting(old(arena)@, element.id as int),
    ensures
        final(arena).wf(),
        final(mounts).mounts_wf(),
        (match r {
            Ok(h) => {
                &&& first_elem_with_id(old(arena)@, id@) matches Some(m)
                &&& first_parent_of(old(arena)@, (first_elem_with_id(old(arena)@, id@)->0) as usize) matches Some(p)
                &&& {
                    let m = first_elem_with_id(old(arena)@, id@)->0;
                    let p = first_parent_of(old(arena)@, m as usize)->0;
                    &&& old(arena)@[p].stage == Stage::LiveOnly
                    &&& all_live(final(arena)@, element.id as int)
                    &&& final(arena)@.len() == old(arena)@.len()
                    &&& final(arena)@[p].children@ == replace_first_spec(
                        old(arena)@[p].children@,
                        m as usize,
                        element.id,
                    )
                    &&& stats_v(*final(stats)) == s3(
                        stats_v(*old(stats)),
                        hyd_stats(old(arena)@, element.id as int, Some(m)),
                    )
                    &&& h.handle_id() == old(mounts).next()
                    &&& h.point() == m as usize
                    &&& h.drop_action() is None
                    &&& final(mounts).entries() == old(mounts).entries().push(
                        (old(mounts).next(), element.id),
                    )
                    &&& final(mounts).next() == old(mounts).next() + 1
                }
            },
            Err(e) => {
                &&& final(arena)@ == old(arena)@
                &&& final(mounts).entries() == old(mounts).entries()
                &&& final(mounts).next() == old(mounts).next()
                &&& stats_v(*final(stats)) == stats_v(*old(stats))
                &&& (e == MountError::MountPointNotFound <==> first_elem_with_id(
                    old(arena)@,
                    id@,
                ) is None)
                &&& (e == MountError::MountPointNotFound || e == MountError::MountPointDetached)
                &&& (e == MountError::MountPointDetached ==> (match first_parent_of(
                    old(arena)@,
                    (first_elem_with_id(old(arena)@, id@)->0) as usize,
                ) {
                    Some(p) => old(arena)@[p].stage != Stage::LiveOnly,
                    None => true,
                }))
            },
        }),
{
    let m = match get_element_by_id(arena, id) {
        Some(m) => m,
        None => {
            return Err(MountError::MountPointNotFound);
        },
    };
    proof {
        lemma_first_elem_with_id_from(arena@, id@, 0);
    }
    let p = match find_parent_of(arena, m) {
        Some(p) => p,
        None => {
            return Err(MountError::MountPointDetached);
        },
    };
    proof {
        lemma_first_parent_from(arena@, m, 0);
    }
    if !(arena.stage_at(p) == Stage::LiveOnly) {
        return Err(MountError::MountPointDetached);
    }
    hydrate_child(
        arena,
        crate::node::DomNodeData::Element(element),
        p,
        Some(m),
        stats,
    );
    let handle_id = mounts.insert_element(element.id);
    Ok(MountHandle { id: handle_id, mount_point: m, on_drop: None })
}

/// The registry of content mounted in the document head, by caller-chosen
/// id.
pub struct HeadMounts {
    entries: Vec<(String, usize)>,
}

/// Some entry of the head registry carries the id `idv`.
pub open spec fn head_has(entries: Seq<(String, usize)>, idv: Seq<char>) -> bool {
    exists|i: int| 0 <= i < entries.len() && (#[trigger] entries[i]).0@ == idv
}

impl HeadMounts {
    /// The tracked head content, oldest first.
    pub closed spec fn entries(self) -> Seq<(String, usize)> {
        self.elements_view()
    }

    spec fn elements_view(self) -> Seq<(String, usize)> {
        self.entries@
    }

    pub fn new() -> (h: HeadMounts)
        ensures
            h.entries() == Seq::<(String, usize)>::empty(),
    {
        let h = HeadMounts { entries: Vec::new() };
        proof {
            assert(h.entries() =~= Seq::<(String, usize)>::empty());
        }
        h
    }

    /// The markup of all tracked head content, in mount order: what a
    /// server renders into the document head.
    pub fn head_inner_html(&self, arena: &Arena) -> (r: String)
        requires
            forall|k: int|
                0 <= k < self.entries().len() ==> markup_tree(
                    arena@,
                    (#[trigger] self.entries()[k]).1 as int,
                ),
        ensures
            r@ == head_markup(arena@, self.entries(), 0),
    {
        let mut out = String::new();
        let n = self.entries.len();
        let mut i: usize = 0;
        proof {
            assert(out@ + head_markup(arena@, self.entries(), 0) =~= head_markup(
                arena@,
                self.entries(),
                0,
            ));
        }
        while i < n
            invariant
                i <= n,
                n == self.entries().len(),
                forall|k: int|
                    0 <= k < self.entries().len() ==> markup_tree(
                        arena@,
                        (#[trigger] self.entries()[k]).1 as int,
                    ),
                out@ + head_markup(arena@, self.entries(), i as int) =~= head_markup(
                    arena@,
                    self.entries(),
                    0,
                ),
            decreases n - i,
        {
            let ghost before = out@;
            let c = self.entries[i].1;
            let s = crate::render::node_html(arena, c);
            out.append(s.as_str());
            proof {
                assert(head_markup(arena@, self.entries(), i as int) == crate::render::node_markup(
                    arena@,
                    self.entries()[i as int].1 as int,
                ) + head_markup(arena@, self.entries(), i + 1));
                assert(out@ + head_markup(arena@, self.entries(), i + 1) =~= before + head_markup(
                    arena@,
                    self.entries(),
                    i as int,
                ));
            }
            i = i + 1;
        }
        proof {
            assert(head_markup(arena@, self.entries(), n as int) =~= Seq::<char>::empty());
            assert(out@ =~= head_markup(arena@, self.entries(), 0));
        }
        out
    }
}

/// How the document changes when the tracked head content of `entries`
/// leaves it in order.
pub open spec fn head_removals_apply(
    pre: Seq<NodeRep>,
    post: Seq<NodeRep>,
    entries: Seq<(String, usize)>,
) -> bool
    decreases entries.len(),
{
    if entries.len() == 0 {
        post == pre
    } else {
        exists|mid: Seq<NodeRep>|
            head_removals_apply(pre, mid, entries.drop_last()) && #[trigger] removal_applies(
                mid,
                post,
                entries.last().1,
            )
    }
}

proof fn lemma_head_removals_apply_snoc(
    pre: Seq<NodeRep>,
    mid: Seq<NodeRep>,
    post: Seq<NodeRep>,
    entries: Seq<(String, usize)>,
    e: (String, usize),
)
    requires
        head_removals_apply(pre, mid, entries),
        removal_applies(mid, post, e.1),
    ensures
        head_removals_apply(pre, post, entries.push(e)),
{
    let es = entries.push(e);
    assert(es.drop_last() =~= entries);
    assert(es.last() == e);
    assert(head_removals_apply(pre, mid, es.drop_last()));
    assert(removal_applies(mid, post, es.last().1));
    assert(exists|m: Seq<NodeRep>|
        head_removals_apply(pre, m, es.drop_last()) && #[trigger] removal_applies(
            m,
            post,
            es.last().1,
        ));
}

/// Remove every tracked piece of head content from the document, oldest
/// first, and clear the head registry.
pub fn unmount_head(arena: &mut Arena, heads: &mut HeadMounts)
    requires
        old(arena).wf(),
    ensures
        final(arena).wf(),
        head_removals_apply(old(arena)@, final(arena)@, old(heads).entries()),
        final(heads).entries() == Seq::<(String, usize)>::empty(),
{
    let n = heads.entries.len();
    let mut i: usize = 0;
    while i < n
        invariant
            arena.wf(),
            i <= n,
            n == heads.entries@.len(),
            heads.entries() == old(heads).entries(),
            head_removals_apply(old(arena)@, arena@, heads.entries().take(i as int)),
        decreases n - i,
    {
        let e = heads.entries[i].1;
        let ghost pre = arena@;
        match find_parent_of(arena, e) {
            Some(p) => {
                proof {
                    lemma_first_parent_from(arena@, e, 0);
                }
                arena.remove_child_first(p, e);
            },
            None => {},
        }
        proof {
            assert(removal_applies(pre, arena@, heads.entries()[i as int].1));
            lemma_head_removals_apply_snoc(
                old(arena)@,
                pre,
                arena@,
                heads.entries().take(i as int),
                heads.entries()[i as int],
            );
            assert(heads.entries().take(i + 1) =~= heads.entries().take(i as int).push(
                heads.entries()[i as int],
            ));
        }
        i = i + 1;
    }
    proof {
        assert(heads.entries().take(n as int) =~= heads.entries());
    }
    heads.entries.clear();
    proof {
        assert(heads.entries() =~= Seq::<(String, usize)>::empty());
    }
}

/// The markup of the tracked head content `entries[i..]`, in order.
pub open spec fn head_markup(nodes: Seq<NodeRep>, entries: Seq<(String, usize)>, i: int) -> Seq<
    char,
>
    decreases entries.len() - i,
{
    if i < 0 || i >= entries.len() {
        Seq::empty()
    } else {
        crate::render::node_markup(nodes, entries[i].1 as int) + head_markup(nodes, entries, i + 1)
    }
}

/// Track content mounted in the document head under `id`.  Mounting two
/// pieces of head content under one id is a contract violation, so the
/// caller must rule the id out of the registry first.
pub fn insert_mounted_in_head(heads: &mut HeadMounts, id: &str, content: usize)
    requires
        !head_has(old(heads).entries(), id@),
    ensures
        final(heads).entries().len() == old(heads).entries().len() + 1,
        forall|j: int|
            0 <= j < old(heads).entries().len() ==> final(heads).entries()[j] == old(
                heads,
            ).entries()[j],
        final(heads).entries().last().0@ == id@,
        final(heads).entries().last().1 == content,
{
    heads.entries.push((id.to_owned(), content));
}

/// Node `j` is the live document's head: a live element tagged `head`.
pub open spec fn is_live_head(nodes: Seq<NodeRep>, j: int) -> bool {
    &&& 0 <= j < nodes.len()
    &&& nodes[j].data is Element
    &&& d_tag(nodes[j].data) == "head"@
    &&& nodes[j].stage == Stage::LiveOnly
}

/// The first live head element, searching from position `i`.
pub open spec fn first_live_head_from(nodes: Seq<NodeRep>, i: int) -> Option<int>
    decreases nodes.len() - i,
{
    if i < 0 || i >= nodes.len() {
        None
    } else if is_live_head(nodes, i) {
        Some(i)
    } else {
        first_live_head_from(nodes, i + 1)
    }
}

proof fn lemma_first_live_head_from(nodes: Seq<NodeRep>, i: int)
    requires
        0 <= i,
    ensures
        match first_live_head_from(nodes, i) {
            Some(j) => i <= j < nodes.len() && is_live_head(nodes, j) && (forall|k: int|
                i <= k < j ==> !is_live_head(nodes, k)),
            None => forall|k: int| i <= k < nodes.len() ==> !is_live_head(nodes, k),
        },
    decreases nodes.len() - i,
{
    if i < nodes.len() && !is_live_head(nodes, i) {
        lemma_first_live_head_from(nodes, i + 1);
    }
}

/// Mount `content` in the document head, tracked under `id`: it is appended
/// to the children of the first live `head` element.  Fails exactly when
/// the live document has no head element; a duplicate id is a contract
/// violation the caller rules out.
pub fn mount_in_head(arena: &mut Arena, heads: &mut HeadMounts, id: &str, content: usize) -> (r:
    Result<(), MountError>)
    requires
        old(arena).wf(),
        content < old(arena)@.len(),
        !head_has(old(heads).entries(), id@),
    ensures
        final(arena).wf(),
        (match r {
            Ok(()) => {
                &&& first_live_head_from(old(arena)@, 0) matches Some(h)
                &&& {
                    let h = first_live_head_from(old(arena)@, 0)->0;
                    &&& Arena::same_but_children(old(arena)@, final(arena)@, h)
                    &&& final(arena)@[h].children@ == old(arena)@[h].children@.push(content)
                    &&& final(heads).entries().len() == old(heads).entries().len() + 1
                    &&& final(heads).entries().last().0@ == id@
                    &&& final(heads).entries().last().1 == content
                }
            },
            Err(e) => {
                &&& e == MountError::HeadNotFound
                &&& first_live_head_from(old(arena)@, 0) is None
                &&& final(arena)@ == old(arena)@
                &&& final(heads).entries() == old(heads).entries()
            },
        }),
{
    proof {
        lemma_first_live_head_from(arena@, 0);
    }
    let head_s: String = String::from_str("head");
    let n = arena.node_count();
    let mut i: usize = 0;
    while i < n
        invariant
            i <= n,
            n == arena@.len(),
            arena.wf(),
            arena@ == old(arena)@,
            heads.entries() == old(heads).entries(),
            content < arena@.len(),
            !head_has(heads.entries(), id@),
            head_s@ == "head"@,
            forall|k: int| 0 <= k < i ==> !is_live_head(arena@, k),
        decreases n - i,
    {
        if arena.is_element_at(i) {
            if arena.stage_at(i) == Stage::LiveOnly {
                let t = arena.tag_at(i);
                if t.eq(&head_s) {
                    proof {
                        assert(is_live_head(arena@, i as int));
                        lemma_first_live_head_from(arena@, 0);
                    }
                    arena.append_child(i, content);
                    insert_mounted_in_head(heads, id, content);
                    return Ok(());
                }
            }
        }
        i = i + 1;
    }
    proof {
        lemma_first_live_head_from(arena@, 0);
    }
    Err(MountError::HeadNotFound)
}

/// Whether `c` is among the children of `id`.
fn node_has_child(arena: &Arena, id: usize, c: usize) -> (r: bool)
    requires
        id < arena@.len(),
    ensures
        r == arena.children_of(id as int).contains(c),
{
    let n = arena.child_count(id);
    let mut i: usize = 0;
    while i < n
        invariant
            i <= n,
            id < arena@.len(),
            n == arena.children_of(id as int).len(),
            forall|k: int| 0 <= k < i ==> arena.children_of(id as int)[k] != c,
        decreases n - i,
    {
        if arena.child_at(id, i) == c {
            assert(arena.children_of(id as int).contains(c));
            return true;
        }
        i = i + 1;
    }
    proof {
        if arena.children_of(id as int).contains(c) {
            let k = choose|k: int|
                0 <= k < arena.children_of(id as int).len() && arena.children_of(id as int)[k]
                    == c;
            assert(false);
        }
    }
    false
}

} // verus!
