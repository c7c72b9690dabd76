//! The node arena.
//!
//! Every node representation — live document nodes, markup descriptions and
//! descriptions awaiting hydration — is owned by one [`Arena`] and addressed
//! by a stable index.  Handles hold the index, so two handles with the same
//! index are the same node, and sharing a node never shares ownership.
//!
//! A node's `children` list is its place in the tree: for a live node it is
//! the order of its children in the live document; for a description it is
//! the order the serialized markup will have.  Descriptions are built bottom
//! up — a child is created before its parent — so a description's children
//! always carry smaller indices than the description itself, which is what
//! lets hydration and serialization walk them.  Live children carry no such
//! bound: the reconciler inserts nodes created at any time.

use vstd::prelude::*;

verus! {

/// Which representation currently backs a node.
///
/// `MarkupOnly` and `LiveOnly` are terminal; a `Hydrating` node holds a
/// markup description and becomes `LiveOnly` when the hydration engine
/// consumes it.
#[derive(Clone, Copy, PartialEq, Eq, Structural)]
pub enum Stage {
    MarkupOnly,
    Hydrating,
    LiveOnly,
}

/// What a node is: an element or a text node.
pub enum NodeData {
    Element { tag: String, namespace: Option<String>, attrs: Vec<(String, String)> },
    Text { text: String },
}

/// One node representation.
pub struct NodeRep {
    pub data: NodeData,
    pub children: Vec<usize>,
    /// Nodes kept alive on behalf of this node without being children.
    pub stored: Vec<usize>,
    /// Names of the events bound on this node.  The handlers themselves are
    /// the host's: it keys them by node and event name.
    pub listeners: Vec<String>,
    pub stage: Stage,
}

/// The arena owning every node representation.
pub struct Arena {
    nodes: Vec<NodeRep>,
}

/// The tag of an element, or the empty sequence for a text node.
pub open spec fn d_tag(d: NodeData) -> Seq<char> {
    match d {
        NodeData::Element { tag, .. } => tag@,
        NodeData::Text { .. } => Seq::empty(),
    }
}

/// The namespace of an element, if it has one.
pub open spec fn d_ns(d: NodeData) -> Option<Seq<char>> {
    match d {
        NodeData::Element { namespace: Some(n), .. } => Some(n@),
        _ => None,
    }
}

/// The attribute list of an element, or the empty sequence for a text node.
pub open spec fn d_attrs(d: NodeData) -> Seq<(String, String)> {
    match d {
        NodeData::Element { attrs, .. } => attrs@,
        NodeData::Text { .. } => Seq::empty(),
    }
}

/// The content of a text node, or the empty sequence for an element.
pub open spec fn d_text(d: NodeData) -> Seq<char> {
    match d {
        NodeData::Element { .. } => Seq::empty(),
        NodeData::Text { text } => text@,
    }
}

/// The first position of `x` in `s`, if `s` contains it.
pub open spec fn first_index_of(s: Seq<usize>, x: usize) -> Option<int>
    decreases s.len(),
{
    if s.len() == 0 {
        None
    } else if s[0] == x {
        Some(0)
    } else {
        match first_index_of(s.drop_first(), x) {
            Some(i) => Some(i + 1),
            None => None,
        }
    }
}

/// What [`first_index_of`] returns: the position of the first occurrence,
/// or nothing when there is no occurrence.
pub proof fn lemma_first_index_of(s: Seq<usize>, x: usize)
    ensures
        match first_index_of(s, x) {
            Some(i) => 0 <= i < s.len() && s[i] == x && (forall|j: int| 0 <= j < i ==> s[j] != x),
            None => forall|j: int| 0 <= j < s.len() ==> s[j] != x,
        },
    decreases s.len(),
{
    if s.len() > 0 && s[0] != x {
        let t = s.drop_first();
        lemma_first_index_of(t, x);
        assert(forall|j: int| 0 <= j < t.len() ==> t[j] == s[j + 1]);
        match first_index_of(t, x) {
            Some(i) => {
                assert(s[i + 1] == t[i]);
                assert forall|j: int| 0 <= j < i + 1 implies s[j] != x by {
                    if j > 0 {
                        assert(t[j - 1] != x);
                    }
                }
            },
            None => {
                assert forall|j: int| 0 <= j < s.len() implies s[j] != x by {
                    if j > 0 {
                        assert(t[j - 1] != x);
                    }
                }
            },
        }
    }
}

/// The list `s` with `child` inserted immediately before the first
/// occurrence of `anchor`, or at the end when there is no anchor or the
/// anchor does not occur.
pub open spec fn insert_before_spec(s: Seq<usize>, child: usize, anchor: Option<usize>) -> Seq<
    usize,
> {
    match anchor {
        Some(a) => match first_index_of(s, a) {
            Some(i) => s.insert(i, child),
            None => s.push(child),
        },
        None => s.push(child),
    }
}

/// The list `s` with the first occurrence of `x` removed, if there is one.
pub open spec fn remove_first_spec(s: Seq<usize>, x: usize) -> Seq<usize> {
    match first_index_of(s, x) {
        Some(i) => s.remove(i),
        None => s,
    }
}

/// The list `s` with the first occurrence of `x` replaced by `y`, if there
/// is one.
pub open spec fn replace_first_spec(s: Seq<usize>, x: usize, y: usize) -> Seq<usize> {
    match first_index_of(s, x) {
        Some(i) => s.update(i, y),
        None => s,
    }
}

/// The first position of attribute `name` in an attribute list.
pub open spec fn first_attr_index(s: Seq<(String, String)>, name: Seq<char>) -> Option<int>
    decreases s.len(),
{
    if s.len() == 0 {
        None
    } else if s[0].0@ == name {
        Some(0)
    } else {
        match first_attr_index(s.drop_first(), name) {
            Some(i) => Some(i + 1),
            None => None,
        }
    }
}

/// What [`first_attr_index`] returns.
pub proof fn lemma_first_attr_index(s: Seq<(String, String)>, name: Seq<char>)
    ensures
        match first_attr_index(s, name) {
            Some(i) => 0 <= i < s.len() && s[i].0@ == name && (forall|j: int|
                0 <= j < i ==> s[j].0@ != name),
            None => forall|j: int| 0 <= j < s.len() ==> s[j].0@ != name,
        },
    decreases s.len(),
{
    if s.len() > 0 && s[0].0@ != name {
        let t = s.drop_first();
        lemma_first_attr_index(t, name);
        assert(forall|j: int| 0 <= j < t.len() ==> t[j] == s[j + 1]);
        match first_attr_index(t, name) {
            Some(i) => {
                assert(s[i + 1] == t[i]);
                assert forall|j: int| 0 <= j < i + 1 implies s[j].0@ != name by {
                    if j > 0 {
                        assert(t[j - 1].0@ != name);
                    }
                }
            },
            None => {
                assert forall|j: int| 0 <= j < s.len() implies s[j].0@ != name by {
                    if j > 0 {
                        assert(t[j - 1].0@ != name);
                    }
                }
            },
        }
    }
}

/// How an attribute list changes when `name` is set to `value`: the first
/// entry for `name` is overwritten, or a new entry is appended.
pub open spec fn attrs_set_rel(
    pre: Seq<(String, String)>,
    post: Seq<(String, String)>,
    name: Seq<char>,
    value: Seq<char>,
) -> bool {
    match first_attr_index(pre, name) {
        Some(i) => {
            &&& post.len() == pre.len()
            &&& forall|j: int| 0 <= j < pre.len() && j != i ==> post[j] == pre[j]
            &&& post[i].0 == pre[i].0
            &&& post[i].1@ == value
        },
        None => {
            &&& post.len() == pre.len() + 1
            &&& forall|j: int| 0 <= j < pre.len() ==> post[j] == pre[j]
            &&& post.last().0@ == name
            &&& post.last().1@ == value
        },
    }
}

/// An attribute list binds `name` to `value`.
pub open spec fn attrs_have(s: Seq<(String, String)>, name: Seq<char>, value: Seq<char>) -> bool {
    match first_attr_index(s, name) {
        Some(i) => s[i].1@ == value,
        None => false,
    }
}

/// One node is well formed within `nodes`: the indices it holds are in
/// bounds, and a description's children were created before it.
pub open spec fn node_ok(nodes: Seq<NodeRep>, i: int) -> bool {
    &&& forall|k: int|
        0 <= k < nodes[i].children@.len() ==> (#[trigger] nodes[i].children@[k]) < nodes.len() && (
        nodes[i].stage != Stage::LiveOnly ==> nodes[i].children@[k] < i)
    &&& forall|k: int|
        0 <= k < nodes[i].stored@.len() ==> (#[trigger] nodes[i].stored@[k]) < nodes.len()
}

impl View for Arena {
    type V = Seq<NodeRep>;

    closed spec fn view(&self) -> Seq<NodeRep> {
        self.nodes@
    }
}

impl Arena {
    /// Every node of the arena is well formed.
    pub open spec fn wf(self) -> bool {
        forall|i: int| 0 <= i < self@.len() ==> #[trigger] node_ok(self@, i)
    }

    pub open spec fn valid(self, id: int) -> bool {
        0 <= id < self@.len()
    }

    pub open spec fn children_of(self, id: int) -> Seq<usize> {
        self@[id].children@
    }

    pub open spec fn stage_of(self, id: int) -> Stage {
        self@[id].stage
    }

    pub open spec fn data_of(self, id: int) -> NodeData {
        self@[id].data
    }

    /// Everything but the children list of `id` is as it was.
    pub open spec fn same_but_children(pre: Seq<NodeRep>, post: Seq<NodeRep>, id: int) -> bool {
        &&& post.len() == pre.len()
        &&& forall|j: int| 0 <= j < pre.len() && j != id ==> post[j] == pre[j]
        &&& post[id].data == pre[id].data
        &&& post[id].stage == pre[id].stage
        &&& post[id].stored == pre[id].stored
        &&& post[id].listeners == pre[id].listeners
    }

    pub fn new() -> (a: Arena)
        ensures
            a@ == Seq::<NodeRep>::empty(),
            a.wf(),
    {
        let a = Arena { nodes: Vec::new() };
        proof {
            assert(a@ =~= Seq::<NodeRep>::empty());
        }
        a
    }

    pub fn node_count(&self) -> (n: usize)
        ensures
            n == self@.len(),
    {
        self.nodes.len()
    }

    fn push_rep(&mut self, rep: NodeRep) -> (id: usize)
        requires
            old(self).wf(),
            node_ok(old(self)@.push(rep), old(self)@.len() as int),
        ensures
            final(self).wf(),
            id == old(self)@.len(),
            final(self)@ == old(self)@.push(rep),
    {
        let id = self.nodes.len();
        self.nodes.push(rep);
        proof {
            assert forall|i: int| 0 <= i < self@.len() implies node_ok(self@, i) by {
                if i < self@.len() - 1 {
                    assert(node_ok(old(self)@, i));
                    assert(self@[i] == old(self)@[i]);
                    assert forall|k: int| 0 <= k < self@[i].children@.len() implies (
                    #[trigger] self@[i].children@[k]) < self@.len() && (self@[i].stage
                        != Stage::LiveOnly ==> self@[i].children@[k] < i) by {
                        assert(old(self)@[i].children@[k] < old(self)@.len());
                    }
                    assert forall|k: int| 0 <= k < self@[i].stored@.len() implies (
                    #[trigger] self@[i].stored@[k]) < self@.len() by {
                        assert(old(self)@[i].stored@[k] < old(self)@.len());
                    }
                }
            }
        }
        id
    }

    /// All nodes other than `id` are as they were, and `id` keeps its data,
    /// stage and stored list, with children bounded as `node_ok` asks.
    proof fn lemma_wf_after_children_change(pre: Seq<NodeRep>, post: Seq<NodeRep>, id: int)
        requires
            forall|i: int| 0 <= i < pre.len() ==> #[trigger] node_ok(pre, i),
            0 <= id < pre.len(),
            Arena::same_but_children(pre, post, id),
            forall|k: int|
                0 <= k < post[id].children@.len() ==> pre[id].children@.contains(
                    #[trigger] post[id].children@[k],
                ) || ((post[id].children@[k]) < post.len() && (post[id].stage != Stage::LiveOnly
                    ==> post[id].children@[k] < id)),
        ensures
            forall|i: int| 0 <= i < post.len() ==> #[trigger] node_ok(post, i),
    {
        assert forall|i: int| 0 <= i < post.len() implies #[trigger] node_ok(post, i) by {
            assert(node_ok(pre, i));
            if i == id {
                assert forall|k: int| 0 <= k < post[id].children@.len() implies (
                #[trigger] post[id].children@[k]) < post.len() && (post[id].stage
                    != Stage::LiveOnly ==> post[id].children@[k] < id) by {
                    if pre[id].children@.contains(post[id].children@[k]) {
                        let k2 = choose|k2: int|
                            0 <= k2 < pre[id].children@.len() && pre[id].children@[k2] == post[id].children@[k];
                        assert(pre[id].children@[k2] < pre.len());
                    }
                }
            }
            if i != id {
                assert(post[i] == pre[i]);
                assert forall|k: int| 0 <= k < post[i].children@.len() implies (
                #[trigger] post[i].children@[k]) < post.len() && (post[i].stage != Stage::LiveOnly
                    ==> post[i].children@[k] < i) by {
                    assert(pre[i].children@[k] < pre.len());
                }
                assert forall|k: int| 0 <= k < post[i].stored@.len() implies (
                #[trigger] post[i].stored@[k]) < post.len() by {
                    assert(pre[i].stored@[k] < pre.len());
                }
            } else {
                assert forall|k: int| 0 <= k < post[i].stored@.len() implies (
                #[trigger] post[i].stored@[k]) < post.len() by {
                    assert(pre[i].stored@[k] < pre.len());
                }
            }
        }
    }

    /// Append `child` at the end of `parent`'s children.
    pub fn append_child(&mut self, parent: usize, child: usize)
        requires
            old(self).wf(),
            old(self).valid(parent as int),
            old(self).valid(child as int),
            old(self).stage_of(parent as int) != Stage::LiveOnly ==> child < parent,
        ensures
            final(self).wf(),
            Arena::same_but_children(old(self)@, final(self)@, parent as int),
            final(self).children_of(parent as int) == old(self).children_of(
                parent as int,
            ).push(child),
    {
        let r = &mut self.nodes[parent];
        r.children.push(child);
        proof {
            let s = old(self)@[parent as int].children@;
            let t = self@[parent as int].children@;
            assert forall|k: int| 0 <= k < t.len() implies s.contains(#[trigger] t[k]) || ((t[k])
                < self@.len() && (self@[parent as int].stage != Stage::LiveOnly ==> t[k]
                < parent as int)) by {
                if k < s.len() {
                    assert(s[k] == t[k]);
                    assert(s.contains(s[k]));
                }
            }
            Arena::lemma_wf_after_children_change(old(self)@, self@, parent as int);
        }
    }

    /// Insert `child` immediately before the first occurrence of `anchor`
    /// among `parent`'s children, or at the end when `anchor` is absent.
    pub fn insert_child_before_anchor(&mut self, parent: usize, child: usize, anchor: Option<
        usize,
    >)
        requires
            old(self).wf(),
            old(self).valid(parent as int),
            old(self).valid(child as int),
            old(self).stage_of(parent as int) != Stage::LiveOnly ==> child < parent,
        ensures
            final(self).wf(),
            Arena::same_but_children(old(self)@, final(self)@, parent as int),
            final(self).children_of(parent as int) == insert_before_spec(
                old(self).children_of(parent as int),
                child,
                anchor,
            ),
    {
        proof {
            if anchor is Some {
                lemma_first_index_of(old(self)@[parent as int].children@, anchor->0);
            }
        }
        let pos: Option<usize> = match anchor {
            Some(a) => find_first(&self.nodes[parent].children, a),
            None => None,
        };
        let r = &mut self.nodes[parent];
        match pos {
            Some(i) => r.children.insert(i, child),
            None => r.children.push(child),
        }
        proof {
            let s = old(self)@[parent as int].children@;
            let t = self@[parent as int].children@;
            if let Some(i) = pos {
                s.insert_ensures(i as int, child);
            }
            assert forall|k: int| 0 <= k < t.len() implies s.contains(#[trigger] t[k]) || ((t[k])
                < self@.len() && (self@[parent as int].stage != Stage::LiveOnly ==> t[k]
                < parent as int)) by {
                match pos {
                    Some(i) => {
                        if k < i {
                            assert(t[k] == s[k]);
                            assert(s.contains(s[k]));
                        } else if k > i {
                            assert(t[k] == s[k - 1]);
                            assert(s.contains(s[k - 1]));
                        }
                    },
                    None => {
                        if k < s.len() {
                            assert(s[k] == t[k]);
                            assert(s.contains(s[k]));
                        }
                    },
                }
            }
            Arena::lemma_wf_after_children_change(old(self)@, self@, parent as int);
        }
    }

    /// Remove the first occurrence of `child` from `parent`'s children, if
    /// there is one.
    pub fn remove_child_first(&mut self, parent: usize, child: usize)
        requires
            old(self).wf(),
            old(self).valid(parent as int),
        ensures
            final(self).wf(),
            Arena::same_but_children(old(self)@, final(self)@, parent as int),
            final(self).children_of(parent as int) == remove_first_spec(
                old(self).children_of(parent as int),
                child,
            ),
    {
        proof {
            lemma_first_index_of(old(self)@[parent as int].children@, child);
        }
        let pos = find_first(&self.nodes[parent].children, child);
        if let Some(i) = pos {
            let r = &mut self.nodes[parent];
            r.children.remove(i);
        }
        proof {
            let s = old(self)@[parent as int].children@;
            let t = self@[parent as int].children@;
            if let Some(i) = pos {
                s.remove_ensures(i as int);
            }
            assert forall|k: int| 0 <= k < t.len() implies s.contains(#[trigger] t[k]) || ((t[k])
                < self@.len() && (self@[parent as int].stage != Stage::LiveOnly ==> t[k]
                < parent as int)) by {
                match pos {
                    Some(i) => {
                        if k < i {
                            assert(t[k] == s[k]);
                            assert(s.contains(s[k]));
                        } else {
                            assert(t[k] == s[k + 1]);
                            assert(s.contains(s[k + 1]));
                        }
                    },
                    None => {
                        assert(s[k] == t[k]);
                        assert(s.contains(s[k]));
                    },
                }
            }
            Arena::lemma_wf_after_children_change(old(self)@, self@, parent as int);
        }
    }

    /// Replace the first occurrence of `old_child` among `parent`'s children
    /// by `new_child`, if there is one.
    pub fn replace_child_first(&mut self, parent: usize, new_child: usize, old_child: usize)
        requires
            old(self).wf(),
            old(self).valid(parent as int),
            old(self).valid(new_child as int),
            old(self).stage_of(parent as int) != Stage::LiveOnly ==> new_child < parent,
        ensures
            final(self).wf(),
            Arena::same_but_children(old(self)@, final(self)@, parent as int),
            final(self).children_of(parent as int) == replace_first_spec(
                old(self).children_of(parent as int),
                old_child,
                new_child,
            ),
    {
        proof {
            lemma_first_index_of(old(self)@[parent as int].children@, old_child);
        }
        let pos = find_first(&self.nodes[parent].children, old_child);
        if let Some(i) = pos {
            let r = &mut self.nodes[parent];
            let e = &mut r.children[i];
            *e = new_child;
        }
        proof {
            let s = old(self)@[parent as int].children@;
            let t = self@[parent as int].children@;
            assert forall|k: int| 0 <= k < t.len() implies s.contains(#[trigger] t[k]) || ((t[k])
                < self@.len() && (self@[parent as int].stage != Stage::LiveOnly ==> t[k]
                < parent as int)) by {
                match pos {
                    Some(i) => {
                        if k != i {
                            assert(t[k] == s[k]);
                            assert(s.contains(s[k]));
                        }
                    },
                    None => {
                        assert(s[k] == t[k]);
                        assert(s.contains(s[k]));
                    },
                }
            }
            Arena::lemma_wf_after_children_change(old(self)@, self@, parent as int);
        }
    }

    /// Remove every child of `id`.
    pub fn clear_children_of(&mut self, id: usize)
        requires
            old(self).wf(),
            old(self).valid(id as int),
        ensures
            final(self).wf(),
            Arena::same_but_children(old(self)@, final(self)@, id as int),
            final(self).children_of(id as int) == Seq::<usize>::empty(),
    {
        let r = &mut self.nodes[id];
        r.children.clear();
        proof {
            Arena::lemma_wf_after_children_change(old(self)@, self@, id as int);
        }
    }

    /// Record `child` as kept alive by `parent` without being a child.
    pub fn store_in(&mut self, parent: usize, child: usize)
        requires
            old(self).wf(),
            old(self).valid(parent as int),
            old(self).valid(child as int),
        ensures
            final(self).wf(),
            final(self)@.len() == old(self)@.len(),
            forall|j: int|
                0 <= j < old(self)@.len() && j != parent ==> final(self)@[j] == old(self)@[j],
            final(self)@[parent as int].data == old(self)@[parent as int].data,
            final(self)@[parent as int].stage == old(self)@[parent as int].stage,
            final(self)@[parent as int].children == old(self)@[parent as int].children,
            final(self)@[parent as int].listeners == old(self)@[parent as int].listeners,
            final(self)@[parent as int].stored@ == old(self)@[parent as int].stored@.push(child),
    {
        let r = &mut self.nodes[parent];
        r.stored.push(child);
        proof {
            assert forall|i: int| 0 <= i < self@.len() implies #[trigger] node_ok(self@, i) by {
                assert(node_ok(old(self)@, i));
                assert forall|k: int| 0 <= k < self@[i].children@.len() implies (
                #[trigger] self@[i].children@[k]) < self@.len() && (self@[i].stage
                    != Stage::LiveOnly ==> self@[i].children@[k] < i) by {
                    assert(old(self)@[i].children@[k] < old(self)@.len());
                }
                assert forall|k: int| 0 <= k < self@[i].stored@.len() implies (
                #[trigger] self@[i].stored@[k]) < self@.len() by {
                    if i != parent || k < old(self)@[i].stored@.len() {
                        assert(old(self)@[i].stored@[k] < old(self)@.len());
                    }
                }
            }
        }
    }

    /// Everything except the data of `id` is as it was.
    proof fn lemma_wf_after_data_change(pre: Seq<NodeRep>, post: Seq<NodeRep>, id: int)
        requires
            forall|i: int| 0 <= i < pre.len() ==> #[trigger] node_ok(pre, i),
            0 <= id < pre.len(),
            post.len() == pre.len(),
            forall|j: int| 0 <= j < pre.len() && j != id ==> post[j] == pre[j],
            post[id].children == pre[id].children,
            post[id].stored == pre[id].stored,
            post[id].stage == pre[id].stage,
        ensures
            forall|i: int| 0 <= i < post.len() ==> #[trigger] node_ok(post, i),
    {
        assert forall|i: int| 0 <= i < post.len() implies #[trigger] node_ok(post, i) by {
            assert(node_ok(pre, i));
            assert(post[i].children == pre[i].children);
            assert(post[i].stored == pre[i].stored);
            assert forall|k: int| 0 <= k < post[i].children@.len() implies (
            #[trigger] post[i].children@[k]) < post.len() && (post[i].stage != Stage::LiveOnly
                ==> post[i].children@[k] < i) by {
                assert(pre[i].children@[k] < pre.len());
            }
            assert forall|k: int| 0 <= k < post[i].stored@.len() implies (
            #[trigger] post[i].stored@[k]) < post.len() by {
                assert(pre[i].stored@[k] < pre.len());
            }
        }
    }

    /// Set attribute `name` of element `id` to `value`: the first entry for
    /// `name` is overwritten, or a new entry is appended.
    pub fn set_attribute(&mut self, id: usize, name: &str, value: &str)
        requires
            old(self).wf(),
            old(self).valid(id as int),
            old(self).data_of(id as int) is Element,
        ensures
            final(self).wf(),
            final(self)@.len() == old(self)@.len(),
            forall|j: int|
                0 <= j < old(self)@.len() && j != id ==> final(self)@[j] == old(self)@[j],
            final(self)@[id as int].children == old(self)@[id as int].children,
            final(self)@[id as int].stored == old(self)@[id as int].stored,
            final(self)@[id as int].listeners == old(self)@[id as int].listeners,
            final(self)@[id as int].stage == old(self)@[id as int].stage,
            final(self)@[id as int].data is Element,
            d_tag(final(self)@[id as int].data) == d_tag(old(self)@[id as int].data),
            d_ns(final(self)@[id as int].data) == d_ns(old(self)@[id as int].data),
            attrs_set_rel(
                d_attrs(old(self)@[id as int].data),
                d_attrs(final(self)@[id as int].data),
                name@,
                value@,
            ),
    {
        let name_s = name.to_owned();
        let pos = match &self.nodes[id].data {
            NodeData::Element { attrs, .. } => find_attr(attrs, &name_s),
            NodeData::Text { .. } => None,
        };
        let r = &mut self.nodes[id];
        match &mut r.data {
            NodeData::Element { attrs, .. } => {
                proof {
                    lemma_first_attr_index(old(self)@[id as int].data->Element_attrs@, name@);
                }
                match pos {
                    Some(i) => {
                        let e = &mut attrs[i];
                        e.1 = value.to_owned();
                    },
                    None => {
                        attrs.push((name_s, value.to_owned()));
                    },
                }
            },
            NodeData::Text { .. } => {
                proof {
                    assert(false);
                }
            },
        }
        proof {
            Arena::lemma_wf_after_data_change(old(self)@, self@, id as int);
        }
    }

    /// Set the content of text node `id`.
    pub fn set_text_at(&mut self, id: usize, text: &str)
        requires
            old(self).wf(),
            old(self).valid(id as int),
            old(self).data_of(id as int) is Text,
        ensures
            final(self).wf(),
            final(self)@.len() == old(self)@.len(),
            forall|j: int|
                0 <= j < old(self)@.len() && j != id ==> final(self)@[j] == old(self)@[j],
            final(self)@[id as int].children == old(self)@[id as int].children,
            final(self)@[id as int].stored == old(self)@[id as int].stored,
            final(self)@[id as int].listeners == old(self)@[id as int].listeners,
            final(self)@[id as int].stage == old(self)@[id as int].stage,
            final(self)@[id as int].data is Text,
            d_text(final(self)@[id as int].data) == text@,
    {
        let r = &mut self.nodes[id];
        match &mut r.data {
            NodeData::Element { .. } => {
                proof {
                    assert(false);
                }
            },
            NodeData::Text { text: t } => {
                *t = text.to_owned();
            },
        }
        proof {
            Arena::lemma_wf_after_data_change(old(self)@, self@, id as int);
        }
    }

    /// Make `id` a live node.  The bound that description children carry is
    /// only relaxed by this, so well-formedness is kept.
    pub fn set_live(&mut self, id: usize)
        requires
            old(self).wf(),
            old(self).valid(id as int),
        ensures
            final(self).wf(),
            final(self)@.len() == old(self)@.len(),
            forall|j: int|
                0 <= j < old(self)@.len() && j != id ==> final(self)@[j] == old(self)@[j],
            final(self)@[id as int].children == old(self)@[id as int].children,
            final(self)@[id as int].stored == old(self)@[id as int].stored,
            final(self)@[id as int].listeners == old(self)@[id as int].listeners,
            final(self)@[id as int].data == old(self)@[id as int].data,
            final(self)@[id as int].stage == Stage::LiveOnly,
    {
        let r = &mut self.nodes[id];
        r.stage = Stage::LiveOnly;
        proof {
            assert forall|i: int| 0 <= i < self@.len() implies #[trigger] node_ok(self@, i) by {
                assert(node_ok(old(self)@, i));
                assert forall|k: int| 0 <= k < self@[i].children@.len() implies (
                #[trigger] self@[i].children@[k]) < self@.len() && (self@[i].stage
                    != Stage::LiveOnly ==> self@[i].children@[k] < i) by {
                    assert(old(self)@[i].children@[k] < old(self)@.len());
                }
                assert forall|k: int| 0 <= k < self@[i].stored@.len() implies (
                #[trigger] self@[i].stored@[k]) < self@.len() by {
                    assert(old(self)@[i].stored@[k] < old(self)@.len());
                }
            }
        }
    }

    /// Release spare capacity held for `id`'s children and stored nodes; no
    /// observable change.
    pub fn shrink_node(&mut self, id: usize)
        requires
            old(self).wf(),
            old(self).valid(id as int),
        ensures
            final(self).wf(),
            final(self)@.len() == old(self)@.len(),
            forall|j: int|
                0 <= j < old(self)@.len() && j != id ==> final(self)@[j] == old(self)@[j],
            final(self)@[id as int].children@ == old(self)@[id as int].children@,
            final(self)@[id as int].stored@ == old(self)@[id as int].stored@,
            final(self)@[id as int].listeners == old(self)@[id as int].listeners,
            final(self)@[id as int].data == old(self)@[id as int].data,
            final(self)@[id as int].stage == old(self)@[id as int].stage,
    {
        let r = &mut self.nodes[id];
        shrink_vec(&mut r.children);
        shrink_vec(&mut r.stored);
        proof {
            assert forall|i: int| 0 <= i < self@.len() implies #[trigger] node_ok(self@, i) by {
                assert(node_ok(old(self)@, i));
                assert(self@[i].children@ == old(self)@[i].children@);
                assert(self@[i].stored@ == old(self)@[i].stored@);
                assert forall|k: int| 0 <= k < self@[i].children@.len() implies (
                #[trigger] self@[i].children@[k]) < self@.len() && (self@[i].stage
                    != Stage::LiveOnly ==> self@[i].children@[k] < i) by {
                    assert(old(self)@[i].children@[k] < old(self)@.len());
                }
                assert forall|k: int| 0 <= k < self@[i].stored@.len() implies (
                #[trigger] self@[i].stored@[k]) < self@.len() by {
                    assert(old(self)@[i].stored@[k] < old(self)@.len());
                }
            }
        }
    }

    /// Record an event binding on node `id`: only the event name is kept,
    /// since the handler belongs to the host, which keys it by node and
    /// name.
    pub fn bind_event(&mut self, id: usize, name: &str)
        requires
            old(self).wf(),
            old(self).valid(id as int),
        ensures
            final(self).wf(),
            final(self)@.len() == old(self)@.len(),
            forall|j: int|
                0 <= j < old(self)@.len() && j != id ==> final(self)@[j] == old(self)@[j],
            final(self)@[id as int].data == old(self)@[id as int].data,
            final(self)@[id as int].children == old(self)@[id as int].children,
            final(self)@[id as int].stored == old(self)@[id as int].stored,
            final(self)@[id as int].stage == old(self)@[id as int].stage,
            final(self)@[id as int].listeners@.len() == old(self)@[id as int].listeners@.len()
                + 1,
            forall|k: int|
                0 <= k < old(self)@[id as int].listeners@.len()
                    ==> final(self)@[id as int].listeners@[k] == old(
                    self,
                )@[id as int].listeners@[k],
            final(self)@[id as int].listeners@.last()@ == name@,
    {
        let r = &mut self.nodes[id];
        r.listeners.push(name.to_owned());
        proof {
            Arena::lemma_wf_after_data_change(old(self)@, self@, id as int);
        }
    }

    /// How many event bindings node `id` carries.
    pub fn listener_count(&self, id: usize) -> (n: usize)
        requires
            self.valid(id as int),
        ensures
            n == self@[id as int].listeners@.len(),
    {
        self.nodes[id].listeners.len()
    }

    /// The name of the `k`th event binding of node `id`.
    pub fn listener_at(&self, id: usize, k: usize) -> (r: String)
        requires
            self.valid(id as int),
            k < self@[id as int].listeners@.len(),
        ensures
            r@ == self@[id as int].listeners@[k as int]@,
    {
        self.nodes[id].listeners[k].clone()
    }

    pub fn stage_at(&self, id: usize) -> (s: Stage)
        requires
            self.valid(id as int),
        ensures
            s == self.stage_of(id as int),
    {
        self.nodes[id].stage
    }

    pub fn child_count(&self, id: usize) -> (n: usize)
        requires
            self.valid(id as int),
        ensures
            n == self.children_of(id as int).len(),
    {
        self.nodes[id].children.len()
    }

    pub fn child_at(&self, id: usize, k: usize) -> (c: usize)
        requires
            self.valid(id as int),
            k < self.children_of(id as int).len(),
        ensures
            c == self.children_of(id as int)[k as int],
    {
        self.nodes[id].children[k]
    }

    pub fn is_element_at(&self, id: usize) -> (r: bool)
        requires
            self.valid(id as int),
        ensures
            r == (self.data_of(id as int) is Element),
    {
        match &self.nodes[id].data {
            NodeData::Element { .. } => true,
            NodeData::Text { .. } => false,
        }
    }

    pub fn is_text_at(&self, id: usize) -> (r: bool)
        requires
            self.valid(id as int),
        ensures
            r == (self.data_of(id as int) is Text),
    {
        match &self.nodes[id].data {
            NodeData::Element { .. } => false,
            NodeData::Text { .. } => true,
        }
    }

    /// Whether `a` and `b` are both elements with the same tag.
    pub fn tags_match(&self, a: usize, b: usize) -> (r: bool)
        requires
            self.valid(a as int),
            self.valid(b as int),
        ensures
            r == (self.data_of(a as int) is Element && self.data_of(b as int) is Element && d_tag(
                self.data_of(a as int),
            ) == d_tag(self.data_of(b as int))),
    {
        let da = &self.nodes[a].data;
        let db = &self.nodes[b].data;
        match (da, db) {
            (
                NodeData::Element { tag: ta, .. },
                NodeData::Element { tag: tb, .. },
            ) => ta.eq(tb),
            _ => false,
        }
    }

    /// Whether `a` and `b` are both text nodes with equal content.
    pub fn texts_equal(&self, a: usize, b: usize) -> (r: bool)
        requires
            self.valid(a as int),
            self.valid(b as int),
        ensures
            r == (self.data_of(a as int) is Text && self.data_of(b as int) is Text && d_text(
                self.data_of(a as int),
            ) == d_text(self.data_of(b as int))),
    {
        let da = &self.nodes[a].data;
        let db = &self.nodes[b].data;
        match (da, db) {
            (NodeData::Text { text: ta }, NodeData::Text { text: tb }) => ta.eq(tb),
            _ => false,
        }
    }

    /// The tag of element `id`.
    pub fn tag_at(&self, id: usize) -> (t: String)
        requires
            self.valid(id as int),
            self.data_of(id as int) is Element,
        ensures
            t@ == d_tag(self.data_of(id as int)),
    {
        match &self.nodes[id].data {
            NodeData::Element { tag, .. } => tag.clone(),
            NodeData::Text { .. } => {
                proof {
                    assert(false);
                }
                String::new()
            },
        }
    }

    /// The content of text node `id`.
    pub fn text_at(&self, id: usize) -> (t: String)
        requires
            self.valid(id as int),
            self.data_of(id as int) is Text,
        ensures
            t@ == d_text(self.data_of(id as int)),
    {
        match &self.nodes[id].data {
            NodeData::Text { text } => text.clone(),
            NodeData::Element { .. } => {
                proof {
                    assert(false);
                }
                String::new()
            },
        }
    }

    /// How many attributes element `id` carries.
    pub fn attr_count(&self, id: usize) -> (n: usize)
        requires
            self.valid(id as int),
        ensures
            n == d_attrs(self.data_of(id as int)).len(),
    {
        match &self.nodes[id].data {
            NodeData::Element { attrs, .. } => attrs.len(),
            NodeData::Text { .. } => 0,
        }
    }

    /// The `k`th attribute of element `id`, as a (name, value) pair.
    pub fn attr_pair_at(&self, id: usize, k: usize) -> (r: (String, String))
        requires
            self.valid(id as int),
            k < d_attrs(self.data_of(id as int)).len(),
        ensures
            r.0@ == d_attrs(self.data_of(id as int))[k as int].0@,
            r.1@ == d_attrs(self.data_of(id as int))[k as int].1@,
    {
        match &self.nodes[id].data {
            NodeData::Element { attrs, .. } => {
                let p = &attrs[k];
                (p.0.clone(), p.1.clone())
            },
            NodeData::Text { .. } => {
                proof {
                    assert(false);
                }
                (String::new(), String::new())
            },
        }
    }

    /// The value of attribute `name` of element `id`, if it is set.
    pub fn get_attribute(&self, id: usize, name: &str) -> (r: Option<String>)
        requires
            self.valid(id as int),
        ensures
            match r {
                Some(v) => attrs_have(d_attrs(self.data_of(id as int)), name@, v@),
                None => forall|v: Seq<char>| !attrs_have(
                    d_attrs(self.data_of(id as int)),
                    name@,
                    v,
                ),
            },
    {
        let name_s = name.to_owned();
        match &self.nodes[id].data {
            NodeData::Element { attrs, .. } => {
                match find_attr(attrs, &name_s) {
                    Some(i) => {
                        proof {
                            lemma_first_attr_index(attrs@, name_s@);
                        }
                        Some(attrs[i].1.clone())
                    },
                    None => None,
                }
            },
            NodeData::Text { .. } => None,
        }
    }

    /// Create an element node with no attributes and no children.
    pub fn new_element(&mut self, tag: &str, namespace: Option<&str>, stage: Stage) -> (id: usize)
        requires
            old(self).wf(),
        ensures
            final(self).wf(),
            id == old(self)@.len(),
            final(self)@.len() == old(self)@.len() + 1,
            forall|j: int| 0 <= j < old(self)@.len() ==> final(self)@[j] == old(self)@[j],
            final(self)@[id as int].data is Element,
            d_tag(final(self)@[id as int].data) == tag@,
            d_ns(final(self)@[id as int].data) == (match namespace {
                Some(n) => Some(n@),
                None => None::<Seq<char>>,
            }),
            d_attrs(final(self)@[id as int].data) == Seq::<(String, String)>::empty(),
            final(self)@[id as int].children@ == Seq::<usize>::empty(),
            final(self)@[id as int].stored@ == Seq::<usize>::empty(),
            final(self)@[id as int].listeners@ == Seq::<String>::empty(),
            final(self)@[id as int].stage == stage,
    {
        let ns: Option<String> = match namespace {
            Some(n) => Some(n.to_owned()),
            None => None,
        };
        let rep = NodeRep {
            data: NodeData::Element { tag: tag.to_owned(), namespace: ns, attrs: Vec::new() },
            children: Vec::new(),
            stored: Vec::new(),
            listeners: Vec::new(),
            stage,
        };
        self.push_rep(rep)
    }

    /// Create a text node.
    pub fn new_text(&mut self, text: &str, stage: Stage) -> (id: usize)
        requires
            old(self).wf(),
        ensures
            final(self).wf(),
            id == old(self)@.len(),
            final(self)@.len() == old(self)@.len() + 1,
            forall|j: int| 0 <= j < old(self)@.len() ==> final(self)@[j] == old(self)@[j],
            final(self)@[id as int].data is Text,
            d_text(final(self)@[id as int].data) == text@,
            final(self)@[id as int].children@ == Seq::<usize>::empty(),
            final(self)@[id as int].stored@ == Seq::<usize>::empty(),
            final(self)@[id as int].listeners@ == Seq::<String>::empty(),
            final(self)@[id as int].stage == stage,
    {
        let rep = NodeRep {
            data: NodeData::Text { text: text.to_owned() },
            children: Vec::new(),
            stored: Vec::new(),
            listeners: Vec::new(),
            stage,
        };
        self.push_rep(rep)
    }
}

/// Relies on std's Vec::shrink_to_fit: it only drops spare capacity and
/// leaves the elements unchanged.
#[verifier::external_body]
pub(crate) fn shrink_vec<T>(v: &mut Vec<T>)
    ensures
        final(v)@ == old(v)@,
{
    v.shrink_to_fit();
}

/// The position of the first entry for attribute `name` in `v`, if any.
fn find_attr(v: &Vec<(String, String)>, name: &String) -> (r: Option<usize>)
    ensures
        match r {
            Some(i) => first_attr_index(v@, name@) == Some(i as int),
            None => first_attr_index(v@, name@) is None,
        },
{
    proof {
        lemma_first_attr_index(v@, name@);
    }
    let mut i: usize = 0;
    while i < v.len()
        invariant
            i <= v@.len(),
            forall|j: int| 0 <= j < i ==> v@[j].0@ != name@,
        decreases v@.len() - i,
    {
        if v[i].0.eq(name) {
            proof {
                lemma_first_attr_index(v@, name@);
            }
            return Some(i);
        }
        i = i + 1;
    }
    proof {
        lemma_first_attr_index(v@, name@);
    }
    None
}

/// The position of the first occurrence of `x` in `v`, if any.
fn find_first(v: &Vec<usize>, x: usize) -> (r: Option<usize>)
    ensures
        match r {
            Some(i) => first_index_of(v@, x) == Some(i as int),
            None => first_index_of(v@, x) is None,
        },
{
    proof {
        lemma_first_index_of(v@, x);
    }
    let mut i: usize = 0;
    while i < v.len()
        invariant
            i <= v@.len(),
            forall|j: int| 0 <= j < i ==> v@[j] != x,
        decreases v@.len() - i,
    {
        if v[i] == x {
            proof {
                lemma_first_index_of(v@, x);
            }
            return Some(i);
        }
        i = i + 1;
    }
    proof {
        lemma_first_index_of(v@, x);
    }
    None
}

} // verus!
