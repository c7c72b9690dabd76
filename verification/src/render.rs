//! Markup rendering.
//!
//! A description tree serializes to markup text: an element renders as its
//! open tag with its attributes, its children in order, and its close tag;
//! a text node renders as its content.  Tag names, attribute values and
//! text content are emitted as they stand — what they may contain is the
//! concern of the layer that produced them, as is encoding typed attribute
//! values to text.

use vstd::prelude::*;

use crate::arena::{d_attrs, d_tag, d_text, Arena, NodeRep};

verus! {

/// A subtree that can be rendered: every node exists and carries only
/// children created before it, as descriptions do.
pub open spec fn markup_tree(nodes: Seq<NodeRep>, id: int) -> bool
    decreases id,
{
    &&& 0 <= id < nodes.len()
    &&& forall|k: int|
        0 <= k < nodes[id].children@.len() ==> 0 <= (#[trigger] nodes[id].children@[k]) < id
            && markup_tree(nodes, nodes[id].children@[k] as int)
}

/// The markup of the attribute list from position `i` on: one leading
/// space, the name, and the value in double quotes, for each entry.
pub open spec fn attrs_markup(attrs: Seq<(String, String)>, i: int) -> Seq<char>
    decreases attrs.len() - i,
{
    if i < 0 || i >= attrs.len() {
        Seq::empty()
    } else {
        " "@ + attrs[i].0@ + "=\""@ + attrs[i].1@ + "\""@ + attrs_markup(attrs, i + 1)
    }
}

/// The markup of the subtree at `id`.
pub open spec fn node_markup(nodes: Seq<NodeRep>, id: int) -> Seq<char>
    decreases id, 1int, 0int,
{
    if !(0 <= id < nodes.len()) {
        Seq::empty()
    } else if nodes[id].data is Text {
        d_text(nodes[id].data)
    } else {
        "<"@ + d_tag(nodes[id].data) + attrs_markup(d_attrs(nodes[id].data), 0) + ">"@
            + children_markup(nodes, id, nodes[id].children@, 0) + "</"@ + d_tag(nodes[id].data)
            + ">"@
    }
}

/// The markup of the children `cs[i..]`, in order.
pub open spec fn children_markup(nodes: Seq<NodeRep>, parent: int, cs: Seq<usize>, i: int) -> Seq<
    char,
>
    decreases parent, 0int, cs.len() - i,
{
    if parent < 0 || i < 0 || i >= cs.len() {
        Seq::empty()
    } else if cs[i] < parent {
        node_markup(nodes, cs[i] as int) + children_markup(nodes, parent, cs, i + 1)
    } else {
        Seq::empty()
    }
}

/// Render the subtree at `id` to markup text.
pub fn node_html(arena: &Arena, id: usize) -> (r: String)
    requires
        markup_tree(arena@, id as int),
    ensures
        r@ == node_markup(arena@, id as int),
    decreases id, 1int,
{
    if arena.is_text_at(id) {
        return arena.text_at(id);
    }
    let mut out = String::from_str("<");
    let tag = arena.tag_at(id);
    out.append(tag.as_str());
    let ghost attrs = d_attrs(arena@[id as int].data);
    let na = arena.attr_count(id);
    let mut i: usize = 0;
    proof {
        assert(out@ =~= "<"@ + tag@);
    }
    while i < na
        invariant
            i <= na,
            id < arena@.len(),
            arena@[id as int].data is Element,
            attrs == d_attrs(arena@[id as int].data),
            na == attrs.len(),
            out@ + attrs_markup(attrs, i as int) =~= "<"@ + d_tag(arena@[id as int].data)
                + attrs_markup(attrs, 0),
        decreases na - i,
    {
        let ghost before = out@;
        let pair = arena.attr_pair_at(id, i);
        out.append(" ");
        out.append(pair.0.as_str());
        out.append("=\"");
        out.append(pair.1.as_str());
        out.append("\"");
        proof {
            assert(out@ =~= before + (" "@ + attrs[i as int].0@ + "=\""@ + attrs[i as int].1@
                + "\""@));
            assert(attrs_markup(attrs, i as int) == (" "@ + attrs[i as int].0@ + "=\""@
                + attrs[i as int].1@ + "\""@) + attrs_markup(attrs, i + 1));
            assert(out@ + attrs_markup(attrs, i + 1) =~= before + attrs_markup(attrs, i as int));
        }
        i = i + 1;
    }
    out.append(">");
    proof {
        assert(attrs_markup(attrs, na as int) =~= Seq::<char>::empty());
        assert(out@ =~= "<"@ + d_tag(arena@[id as int].data) + attrs_markup(attrs, 0) + ">"@);
    }
    let ghost mid = out@;
    let ghost cs = arena@[id as int].children@;
    let nc = arena.child_count(id);
    let mut k: usize = 0;
    while k < nc
        invariant
            k <= nc,
            id < arena@.len(),
            markup_tree(arena@, id as int),
            cs == arena@[id as int].children@,
            nc == cs.len(),
            out@ + children_markup(arena@, id as int, cs, k as int) =~= mid + children_markup(
                arena@,
                id as int,
                cs,
                0,
            ),
        decreases nc - k,
    {
        let ghost before = out@;
        let c = arena.child_at(id, k);
        proof {
            assert(markup_tree(arena@, cs[k as int] as int));
        }
        let s = node_html(arena, c);
        out.append(s.as_str());
        proof {
            assert(children_markup(arena@, id as int, cs, k as int) == node_markup(
                arena@,
                cs[k as int] as int,
            ) + children_markup(arena@, id as int, cs, k + 1));
            assert(out@ + children_markup(arena@, id as int, cs, k + 1) =~= before
                + children_markup(arena@, id as int, cs, k as int));
        }
        k = k + 1;
    }
    proof {
        assert(children_markup(arena@, id as int, cs, nc as int) =~= Seq::<char>::empty());
        assert(out@ =~= mid + children_markup(arena@, id as int, cs, 0));
    }
    out.append("</");
    out.append(tag.as_str());
    out.append(">");
    proof {
        assert(out@ =~= node_markup(arena@, id as int));
    }
    out
}

impl crate::node::DomElement {
    /// The markup of this element's subtree.
    pub fn to_html(&self, arena: &Arena) -> (r: String)
        requires
            markup_tree(arena@, self.id as int),
        ensures
            r@ == node_markup(arena@, self.id as int),
    {
        node_html(arena, self.id)
    }
}

impl crate::node::DomText {
    /// The markup of this text node: its content.
    pub fn to_html(&self, arena: &Arena) -> (r: String)
        requires
            markup_tree(arena@, self.id as int),
        ensures
            r@ == node_markup(arena@, self.id as int),
    {
        node_html(arena, self.id)
    }
}

impl crate::node::DomNodeData {
    /// The markup of this node's subtree.
    pub fn to_html(&self, arena: &Arena) -> (r: String)
        requires
            markup_tree(arena@, crate::node::node_id(*self) as int),
        ensures
            r@ == node_markup(arena@, crate::node::node_id(*self) as int),
    {
        node_html(arena, crate::node::node_id_of(*self))
    }
}

} // verus!
