//! Execution strategies.
//!
//! A tree is built once and run under one of three strategies: rendered to
//! markup text on the server, driven into the live document directly, or
//! hydrated onto markup that already exists in the live document.  The
//! strategy decides which stage a freshly created node starts in; the node
//! operations then dispatch on that stage.

use core::marker::PhantomData;

use vstd::prelude::*;

use crate::arena::Stage;

verus! {

/// An execution strategy: decides the stage of freshly created nodes.
pub trait Dom {
    /// The stage a node of this strategy starts in.
    spec fn stage_spec() -> Stage;

    fn stage() -> (s: Stage)
        ensures
            s == Self::stage_spec(),
    ;
}

/// A strategy whose trees can be instantiated from a [`Template`] tree.
pub trait InstantiableDom: Dom {

}

/// Server-side rendering only: every node stays a markup description.
pub struct Dry;

/// Client rendering with hydration: nodes await an existing live subtree.
pub struct Hydro;

/// Direct client rendering: nodes are live from the start.
pub struct Wet;

/// A reusable tree description that instantiates other strategies' trees by
/// copying, parameterized by the data each instance is built from.
pub struct Template<Param, D: InstantiableDom = Wet> {
    marker: PhantomData<(Param, D)>,
}

impl Dom for Dry {
    open spec fn stage_spec() -> Stage {
        Stage::MarkupOnly
    }

    fn stage() -> (s: Stage) {
        Stage::MarkupOnly
    }
}

impl InstantiableDom for Dry {

}

impl Dom for Hydro {
    open spec fn stage_spec() -> Stage {
        Stage::Hydrating
    }

    fn stage() -> (s: Stage) {
        Stage::Hydrating
    }
}

impl InstantiableDom for Hydro {

}

impl Dom for Wet {
    open spec fn stage_spec() -> Stage {
        Stage::LiveOnly
    }

    fn stage() -> (s: Stage) {
        Stage::LiveOnly
    }
}

impl InstantiableDom for Wet {

}

impl<Param, D: InstantiableDom> Dom for Template<Param, D> {
    open spec fn stage_spec() -> Stage {
        Stage::MarkupOnly
    }

    fn stage() -> (s: Stage) {
        Stage::MarkupOnly
    }
}

} // verus!
