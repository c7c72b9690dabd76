//! A reactive user-interface core: one declarative tree of nodes can be
//! rendered to markup text, drive a live document directly, or be hydrated
//! onto markup that already exists in a live document.
//!
//! The live document and every node description live in an [`arena::Arena`]:
//! node handles hold a stable index into it, so identity of a node is the
//! identity of its arena entry.  On top of the arena sit
//! - the node handles ([`node`]) and execution strategies ([`dom`]) through
//!   which a tree is built and mutated,
//! - the child-group reconciler ([`child_groups::ChildGroups`]), which keeps
//!   ordered, independently growable regions of children under one parent,
//! - the hydration engine ([`hydrate`]), which walks an existing live subtree
//!   alongside a description and converts the description to live nodes,
//! - the markup renderer ([`render`]) behind server-side string rendering,
//! - the per-cycle memoization cache ([`memo::Memo`]),
//! - the deferred-work queue ([`queue::EffectQueue`]) that batches document
//!   mutations and state updates ([`state::StateSetter`]) until the host
//!   flushes them, and
//! - the mount layer ([`mount`]) that binds a tree to a place in the document.

pub mod arena;
pub mod child_groups;
pub mod dom;
pub mod hydrate;
pub mod memo;
pub mod mount;
pub mod node;
pub mod queue;
pub mod render;
pub mod state;
