//! Child-group reconciler behavior, including the two slot scenarios: three
//! reserved regions filled out of order, and three synchronous appends.

use silkenweb::arena::{Arena, Stage};
use silkenweb::child_groups::ChildGroups;

fn live_elem(arena: &mut Arena, tag: &str) -> usize {
    arena.new_element(tag, None, Stage::LiveOnly)
}

fn children(arena: &Arena, parent: usize) -> Vec<usize> {
    let mut out = Vec::new();
    let n = arena.child_count(parent);
    let mut i = 0;
    while i < n {
        out.push(arena.child_at(parent, i));
        i += 1;
    }
    out
}

#[test]
fn three_regions_filled_out_of_order() {
    let mut arena = Arena::new();
    let parent = live_elem(&mut arena, "div");
    let mut cg = ChildGroups::new(&arena, parent);
    let i0 = cg.new_group(&arena);
    let i1 = cg.new_group(&arena);
    let i2 = cg.new_group(&arena);
    assert_eq!((i0, i1, i2), (0, 1, 2));

    let x = live_elem(&mut arena, "span");
    let existed = cg.upsert_only_child(&mut arena, 1, x);
    assert!(!existed);
    assert_eq!(children(&arena, parent), vec![x]);

    let y = live_elem(&mut arena, "p");
    let existed = cg.upsert_only_child(&mut arena, 0, y);
    assert!(!existed);
    assert_eq!(children(&arena, parent), vec![y, x]);
}

#[test]
fn three_synchronous_appends_in_call_order() {
    let mut arena = Arena::new();
    let parent = live_elem(&mut arena, "div");
    let mut cg = ChildGroups::new(&arena, parent);
    assert!(!cg.is_single_group());

    let a = live_elem(&mut arena, "a");
    let b = live_elem(&mut arena, "b");
    let c = live_elem(&mut arena, "c");
    cg.append_new_group_sync(&mut arena, a);
    assert!(cg.is_single_group());
    cg.append_new_group_sync(&mut arena, b);
    assert!(!cg.is_single_group());
    cg.append_new_group_sync(&mut arena, c);
    assert_eq!(children(&arena, parent), vec![a, b, c]);
    // Three slots were created: a fourth region gets index 3.
    assert_eq!(cg.new_group(&arena), 3);
}

#[test]
fn append_sync_fills_a_dynamic_last_slot() {
    let mut arena = Arena::new();
    let parent = live_elem(&mut arena, "div");
    let mut cg = ChildGroups::new(&arena, parent);
    let i0 = cg.new_group(&arena);
    assert_eq!(i0, 0);
    let a = live_elem(&mut arena, "a");
    cg.append_new_group_sync(&mut arena, a);
    // The reserved slot was filled, not a new one created.
    assert!(cg.is_single_group());
    assert_eq!(children(&arena, parent), vec![a]);
    assert_eq!(cg.new_group(&arena), 1);
}

#[test]
fn upsert_replaces_the_previous_occupant() {
    let mut arena = Arena::new();
    let parent = live_elem(&mut arena, "div");
    let mut cg = ChildGroups::new(&arena, parent);
    cg.new_group(&arena);
    cg.new_group(&arena);
    let a = live_elem(&mut arena, "a");
    let b = live_elem(&mut arena, "b");
    let c = live_elem(&mut arena, "c");
    cg.upsert_only_child(&mut arena, 0, a);
    cg.upsert_only_child(&mut arena, 1, b);
    let existed = cg.upsert_only_child(&mut arena, 0, c);
    assert!(existed);
    // Slot 0 holds exactly c; a is no longer a child of the parent.
    assert_eq!(children(&arena, parent), vec![c, b]);
}

#[test]
fn remove_child_clears_the_slot() {
    let mut arena = Arena::new();
    let parent = live_elem(&mut arena, "div");
    let mut cg = ChildGroups::new(&arena, parent);
    cg.new_group(&arena);
    cg.new_group(&arena);
    let a = live_elem(&mut arena, "a");
    let b = live_elem(&mut arena, "b");
    cg.upsert_only_child(&mut arena, 0, a);
    cg.upsert_only_child(&mut arena, 1, b);
    cg.remove_child(&mut arena, 0);
    assert_eq!(children(&arena, parent), vec![b]);
    // Removing an empty slot changes nothing.
    cg.remove_child(&mut arena, 0);
    assert_eq!(children(&arena, parent), vec![b]);
}

#[test]
fn get_next_group_elem_skips_empty_slots() {
    let mut arena = Arena::new();
    let parent = live_elem(&mut arena, "div");
    let mut cg = ChildGroups::new(&arena, parent);
    cg.new_group(&arena);
    cg.new_group(&arena);
    cg.new_group(&arena);
    let c = live_elem(&mut arena, "c");
    cg.upsert_only_child(&mut arena, 2, c);
    assert_eq!(cg.get_next_group_elem(0), Some(c));
    assert_eq!(cg.get_next_group_elem(1), Some(c));
    assert_eq!(cg.get_next_group_elem(2), None);
}

#[test]
fn insert_only_child_fills_an_empty_slot() {
    let mut arena = Arena::new();
    let parent = live_elem(&mut arena, "div");
    let mut cg = ChildGroups::new(&arena, parent);
    cg.new_group(&arena);
    cg.new_group(&arena);
    let b = live_elem(&mut arena, "b");
    let a = live_elem(&mut arena, "a");
    cg.insert_only_child(&mut arena, 1, b);
    cg.insert_only_child(&mut arena, 0, a);
    assert_eq!(children(&arena, parent), vec![a, b]);
}

#[test]
fn bookkeeping_catch_up_without_document_mutation() {
    let mut arena = Arena::new();
    let parent = live_elem(&mut arena, "div");
    let mut cg = ChildGroups::new(&arena, parent);
    cg.new_group(&arena);
    // A region's own reconciler already inserted the child into the live
    // document; the slot only catches up.
    let a = live_elem(&mut arena, "a");
    arena.append_child(parent, a);
    cg.set_first_child(&arena, 0, a);
    assert_eq!(cg.get_next_group_elem(0), None);
    assert_eq!(children(&arena, parent), vec![a]);
    // The reconciler removed it again; the slot catches up again.
    arena.remove_child_first(parent, a);
    cg.clear_first_child(&arena, 0);
    assert_eq!(children(&arena, parent), Vec::<usize>::new());
}

#[test]
fn shrink_to_fit_changes_nothing_observable() {
    let mut arena = Arena::new();
    let parent = live_elem(&mut arena, "div");
    let mut cg = ChildGroups::new(&arena, parent);
    cg.new_group(&arena);
    let a = live_elem(&mut arena, "a");
    cg.upsert_only_child(&mut arena, 0, a);
    cg.shrink_to_fit();
    assert!(cg.is_single_group());
    assert_eq!(children(&arena, parent), vec![a]);
}
