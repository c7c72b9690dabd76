//! The deferred-work queue and state setters: first-in first-out flushes,
//! deferred document mutations, and at-most-one queued update per setter.

use silkenweb::arena::{Arena, Stage};
use silkenweb::node::{DomElement, DomText};
use silkenweb::queue::{process_updates, EffectQueue};
use silkenweb::state::StateSetter;

fn live_elem(arena: &mut Arena, tag: &str) -> usize {
    arena.new_element(tag, None, Stage::LiveOnly)
}

fn children(arena: &Arena, parent: usize) -> Vec<usize> {
    let mut out = Vec::new();
    for i in 0..arena.child_count(parent) {
        out.push(arena.child_at(parent, i));
    }
    out
}

#[test]
fn live_insert_and_remove_are_deferred_until_the_flush() {
    let mut arena = Arena::new();
    let mut q = EffectQueue::new();
    let p = live_elem(&mut arena, "div");
    let parent = DomElement { id: p };
    let a = DomElement { id: live_elem(&mut arena, "a") };
    let b = DomElement { id: live_elem(&mut arena, "b") };

    parent.insert_child_before(&mut arena, &mut q, &a, None::<&DomElement>);
    parent.insert_child_before(&mut arena, &mut q, &b, Some(&a));
    // Nothing happened yet; a flush was requested.
    assert_eq!(arena.child_count(p), 0);
    assert!(q.frame_requested());
    assert_eq!(q.len(), 2);

    let tokens = process_updates(&mut arena, &mut q);
    assert!(tokens.is_empty());
    assert_eq!(children(&arena, p), vec![b.id, a.id]);
    assert_eq!(q.len(), 0);
    assert!(!q.frame_requested());

    parent.remove_child(&mut arena, &mut q, &b);
    assert_eq!(children(&arena, p), vec![b.id, a.id]);
    process_updates(&mut arena, &mut q);
    assert_eq!(children(&arena, p), vec![a.id]);
}

#[test]
fn description_mutations_are_synchronous() {
    let mut arena = Arena::new();
    let mut q = EffectQueue::new();
    let t = DomText::new(&mut arena, "x");
    let e = DomElement::new(&mut arena, "div");
    e.insert_child_before(&mut arena, &mut q, &t, None::<&DomElement>);
    // A description mutates at once and queues nothing.
    assert_eq!(q.len(), 0);
    assert_eq!(children(&arena, e.id), vec![t.id]);
    e.remove_child(&mut arena, &mut q, &t);
    assert_eq!(q.len(), 0);
    assert_eq!(children(&arena, e.id), Vec::<usize>::new());
}

#[test]
fn a_flush_hands_state_updates_back_in_order() {
    let mut arena = Arena::new();
    let mut q = EffectQueue::new();
    let mut s1: StateSetter<i32> = StateSetter::new(11);
    let mut s2: StateSetter<i32> = StateSetter::new(22);
    s1.set(&mut q, 1);
    s2.set(&mut q, 2);
    let tokens = process_updates(&mut arena, &mut q);
    assert_eq!(tokens, vec![11, 22]);
}

#[test]
fn setting_twice_queues_one_update_with_the_latest_value() {
    let mut arena = Arena::new();
    let mut q = EffectQueue::new();
    let mut s: StateSetter<i32> = StateSetter::new(7);
    s.set(&mut q, 1);
    s.set(&mut q, 2);
    s.set(&mut q, 3);
    assert_eq!(q.len(), 1);
    let tokens = process_updates(&mut arena, &mut q);
    assert_eq!(tokens, vec![7]);
    assert_eq!(s.take(), Some(3));
    assert_eq!(s.take(), None);
}

#[test]
fn queued_work_for_vanished_nodes_is_skipped() {
    let mut arena = Arena::new();
    let mut q = EffectQueue::new();
    let p = live_elem(&mut arena, "div");
    let parent = DomElement { id: p };
    let a = DomElement { id: live_elem(&mut arena, "a") };
    parent.insert_child_before(&mut arena, &mut q, &a, None::<&DomElement>);
    // Removing a child that was never inserted does nothing at the flush.
    parent.remove_child(&mut arena, &mut q, &DomElement { id: a.id });
    parent.remove_child(&mut arena, &mut q, &DomElement { id: a.id });
    process_updates(&mut arena, &mut q);
    assert_eq!(children(&arena, p), Vec::<usize>::new());
}

#[test]
fn the_first_unit_of_work_requests_a_flush() {
    let mut arena = Arena::new();
    let mut q = EffectQueue::new();
    assert!(!q.frame_requested());
    let mut s: StateSetter<i32> = StateSetter::new(1);
    s.set(&mut q, 5);
    assert!(q.frame_requested());
    process_updates(&mut arena, &mut q);
    assert!(!q.frame_requested());
}
