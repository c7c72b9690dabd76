//! Hydration: convergence to the description, statistics, and the mismatch
//! scenario of a live span walked against a described text node.

use silkenweb::arena::{Arena, Stage};
use silkenweb::hydrate::{hydrate_child, HydrationStats};
use silkenweb::node::{DomElement, DomNodeData, DomText};

fn live_elem(arena: &mut Arena, tag: &str) -> usize {
    arena.new_element(tag, None, Stage::LiveOnly)
}

#[test]
fn mismatched_span_is_discarded_for_fresh_text() {
    let mut arena = Arena::new();
    // Live markup: <body><div><span>old</span></div></body>.
    let old_text = arena.new_text("old", Stage::LiveOnly);
    let span = live_elem(&mut arena, "span");
    arena.append_child(span, old_text);
    let div = live_elem(&mut arena, "div");
    arena.append_child(div, span);
    let body = live_elem(&mut arena, "body");
    arena.append_child(body, div);

    // Description: div[ text("new") ], with a bound event.
    let new_text = DomText::new(&mut arena, "new");
    let desc_div = DomElement::new(&mut arena, "div");
    desc_div.append_child_now(&mut arena, &new_text);
    desc_div.on(&mut arena, "click");

    let mut stats = HydrationStats::new();
    desc_div.hydrate_child(&mut arena, body, Some(div), &mut stats);

    // The div matched; the span was discarded for a fresh text node.
    assert_eq!(stats.matched, 1);
    assert_eq!(stats.mismatched, 1);
    assert_eq!(stats.text_updates, 0);

    // The hydrated tree took the mount position and is fully live.
    assert_eq!(arena.child_count(body), 1);
    assert_eq!(arena.child_at(body, 0), desc_div.id);
    assert_eq!(arena.child_count(desc_div.id), 1);
    assert_eq!(arena.child_at(desc_div.id, 0), new_text.id);
    assert!(matches!(arena.stage_at(desc_div.id), Stage::LiveOnly));
    assert!(matches!(arena.stage_at(new_text.id), Stage::LiveOnly));
    assert_eq!(arena.text_at(new_text.id), "new");
    // The description's event bindings are the live tree's bindings.
    assert_eq!(arena.listener_count(desc_div.id), 1);
    assert_eq!(arena.listener_at(desc_div.id, 0), "click");
}

#[test]
fn matching_markup_is_reused_without_updates() {
    let mut arena = Arena::new();
    // Live markup: <body><div><span>hello</span></div></body>.
    let t = arena.new_text("hello", Stage::LiveOnly);
    let span = live_elem(&mut arena, "span");
    arena.append_child(span, t);
    let div = live_elem(&mut arena, "div");
    arena.append_child(div, span);
    let body = live_elem(&mut arena, "body");
    arena.append_child(body, div);

    // Description with the same shape and content.
    let dt = DomText::new(&mut arena, "hello");
    let dspan = DomElement::new(&mut arena, "span");
    dspan.append_child_now(&mut arena, &dt);
    let ddiv = DomElement::new(&mut arena, "div");
    ddiv.append_child_now(&mut arena, &dspan);

    let mut stats = HydrationStats::new();
    ddiv.hydrate_child(&mut arena, body, Some(div), &mut stats);
    assert_eq!(stats.matched, 3);
    assert_eq!(stats.mismatched, 0);
    assert_eq!(stats.text_updates, 0);
}

#[test]
fn stale_text_counts_one_update() {
    let mut arena = Arena::new();
    let t = arena.new_text("stale", Stage::LiveOnly);
    let div = live_elem(&mut arena, "div");
    arena.append_child(div, t);
    let body = live_elem(&mut arena, "body");
    arena.append_child(body, div);

    let dt = DomText::new(&mut arena, "fresh");
    let ddiv = DomElement::new(&mut arena, "div");
    ddiv.append_child_now(&mut arena, &dt);

    let mut stats = HydrationStats::new();
    ddiv.hydrate_child(&mut arena, body, Some(div), &mut stats);
    assert_eq!(stats.matched, 2);
    assert_eq!(stats.mismatched, 0);
    assert_eq!(stats.text_updates, 1);
    assert_eq!(arena.text_at(dt.id), "fresh");
}

#[test]
fn leftover_live_children_are_discarded() {
    let mut arena = Arena::new();
    // Live <div> has three children, the description only one.
    let a = live_elem(&mut arena, "a");
    let b = live_elem(&mut arena, "b");
    let c = live_elem(&mut arena, "c");
    let div = live_elem(&mut arena, "div");
    arena.append_child(div, a);
    arena.append_child(div, b);
    arena.append_child(div, c);
    let body = live_elem(&mut arena, "body");
    arena.append_child(body, div);

    let da = DomElement::new(&mut arena, "a");
    let ddiv = DomElement::new(&mut arena, "div");
    ddiv.append_child_now(&mut arena, &da);

    let mut stats = HydrationStats::new();
    ddiv.hydrate_child(&mut arena, body, Some(div), &mut stats);
    assert_eq!(stats.matched, 2);
    assert_eq!(stats.mismatched, 2);
    assert_eq!(arena.child_count(ddiv.id), 1);
}

#[test]
fn exhausted_live_children_build_the_rest_fresh() {
    let mut arena = Arena::new();
    // Live <div> is empty; the description has two children.
    let div = live_elem(&mut arena, "div");
    let body = live_elem(&mut arena, "body");
    arena.append_child(body, div);

    let da = DomElement::new(&mut arena, "a");
    let db = DomElement::new(&mut arena, "b");
    let ddiv = DomElement::new(&mut arena, "div");
    ddiv.append_child_now(&mut arena, &da);
    ddiv.append_child_now(&mut arena, &db);

    let mut stats = HydrationStats::new();
    ddiv.hydrate_child(&mut arena, body, Some(div), &mut stats);
    assert_eq!(stats.matched, 1);
    assert_eq!(stats.mismatched, 0);
    assert_eq!(stats.text_updates, 0);
    assert!(matches!(arena.stage_at(da.id), Stage::LiveOnly));
    assert!(matches!(arena.stage_at(db.id), Stage::LiveOnly));
}

#[test]
fn hydrating_without_a_candidate_builds_fresh() {
    let mut arena = Arena::new();
    let body = live_elem(&mut arena, "body");

    let dt = DomText::new(&mut arena, "x");
    let ddiv = DomElement::new(&mut arena, "div");
    ddiv.append_child_now(&mut arena, &dt);

    let mut stats = HydrationStats::new();
    hydrate_child(
        &mut arena,
        DomNodeData::Element(ddiv),
        body,
        None,
        &mut stats,
    );
    assert_eq!(stats.matched, 0);
    assert_eq!(stats.mismatched, 0);
    assert_eq!(arena.child_count(body), 1);
    assert_eq!(arena.child_at(body, 0), ddiv.id);
    assert!(matches!(arena.stage_at(ddiv.id), Stage::LiveOnly));
}
