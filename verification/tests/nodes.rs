//! Node handles: construction, attribute and text mutation, child edits,
//! identity, and strategy-driven stages.

use silkenweb::arena::{Arena, Stage};
use silkenweb::dom::{Dry, Hydro, Wet};
use silkenweb::node::{text, DomElement, DomNodeData, DomText, Text};

fn children(arena: &Arena, parent: usize) -> Vec<usize> {
    let mut out = Vec::new();
    for i in 0..arena.child_count(parent) {
        out.push(arena.child_at(parent, i));
    }
    out
}

#[test]
fn elements_carry_tag_namespace_and_attributes() {
    let mut arena = Arena::new();
    let e = DomElement::new(&mut arena, "div");
    assert_eq!(arena.tag_at(e.id), "div");
    assert!(matches!(arena.stage_at(e.id), Stage::Hydrating));

    let s = DomElement::new_in_namespace(&mut arena, "svg-namespace", "circle");
    assert_eq!(arena.tag_at(s.id), "circle");

    e.attribute(&mut arena, "class", "wide");
    e.attribute(&mut arena, "hidden", "");
    assert_eq!(arena.get_attribute(e.id, "class"), Some("wide".to_owned()));
    assert_eq!(arena.get_attribute(e.id, "hidden"), Some(String::new()));
    // Setting again overwrites the first entry.
    e.attribute(&mut arena, "class", "narrow");
    assert_eq!(arena.get_attribute(e.id, "class"), Some("narrow".to_owned()));
    assert_eq!(arena.get_attribute(e.id, "missing"), None);
}

#[test]
fn text_nodes_are_created_and_overwritten() {
    let mut arena = Arena::new();
    let t = DomText::new(&mut arena, "before");
    assert_eq!(arena.text_at(t.id), "before");
    t.set_text(&mut arena, "after");
    assert_eq!(arena.text_at(t.id), "after");
}

#[test]
fn child_edits_follow_first_occurrence_semantics() {
    let mut arena = Arena::new();
    let a = DomText::new(&mut arena, "a");
    let b = DomText::new(&mut arena, "b");
    let c = DomText::new(&mut arena, "c");
    let e = DomElement::new(&mut arena, "div");
    e.append_child_now(&mut arena, &a);
    e.append_child_now(&mut arena, &c);
    e.insert_child_before_now(&mut arena, &b, Some(&c));
    assert_eq!(children(&arena, e.id), vec![a.id, b.id, c.id]);

    e.replace_child(&mut arena, &b, &a);
    assert_eq!(children(&arena, e.id), vec![b.id, b.id, c.id]);
    e.remove_child_now(&mut arena, &b);
    assert_eq!(children(&arena, e.id), vec![b.id, c.id]);
    e.clear_children(&mut arena);
    assert_eq!(children(&arena, e.id), Vec::<usize>::new());
}

#[test]
fn an_absent_anchor_appends_at_the_end() {
    let mut arena = Arena::new();
    let a = DomText::new(&mut arena, "a");
    let b = DomText::new(&mut arena, "b");
    let stranger = DomText::new(&mut arena, "s");
    let e = DomElement::new(&mut arena, "div");
    e.append_child_now(&mut arena, &a);
    e.insert_child_before_now(&mut arena, &b, Some(&stranger));
    assert_eq!(children(&arena, e.id), vec![a.id, b.id]);
}

#[test]
fn identity_is_the_arena_entry() {
    let mut arena = Arena::new();
    let e = DomElement::new(&mut arena, "div");
    let t = DomText::new(&mut arena, "x");
    let ne1 = DomNodeData::Element(e);
    let ne2 = DomNodeData::Element(DomElement { id: e.id });
    let nt = DomNodeData::Text(t);
    let nt_other = DomNodeData::Text(DomText { id: e.id });
    assert!(ne1.is_same(&ne2));
    assert!(!ne1.is_same(&nt));
    // An element and a text never compare the same, whatever their indices.
    assert!(!ne1.is_same(&nt_other));
}

#[test]
fn strategies_decide_the_starting_stage() {
    let mut arena = Arena::new();
    let dry: Text<Dry> = Text::new(&mut arena, "markup");
    let wet: Text<Wet> = text(&mut arena, "live");
    let hydro: Text<Hydro> = text(&mut arena, "waiting");
    assert!(matches!(arena.stage_at(dry.node.id), Stage::MarkupOnly));
    assert!(matches!(arena.stage_at(wet.node.id), Stage::LiveOnly));
    assert!(matches!(arena.stage_at(hydro.node.id), Stage::Hydrating));
    assert_eq!(arena.text_at(hydro.node.id), "waiting");
}

#[test]
fn event_bindings_are_recorded_in_order() {
    let mut arena = Arena::new();
    let e = DomElement::new(&mut arena, "button");
    assert_eq!(arena.listener_count(e.id), 0);
    e.on(&mut arena, "click");
    e.on(&mut arena, "focus");
    assert_eq!(arena.listener_count(e.id), 2);
    assert_eq!(arena.listener_at(e.id, 0), "click");
    assert_eq!(arena.listener_at(e.id, 1), "focus");
    // Bindings are not markup: the element still serializes bare.
    assert_eq!(e.to_html(&arena), "<button></button>");
}

#[test]
fn stored_children_and_capacity_are_bookkeeping_only() {
    let mut arena = Arena::new();
    let t = DomText::new(&mut arena, "kept");
    let e = DomElement::new(&mut arena, "div");
    e.store_child(&mut arena, DomNodeData::Text(t));
    e.shrink_to_fit(&mut arena);
    assert_eq!(children(&arena, e.id), Vec::<usize>::new());
    assert_eq!(arena.text_at(t.id), "kept");
}
