//! Markup rendering of description trees.

use silkenweb::arena::{Arena, Stage};
use silkenweb::node::{DomElement, DomNodeData, DomText};
use silkenweb::render::node_html;

#[test]
fn an_element_renders_tag_attributes_and_children() {
    let mut arena = Arena::new();
    let t = DomText::new(&mut arena, "hi");
    let span = DomElement::new(&mut arena, "span");
    span.append_child_now(&mut arena, &t);
    let div = DomElement::new(&mut arena, "div");
    div.attribute(&mut arena, "class", "wide");
    div.append_child_now(&mut arena, &span);
    assert_eq!(div.to_html(&arena), "<div class=\"wide\"><span>hi</span></div>");
}

#[test]
fn a_text_node_renders_its_content() {
    let mut arena = Arena::new();
    let t = DomText::new(&mut arena, "plain words");
    assert_eq!(t.to_html(&arena), "plain words");
    assert_eq!(DomNodeData::Text(t).to_html(&arena), "plain words");
}

#[test]
fn an_empty_element_renders_open_and_close_tags() {
    let mut arena = Arena::new();
    let id = arena.new_element("p", None, Stage::MarkupOnly);
    assert_eq!(node_html(&arena, id), "<p></p>");
}

#[test]
fn attributes_render_in_insertion_order_with_overwrites_in_place() {
    let mut arena = Arena::new();
    let e = DomElement::new(&mut arena, "a");
    e.attribute(&mut arena, "href", "one");
    e.attribute(&mut arena, "rel", "x");
    e.attribute(&mut arena, "href", "two");
    assert_eq!(e.to_html(&arena), "<a href=\"two\" rel=\"x\"></a>");
}
