//! Mounting, unmounting, hydration mounting and head mounting.

use silkenweb::arena::{Arena, Stage};
use silkenweb::hydrate::HydrationStats;
use silkenweb::mount::{
    hydrate, insert_mounted_in_head, mount, mount_in_head, remove_all_mounted, unmount_head,
    HeadMounts, MountError, Mounts,
};
use silkenweb::node::{DomElement, DomText};

fn live_elem(arena: &mut Arena, tag: &str) -> usize {
    arena.new_element(tag, None, Stage::LiveOnly)
}

fn children(arena: &Arena, parent: usize) -> Vec<usize> {
    let mut out = Vec::new();
    for i in 0..arena.child_count(parent) {
        out.push(arena.child_at(parent, i));
    }
    out
}

/// A document shaped `<html><body><div id="app"/></body></html>`; returns
/// (body, mount point).
fn document(arena: &mut Arena) -> (usize, usize) {
    let mp = live_elem(arena, "div");
    arena.set_attribute(mp, "id", "app");
    let body = live_elem(arena, "body");
    arena.append_child(body, mp);
    let html = live_elem(arena, "html");
    arena.append_child(html, body);
    (body, mp)
}

#[test]
fn mounting_replaces_the_mount_point() {
    let mut arena = Arena::new();
    let mut mounts = Mounts::new();
    let (body, mp) = document(&mut arena);
    let app = DomElement { id: live_elem(&mut arena, "main") };

    let handle = match mount(&mut arena, &mut mounts, "app", app) {
        Ok(h) => h,
        Err(_) => panic!("the mount point exists"),
    };
    assert_eq!(children(&arena, body), vec![app.id]);

    // Unmounting puts the mount point back.
    handle.unmount(&mut arena, &mut mounts);
    assert_eq!(children(&arena, body), vec![mp]);
    assert_eq!(mounts.mounted_count(), 0);
}

#[test]
fn a_missing_mount_point_is_a_typed_failure() {
    let mut arena = Arena::new();
    let mut mounts = Mounts::new();
    let (_, _) = document(&mut arena);
    let app = DomElement { id: live_elem(&mut arena, "main") };
    let r = mount(&mut arena, &mut mounts, "absent", app);
    assert!(matches!(r, Err(MountError::MountPointNotFound)));
}

#[test]
fn a_detached_mount_point_is_a_typed_failure() {
    let mut arena = Arena::new();
    let mut mounts = Mounts::new();
    let mp = live_elem(&mut arena, "div");
    arena.set_attribute(mp, "id", "loose");
    let app = DomElement { id: live_elem(&mut arena, "main") };
    let r = mount(&mut arena, &mut mounts, "loose", app);
    assert!(matches!(r, Err(MountError::MountPointDetached)));
}

#[test]
fn stopping_keeps_the_rendered_tree() {
    let mut arena = Arena::new();
    let mut mounts = Mounts::new();
    let (body, _) = document(&mut arena);
    let app = DomElement { id: live_elem(&mut arena, "main") };
    let handle = mount(&mut arena, &mut mounts, "app", app).map_err(|_| ()).unwrap();
    handle.stop(&mut mounts);
    assert_eq!(mounts.mounted_count(), 0);
    assert_eq!(children(&arena, body), vec![app.id]);
}

#[test]
fn remove_all_mounted_resets_the_document() {
    let mut arena = Arena::new();
    let mut mounts = Mounts::new();
    let (body, _) = document(&mut arena);
    let app = DomElement { id: live_elem(&mut arena, "main") };
    mount(&mut arena, &mut mounts, "app", app).map_err(|_| ()).unwrap();
    assert_eq!(mounts.mounted_count(), 1);
    remove_all_mounted(&mut arena, &mut mounts);
    assert_eq!(mounts.mounted_count(), 0);
    assert_eq!(children(&arena, body), Vec::<usize>::new());
}

#[test]
fn hydration_mounting_converges_and_reports_stats() {
    let mut arena = Arena::new();
    let mut mounts = Mounts::new();
    // Server-rendered markup: <body><div id="app"><span>old</span></div></body>.
    let t = arena.new_text("old", Stage::LiveOnly);
    let span = live_elem(&mut arena, "span");
    arena.append_child(span, t);
    let mp = live_elem(&mut arena, "div");
    arena.set_attribute(mp, "id", "app");
    arena.append_child(mp, span);
    let body = live_elem(&mut arena, "body");
    arena.append_child(body, mp);

    // Description: div[ span[ text("new") ] ].
    let dt = DomText::new(&mut arena, "new");
    let dspan = DomElement::new(&mut arena, "span");
    dspan.append_child_now(&mut arena, &dt);
    let ddiv = DomElement::new(&mut arena, "div");
    ddiv.append_child_now(&mut arena, &dspan);

    let mut stats = HydrationStats::new();
    let r = hydrate(&mut arena, &mut mounts, "app", ddiv, &mut stats);
    assert!(r.is_ok());
    assert_eq!(children(&arena, body), vec![ddiv.id]);
    assert!(matches!(arena.stage_at(dt.id), Stage::LiveOnly));
    assert_eq!(stats.matched, 3);
    assert_eq!(stats.mismatched, 0);
    assert_eq!(stats.text_updates, 1);
    assert_eq!(mounts.mounted_count(), 1);
}

#[test]
fn hydration_mounting_fails_like_mounting() {
    let mut arena = Arena::new();
    let mut mounts = Mounts::new();
    let ddiv = DomElement::new(&mut arena, "div");
    let mut stats = HydrationStats::new();
    let r = hydrate(&mut arena, &mut mounts, "app", ddiv, &mut stats);
    assert!(matches!(r, Err(MountError::MountPointNotFound)));
    assert_eq!(stats.matched, 0);
}

#[test]
fn head_mounting_appends_to_the_live_head() {
    let mut arena = Arena::new();
    let mut heads = HeadMounts::new();
    let head = live_elem(&mut arena, "head");
    let html = live_elem(&mut arena, "html");
    arena.append_child(html, head);
    let style = live_elem(&mut arena, "style");
    let r = mount_in_head(&mut arena, &mut heads, "styles", style);
    assert!(r.is_ok());
    assert_eq!(children(&arena, head), vec![style]);
}

#[test]
fn head_content_renders_in_mount_order() {
    let mut arena = Arena::new();
    let mut heads = HeadMounts::new();
    let head = live_elem(&mut arena, "head");
    let html = live_elem(&mut arena, "html");
    arena.append_child(html, head);

    let title_text = DomText::new(&mut arena, "home");
    let title = DomElement::new(&mut arena, "title");
    title.append_child_now(&mut arena, &title_text);
    let style = DomElement::new(&mut arena, "style");

    mount_in_head(&mut arena, &mut heads, "title", title.id).map_err(|_| ()).unwrap();
    mount_in_head(&mut arena, &mut heads, "styles", style.id).map_err(|_| ()).unwrap();
    assert_eq!(
        heads.head_inner_html(&arena),
        "<title>home</title><style></style>"
    );
}

#[test]
fn head_mounting_without_a_head_is_a_typed_failure() {
    let mut arena = Arena::new();
    let mut heads = HeadMounts::new();
    let style = live_elem(&mut arena, "style");
    let r = mount_in_head(&mut arena, &mut heads, "styles", style);
    assert!(matches!(r, Err(MountError::HeadNotFound)));
}

#[test]
fn unmounting_the_head_removes_its_tracked_content() {
    let mut arena = Arena::new();
    let mut heads = HeadMounts::new();
    let head = live_elem(&mut arena, "head");
    let html = live_elem(&mut arena, "html");
    arena.append_child(html, head);
    let style = live_elem(&mut arena, "style");
    let title = live_elem(&mut arena, "title");
    mount_in_head(&mut arena, &mut heads, "styles", style).map_err(|_| ()).unwrap();
    mount_in_head(&mut arena, &mut heads, "title", title).map_err(|_| ()).unwrap();
    assert_eq!(children(&arena, head), vec![style, title]);
    unmount_head(&mut arena, &mut heads);
    assert_eq!(children(&arena, head), Vec::<usize>::new());
    // The registry is empty again, so the ids may be reused.
    mount_in_head(&mut arena, &mut heads, "styles", style).map_err(|_| ()).unwrap();
    assert_eq!(children(&arena, head), vec![style]);
}

#[test]
fn handles_record_their_drop_action() {
    let mut arena = Arena::new();
    let mut mounts = Mounts::new();
    let (body, mp) = document(&mut arena);
    let app = DomElement { id: live_elem(&mut arena, "main") };
    let mut handle = mount(&mut arena, &mut mounts, "app", app).map_err(|_| ()).unwrap();
    handle.unmount_on_drop();
    handle.finish(&mut arena, &mut mounts);
    assert_eq!(children(&arena, body), vec![mp]);
}

#[test]
fn a_stop_drop_action_releases_without_restoring() {
    let mut arena = Arena::new();
    let mut mounts = Mounts::new();
    let (body, _) = document(&mut arena);
    let app = DomElement { id: live_elem(&mut arena, "main") };
    let mut handle = mount(&mut arena, &mut mounts, "app", app).map_err(|_| ()).unwrap();
    handle.stop_on_drop();
    handle.finish(&mut arena, &mut mounts);
    assert_eq!(mounts.mounted_count(), 0);
    assert_eq!(children(&arena, body), vec![app.id]);
}

#[test]
fn hydration_mounting_on_a_detached_point_is_a_typed_failure() {
    let mut arena = Arena::new();
    let mut mounts = Mounts::new();
    let mp = live_elem(&mut arena, "div");
    arena.set_attribute(mp, "id", "loose");
    let ddiv = DomElement::new(&mut arena, "div");
    let mut stats = HydrationStats::new();
    let r = hydrate(&mut arena, &mut mounts, "loose", ddiv, &mut stats);
    assert!(matches!(r, Err(MountError::MountPointDetached)));
    assert!(matches!(arena.stage_at(ddiv.id), Stage::Hydrating));
}

#[test]
fn tracked_trees_can_be_looked_up_and_released() {
    let mut arena = Arena::new();
    let mut mounts = Mounts::new();
    let a = live_elem(&mut arena, "a");
    let b = live_elem(&mut arena, "b");
    let ia = mounts.insert_element(a);
    let ib = mounts.insert_element(b);
    assert_ne!(ia, ib);
    assert_eq!(mounts.remove_element(ia), Some(a));
    assert_eq!(mounts.remove_element(ia), None);
    assert_eq!(mounts.remove_element(ib), Some(b));
    insert_mounted_in_head(&mut HeadMounts::new(), "x", a);
}
