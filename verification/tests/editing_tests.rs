use mockup_studio::bundled::BundledPhotos;
use mockup_studio::editing::{
    clear_selection, do_add_layer, do_delete, do_duplicate, do_new, do_redo, do_undo,
    find_screen_image_for_frame, frame_kind, grab_for_drag, history_shortcut, hit_test_layer, linked_screen_photo, move_layer_down,
    move_layer_up, select_only, selection_or_primary, sync_linked_photo_transform,
    toggle_layer_visibility, toggle_selection,
};
use mockup_studio::editing::{record_drag_start, resync_selection, HistoryKey};
use mockup_studio::history::{History, MAX_HISTORY};
use mockup_studio::model::{
    DeviceFrameLayer, F32Bits, FrameColor, FrameKind, ImageLayer, Layer, LayerKind, Project,
    ShadowStyle, ShapeLayer, Transform,
};

fn bits(v: f32) -> F32Bits {
    F32Bits(v.to_bits())
}

fn transform(x: f32) -> Transform {
    Transform {
        x: bits(x),
        y: bits(0.0),
        width: bits(10.0),
        height: bits(10.0),
        rotation_deg: bits(0.0),
        opacity: bits(100.0),
        mirror_h: false,
        mirror_v: false,
        corner_radius: bits(0.0),
        shadow: ShadowStyle::default(),
    }
}

fn shape(id: u64, name: &str) -> Layer {
    Layer {
        id,
        name: name.to_string(),
        visible: true,
        kind: LayerKind::Shape(ShapeLayer { fill_color: [9, 9, 9, 255] }),
        transform: transform(id as f32),
    }
}

fn ids(p: &Project) -> Vec<u64> {
    p.layers.iter().map(|l| l.id).collect()
}

fn names(p: &Project) -> Vec<String> {
    p.layers.iter().map(|l| l.name.clone()).collect()
}

fn photos() -> BundledPhotos {
    let s = |n: &str| n.to_string();
    BundledPhotos {
        beach_horizon: s("beach.jpg"),
        sunset_pier: s("pier.jpg"),
        city_night: s("city.jpg"),
        calm_lake: s("lake.jpg"),
        dunes: s("dunes.jpg"),
        coastline: s("coast.jpg"),
        gold_interior: s("gold.jpg"),
        mono_pier: s("mono.jpg"),
        iphone_frame: s("/tmp/iphone_frame.png"),
        macbook_frame: s("macbook.png"),
        android_frame: s("android.png"),
        android_waterdrop_frame: s("waterdrop.png"),
        ipad_frame: s("ipad.png"),
        uzasasa_logo: s("logo.png"),
        play_store_badge: s("play.png"),
        app_store_badge: s("app.png"),
        hand_phone_frame: s("hand.png"),
    }
}

#[test]
fn history_undo_gives_back_the_pushed_state_and_redo_reverses_it() {
    let mut h = History::new();
    assert!(!h.can_undo());
    assert!(!h.can_redo());

    let before = Project::default();
    let mut after = Project::default();
    after.layers.push(shape(3, "added"));
    h.push(before);
    assert!(h.can_undo());
    assert!(!h.can_redo());

    let prev = h.undo(after).expect("one step recorded");
    assert_eq!(prev.layers.len(), 2);
    assert!(!h.can_undo());
    assert!(h.can_redo());

    let next = h.redo(prev).expect("one step undone");
    assert_eq!(names(&next), vec!["iPhone 12 Pro Max", "Headline", "added"]);
    assert!(h.can_undo());
    assert!(!h.can_redo());
}

#[test]
fn history_with_nothing_to_undo_returns_none() {
    let mut h = History::new();
    assert!(h.undo(Project::default()).is_none());
    assert!(h.redo(Project::default()).is_none());
    assert!(!h.can_undo() && !h.can_redo());
}

#[test]
fn history_push_clears_redo() {
    let mut h = History::new();
    h.push(Project::default());
    let _ = h.undo(Project::default());
    assert!(h.can_redo());
    h.push(Project::default());
    assert!(!h.can_redo());
}

#[test]
fn history_keeps_at_most_fifty_steps() {
    let mut h = History::new();
    for i in 0..(MAX_HISTORY as u64 + 5) {
        let mut p = Project::default();
        p.next_id = 100 + i;
        h.push(p);
    }
    let mut count = 0;
    let mut oldest = 0;
    while let Some(p) = h.undo(Project::default()) {
        count += 1;
        oldest = p.next_id;
    }
    assert_eq!(count, MAX_HISTORY);
    assert_eq!(oldest, 105);
}

#[test]
fn selection_commands_keep_primary_in_the_list() {
    let mut p = Project::default();
    let mut sel: Vec<u64> = Vec::new();
    select_only(&mut p, &mut sel, 1);
    assert_eq!((p.selected_layer, sel.clone()), (Some(1), vec![1]));
    toggle_selection(&mut p, &mut sel, 2);
    assert_eq!((p.selected_layer, sel.clone()), (Some(2), vec![1, 2]));
    toggle_selection(&mut p, &mut sel, 2);
    assert_eq!((p.selected_layer, sel.clone()), (Some(1), vec![1]));
    toggle_selection(&mut p, &mut sel, 2);
    toggle_selection(&mut p, &mut sel, 1);
    assert_eq!((p.selected_layer, sel.clone()), (Some(2), vec![2]));
    toggle_selection(&mut p, &mut sel, 2);
    assert_eq!((p.selected_layer, sel.clone()), (None, vec![]));
    toggle_selection(&mut p, &mut sel, 5);
    clear_selection(&mut p, &mut sel);
    assert_eq!((p.selected_layer, sel.is_empty()), (None, true));
}

#[test]
fn toggling_a_non_primary_member_keeps_the_primary() {
    let mut p = Project::default();
    let mut sel: Vec<u64> = Vec::new();
    select_only(&mut p, &mut sel, 1);
    toggle_selection(&mut p, &mut sel, 2);
    toggle_selection(&mut p, &mut sel, 1);
    assert_eq!((p.selected_layer, sel), (Some(2), vec![2]));
}

#[test]
fn selection_or_primary_falls_back_to_the_primary_layer() {
    let mut p = Project::default();
    let sel: Vec<u64> = Vec::new();
    assert!(selection_or_primary(&p, &sel).is_empty());
    p.selected_layer = Some(2);
    assert_eq!(selection_or_primary(&p, &sel), vec![2]);
    assert_eq!(selection_or_primary(&p, &vec![1, 2]), vec![1, 2]);
}

#[test]
fn delete_removes_the_selection_and_undo_restores_it() {
    let mut p = Project::default();
    p.layers.push(shape(3, "a"));
    p.layers.push(shape(4, "b"));
    p.next_id = 5;
    let mut sel = vec![2, 4];
    p.selected_layer = Some(4);
    let mut h = History::new();

    assert!(do_delete(&mut p, &mut sel, &mut h));
    assert_eq!(ids(&p), vec![1, 3]);
    assert_eq!((p.selected_layer, sel.is_empty()), (None, true));

    assert!(do_undo(&mut p, &mut sel, &mut h));
    assert_eq!(ids(&p), vec![1, 2, 3, 4]);
    assert!(do_redo(&mut p, &mut sel, &mut h));
    assert_eq!(ids(&p), vec![1, 3]);
    assert!(!do_redo(&mut p, &mut sel, &mut h));
}

#[test]
fn delete_with_nothing_selected_does_nothing() {
    let mut p = Project::default();
    let mut sel: Vec<u64> = Vec::new();
    let mut h = History::new();
    assert!(!do_delete(&mut p, &mut sel, &mut h));
    assert_eq!(ids(&p), vec![1, 2]);
    assert!(!h.can_undo());
    assert!(!do_undo(&mut p, &mut sel, &mut h));
}

#[test]
fn duplicate_copies_selected_layers_with_fresh_ids() {
    let mut p = Project::default();
    let mut sel = vec![2, 1];
    p.selected_layer = Some(1);
    let mut h = History::new();
    let new_ids = do_duplicate(&mut p, &mut sel, &mut h);
    assert_eq!(new_ids, vec![3, 4]);
    assert_eq!(ids(&p), vec![1, 2, 3, 4]);
    assert_eq!(names(&p), vec!["iPhone 12 Pro Max", "Headline", "Headline copy", "iPhone 12 Pro Max copy"]);
    assert_eq!(p.next_id, 5);
    assert_eq!(sel, vec![3, 4]);
    assert_eq!(p.selected_layer, Some(4));
    assert!(matches!(p.layers[3].kind, LayerKind::DeviceFrame(_)));
    assert_eq!(p.layers[2].transform.x, p.layers[1].transform.x);
    assert!(do_undo(&mut p, &mut sel, &mut h));
    assert_eq!(ids(&p), vec![1, 2]);
}

#[test]
fn duplicate_skips_missing_layers_but_still_records_history() {
    let mut p = Project::default();
    let mut sel = vec![42];
    p.selected_layer = Some(42);
    let mut h = History::new();
    let new_ids = do_duplicate(&mut p, &mut sel, &mut h);
    assert!(new_ids.is_empty());
    assert!(sel.is_empty());
    assert_eq!(p.selected_layer, None);
    assert!(h.can_undo());
}

#[test]
fn duplicate_sees_copies_made_earlier_in_the_same_command() {
    // Id 3 is not in the project yet; it is the id the first copy receives,
    // so the second target finds (and copies) that copy.
    let mut p = Project::default();
    let mut sel = vec![2, 3];
    let mut h = History::new();
    let new_ids = do_duplicate(&mut p, &mut sel, &mut h);
    assert_eq!(new_ids, vec![3, 4]);
    assert_eq!(names(&p)[3], "Headline copy copy");
}

#[test]
fn add_layer_selects_and_records() {
    let mut p = Project::default();
    let mut sel = vec![1];
    let mut h = History::new();
    let id = do_add_layer(
        &mut p,
        &mut sel,
        &mut h,
        "Shape".to_string(),
        LayerKind::Shape(ShapeLayer { fill_color: [40, 100, 240, 255] }),
        transform(421.0),
    );
    assert_eq!(id, 3);
    assert_eq!(p.next_id, 4);
    assert_eq!(ids(&p), vec![1, 2, 3]);
    assert_eq!((p.selected_layer, sel.clone()), (Some(3), vec![3]));
    assert!(p.layers[2].visible);
    assert!(do_undo(&mut p, &mut sel, &mut h));
    assert_eq!(ids(&p), vec![1, 2]);
}

#[test]
fn visibility_toggle_and_reorder_are_undoable() {
    let mut p = Project::default();
    let mut sel: Vec<u64> = Vec::new();
    let mut h = History::new();
    toggle_layer_visibility(&mut p, &mut h, 1);
    assert!(!p.layers[0].visible);
    toggle_layer_visibility(&mut p, &mut h, 77);
    assert!(!p.layers[0].visible);
    move_layer_up(&mut p, &mut h, 0);
    assert_eq!(ids(&p), vec![2, 1]);
    move_layer_down(&mut p, &mut h, 1);
    assert_eq!(ids(&p), vec![1, 2]);
    assert!(do_undo(&mut p, &mut sel, &mut h));
    assert_eq!(ids(&p), vec![2, 1]);
    assert!(do_undo(&mut p, &mut sel, &mut h));
    assert!(do_undo(&mut p, &mut sel, &mut h));
    assert!(do_undo(&mut p, &mut sel, &mut h));
    assert_eq!(ids(&p), vec![1, 2]);
    assert!(p.layers[0].visible);
}

#[test]
fn screen_photo_links() {
    let mut p = Project::default();
    p.layers.insert(
        0,
        Layer {
            id: 3,
            name: "Screen".to_string(),
            visible: true,
            kind: LayerKind::Image(ImageLayer { path: "s.png".to_string(), crop: None, linked_frame_id: Some(1) }),
            transform: transform(0.0),
        },
    );
    p.layers.push(Layer {
        id: 4,
        name: "Laptop".to_string(),
        visible: true,
        kind: LayerKind::DeviceFrame(DeviceFrameLayer {
            style: FrameColor::Silver,
            custom_image_path: None,
            kind: FrameKind::Laptop,
        }),
        transform: transform(0.0),
    });
    assert_eq!(find_screen_image_for_frame(&p, 1), Some(3));
    assert_eq!(find_screen_image_for_frame(&p, 4), None);
    assert_eq!(linked_screen_photo(&p, 1), Some(3));
    assert_eq!(linked_screen_photo(&p, 2), None);
    assert_eq!(linked_screen_photo(&p, 4), None);
    assert_eq!(frame_kind(&p, 4), FrameKind::Laptop);
    assert_eq!(frame_kind(&p, 1), FrameKind::Phone);
    assert_eq!(frame_kind(&p, 2), FrameKind::Phone);
    assert_eq!(frame_kind(&p, 99), FrameKind::Phone);
}

#[test]
fn new_design_uses_the_bundled_iphone_frame() {
    let mut p = Project::default();
    p.layers.clear();
    let mut h = History::new();
    h.push(Project::default());
    let ph = photos();
    do_new(&mut p, &mut h, &ph);
    assert_eq!(ids(&p), vec![1, 2]);
    match &p.layers[0].kind {
        LayerKind::DeviceFrame(f) => assert_eq!(f.custom_image_path.as_deref(), Some("/tmp/iphone_frame.png")),
        _ => panic!("frame expected"),
    }
    assert!(!h.can_undo());
}

fn point_in(px: f32, py: f32) -> impl Fn(&Transform) -> bool {
    move |t: &Transform| {
        let (x, y) = (f32::from_bits(t.x.0), f32::from_bits(t.y.0));
        let (w, h) = (f32::from_bits(t.width.0), f32::from_bits(t.height.0));
        px >= x && px <= x + w && py >= y && py <= y + h
    }
}

#[test]
fn hit_test_finds_the_topmost_visible_layer_under_the_pointer() {
    let mut p = Project::default();
    p.layers = vec![shape(1, "a"), shape(2, "b"), shape(3, "c")];
    p.layers[2].visible = false;
    assert_eq!(hit_test_layer(&p, &point_in(5.0, 5.0)), Some(2));
    assert_eq!(hit_test_layer(&p, &point_in(1.5, 5.0)), Some(1));
    assert_eq!(hit_test_layer(&p, &point_in(12.5, 5.0)), None);
    assert_eq!(hit_test_layer(&p, &point_in(0.5, 5.0)), None);
    p.layers[2].visible = true;
    assert_eq!(hit_test_layer(&p, &point_in(5.0, 5.0)), Some(3));
}

#[test]
fn linked_photo_follows_its_frame() {
    let mut p = Project::default();
    let mut photo_t = transform(0.0);
    photo_t.opacity = bits(40.0);
    p.layers.insert(
        0,
        Layer {
            id: 3,
            name: "Screen Photo".to_string(),
            visible: true,
            kind: LayerKind::Image(ImageLayer { path: "s.png".to_string(), crop: None, linked_frame_id: Some(1) }),
            transform: photo_t,
        },
    );
    let frame_at = p.layers.iter().position(|l| l.id == 1).unwrap();
    p.layers[frame_at].transform.rotation_deg = bits(15.0);
    p.layers[frame_at].transform.mirror_h = true;
    let frame_t = p.layers[frame_at].transform;
    let inset = |t: &Transform, kind: FrameKind| {
        assert_eq!(kind, FrameKind::Phone);
        let f = |b: F32Bits| f32::from_bits(b.0);
        (bits(f(t.x) + 10.0), bits(f(t.y) + 20.0), bits(f(t.width) - 30.0), bits(f(t.height) - 40.0))
    };
    sync_linked_photo_transform(&mut p, 1, &inset);
    let photo = &p.layers[0].transform;
    assert_eq!(photo.x, bits(f32::from_bits(frame_t.x.0) + 10.0));
    assert_eq!(photo.y, bits(f32::from_bits(frame_t.y.0) + 20.0));
    assert_eq!(photo.width, bits(f32::from_bits(frame_t.width.0) - 30.0));
    assert_eq!(photo.height, bits(f32::from_bits(frame_t.height.0) - 40.0));
    assert_eq!(photo.rotation_deg, bits(15.0));
    assert!(photo.mirror_h);
    assert!(!photo.mirror_v);
    assert_eq!(photo.opacity, bits(40.0));

    let before: Vec<Transform> = p.layers.iter().map(|l| l.transform).collect();
    sync_linked_photo_transform(&mut p, 2, &inset);
    sync_linked_photo_transform(&mut p, 3, &inset);
    let after: Vec<Transform> = p.layers.iter().map(|l| l.transform).collect();
    assert_eq!(format!("{:?}", before), format!("{:?}", after));
}

#[test]
fn grabbing_a_multi_selected_layer_moves_the_group() {
    let mut p = Project::default();
    p.layers = vec![shape(1, "a"), shape(2, "b"), shape(3, "c")];
    let mut sel = vec![1, 3];
    p.selected_layer = Some(3);
    assert!(grab_for_drag(&mut p, &mut sel, 1));
    assert_eq!(sel, vec![1, 3]);
    assert_eq!(p.selected_layer, Some(1));

    assert!(!grab_for_drag(&mut p, &mut sel, 2));
    assert_eq!(sel, vec![2]);
    assert_eq!(p.selected_layer, Some(2));

    // a single selected layer is grabbed alone
    assert!(!grab_for_drag(&mut p, &mut sel, 2));
    assert_eq!(sel, vec![2]);
}

#[test]
fn keyboard_history_shortcuts() {
    // in_editor, text focused, command, ctrl, shift, z, y
    assert_eq!(history_shortcut(true, false, true, false, false, true, false), Some(HistoryKey::Undo));
    assert_eq!(history_shortcut(true, false, false, true, false, true, false), Some(HistoryKey::Undo));
    assert_eq!(history_shortcut(true, false, true, false, true, true, false), Some(HistoryKey::Redo));
    assert_eq!(history_shortcut(true, false, false, true, false, false, true), Some(HistoryKey::Redo));
    assert_eq!(history_shortcut(true, false, false, false, false, true, false), None);
    assert_eq!(history_shortcut(true, true, true, false, false, true, false), None);
    assert_eq!(history_shortcut(false, false, true, false, false, true, false), None);
}

#[test]
fn undo_and_redo_bring_the_selection_back_in_step() {
    let mut p = Project::default();
    p.layers = vec![shape(1, "a"), shape(2, "b"), shape(3, "c")];
    p.next_id = 4;
    let mut sel = vec![1, 3];
    p.selected_layer = Some(3);
    let mut h = History::new();
    // deleting clears the selection; undo restores the primary layer 3
    assert!(do_delete(&mut p, &mut sel, &mut h));
    assert!(sel.is_empty());
    assert!(do_undo(&mut p, &mut sel, &mut h));
    assert_eq!((p.selected_layer, sel.clone()), (Some(3), vec![3]));
    // redo restores "nothing selected"
    assert!(do_redo(&mut p, &mut sel, &mut h));
    assert_eq!((p.selected_layer, sel.clone()), (None, vec![]));
}

#[test]
fn resync_keeps_a_selection_in_step_and_replaces_one_out_of_step() {
    let mut p = Project::default();
    p.selected_layer = Some(2);
    let mut sel = vec![1, 2];
    resync_selection(&p, &mut sel);
    assert_eq!(sel, vec![1, 2]);
    let mut sel = vec![1, 1, 2];
    resync_selection(&p, &mut sel);
    assert_eq!(sel, vec![2]);
    let mut sel = vec![1];
    resync_selection(&p, &mut sel);
    assert_eq!(sel, vec![2]);
    p.selected_layer = None;
    resync_selection(&p, &mut sel);
    assert!(sel.is_empty());
}

#[test]
fn a_drag_gesture_is_one_undo_step() {
    let mut p = Project::default();
    let mut sel: Vec<u64> = Vec::new();
    let mut h = History::new();
    let mut taken = false;
    for step in 0..5 {
        record_drag_start(&p, &mut h, &mut taken);
        p.layers[1].transform.x = F32Bits((step as f32 * 10.0).to_bits());
    }
    assert!(taken);
    assert!(do_undo(&mut p, &mut sel, &mut h));
    assert_eq!(p.layers[1].transform.x, Project::default().layers[1].transform.x);
    assert!(!h.can_undo());
}
