use mockup_studio::model::{
    Background, CropRect, DeviceFrameLayer, F32Bits, FrameColor, FrameKind, ImageLayer, Layer,
    LayerKind, PaintLayer, Project, ShadowStyle, ShapeLayer, TextAlign, TextLayer, Transform,
    CANVAS_HEIGHT, CANVAS_WIDTH,
};

fn bits(v: f32) -> F32Bits {
    F32Bits(v.to_bits())
}

fn transform(x: f32, y: f32, w: f32, h: f32) -> Transform {
    Transform {
        x: bits(x),
        y: bits(y),
        width: bits(w),
        height: bits(h),
        rotation_deg: bits(0.0),
        opacity: bits(100.0),
        mirror_h: false,
        mirror_v: false,
        corner_radius: bits(0.0),
        shadow: ShadowStyle::default(),
    }
}

fn shape_layer(id: u64) -> Layer {
    Layer {
        id,
        name: format!("Shape {id}"),
        visible: true,
        kind: LayerKind::Shape(ShapeLayer { fill_color: [1, 2, 3, 4] }),
        transform: transform(0.0, 0.0, 10.0, 10.0),
    }
}

#[test]
fn default_project_matches_the_initial_design() {
    let p = Project::default();
    assert_eq!(p.canvas_width, 1242);
    assert_eq!(p.canvas_height, 2688);
    assert_eq!((CANVAS_WIDTH, CANVAS_HEIGHT), (1242, 2688));
    assert!(matches!(p.background, Background::Color([245, 246, 248, 255])));
    assert_eq!(p.next_id, 3);
    assert_eq!(p.selected_layer, None);
    assert_eq!(p.layers.len(), 2);

    let frame = &p.layers[0];
    assert_eq!(frame.id, 1);
    assert_eq!(frame.name, "iPhone 12 Pro Max");
    match &frame.kind {
        LayerKind::DeviceFrame(f) => {
            assert_eq!(f.style, FrameColor::SpaceGray);
            assert_eq!(f.custom_image_path, None);
            assert_eq!(f.kind, FrameKind::Phone);
        }
        _ => panic!("first layer should be a device frame"),
    }
    let t = frame.transform;
    assert_eq!(f32::from_bits(t.x.0), CANVAS_WIDTH as f32 * 0.5 - 560.0);
    assert_eq!(f32::from_bits(t.y.0), CANVAS_HEIGHT as f32 * 0.5 - 1140.0);
    assert_eq!(f32::from_bits(t.width.0), 1120.0);
    assert_eq!(f32::from_bits(t.height.0), 2280.0);
    assert_eq!(f32::from_bits(t.rotation_deg.0), 0.0);
    assert_eq!(f32::from_bits(t.opacity.0), 100.0);
    assert_eq!(f32::from_bits(t.corner_radius.0), 0.0);

    let text = &p.layers[1];
    assert_eq!(text.id, 2);
    assert_eq!(text.name, "Headline");
    match &text.kind {
        LayerKind::Text(tl) => {
            assert_eq!(tl.content, "Your headline here");
            assert_eq!(f32::from_bits(tl.font_size.0), 90.0);
            assert_eq!(tl.weight, 700);
            assert_eq!(f32::from_bits(tl.line_height.0), 1.2);
            assert_eq!(f32::from_bits(tl.letter_spacing.0), 0.0);
            assert_eq!(tl.color, [30, 30, 34, 255]);
            assert_eq!(tl.align, TextAlign::Center);
        }
        _ => panic!("second layer should be text"),
    }
    let t = text.transform;
    assert_eq!(f32::from_bits(t.x.0), 80.0);
    assert_eq!(f32::from_bits(t.y.0), 300.0);
    assert_eq!(f32::from_bits(t.width.0), CANVAS_WIDTH as f32 - 160.0);
    assert_eq!(f32::from_bits(t.height.0), 200.0);
}

#[test]
fn shadow_and_crop_defaults() {
    let s = ShadowStyle::default();
    assert!(!s.enabled);
    assert_eq!(s.color, [0, 0, 0, 160]);
    assert_eq!(f32::from_bits(s.blur.0), 20.0);
    assert_eq!(f32::from_bits(s.offset_x.0), 0.0);
    assert_eq!(f32::from_bits(s.offset_y.0), 10.0);

    let c = CropRect::default();
    assert_eq!(
        (f32::from_bits(c.x.0), f32::from_bits(c.y.0), f32::from_bits(c.w.0), f32::from_bits(c.h.0)),
        (0.0, 0.0, 1.0, 1.0)
    );
    assert_eq!(FrameKind::default(), FrameKind::Phone);
}

#[test]
fn alloc_id_hands_out_consecutive_ids() {
    let mut p = Project::default();
    assert_eq!(p.alloc_id(), 3);
    assert_eq!(p.alloc_id(), 4);
    assert_eq!(p.next_id, 5);
    assert_eq!(p.layers.len(), 2);
}

#[test]
fn find_layer_returns_the_first_match() {
    let mut p = Project::default();
    p.layers.push(shape_layer(7));
    let mut dup = shape_layer(7);
    dup.name = "second seven".to_string();
    p.layers.push(dup);
    assert_eq!(p.find_layer(7).map(|l| l.name.clone()), Some("Shape 7".to_string()));
    assert_eq!(p.find_layer(2).map(|l| l.name.clone()), Some("Headline".to_string()));
    assert!(p.find_layer(99).is_none());
    assert_eq!(p.layer_index(7), Some(2));
    assert_eq!(p.layer_index(99), None);
}

#[test]
fn find_layer_mut_edits_only_that_layer() {
    let mut p = Project::default();
    if let Some(l) = p.find_layer_mut(2) {
        l.visible = false;
    }
    assert!(p.layers[0].visible);
    assert!(!p.layers[1].visible);
    assert!(p.find_layer_mut(42).is_none());
}

#[test]
fn layer_kind_labels() {
    let image = LayerKind::Image(ImageLayer { path: "a.png".to_string(), crop: None, linked_frame_id: None });
    let frame = LayerKind::DeviceFrame(DeviceFrameLayer {
        style: FrameColor::Gold,
        custom_image_path: None,
        kind: FrameKind::Laptop,
    });
    let text = LayerKind::Text(TextLayer {
        content: String::new(),
        font_size: bits(10.0),
        weight: 400,
        line_height: bits(1.0),
        letter_spacing: bits(0.0),
        color: [0, 0, 0, 255],
        align: TextAlign::Left,
    });
    let shape = LayerKind::Shape(ShapeLayer { fill_color: [0, 0, 0, 0] });
    let paint = LayerKind::Paint(PaintLayer::new_transparent(1, 1));
    assert_eq!(image.type_label(), "Image");
    assert_eq!(text.type_label(), "Text");
    assert_eq!(frame.type_label(), "Device Frame");
    assert_eq!(shape.type_label(), "Shape");
    assert_eq!(paint.type_label(), "Paint");
}

#[test]
fn new_transparent_paint_layer_is_all_zero() {
    let p = PaintLayer::new_transparent(3, 2);
    assert_eq!((p.width, p.height), (3, 2));
    assert_eq!(p.pixels.len(), 24);
    assert!(p.pixels.iter().all(|&b| b == 0));
    let empty = PaintLayer::new_transparent(0, 5);
    assert!(empty.pixels.is_empty());
}

#[test]
fn frame_colors_and_labels() {
    assert_eq!(FrameColor::SpaceGray.rgb(), [63, 63, 68]);
    assert_eq!(FrameColor::Silver.rgb(), [226, 226, 230]);
    assert_eq!(FrameColor::Gold.rgb(), [246, 220, 185]);
    assert_eq!(FrameColor::PacificBlue.rgb(), [69, 100, 120]);
    assert_eq!(FrameColor::SpaceGray.label(), "Space Gray");
    assert_eq!(FrameColor::Silver.label(), "Silver");
    assert_eq!(FrameColor::Gold.label(), "Gold");
    assert_eq!(FrameColor::PacificBlue.label(), "Pacific Blue");
    assert_eq!(
        FrameColor::ALL,
        [FrameColor::SpaceGray, FrameColor::Silver, FrameColor::Gold, FrameColor::PacificBlue]
    );
}

#[test]
fn cloning_a_project_copies_everything() {
    let mut p = Project::default();
    let mut paint = PaintLayer::new_transparent(2, 2);
    paint.pixels[5] = 9;
    p.layers.push(Layer {
        id: 3,
        name: "Paint".to_string(),
        visible: true,
        kind: LayerKind::Paint(paint),
        transform: transform(1.0, 2.0, 3.0, 4.0),
    });
    let q = p.clone();
    assert_eq!(q.layers.len(), 3);
    match &q.layers[2].kind {
        LayerKind::Paint(pl) => assert_eq!(pl.pixels[5], 9),
        _ => panic!("paint layer expected"),
    }
    assert_eq!(q.layers[1].name, "Headline");
    assert_eq!(q.next_id, p.next_id);
}
