use mockup_studio::network::{
    asset_paths, frame_header, frame_message, payload_len, remap_asset_paths, Role, DEFAULT_PORT,
};
use mockup_studio::model::{
    Background, DeviceFrameLayer, F32Bits, FrameColor, FrameKind, ImageLayer, Layer, LayerKind,
    Project, ShadowStyle, Transform,
};

fn transform() -> Transform {
    let b = |v: f32| F32Bits(v.to_bits());
    Transform {
        x: b(0.0),
        y: b(0.0),
        width: b(100.0),
        height: b(100.0),
        rotation_deg: b(0.0),
        opacity: b(100.0),
        mirror_h: false,
        mirror_v: false,
        corner_radius: b(0.0),
        shadow: ShadowStyle::default(),
    }
}

fn image(id: u64, path: &str) -> Layer {
    Layer {
        id,
        name: "Image".to_string(),
        visible: true,
        kind: LayerKind::Image(ImageLayer { path: path.to_string(), crop: None, linked_frame_id: None }),
        transform: transform(),
    }
}

fn frame(id: u64, path: Option<&str>) -> Layer {
    Layer {
        id,
        name: "Frame".to_string(),
        visible: true,
        kind: LayerKind::DeviceFrame(DeviceFrameLayer {
            style: FrameColor::SpaceGray,
            custom_image_path: path.map(|p| p.to_string()),
            kind: FrameKind::Phone,
        }),
        transform: transform(),
    }
}

fn sample_project() -> Project {
    let mut p = Project::default();
    p.background = Background::Image { path: "bg.png".to_string() };
    p.layers.push(image(3, "a.png"));
    p.layers.push(frame(4, Some("a.png")));
    p.layers.push(image(5, ""));
    p.layers.push(frame(6, None));
    p.layers.push(image(7, "b.png"));
    p.layers.push(image(8, "bg.png"));
    p
}

fn image_paths(p: &Project) -> Vec<Option<String>> {
    p.layers
        .iter()
        .map(|l| match &l.kind {
            LayerKind::Image(img) => Some(img.path.clone()),
            LayerKind::DeviceFrame(f) => f.custom_image_path.clone(),
            _ => None,
        })
        .collect()
}

#[test]
fn frame_header_is_big_endian_length() {
    assert_eq!(frame_header(300), [0, 0, 1, 44]);
    assert_eq!(frame_header(0), [0, 0, 0, 0]);
    assert_eq!(frame_header(0x0102_0304), [1, 2, 3, 4]);
    assert_eq!(payload_len([0, 0, 1, 44]), 300);
    assert_eq!(payload_len([255, 255, 255, 255]), 4_294_967_295);
}

#[test]
fn frame_header_keeps_the_low_32_bits() {
    let len: u64 = 0x1_0000_0001;
    if let Ok(len) = usize::try_from(len) {
        assert_eq!(frame_header(len), [0, 0, 0, 1]);
    }
}

#[test]
fn framed_message_round_trips() {
    let payload = br#"{"kind":"Cursor","x":1.0,"y":2.0,"name":"A"}"#.to_vec();
    let framed = frame_message(&payload);
    assert_eq!(framed.len(), payload.len() + 4);
    let header = [framed[0], framed[1], framed[2], framed[3]];
    assert_eq!(payload_len(header), payload.len());
    assert_eq!(&framed[4..], &payload[..]);
    assert_eq!(frame_message(&vec![7, 8, 9]), vec![0, 0, 0, 3, 7, 8, 9]);
    assert_eq!(frame_message(&Vec::new()), vec![0, 0, 0, 0]);
}

#[test]
fn asset_paths_lists_each_referenced_file_once() {
    let p = sample_project();
    assert_eq!(asset_paths(&p), vec!["bg.png".to_string(), "a.png".to_string(), "b.png".to_string()]);
    assert!(asset_paths(&Project::default()).is_empty());
}

#[test]
fn remap_rewrites_paths_and_the_last_pair_wins() {
    let mut p = sample_project();
    let remap = vec![
        ("a.png".to_string(), "/cache/1.png".to_string()),
        ("b.png".to_string(), "/cache/2.png".to_string()),
        ("a.png".to_string(), "/cache/3.png".to_string()),
    ];
    remap_asset_paths(&mut p, &remap);
    assert!(matches!(&p.background, Background::Image { path } if path == "bg.png"));
    assert_eq!(
        image_paths(&p),
        vec![
            None,
            None,
            Some("/cache/3.png".to_string()),
            Some("/cache/3.png".to_string()),
            Some(String::new()),
            None,
            Some("/cache/2.png".to_string()),
            Some("bg.png".to_string()),
        ]
    );
    assert_eq!(p.layers.len(), 8);
    assert_eq!(p.layers[2].id, 3);
}

#[test]
fn remap_with_every_asset_points_only_at_local_copies() {
    let mut p = sample_project();
    let remap: Vec<(String, String)> = asset_paths(&p)
        .into_iter()
        .enumerate()
        .map(|(i, path)| (path, format!("/local/{i}.png")))
        .collect();
    remap_asset_paths(&mut p, &remap);
    let after = asset_paths(&p);
    assert!(!after.is_empty());
    for path in after {
        assert!(path.starts_with("/local/"), "{path}");
    }
}

#[test]
fn remap_with_nothing_keeps_the_project() {
    let mut p = sample_project();
    remap_asset_paths(&mut p, &Vec::new());
    assert_eq!(asset_paths(&p), asset_paths(&sample_project()));
    assert_eq!(image_paths(&p), image_paths(&sample_project()));
}

#[test]
fn default_port_and_roles() {
    assert_eq!(DEFAULT_PORT, 7878);
    assert_ne!(Role::Host, Role::Client);
}
