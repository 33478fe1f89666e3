use vstd::prelude::*;

verus! {

/// Width in pixels of a newly created canvas.
pub const CANVAS_WIDTH: u32 = 1242;

/// Height in pixels of a newly created canvas.
pub const CANVAS_HEIGHT: u32 = 2688;

/// A single-precision geometric quantity (a position, size, angle, opacity,
/// font size ...), held as its IEEE-754 bit pattern. The document logic never
/// computes with these values; it stores, copies and compares them, and the
/// renderer reads them back with `f32::from_bits`.
#[derive(Clone, Copy, Debug, PartialEq, Eq, Structural)]
pub struct F32Bits(pub u32);

/// The bit pattern of `0.0`.
pub const BITS_0: u32 = 0x0000_0000;

/// The bit pattern of `1.0`.
pub const BITS_1: u32 = 0x3F80_0000;

/// The bit pattern of `100.0` (fully opaque).
pub const BITS_100: u32 = 0x42C8_0000;

/// The bit pattern of `10.0`.
pub const BITS_10: u32 = 0x4120_0000;

/// The bit pattern of `20.0`.
pub const BITS_20: u32 = 0x41A0_0000;

/// The bit pattern of `1.2` (the default line height).
pub const BITS_1_2: u32 = 0x3F99_999A;

/// The bit pattern of `61.0`.
pub const BITS_61: u32 = 0x4274_0000;

/// The bit pattern of `80.0`.
pub const BITS_80: u32 = 0x42A0_0000;

/// The bit pattern of `90.0`.
pub const BITS_90: u32 = 0x42B4_0000;

/// The bit pattern of `200.0`.
pub const BITS_200: u32 = 0x4348_0000;

/// The bit pattern of `204.0`.
pub const BITS_204: u32 = 0x434C_0000;

/// The bit pattern of `300.0`.
pub const BITS_300: u32 = 0x4396_0000;

/// The bit pattern of `1082.0`.
pub const BITS_1082: u32 = 0x4487_4000;

/// The bit pattern of `1120.0`.
pub const BITS_1120: u32 = 0x448C_0000;

/// The bit pattern of `2280.0`.
pub const BITS_2280: u32 = 0x450E_8000;

/// The canvas fill behind every layer.
pub enum Background {
    Color([u8; 4]),
    Gradient { from: [u8; 4], to: [u8; 4], angle_deg: F32Bits },
    Image { path: String },
}

/// Drop shadow drawn under an image or shape layer.
#[derive(Clone, Copy, Debug)]
pub struct ShadowStyle {
    pub enabled: bool,
    pub color: [u8; 4],
    pub blur: F32Bits,
    pub offset_x: F32Bits,
    pub offset_y: F32Bits,
}

/// Placement of a layer on the canvas.
#[derive(Clone, Copy, Debug)]
pub struct Transform {
    pub x: F32Bits,
    pub y: F32Bits,
    pub width: F32Bits,
    pub height: F32Bits,
    pub rotation_deg: F32Bits,
    pub opacity: F32Bits,
    pub mirror_h: bool,
    pub mirror_v: bool,
    pub corner_radius: F32Bits,
    pub shadow: ShadowStyle,
}

/// Normalized crop window of an image layer.
#[derive(Clone, Copy, Debug)]
pub struct CropRect {
    pub x: F32Bits,
    pub y: F32Bits,
    pub w: F32Bits,
    pub h: F32Bits,
}

/// A photo or other raster image placed on the canvas.
pub struct ImageLayer {
    pub path: String,
    pub crop: Option<CropRect>,
    /// Set when this image is a device frame's screen content, so it can be
    /// moved/resized together with that frame. Points at the frame layer's id.
    pub linked_frame_id: Option<u64>,
}

/// Font weight on the CSS scale (100 = thin ... 900 = black).
pub type FontWeight = u16;

#[derive(Clone, Copy, Debug, PartialEq, Eq, Structural)]
pub enum TextAlign {
    Left,
    Center,
    Right,
}

/// A block of (possibly multi-line) text.
pub struct TextLayer {
    pub content: String,
    pub font_size: F32Bits,
    pub weight: FontWeight,
    pub line_height: F32Bits,
    pub letter_spacing: F32Bits,
    pub color: [u8; 4],
    pub align: TextAlign,
}

/// Colour of the built-in procedural device frame.
#[derive(Clone, Copy, Debug, PartialEq, Eq, Structural)]
pub enum FrameColor {
    SpaceGray,
    Silver,
    Gold,
    PacificBlue,
}

/// Which device a frame depicts; controls the screen-inset proportions used
/// for a linked screen photo.
#[derive(Clone, Copy, Debug, PartialEq, Eq, Structural)]
pub enum FrameKind {
    Phone,
    Laptop,
    Android,
    AndroidWaterdrop,
    Ipad,
    /// A phone held in a hand, with a transparent screen hole.
    PhoneHand,
}

/// A device frame drawn around a screen photo.
pub struct DeviceFrameLayer {
    pub style: FrameColor,
    /// When set, this real device-frame image is drawn instead of the
    /// built-in procedural silhouette.
    pub custom_image_path: Option<String>,
    pub kind: FrameKind,
}

/// A solid rounded rectangle.
pub struct ShapeLayer {
    pub fill_color: [u8; 4],
}

/// A freehand-paintable raster layer: a plain RGBA pixel buffer the brush
/// tool draws into directly, composited like any other layer.
pub struct PaintLayer {
    pub width: u32,
    pub height: u32,
    /// RGBA8, `width * height * 4` bytes, row-major top-to-bottom.
    pub pixels: Vec<u8>,
}

/// What a layer draws.
pub enum LayerKind {
    Image(ImageLayer),
    Text(TextLayer),
    DeviceFrame(DeviceFrameLayer),
    Shape(ShapeLayer),
    Paint(PaintLayer),
}

/// One entry of the layer stack.
pub struct Layer {
    pub id: u64,
    pub name: String,
    pub visible: bool,
    pub kind: LayerKind,
    pub transform: Transform,
}

/// A whole design: canvas size, background and the layer stack (bottom first).
pub struct Project {
    pub canvas_width: u32,
    pub canvas_height: u32,
    pub background: Background,
    pub layers: Vec<Layer>,
    pub next_id: u64,
    pub selected_layer: Option<u64>,
}


/// Abstract value of a paint layer: its size and pixel bytes.
pub struct PaintView {
    pub width: u32,
    pub height: u32,
    pub pixels: Seq<u8>,
}

/// Abstract value of a layer's content.
pub enum LayerKindView {
    Image(ImageLayer),
    Text(TextLayer),
    DeviceFrame(DeviceFrameLayer),
    Shape(ShapeLayer),
    Paint(PaintView),
}

/// Abstract value of a layer.
pub struct LayerView {
    pub id: u64,
    pub name: String,
    pub visible: bool,
    pub kind: LayerKindView,
    pub transform: Transform,
}

/// Abstract value of a project: its layer stack as a sequence.
pub struct ProjectView {
    pub canvas_width: u32,
    pub canvas_height: u32,
    pub background: Background,
    pub layers: Seq<LayerView>,
    pub next_id: u64,
    pub selected_layer: Option<u64>,
}

impl View for PaintLayer {
    type V = PaintView;

    open spec fn view(&self) -> PaintView {
        PaintView { width: self.width, height: self.height, pixels: self.pixels@ }
    }
}

impl View for LayerKind {
    type V = LayerKindView;

    open spec fn view(&self) -> LayerKindView {
        match self {
            LayerKind::Image(l) => LayerKindView::Image(*l),
            LayerKind::Text(l) => LayerKindView::Text(*l),
            LayerKind::DeviceFrame(l) => LayerKindView::DeviceFrame(*l),
            LayerKind::Shape(l) => LayerKindView::Shape(*l),
            LayerKind::Paint(l) => LayerKindView::Paint(l@),
        }
    }
}

impl View for Layer {
    type V = LayerView;

    open spec fn view(&self) -> LayerView {
        LayerView {
            id: self.id,
            name: self.name,
            visible: self.visible,
            kind: self.kind@,
            transform: self.transform,
        }
    }
}

/// The abstract values of a vector of layers.
pub open spec fn layers_view(layers: Seq<Layer>) -> Seq<LayerView> {
    Seq::new(layers.len(), |i: int| layers[i]@)
}

impl View for Project {
    type V = ProjectView;

    open spec fn view(&self) -> ProjectView {
        ProjectView {
            canvas_width: self.canvas_width,
            canvas_height: self.canvas_height,
            background: self.background,
            layers: layers_view(self.layers@),
            next_id: self.next_id,
            selected_layer: self.selected_layer,
        }
    }
}

fn clone_opt_string(s: &Option<String>) -> (r: Option<String>)
    ensures
        r == *s,
{
    match s {
        Some(v) => Some(v.clone()),
        None => None,
    }
}

impl Clone for Background {
    fn clone(&self) -> (r: Self)
        ensures
            r == *self,
    {
        match self {
            Background::Color(c) => Background::Color(*c),
            Background::Gradient { from, to, angle_deg } => Background::Gradient {
                from: *from,
                to: *to,
                angle_deg: *angle_deg,
            },
            Background::Image { path } => Background::Image { path: path.clone() },
        }
    }
}

impl Clone for ImageLayer {
    fn clone(&self) -> (r: Self)
        ensures
            r == *self,
    {
        ImageLayer {
            path: self.path.clone(),
            crop: self.crop,
            linked_frame_id: self.linked_frame_id,
        }
    }
}

impl Clone for TextLayer {
    fn clone(&self) -> (r: Self)
        ensures
            r == *self,
    {
        TextLayer {
            content: self.content.clone(),
            font_size: self.font_size,
            weight: self.weight,
            line_height: self.line_height,
            letter_spacing: self.letter_spacing,
            color: self.color,
            align: self.align,
        }
    }
}

impl Clone for DeviceFrameLayer {
    fn clone(&self) -> (r: Self)
        ensures
            r == *self,
    {
        DeviceFrameLayer {
            style: self.style,
            custom_image_path: clone_opt_string(&self.custom_image_path),
            kind: self.kind,
        }
    }
}

impl Clone for ShapeLayer {
    fn clone(&self) -> (r: Self)
        ensures
            r == *self,
    {
        ShapeLayer { fill_color: self.fill_color }
    }
}

impl Clone for PaintLayer {
    fn clone(&self) -> (r: Self)
        ensures
            r@ == self@,
    {
        let pixels = self.pixels.clone();
        assert(pixels@ =~= self.pixels@);
        PaintLayer { width: self.width, height: self.height, pixels }
    }
}

impl Clone for LayerKind {
    fn clone(&self) -> (r: Self)
        ensures
            r@ == self@,
    {
        match self {
            LayerKind::Image(l) => LayerKind::Image(l.clone()),
            LayerKind::Text(l) => LayerKind::Text(l.clone()),
            LayerKind::DeviceFrame(l) => LayerKind::DeviceFrame(l.clone()),
            LayerKind::Shape(l) => LayerKind::Shape(l.clone()),
            LayerKind::Paint(l) => LayerKind::Paint(l.clone()),
        }
    }
}

impl Clone for Layer {
    fn clone(&self) -> (r: Self)
        ensures
            r@ == self@,
    {
        Layer {
            id: self.id,
            name: self.name.clone(),
            visible: self.visible,
            kind: self.kind.clone(),
            transform: self.transform,
        }
    }
}

fn clone_layers(layers: &Vec<Layer>) -> (r: Vec<Layer>)
    ensures
        layers_view(r@) == layers_view(layers@),
{
    let mut out: Vec<Layer> = Vec::new();
    let mut i: usize = 0;
    while i < layers.len()
        invariant
            i <= layers.len(),
            out@.len() == i,
            forall|j: int| 0 <= j < i ==> #[trigger] out@[j]@ == layers@[j]@,
        decreases layers.len() - i,
    {
        let l = layers[i].clone();
        out.push(l);
        i = i + 1;
    }
    assert(layers_view(out@) =~= layers_view(layers@));
    out
}

impl Clone for Project {
    fn clone(&self) -> (r: Self)
        ensures
            r@ == self@,
    {
        let layers = clone_layers(&self.layers);
        Project {
            canvas_width: self.canvas_width,
            canvas_height: self.canvas_height,
            background: self.background.clone(),
            layers,
            next_id: self.next_id,
            selected_layer: self.selected_layer,
        }
    }
}


/// Every layer of `layers` carries an id below `next_id`, and no two layers
/// share an id: ids handed out by `Project::alloc_id` are then always fresh.
pub open spec fn ids_valid(layers: Seq<LayerView>, next_id: u64) -> bool {
    &&& forall|i: int| 0 <= i < layers.len() ==> #[trigger] layers[i].id < next_id
    &&& forall|i: int, j: int|
        0 <= i < j < layers.len() ==> #[trigger] layers[i].id != #[trigger] layers[j].id
}

/// Some layer of `layers` has id `id`.
pub open spec fn has_id(layers: Seq<LayerView>, id: u64) -> bool {
    exists|i: int| 0 <= i < layers.len() && #[trigger] layers[i].id == id
}

/// `i` is the position of the first (bottom-most) layer with id `id`.
pub open spec fn is_first_with_id(layers: Seq<LayerView>, id: u64, i: int) -> bool {
    &&& 0 <= i < layers.len()
    &&& layers[i].id == id
    &&& forall|j: int| 0 <= j < i ==> #[trigger] layers[j].id != id
}

/// Position of the first layer with id `id` (meaningful when `has_id`).
pub open spec fn first_with_id(layers: Seq<LayerView>, id: u64) -> int {
    choose|i: int| is_first_with_id(layers, id, i)
}

/// The first layer with id `id`, if any.
pub open spec fn layer_with_id(layers: Seq<LayerView>, id: u64) -> Option<LayerView> {
    if has_id(layers, id) {
        Some(layers[first_with_id(layers, id)])
    } else {
        None
    }
}

/// The first position holding `id` is unique, so `first_with_id` names it.
pub proof fn lemma_first_with_id(layers: Seq<LayerView>, id: u64, i: int)
    requires
        is_first_with_id(layers, id, i),
    ensures
        first_with_id(layers, id) == i,
        has_id(layers, id),
{
    let k = first_with_id(layers, id);
    assert(is_first_with_id(layers, id, k));
    if k < i {
        assert(layers[k].id != id);
    } else if i < k {
        assert(layers[i].id != id);
    }
}

/// When some layer has id `id`, `first_with_id` is the first such position.
pub proof fn lemma_has_id_first(layers: Seq<LayerView>, id: u64)
    requires
        has_id(layers, id),
    ensures
        is_first_with_id(layers, id, first_with_id(layers, id)),
    decreases layers.len(),
{
    let init = layers.drop_last();
    if has_id(init, id) {
        lemma_has_id_first(init, id);
        let f = first_with_id(init, id);
        assert forall|j: int| 0 <= j < f implies #[trigger] layers[j].id != id by {
            assert(init[j].id != id);
        }
        assert(is_first_with_id(layers, id, f));
    } else {
        let last = layers.len() - 1;
        assert forall|j: int| 0 <= j < last implies #[trigger] layers[j].id != id by {
            if layers[j].id == id {
                assert(init[j].id == id);
            }
        }
        assert(is_first_with_id(layers, id, last));
    }
}

/// The label shown for each kind of layer in the layers panel.
pub open spec fn kind_label(kind: LayerKindView) -> Seq<char> {
    match kind {
        LayerKindView::Image(_) => "Image"@,
        LayerKindView::Text(_) => "Text"@,
        LayerKindView::DeviceFrame(_) => "Device Frame"@,
        LayerKindView::Shape(_) => "Shape"@,
        LayerKindView::Paint(_) => "Paint"@,
    }
}

impl LayerKind {
    pub fn type_label(&self) -> (r: &'static str)
        ensures
            r@ == kind_label(self@),
    {
        match self {
            LayerKind::Image(_) => "Image",
            LayerKind::Text(_) => "Text",
            LayerKind::DeviceFrame(_) => "Device Frame",
            LayerKind::Shape(_) => "Shape",
            LayerKind::Paint(_) => "Paint",
        }
    }
}

impl PaintLayer {
    /// A fully transparent paint layer of the given size.
    pub fn new_transparent(width: u32, height: u32) -> (r: Self)
        requires
            width * height * 4 <= u32::MAX,
        ensures
            r.width == width,
            r.height == height,
            r.pixels@ == Seq::new((width * height * 4) as nat, |i: int| 0u8),
    {
        assert(width * height <= u32::MAX) by (nonlinear_arith)
            requires
                width * height * 4 <= u32::MAX,
        ;
        let n: u32 = width * height * 4;
        let pixels = vec![0u8; n as usize];
        assert(pixels@ =~= Seq::new((width * height * 4) as nat, |i: int| 0u8));
        PaintLayer { width, height, pixels }
    }
}

/// The base colour of each procedural frame style.
pub open spec fn frame_rgb(c: FrameColor) -> Seq<u8> {
    match c {
        FrameColor::SpaceGray => seq![63u8, 63u8, 68u8],
        FrameColor::Silver => seq![226u8, 226u8, 230u8],
        FrameColor::Gold => seq![246u8, 220u8, 185u8],
        FrameColor::PacificBlue => seq![69u8, 100u8, 120u8],
    }
}

/// The display name of each procedural frame style.
pub open spec fn frame_label(c: FrameColor) -> Seq<char> {
    match c {
        FrameColor::SpaceGray => "Space Gray"@,
        FrameColor::Silver => "Silver"@,
        FrameColor::Gold => "Gold"@,
        FrameColor::PacificBlue => "Pacific Blue"@,
    }
}

impl FrameColor {
    pub fn rgb(&self) -> (r: [u8; 3])
        ensures
            r@ == frame_rgb(*self),
    {
        let r = match self {
            FrameColor::SpaceGray => [63, 63, 68],
            FrameColor::Silver => [226, 226, 230],
            FrameColor::Gold => [246, 220, 185],
            FrameColor::PacificBlue => [69, 100, 120],
        };
        assert(r@ =~= frame_rgb(*self));
        r
    }

    pub fn label(&self) -> (r: &'static str)
        ensures
            r@ == frame_label(*self),
    {
        match self {
            FrameColor::SpaceGray => "Space Gray",
            FrameColor::Silver => "Silver",
            FrameColor::Gold => "Gold",
            FrameColor::PacificBlue => "Pacific Blue",
        }
    }

    /// Every frame style, in menu order.
    pub const ALL: [FrameColor; 4] = [
        FrameColor::SpaceGray,
        FrameColor::Silver,
        FrameColor::Gold,
        FrameColor::PacificBlue,
    ];
}

impl Default for ShadowStyle {
    fn default() -> (r: Self)
        ensures
            !r.enabled,
            r.color@ == seq![0u8, 0u8, 0u8, 160u8],
            r.blur == F32Bits(BITS_20),
            r.offset_x == F32Bits(BITS_0),
            r.offset_y == F32Bits(BITS_10),
    {
        let r = ShadowStyle {
            enabled: false,
            color: [0, 0, 0, 160],
            blur: F32Bits(BITS_20),
            offset_x: F32Bits(BITS_0),
            offset_y: F32Bits(BITS_10),
        };
        assert(r.color@ =~= seq![0u8, 0u8, 0u8, 160u8]);
        r
    }
}

impl Default for CropRect {
    /// The whole image.
    fn default() -> (r: Self)
        ensures
            r.x == F32Bits(BITS_0),
            r.y == F32Bits(BITS_0),
            r.w == F32Bits(BITS_1),
            r.h == F32Bits(BITS_1),
    {
        CropRect { x: F32Bits(BITS_0), y: F32Bits(BITS_0), w: F32Bits(BITS_1), h: F32Bits(BITS_1) }
    }
}

impl Default for FrameKind {
    fn default() -> (r: Self)
        ensures
            r == FrameKind::Phone,
    {
        FrameKind::Phone
    }
}

/// An unrotated, fully opaque, unmirrored placement with the default shadow.
pub open spec fn plain_transform(x: u32, y: u32, width: u32, height: u32) -> Transform {
    Transform {
        x: F32Bits(x),
        y: F32Bits(y),
        width: F32Bits(width),
        height: F32Bits(height),
        rotation_deg: F32Bits(BITS_0),
        opacity: F32Bits(BITS_100),
        mirror_h: false,
        mirror_v: false,
        corner_radius: F32Bits(BITS_0),
        shadow: ShadowStyle {
            enabled: false,
            color: [0u8, 0u8, 0u8, 160u8],
            blur: F32Bits(BITS_20),
            offset_x: F32Bits(BITS_0),
            offset_y: F32Bits(BITS_10),
        },
    }
}

fn make_plain_transform(x: u32, y: u32, width: u32, height: u32) -> (r: Transform)
    ensures
        r == plain_transform(x, y, width, height),
{
    let shadow = ShadowStyle::default();
    assert(shadow.color =~= [0u8, 0u8, 0u8, 160u8]);
    Transform {
        x: F32Bits(x),
        y: F32Bits(y),
        width: F32Bits(width),
        height: F32Bits(height),
        rotation_deg: F32Bits(BITS_0),
        opacity: F32Bits(BITS_100),
        mirror_h: false,
        mirror_v: false,
        corner_radius: F32Bits(BITS_0),
        shadow,
    }
}

/// The canvas of a fresh design: default size, light grey background, two
/// layers, nothing selected, ids 1 and 2 used.
pub open spec fn is_default_canvas(p: Project) -> bool {
    &&& p.canvas_width == CANVAS_WIDTH
    &&& p.canvas_height == CANVAS_HEIGHT
    &&& p.background matches Background::Color(c) && c@ == seq![245u8, 246u8, 248u8, 255u8]
    &&& p.next_id == 3
    &&& p.selected_layer is None
    &&& p.layers@.len() == 2
}

/// The device-frame layer of a fresh design (its frame image aside): a
/// centred space-grey phone frame with id 1.
pub open spec fn is_default_frame(l: Layer) -> bool {
    &&& l.id == 1
    &&& l.name@ == "iPhone 12 Pro Max"@
    &&& l.visible
    &&& l.kind matches LayerKind::DeviceFrame(f) && f.style == FrameColor::SpaceGray && f.kind
        == FrameKind::Phone
    &&& l.transform == plain_transform(BITS_61, BITS_204, BITS_1120, BITS_2280)
}

/// The headline layer of a fresh design: bold centred dark text with id 2.
pub open spec fn is_default_headline(l: Layer) -> bool {
    &&& l.id == 2
    &&& l.name@ == "Headline"@
    &&& l.visible
    &&& l.kind matches LayerKind::Text(t) && t.content@ == "Your headline here"@ && t.font_size
        == F32Bits(BITS_90) && t.weight == 700 && t.line_height == F32Bits(BITS_1_2)
        && t.letter_spacing == F32Bits(BITS_0) && t.color@ == seq![30u8, 30u8, 34u8, 255u8]
        && t.align == TextAlign::Center
    &&& l.transform == plain_transform(BITS_80, BITS_300, BITS_1082, BITS_200)
}

impl Default for Project {
    /// A fresh design: the default canvas on a light grey background with a
    /// centred iPhone frame (id 1) and a headline text layer (id 2) above it.
    fn default() -> (r: Self)
        ensures
            is_default_canvas(r),
            is_default_frame(r.layers@[0]),
            r.layers@[0].kind matches LayerKind::DeviceFrame(f) && f.custom_image_path is None,
            is_default_headline(r.layers@[1]),
            ids_valid(r@.layers, r.next_id),
    {
        let mut project = Project {
            canvas_width: CANVAS_WIDTH,
            canvas_height: CANVAS_HEIGHT,
            background: Background::Color([245, 246, 248, 255]),
            layers: Vec::new(),
            next_id: 1,
            selected_layer: None,
        };

        let frame_id = project.alloc_id();
        project.layers.push(
            Layer {
                id: frame_id,
                name: "iPhone 12 Pro Max".to_owned(),
                visible: true,
                kind: LayerKind::DeviceFrame(
                    DeviceFrameLayer {
                        style: FrameColor::SpaceGray,
                        custom_image_path: None,
                        kind: FrameKind::Phone,
                    },
                ),
                transform: make_plain_transform(BITS_61, BITS_204, BITS_1120, BITS_2280),
            },
        );

        let text_id = project.alloc_id();
        project.layers.push(
            Layer {
                id: text_id,
                name: "Headline".to_owned(),
                visible: true,
                kind: LayerKind::Text(
                    TextLayer {
                        content: "Your headline here".to_owned(),
                        font_size: F32Bits(BITS_90),
                        weight: 700,
                        line_height: F32Bits(BITS_1_2),
                        letter_spacing: F32Bits(BITS_0),
                        color: [30, 30, 34, 255],
                        align: TextAlign::Center,
                    },
                ),
                transform: make_plain_transform(BITS_80, BITS_300, BITS_1082, BITS_200),
            },
        );
        proof {
            if let Background::Color(c) = project.background {
                assert(c@ =~= seq![245u8, 246u8, 248u8, 255u8]);
            }
            if let LayerKind::Text(t) = project.layers@[1].kind {
                assert(t.color@ =~= seq![30u8, 30u8, 34u8, 255u8]);
            }
        }
        project
    }
}

impl Project {
    /// Hands out the next unused layer id.
    pub fn alloc_id(&mut self) -> (id: u64)
        requires
            old(self).next_id < u64::MAX,
        ensures
            id == old(self).next_id,
            final(self).next_id == old(self).next_id + 1,
            final(self).layers == old(self).layers,
            final(self).canvas_width == old(self).canvas_width,
            final(self).canvas_height == old(self).canvas_height,
            final(self).background == old(self).background,
            final(self).selected_layer == old(self).selected_layer,
    {
        let id = self.next_id;
        self.next_id = self.next_id + 1;
        id
    }

    /// Position of the first layer with id `id`, if any.
    pub fn layer_index(&self, id: u64) -> (r: Option<usize>)
        ensures
            match r {
                Some(i) => is_first_with_id(self@.layers, id, i as int),
                None => !has_id(self@.layers, id),
            },
    {
        let mut i: usize = 0;
        while i < self.layers.len()
            invariant
                i <= self.layers.len(),
                forall|j: int| 0 <= j < i ==> #[trigger] self@.layers[j].id != id,
            decreases self.layers.len() - i,
        {
            if self.layers[i].id == id {
                return Some(i);
            }
            i = i + 1;
        }
        None
    }

    /// The first layer with id `id`, if any.
    pub fn find_layer(&self, id: u64) -> (r: Option<&Layer>)
        ensures
            match r {
                Some(l) => has_id(self@.layers, id) && *l == self.layers@[first_with_id(
                    self@.layers,
                    id,
                )],
                None => !has_id(self@.layers, id),
            },
    {
        match self.layer_index(id) {
            Some(i) => {
                proof {
                    lemma_first_with_id(self@.layers, id, i as int);
                }
                Some(&self.layers[i])
            },
            None => None,
        }
    }

    /// Mutable access to the first layer with id `id`, if any. Everything
    /// but that one layer stays as it was.
    pub fn find_layer_mut(&mut self, id: u64) -> (r: Option<&mut Layer>)
        ensures
            match r {
                Some(l) => {
                    let i = first_with_id(old(self)@.layers, id);
                    &&& has_id(old(self)@.layers, id)
                    &&& *l == old(self).layers@[i]
                    &&& final(self).layers@ == old(self).layers@.update(i, *final(l))
                },
                None => !has_id(old(self)@.layers, id) && final(self).layers@ == old(
                    self,
                ).layers@,
            },
            final(self).canvas_width == old(self).canvas_width,
            final(self).canvas_height == old(self).canvas_height,
            final(self).background == old(self).background,
            final(self).next_id == old(self).next_id,
            final(self).selected_layer == old(self).selected_layer,
    {
        match self.layer_index(id) {
            Some(i) => {
                proof {
                    lemma_first_with_id(self@.layers, id, i as int);
                }
                Some(&mut self.layers[i])
            },
            None => None,
        }
    }
}

} // verus!
