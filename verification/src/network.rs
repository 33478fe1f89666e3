use vstd::prelude::*;

use crate::model::{
    Background, DeviceFrameLayer, ImageLayer, Layer, LayerKind, LayerKindView, LayerView, Project,
    ProjectView,
};

verus! {

/// TCP port a hosted collaboration session listens on by default.
pub const DEFAULT_PORT: u16 = 7878;

/// Which side of a collaboration session this instance is.
#[derive(Clone, Copy, Debug, PartialEq, Eq, Structural)]
pub enum Role {
    Host,
    Client,
}

// ---------------------------------------------------------------------------
// Wire framing: every message is a 4-byte big-endian length followed by that
// many bytes of JSON.
// ---------------------------------------------------------------------------

/// The length field that precedes a payload of `len` bytes: `len` reduced to
/// 32 bits, most significant byte first.
pub open spec fn header_bytes(len: nat) -> Seq<u8> {
    let n = len % 0x1_0000_0000;
    seq![
        (n / 0x100_0000) as u8,
        ((n / 0x1_0000) % 0x100) as u8,
        ((n / 0x100) % 0x100) as u8,
        (n % 0x100) as u8,
    ]
}

/// The length a 4-byte big-endian length field announces.
pub open spec fn header_value(h: Seq<u8>) -> nat {
    (h[0] * 0x100_0000 + h[1] * 0x1_0000 + h[2] * 0x100 + h[3]) as nat
}

/// The bytes sent on the wire for one message.
pub open spec fn framed(payload: Seq<u8>) -> Seq<u8> {
    header_bytes(payload.len()) + payload
}

/// The length field for a payload of `len` bytes.
pub fn frame_header(len: usize) -> (r: [u8; 4])
    ensures
        r@ == header_bytes(len as nat),
{
    let n: u64 = (len as u64) % 0x1_0000_0000;
    let r = [
        (n / 0x100_0000) as u8,
        ((n / 0x1_0000) % 0x100) as u8,
        ((n / 0x100) % 0x100) as u8,
        (n % 0x100) as u8,
    ];
    assert(r@ =~= header_bytes(len as nat));
    r
}

/// The payload length announced by a received length field.
pub fn payload_len(header: [u8; 4]) -> (r: usize)
    ensures
        r as nat == header_value(header@),
{
    let v: u64 = (header[0] as u64) * 0x100_0000 + (header[1] as u64) * 0x1_0000 + (header[2] as u64)
        * 0x100 + (header[3] as u64);
    v as usize
}

/// One message as sent on the wire: the length field, then the payload.
pub fn frame_message(payload: &Vec<u8>) -> (r: Vec<u8>)
    ensures
        r@ == framed(payload@),
{
    let header = frame_header(payload.len());
    let mut out: Vec<u8> = Vec::new();
    out.push(header[0]);
    out.push(header[1]);
    out.push(header[2]);
    out.push(header[3]);
    let mut i: usize = 0;
    while i < payload.len()
        invariant
            i <= payload.len(),
            out@ == header_bytes(payload@.len()) + payload@.take(i as int),
        decreases payload.len() - i,
    {
        out.push(payload[i]);
        i = i + 1;
        assert(out@ =~= header_bytes(payload@.len()) + payload@.take(i as int));
    }
    assert(payload@.take(payload.len() as int) =~= payload@);
    out
}

/// Reading a framed message back: its first four bytes announce exactly the
/// payload's length (any payload shorter than 4 GiB), and the payload follows.
pub proof fn lemma_frame_round_trip(payload: Seq<u8>)
    requires
        payload.len() < 0x1_0000_0000,
    ensures
        framed(payload).len() == 4 + payload.len(),
        header_value(framed(payload).take(4)) == payload.len(),
        framed(payload).skip(4) == payload,
{
    let f = framed(payload);
    let n = payload.len() as int;
    assert(f.take(4) =~= header_bytes(payload.len()));
    assert(f.skip(4) =~= payload);
    let h = header_bytes(payload.len());
    assert(h[0] * 0x100_0000 + h[1] * 0x1_0000 + h[2] * 0x100 + h[3] == n) by (nonlinear_arith)
        requires
            0 <= n < 0x1_0000_0000,
            h[0] == n / 0x100_0000,
            h[1] == (n / 0x1_0000) % 0x100,
            h[2] == (n / 0x100) % 0x100,
            h[3] == n % 0x100,
    ;
}


// ---------------------------------------------------------------------------
// Image assets travelling with a project snapshot.
// ---------------------------------------------------------------------------

/// The image file a layer refers to, if any: an image layer's photo or a
/// device frame's custom frame image.
pub open spec fn layer_asset(l: LayerView) -> Seq<Seq<char>> {
    match l.kind {
        LayerKindView::Image(img) => seq![img.path@],
        LayerKindView::DeviceFrame(f) => match f.custom_image_path {
            Some(p) => seq![p@],
            None => Seq::empty(),
        },
        _ => Seq::empty(),
    }
}

/// The image files the layers refer to, bottom layer first.
pub open spec fn layers_assets(layers: Seq<LayerView>) -> Seq<Seq<char>>
    decreases layers.len(),
{
    if layers.len() == 0 {
        Seq::empty()
    } else {
        layers_assets(layers.drop_last()) + layer_asset(layers.last())
    }
}

/// Every image file a project refers to, in order: the background image
/// first, then each layer's.
pub open spec fn referenced_paths(p: ProjectView) -> Seq<Seq<char>> {
    let bg = match p.background {
        Background::Image { path } => seq![path@],
        _ => Seq::empty(),
    };
    bg + layers_assets(p.layers)
}

/// Adds `x` to the list `d` of distinct non-empty paths unless it is empty or
/// already listed.
pub open spec fn add_distinct(d: Seq<Seq<char>>, x: Seq<char>) -> Seq<Seq<char>> {
    if x.len() == 0 || d.contains(x) {
        d
    } else {
        d.push(x)
    }
}

/// The non-empty entries of `s`, each once, in order of first appearance.
pub open spec fn distinct_nonempty(s: Seq<Seq<char>>) -> Seq<Seq<char>>
    decreases s.len(),
{
    if s.len() == 0 {
        Seq::empty()
    } else {
        add_distinct(distinct_nonempty(s.drop_last()), s.last())
    }
}

/// The character sequences of a list of strings.
pub open spec fn strings_view(v: Seq<String>) -> Seq<Seq<char>> {
    Seq::new(v.len(), |i: int| v[i]@)
}

fn add_path(out: &mut Vec<String>, path: &String)
    ensures
        strings_view(final(out)@) == add_distinct(strings_view(old(out)@), path@),
{
    if path.as_str().is_empty() {
        return ;
    }
    let mut i: usize = 0;
    while i < out.len()
        invariant
            i <= out.len(),
            forall|j: int| 0 <= j < i ==> #[trigger] out@[j]@ != path@,
        decreases out.len() - i,
    {
        if out[i] == *path {
            assert(strings_view(out@)[i as int] == path@);
            return ;
        }
        i = i + 1;
    }
    proof {
        if strings_view(out@).contains(path@) {
            let k = choose|k: int| 0 <= k < out@.len() && strings_view(out@)[k] == path@;
            assert(out@[k]@ == path@);
        }
    }
    let ghost prev = out@;
    out.push(path.clone());
    assert(strings_view(out@) =~= strings_view(prev).push(path@));
}

fn layer_paths_into(out: &mut Vec<String>, layer: &Layer)
    ensures
        strings_view(final(out)@) == if layer_asset(layer@).len() == 0 {
            strings_view(old(out)@)
        } else {
            add_distinct(strings_view(old(out)@), layer_asset(layer@)[0])
        },
{
    match &layer.kind {
        LayerKind::Image(img) => add_path(out, &img.path),
        LayerKind::DeviceFrame(frame) => match &frame.custom_image_path {
            Some(p) => add_path(out, p),
            None => {},
        },
        _ => {},
    }
}

proof fn lemma_distinct_append(s: Seq<Seq<char>>, t: Seq<Seq<char>>)
    requires
        t.len() <= 1,
    ensures
        distinct_nonempty(s + t) == if t.len() == 0 {
            distinct_nonempty(s)
        } else {
            add_distinct(distinct_nonempty(s), t[0])
        },
{
    if t.len() == 0 {
        assert(s + t =~= s);
    } else {
        assert((s + t).drop_last() =~= s);
    }
}

/// The distinct, non-empty image paths a project refers to (background
/// first, then layer by layer): the files whose bytes travel with a project
/// snapshot so that the other side can show them.
pub fn asset_paths(project: &Project) -> (r: Vec<String>)
    ensures
        strings_view(r@) == distinct_nonempty(referenced_paths(project@)),
{
    let mut out: Vec<String> = Vec::new();
    let ghost bg = match &project.background {
        Background::Image { path } => seq![path@],
        _ => Seq::<Seq<char>>::empty(),
    };
    match &project.background {
        Background::Image { path } => add_path(&mut out, path),
        _ => {},
    }
    proof {
        lemma_distinct_append(Seq::empty(), bg);
        assert(Seq::<Seq<char>>::empty() + bg =~= bg);
        assert(strings_view(Seq::<String>::empty()) =~= Seq::<Seq<char>>::empty());
        assert(bg + layers_assets(project@.layers.take(0)) =~= bg);
    }
    let mut i: usize = 0;
    while i < project.layers.len()
        invariant
            i <= project.layers.len(),
            strings_view(out@) == distinct_nonempty(bg + layers_assets(project@.layers.take(i as int))),
        decreases project.layers.len() - i,
    {
        layer_paths_into(&mut out, &project.layers[i]);
        proof {
            let pre = project@.layers.take(i as int);
            let l = project@.layers[i as int];
            assert(project@.layers.take(i + 1).drop_last() =~= pre);
            assert(layers_assets(project@.layers.take(i + 1)) == layers_assets(pre) + layer_asset(
                l,
            ));
            assert(bg + layers_assets(project@.layers.take(i + 1)) =~= (bg + layers_assets(pre))
                + layer_asset(l));
            lemma_distinct_append(bg + layers_assets(pre), layer_asset(l));
        }
        i = i + 1;
    }
    assert(project@.layers.take(project.layers.len() as int) =~= project@.layers);
    out
}


/// Where `path` points after syncing, according to the `(sender path, local
/// path)` pairs of `remap`; the last pair for a path wins.
pub open spec fn lookup_path(remap: Seq<(String, String)>, path: Seq<char>) -> Option<String>
    decreases remap.len(),
{
    if remap.len() == 0 {
        None
    } else if remap.last().0@ == path {
        Some(remap.last().1)
    } else {
        lookup_path(remap.drop_last(), path)
    }
}

/// `path` rewritten by `remap`; a path it does not mention stays as it is.
pub open spec fn remap_path(remap: Seq<(String, String)>, path: String) -> String {
    match lookup_path(remap, path@) {
        Some(local) => local,
        None => path,
    }
}

/// A layer's content with its image path (if any) rewritten by `remap`.
pub open spec fn remapped_kind(kind: LayerKindView, remap: Seq<(String, String)>) -> LayerKindView {
    match kind {
        LayerKindView::Image(img) => LayerKindView::Image(
            ImageLayer { path: remap_path(remap, img.path), ..img },
        ),
        LayerKindView::DeviceFrame(f) => LayerKindView::DeviceFrame(
            DeviceFrameLayer {
                custom_image_path: match f.custom_image_path {
                    Some(p) => Some(remap_path(remap, p)),
                    None => None,
                },
                ..f
            },
        ),
        _ => kind,
    }
}

/// A layer with its image path (if any) rewritten by `remap`.
pub open spec fn remapped_layer(l: LayerView, remap: Seq<(String, String)>) -> LayerView {
    LayerView { kind: remapped_kind(l.kind, remap), ..l }
}

/// The background with its image path (if any) rewritten by `remap`.
pub open spec fn remapped_background(b: Background, remap: Seq<(String, String)>) -> Background {
    match b {
        Background::Image { path } => Background::Image { path: remap_path(remap, path) },
        _ => b,
    }
}

/// A received project with every image path rewritten by `remap`.
pub open spec fn remapped_project(p: ProjectView, remap: Seq<(String, String)>) -> ProjectView {
    ProjectView {
        background: remapped_background(p.background, remap),
        layers: Seq::new(p.layers.len(), |i: int| remapped_layer(p.layers[i], remap)),
        ..p
    }
}

fn lookup(remap: &Vec<(String, String)>, path: &String) -> (r: Option<String>)
    ensures
        r == lookup_path(remap@, path@),
{
    let mut i: usize = remap.len();
    assert(remap@.take(i as int) =~= remap@);
    while i > 0
        invariant
            i <= remap.len(),
            lookup_path(remap@, path@) == lookup_path(remap@.take(i as int), path@),
        decreases i,
    {
        assert(remap@.take(i as int).drop_last() =~= remap@.take(i - 1));
        i = i - 1;
        if remap[i].0 == *path {
            return Some(remap[i].1.clone());
        }
    }
    None
}

fn remap_string(remap: &Vec<(String, String)>, path: &mut String)
    ensures
        *final(path) == remap_path(remap@, *old(path)),
{
    match lookup(remap, path) {
        Some(local) => {
            *path = local;
        },
        None => {},
    }
}

fn remap_layer(remap: &Vec<(String, String)>, layer: &mut Layer)
    ensures
        final(layer)@ == remapped_layer(old(layer)@, remap@),
{
    match &mut layer.kind {
        LayerKind::Image(img) => remap_string(remap, &mut img.path),
        LayerKind::DeviceFrame(frame) => match &mut frame.custom_image_path {
            Some(p) => remap_string(remap, p),
            None => {},
        },
        _ => {},
    }
}

/// Rewrites every image path of a received project (background image, image
/// layers, custom frame images) from the sender's paths to local copies,
/// following the `(sender path, local path)` pairs of `remap`; when a path
/// occurs in several pairs the last one counts. Everything else is kept.
pub fn remap_asset_paths(project: &mut Project, remap: &Vec<(String, String)>)
    ensures
        final(project)@ == remapped_project(old(project)@, remap@),
{
    match &mut project.background {
        Background::Image { path } => remap_string(remap, path),
        _ => {},
    }
    let mut i: usize = 0;
    while i < project.layers.len()
        invariant
            i <= project.layers.len(),
            project.layers.len() == old(project).layers.len(),
            project.background == remapped_background(old(project).background, remap@),
            project.canvas_width == old(project).canvas_width,
            project.canvas_height == old(project).canvas_height,
            project.next_id == old(project).next_id,
            project.selected_layer == old(project).selected_layer,
            forall|j: int|
                0 <= j < i ==> #[trigger] project@.layers[j] == remapped_layer(
                    old(project)@.layers[j],
                    remap@,
                ),
            forall|j: int| i <= j < project.layers.len() ==> #[trigger] project.layers@[j] == old(
                project,
            ).layers@[j],
        decreases project.layers.len() - i,
    {
        let ghost prev = project.layers@;
        let ghost prev_view = project@.layers;
        remap_layer(remap, &mut project.layers[i]);
        proof {
            assert forall|j: int| 0 <= j < i implies #[trigger] project@.layers[j] == remapped_layer(
                old(project)@.layers[j],
                remap@,
            ) by {
                assert(prev_view[j] == remapped_layer(old(project)@.layers[j], remap@));
                assert(project.layers@[j] == prev[j]);
                assert(prev_view[j] == prev[j]@);
            }
        }
        i = i + 1;
    }
    assert(project@.layers =~= remapped_project(old(project)@, remap@).layers);
}


/// Where a path (as characters) points after remapping.
pub open spec fn remap_chars(remap: Seq<(String, String)>, path: Seq<char>) -> Seq<char> {
    match lookup_path(remap, path) {
        Some(local) => local@,
        None => path,
    }
}

proof fn lemma_lookup_path(remap: Seq<(String, String)>, path: Seq<char>)
    ensures
        lookup_path(remap, path) is Some <==> exists|k: int|
            0 <= k < remap.len() && #[trigger] remap[k].0@ == path,
        lookup_path(remap, path) matches Some(q) ==> exists|k: int|
            0 <= k < remap.len() && #[trigger] remap[k].0@ == path && remap[k].1 == q,
    decreases remap.len(),
{
    if remap.len() > 0 {
        let init = remap.drop_last();
        lemma_lookup_path(init, path);
        if remap.last().0@ != path {
            if exists|k: int| 0 <= k < remap.len() && #[trigger] remap[k].0@ == path {
                let k = choose|k: int| 0 <= k < remap.len() && #[trigger] remap[k].0@ == path;
                assert(init[k] == remap[k]);
            }
            if lookup_path(init, path) is Some {
                let k = choose|k: int|
                    0 <= k < init.len() && #[trigger] init[k].0@ == path && init[k].1
                        == lookup_path(init, path).unwrap();
                assert(remap[k] == init[k]);
            }
        } else {
            assert(remap[remap.len() - 1].0@ == path);
        }
    }
}

proof fn lemma_distinct_covers(s: Seq<Seq<char>>)
    ensures
        forall|i: int|
            0 <= i < s.len() && s[i].len() > 0 ==> #[trigger] distinct_nonempty(s).contains(s[i]),
        forall|x: Seq<char>| #[trigger] distinct_nonempty(s).contains(x) ==> s.contains(x),
    decreases s.len(),
{
    if s.len() > 0 {
        let init = s.drop_last();
        lemma_distinct_covers(init);
        let d = distinct_nonempty(init);
        let x = s.last();
        assert forall|i: int| 0 <= i < s.len() && s[i].len() > 0 implies #[trigger] distinct_nonempty(
            s,
        ).contains(s[i]) by {
            if i < s.len() - 1 {
                assert(init[i] == s[i]);
                assert(d.contains(s[i]));
                let k = choose|k: int| 0 <= k < d.len() && d[k] == s[i];
                if !(x.len() == 0 || d.contains(x)) {
                    assert(d.push(x)[k] == s[i]);
                }
            } else {
                if !d.contains(x) {
                    assert(d.push(x)[d.len() as int] == x);
                }
            }
        }
        assert forall|y: Seq<char>| #[trigger] distinct_nonempty(s).contains(y) implies s.contains(
            y,
        ) by {
            let k = choose|k: int|
                0 <= k < distinct_nonempty(s).len() && distinct_nonempty(s)[k] == y;
            if d.contains(y) {
                let w = choose|w: int| 0 <= w < init.len() && init[w] == y;
                assert(s[w] == y);
            } else {
                assert(y == x);
                assert(s[s.len() - 1] == y);
            }
        }
    }
}

proof fn lemma_layers_assets_remapped(layers: Seq<LayerView>, remap: Seq<(String, String)>)
    ensures
        layers_assets(Seq::new(layers.len(), |i: int| remapped_layer(layers[i], remap)))
            == layers_assets(layers).map_values(|x: Seq<char>| remap_chars(remap, x)),
    decreases layers.len(),
{
    let f = |x: Seq<char>| remap_chars(remap, x);
    let mapped = Seq::new(layers.len(), |i: int| remapped_layer(layers[i], remap));
    if layers.len() > 0 {
        let init = layers.drop_last();
        lemma_layers_assets_remapped(init, remap);
        let mapped_init = Seq::new(init.len(), |i: int| remapped_layer(init[i], remap));
        assert(mapped.drop_last() =~= mapped_init);
        let l = layers.last();
        assert(mapped.last() == remapped_layer(l, remap));
        assert(layer_asset(remapped_layer(l, remap)) =~= layer_asset(l).map_values(f));
        assert((layers_assets(init) + layer_asset(l)).map_values(f) =~= layers_assets(init).map_values(
            f,
        ) + layer_asset(l).map_values(f));
    } else {
        assert(layers_assets(mapped) =~= layers_assets(layers).map_values(f));
    }
}

/// A project synced with the bytes of all its images arrives pointing only
/// at local copies: when every distinct non-empty path it refers to (see
/// `asset_paths`) is the sender path of some pair of `remap`, each non-empty
/// image path of the remapped project is the local path of one of the pairs.
pub proof fn lemma_synced_paths_are_local(p: ProjectView, remap: Seq<(String, String)>)
    requires
        forall|y: Seq<char>|
            #[trigger] distinct_nonempty(referenced_paths(p)).contains(y) ==> exists|k: int|
                0 <= k < remap.len() && #[trigger] remap[k].0@ == y,
    ensures
        forall|i: int|
            0 <= i < referenced_paths(remapped_project(p, remap)).len() && #[trigger] referenced_paths(
                remapped_project(p, remap),
            )[i].len() > 0 ==> exists|k: int|
                0 <= k < remap.len() && #[trigger] remap[k].1@ == referenced_paths(
                    remapped_project(p, remap),
                )[i],
{
    let f = |x: Seq<char>| remap_chars(remap, x);
    let s = referenced_paths(p);
    let q = remapped_project(p, remap);
    lemma_layers_assets_remapped(p.layers, remap);
    lemma_distinct_covers(s);
    let bg = match p.background {
        Background::Image { path } => seq![path@],
        _ => Seq::empty(),
    };
    let bg2 = match q.background {
        Background::Image { path } => seq![path@],
        _ => Seq::<Seq<char>>::empty(),
    };
    assert(bg2 =~= bg.map_values(f));
    assert(referenced_paths(q) =~= s.map_values(f));
    assert forall|i: int|
        0 <= i < referenced_paths(q).len() && #[trigger] referenced_paths(q)[i].len() > 0 implies exists|k: int|
        0 <= k < remap.len() && #[trigger] remap[k].1@ == referenced_paths(q)[i] by {
        let x = s[i];
        lemma_lookup_path(remap, x);
        if x.len() > 0 {
            assert(distinct_nonempty(s).contains(s[i]));
        }
        if lookup_path(remap, x) is None {
            assert(x.len() > 0);
            assert(false);
        }
    }
}

/// Remapping with no pairs leaves a project exactly as received.
pub proof fn lemma_remap_nothing(p: ProjectView)
    ensures
        remapped_project(p, Seq::empty()) == p,
{
    let q = remapped_project(p, Seq::empty());
    assert forall|i: int| 0 <= i < p.layers.len() implies #[trigger] q.layers[i] == p.layers[i] by {
        match p.layers[i].kind {
            LayerKindView::DeviceFrame(f) => {
                match f.custom_image_path {
                    Some(path) => {},
                    None => {},
                }
            },
            _ => {},
        }
    }
    assert(q.layers =~= p.layers);
}

} // verus!
