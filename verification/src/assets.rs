use vstd::prelude::*;

use crate::render::resize_rgba_lanczos3;

verus! {

/// How many resized renditions the cache keeps; it is emptied when full.
pub const RESIZE_CACHE_LIMIT: usize = 64;

/// A key of the asset cache, compared by its abstract value.
pub trait CacheKey: View + Sized {
    fn same(&self, other: &Self) -> (r: bool)
        ensures
            r == (self@ == other@),
    ;
}

impl CacheKey for String {
    fn same(&self, other: &Self) -> (r: bool) {
        *self == *other
    }
}

/// One cropped-and-resized rendition of an image file: the file, the target
/// size, and the crop window (the bit patterns of its x, y, w, h), if any.
pub struct ResizeKey {
    pub path: String,
    pub width: u32,
    pub height: u32,
    pub crop: Option<(u32, u32, u32, u32)>,
}

/// Abstract value of a rendition key.
pub struct ResizeKeyView {
    pub path: Seq<char>,
    pub width: u32,
    pub height: u32,
    pub crop: Option<(u32, u32, u32, u32)>,
}

impl View for ResizeKey {
    type V = ResizeKeyView;

    open spec fn view(&self) -> ResizeKeyView {
        ResizeKeyView { path: self.path@, width: self.width, height: self.height, crop: self.crop }
    }
}

impl CacheKey for ResizeKey {
    fn same(&self, other: &Self) -> (r: bool) {
        let crop_same = match (&self.crop, &other.crop) {
            (Some(a), Some(b)) => a.0 == b.0 && a.1 == b.1 && a.2 == b.2 && a.3 == b.3,
            (None, None) => true,
            _ => false,
        };
        self.path == other.path && self.width == other.width && self.height == other.height
            && crop_same
    }
}

/// The value stored under the key `k` among `entries`.
pub open spec fn value_of<K: View, V>(entries: Seq<(K, V)>, k: K::V) -> Option<V>
    decreases entries.len(),
{
    if entries.len() == 0 {
        None
    } else if entries.last().0@ == k {
        Some(entries.last().1)
    } else {
        value_of(entries.drop_last(), k)
    }
}

/// No key occurs twice among `entries`.
pub open spec fn keys_distinct<K: View, V>(entries: Seq<(K, V)>) -> bool {
    forall|a: int, b: int|
        #![trigger entries[a], entries[b]]
        0 <= a < b < entries.len() ==> entries[a].0@ != entries[b].0@
}

proof fn lemma_value_absent<K: View, V>(s: Seq<(K, V)>, k: K::V)
    requires
        forall|i: int| 0 <= i < s.len() ==> #[trigger] s[i].0@ != k,
    ensures
        value_of(s, k) is None,
    decreases s.len(),
{
    if s.len() > 0 {
        assert(s.last() == s[s.len() - 1]);
        assert forall|i: int| 0 <= i < s.drop_last().len() implies #[trigger] s.drop_last()[i].0@
            != k by {
            assert(s.drop_last()[i] == s[i]);
        }
        lemma_value_absent(s.drop_last(), k);
    }
}

proof fn lemma_value_at<K: View, V>(s: Seq<(K, V)>, i: int)
    requires
        keys_distinct(s),
        0 <= i < s.len(),
    ensures
        value_of(s, s[i].0@) == Some(s[i].1),
    decreases s.len(),
{
    let n = s.len() - 1;
    assert(s.last() == s[n]);
    if i < n {
        assert(s[i].0@ != s[n].0@);
        let t = s.drop_last();
        assert(t[i] == s[i]);
        assert forall|a: int, b: int| #![trigger t[a], t[b]] 0 <= a < b < t.len() implies t[a].0@
            != t[b].0@ by {
            assert(t[a] == s[a] && t[b] == s[b]);
        }
        lemma_value_at(t, i);
    }
}

proof fn lemma_value_remove<K: View, V>(s: Seq<(K, V)>, i: int, k: K::V)
    requires
        keys_distinct(s),
        0 <= i < s.len(),
    ensures
        value_of(s.remove(i), k) == if s[i].0@ == k {
            None
        } else {
            value_of(s, k)
        },
        keys_distinct(s.remove(i)),
    decreases s.len(),
{
    let r = s.remove(i);
    assert forall|a: int, b: int| #![trigger r[a], r[b]] 0 <= a < b < r.len() implies r[a].0@
        != r[b].0@ by {
        let a2 = if a < i {
            a
        } else {
            a + 1
        };
        let b2 = if b < i {
            b
        } else {
            b + 1
        };
        assert(r[a] == s[a2] && r[b] == s[b2]);
    }
    if s[i].0@ == k {
        assert forall|j: int| 0 <= j < r.len() implies #[trigger] r[j].0@ != k by {
            let j2 = if j < i {
                j
            } else {
                j + 1
            };
            assert(r[j] == s[j2]);
        }
        lemma_value_absent(r, k);
    } else {
        if exists|j: int| 0 <= j < s.len() && #[trigger] s[j].0@ == k {
            let j = choose|j: int| 0 <= j < s.len() && #[trigger] s[j].0@ == k;
            lemma_value_at(s, j);
            let j2 = if j < i {
                j
            } else {
                j - 1
            };
            assert(r[j2] == s[j]);
            lemma_value_at(r, j2);
        } else {
            lemma_value_absent(s, k);
            assert forall|j: int| 0 <= j < r.len() implies #[trigger] r[j].0@ != k by {
                let j2 = if j < i {
                    j
                } else {
                    j + 1
                };
                assert(r[j] == s[j2]);
            }
            lemma_value_absent(r, k);
        }
    }
}

fn position<K: CacheKey, V>(entries: &Vec<(K, V)>, k: &K) -> (r: Option<usize>)
    ensures
        match r {
            Some(i) => i < entries@.len() && entries@[i as int].0@ == k@,
            None => forall|i: int| 0 <= i < entries@.len() ==> #[trigger] entries@[i].0@ != k@,
        },
{
    let mut i: usize = 0;
    while i < entries.len()
        invariant
            i <= entries@.len(),
            forall|j: int| 0 <= j < i ==> #[trigger] entries@[j].0@ != k@,
        decreases entries.len() - i,
    {
        if entries[i].0.same(k) {
            return Some(i);
        }
        i = i + 1;
    }
    None
}

fn get_entry<'a, K: CacheKey, V>(entries: &'a Vec<(K, V)>, k: &K) -> (r: Option<&'a V>)
    requires
        keys_distinct(entries@),
    ensures
        match r {
            Some(v) => value_of(entries@, k@) == Some(*v),
            None => value_of(entries@, k@) is None,
        },
{
    match position(entries, k) {
        Some(i) => {
            proof {
                lemma_value_at(entries@, i as int);
            }
            Some(&entries[i].1)
        },
        None => {
            proof {
                lemma_value_absent(entries@, k@);
            }
            None
        },
    }
}

fn put_entry<K: CacheKey, V>(entries: &mut Vec<(K, V)>, k: K, v: V)
    requires
        keys_distinct(old(entries)@),
    ensures
        keys_distinct(final(entries)@),
        forall|q: K::V| #[trigger]
            value_of(final(entries)@, q) == if q == k@ {
                Some(v)
            } else {
                value_of(old(entries)@, q)
            },
        final(entries)@.len() <= old(entries)@.len() + 1,
        value_of(old(entries)@, k@) is Some ==> final(entries)@.len() == old(entries)@.len(),
{
    let ghost kv = k@;
    match position(entries, &k) {
        Some(i) => {
            let ghost before = entries@;
            proof {
                lemma_value_at(before, i as int);
            }
            entries.remove(i);
            proof {
                assert forall|q: K::V| #[trigger] value_of(entries@, q) == if q == kv {
                    None
                } else {
                    value_of(before, q)
                } by {
                    lemma_value_remove(before, i as int, q);
                }
                lemma_value_remove(before, i as int, kv);
            }
        },
        None => {
            proof {
                lemma_value_absent(entries@, kv);
            }
        },
    }
    let ghost mid = entries@;
    proof {
        assert forall|j: int| 0 <= j < mid.len() implies #[trigger] mid[j].0@ != kv by {
            if mid[j].0@ == kv {
                lemma_value_at(mid, j);
            }
        }
    }
    entries.push((k, v));
    proof {
        let s = entries@;
        assert(s.drop_last() =~= mid);
        assert forall|a: int, b: int| #![trigger s[a], s[b]] 0 <= a < b < s.len() implies s[a].0@
            != s[b].0@ by {
            if b == s.len() - 1 {
                assert(s[a] == mid[a]);
            } else {
                assert(s[a] == mid[a] && s[b] == mid[b]);
            }
        }
    }
}

/// Decoded images by file path, and their resized renditions (at most
/// `RESIZE_CACHE_LIMIT` of them) by rendition key.
pub struct AssetCache<V> {
    images: Vec<(String, V)>,
    resized: Vec<(ResizeKey, V)>,
}

impl<V> AssetCache<V> {
    #[verifier::type_invariant]
    spec fn well_formed(self) -> bool {
        &&& keys_distinct(self.images@)
        &&& keys_distinct(self.resized@)
        &&& self.resized@.len() <= RESIZE_CACHE_LIMIT
    }

    /// The decoded image cached for the file `path`, if any.
    pub closed spec fn image(self, path: Seq<char>) -> Option<V> {
        value_of(self.images@, path)
    }

    /// The rendition cached under `key`, if any.
    pub closed spec fn rendition(self, key: ResizeKeyView) -> Option<V> {
        value_of(self.resized@, key)
    }

    /// How many renditions are cached (each under a key of its own).
    pub closed spec fn rendition_count(self) -> nat {
        self.resized@.len()
    }

    /// An empty cache.
    pub fn new() -> (c: Self)
        ensures
            forall|p: Seq<char>| #[trigger] c.image(p) is None,
            forall|k: ResizeKeyView| #[trigger] c.rendition(k) is None,
            c.rendition_count() == 0,
    {
        AssetCache { images: Vec::new(), resized: Vec::new() }
    }

    /// The decoded image cached for the file `path`, if any.
    pub fn cached_image(&self, path: &String) -> (r: Option<&V>)
        ensures
            match r {
                Some(v) => self.image(path@) == Some(*v),
                None => self.image(path@) is None,
            },
    {
        proof {
            use_type_invariant(self);
        }
        get_entry(&self.images, path)
    }

    /// Caches the decoded image of the file `path`.
    pub fn store_image(&mut self, path: String, image: V)
        ensures
            forall|p: Seq<char>| #[trigger]
                final(self).image(p) == if p == path@ {
                    Some(image)
                } else {
                    old(self).image(p)
                },
            forall|k: ResizeKeyView| #[trigger] final(self).rendition(k) == old(self).rendition(k),
            final(self).rendition_count() == old(self).rendition_count(),
    {
        proof {
            use_type_invariant(&*self);
        }
        let mut images: Vec<(String, V)> = Vec::new();
        std::mem::swap(&mut images, &mut self.images);
        put_entry(&mut images, path, image);
        self.images = images;
    }

    /// The rendition cached under `key`, if any.
    pub fn cached_rendition(&self, key: &ResizeKey) -> (r: Option<&V>)
        ensures
            match r {
                Some(v) => self.rendition(key@) == Some(*v),
                None => self.rendition(key@) is None,
            },
    {
        proof {
            use_type_invariant(self);
        }
        get_entry(&self.resized, key)
    }

    /// Caches a rendition under `key`. When `RESIZE_CACHE_LIMIT` renditions
    /// are already cached, all of them are dropped first.
    pub fn store_rendition(&mut self, key: ResizeKey, rendition: V)
        ensures
            forall|k: ResizeKeyView| #[trigger]
                final(self).rendition(k) == if k == key@ {
                    Some(rendition)
                } else if old(self).rendition_count() >= RESIZE_CACHE_LIMIT {
                    None
                } else {
                    old(self).rendition(k)
                },
            forall|p: Seq<char>| #[trigger] final(self).image(p) == old(self).image(p),
            final(self).rendition_count() <= RESIZE_CACHE_LIMIT,
            old(self).rendition_count() < RESIZE_CACHE_LIMIT ==> final(self).rendition_count()
                <= old(self).rendition_count() + 1,
    {
        proof {
            use_type_invariant(&*self);
        }
        let mut resized: Vec<(ResizeKey, V)> = Vec::new();
        std::mem::swap(&mut resized, &mut self.resized);
        if resized.len() >= RESIZE_CACHE_LIMIT {
            resized.clear();
            proof {
                assert forall|k: ResizeKeyView| #[trigger] value_of(resized@, k) is None by {
                    lemma_value_absent(resized@, k);
                }
            }
        }
        put_entry(&mut resized, key, rendition);
        self.resized = resized;
    }

    /// Forgets the file `path`: its decoded image and every rendition of it.
    pub fn invalidate(&mut self, path: &String)
        ensures
            forall|p: Seq<char>| #[trigger]
                final(self).image(p) == if p == path@ {
                    None
                } else {
                    old(self).image(p)
                },
            forall|k: ResizeKeyView| #[trigger]
                final(self).rendition(k) == if k.path == path@ {
                    None
                } else {
                    old(self).rendition(k)
                },
            final(self).rendition_count() <= old(self).rendition_count(),
    {
        proof {
            use_type_invariant(&*self);
        }
        let mut images: Vec<(String, V)> = Vec::new();
        std::mem::swap(&mut images, &mut self.images);
        let ghost before_images = images@;
        match position(&images, path) {
            Some(i) => {
                images.remove(i);
                proof {
                    assert forall|p: Seq<char>| #[trigger] value_of(images@, p) == if p == path@ {
                        None
                    } else {
                        value_of(before_images, p)
                    } by {
                        lemma_value_remove(before_images, i as int, p);
                    }
                    lemma_value_remove(before_images, i as int, path@);
                }
            },
            None => {
                proof {
                    lemma_value_absent(before_images, path@);
                }
            },
        }
        self.images = images;

        let mut resized: Vec<(ResizeKey, V)> = Vec::new();
        std::mem::swap(&mut resized, &mut self.resized);
        let ghost before = resized@;
        let mut kept: Vec<(ResizeKey, V)> = Vec::new();
        while resized.len() > 0
            invariant
                keys_distinct(before),
                resized@ == before.take(resized@.len() as int),
                keys_distinct(kept@),
                kept@.len() <= before.len() - resized@.len(),
                forall|k: ResizeKeyView| #[trigger]
                    value_of(kept@, k) == if k.path == path@ || value_of(
                        resized@,
                        k,
                    ) is Some {
                        None
                    } else {
                        value_of(before, k)
                    },
            decreases resized@.len(),
        {
            let ghost r0 = resized@;
            let ghost k0 = kept@;
            let entry = resized.pop().unwrap();
            let ghost e = entry;
            proof {
                assert(r0.drop_last() =~= resized@);
                assert(resized@ =~= before.take(resized@.len() as int));
                let n = r0.len() - 1;
                assert(e == before[n]);
                assert forall|j: int| 0 <= j < resized@.len() implies #[trigger] resized@[j].0@
                    != e.0@ by {
                    assert(resized@[j] == before[j]);
                }
                lemma_value_absent(resized@, e.0@);
                lemma_value_at(before, n);
            }
            if entry.0.path != *path {
                let ghost ev = entry.0@;
                proof {
                    assert forall|j: int| 0 <= j < k0.len() implies #[trigger] k0[j].0@ != ev by {
                        if k0[j].0@ == ev {
                            lemma_value_at(k0, j);
                        }
                    }
                }
                kept.push(entry);
                proof {
                    let s = kept@;
                    assert(s.drop_last() =~= k0);
                    assert forall|a: int, b: int| #![trigger s[a], s[b]] 0 <= a < b < s.len() implies s[a].0@
                        != s[b].0@ by {
                        if b == s.len() - 1 {
                            assert(s[a] == k0[a]);
                        } else {
                            assert(s[a] == k0[a] && s[b] == k0[b]);
                        }
                    }
                }
            }
            proof {
                assert forall|k: ResizeKeyView| #[trigger]
                    value_of(kept@, k) == if k.path == path@ || value_of(resized@, k) is Some {
                        None
                    } else {
                        value_of(before, k)
                    } by {
                    assert(r0.last() == e);
                    let old_val = value_of(k0, k);
                    assert(old_val == if k.path == path@ || value_of(r0, k) is Some {
                        None
                    } else {
                        value_of(before, k)
                    });
                    if kept@.len() > k0.len() {
                        assert(kept@.drop_last() =~= k0);
                        assert(kept@.last() == e);
                    } else {
                        assert(kept@ == k0);
                    }
                }
            }
        }
        proof {
            assert(resized@.len() == 0);
        }
        self.resized = kept;
    }
}

// ---------------------------------------------------------------------------
// Making a rendition: crop, then resize.
// ---------------------------------------------------------------------------

/// The crop window actually cut out of an `sw` x `sh` image when the
/// rendition asks for `win` = (x, y, width, height) in pixels: the width and
/// height are first kept within what lies right of / below the corner (but
/// at least 1), then `crop_imm` keeps the corner inside the image and the
/// window within it.
pub open spec fn clamped_window(sw: u32, sh: u32, win: (u32, u32, u32, u32)) -> (u32, u32, u32, u32) {
    let (cx, cy, cw, ch) = win;
    let room_w: int = if cx < sw { sw - cx } else { 1 };
    let room_h: int = if cy < sh { sh - cy } else { 1 };
    let cw1: int = if cw < room_w { cw as int } else { room_w };
    let ch1: int = if ch < room_h { ch as int } else { room_h };
    let x: int = if cx < sw { cx as int } else { sw as int };
    let y: int = if cy < sh { cy as int } else { sh as int };
    let w: int = if cw1 < sw - x { cw1 } else { sw - x };
    let h: int = if ch1 < sh - y { ch1 } else { sh - y };
    (x as u32, y as u32, w as u32, h as u32)
}

/// Row `r` of the `cw`-pixel-wide window at (`x`, `y`) of a row-major RGBA8
/// image `sw` pixels wide.
pub open spec fn window_row(src: Seq<u8>, sw: int, x: int, y: int, cw: int, r: int) -> Seq<u8> {
    src.subrange(((y + r) * sw + x) * 4, ((y + r) * sw + x + cw) * 4)
}

/// The first `rows` rows of that window, top to bottom: the bytes of the
/// cropped image.
pub open spec fn window_bytes(src: Seq<u8>, sw: int, x: int, y: int, cw: int, rows: int) -> Seq<u8>
    decreases rows,
{
    if rows <= 0 {
        seq![]
    } else {
        window_bytes(src, sw, x, y, cw, rows - 1) + window_row(src, sw, x, y, cw, rows - 1)
    }
}

proof fn lemma_window_row_bounds(sw: int, sh: int, x: int, y: int, cw: int, r: int)
    requires
        0 <= x,
        0 <= cw,
        x + cw <= sw,
        0 <= y,
        0 <= r,
        y + r < sh,
    ensures
        0 <= (y + r) * sw + x,
        (y + r) * sw + x + cw <= sw * sh,
{
    assert(0 <= (y + r) * sw) by (nonlinear_arith)
        requires
            0 <= y + r,
            0 <= sw,
    ;
    assert((y + r) * sw + sw <= sw * sh) by (nonlinear_arith)
        requires
            y + r < sh,
            0 <= sw,
    ;
}

proof fn lemma_window_len(src: Seq<u8>, sw: int, sh: int, x: int, y: int, cw: int, rows: int)
    requires
        0 <= x,
        0 <= cw,
        x + cw <= sw,
        0 <= y,
        0 <= rows,
        y + rows <= sh,
        src.len() >= sw * sh * 4,
    ensures
        window_bytes(src, sw, x, y, cw, rows).len() == rows * cw * 4,
    decreases rows,
{
    if rows > 0 {
        lemma_window_len(src, sw, sh, x, y, cw, rows - 1);
        lemma_window_row_bounds(sw, sh, x, y, cw, rows - 1);
        let st = ((y + rows - 1) * sw + x) * 4;
        let en = ((y + rows - 1) * sw + x + cw) * 4;
        assert(0 <= st <= en <= src.len());
        assert(window_row(src, sw, x, y, cw, rows - 1).len() == cw * 4);
        assert((rows - 1) * cw * 4 + cw * 4 == rows * cw * 4) by (nonlinear_arith);
        assert(window_bytes(src, sw, x, y, cw, rows) == window_bytes(src, sw, x, y, cw, rows - 1)
            + window_row(src, sw, x, y, cw, rows - 1));
    } else {
        assert(rows * cw * 4 == 0) by (nonlinear_arith)
            requires
                rows == 0,
        ;
    }
}

fn crop_window(src: &Vec<u8>, sw: u32, sh: u32, x: u32, y: u32, cw: u32, ch: u32) -> (r: Vec<u8>)
    requires
        src@.len() >= sw * sh * 4,
        x + cw <= sw,
        y + ch <= sh,
    ensures
        r@ == window_bytes(src@, sw as int, x as int, y as int, cw as int, ch as int),
        r@.len() == cw * ch * 4,
{
    let mut out: Vec<u8> = Vec::new();
    let mut row: u32 = 0;
    while row < ch
        invariant
            row <= ch,
            src@.len() >= sw * sh * 4,
            x + cw <= sw,
            y + ch <= sh,
            out@ == window_bytes(src@, sw as int, x as int, y as int, cw as int, row as int),
        decreases ch - row,
    {
        proof {
            lemma_window_row_bounds(sw as int, sh as int, x as int, y as int, cw as int, row as int);
            assert(sw * sh * 4 <= src@.len());
            assert(src@.len() == src.len());
        }
        let start: usize = (((y + row) as usize) * (sw as usize) + (x as usize)) * 4;
        let len: usize = (cw as usize) * 4;
        let ghost base = out@;
        let ghost line = window_row(src@, sw as int, x as int, y as int, cw as int, row as int);
        let mut j: usize = 0;
        while j < len
            invariant
                j <= len,
                len == cw * 4,
                start + len <= src.len(),
                line == src@.subrange(start as int, start + len),
                out@ == base + line.take(j as int),
            decreases len - j,
        {
            out.push(src[start + j]);
            j = j + 1;
            assert(out@ =~= base + line.take(j as int));
        }
        assert(line.take(len as int) =~= line);
        row = row + 1;
    }
    proof {
        lemma_window_len(src@, sw as int, sh as int, x as int, y as int, cw as int, ch as int);
        assert(ch * cw * 4 == cw * ch * 4) by (nonlinear_arith);
    }
    out
}

/// The part of the image `src` (`sw` x `sh`, RGBA8) that a rendition with
/// crop window `window` is made from: the bytes of the clamped window (see
/// `clamped_window`) with its width and height.
pub fn rendition_window(src: &Vec<u8>, sw: u32, sh: u32, window: (u32, u32, u32, u32)) -> (r: (
    Vec<u8>,
    u32,
    u32,
))
    requires
        src@.len() >= sw * sh * 4,
    ensures
        ({
            let (x, y, cw, ch) = clamped_window(sw, sh, window);
            &&& r.1 == cw
            &&& r.2 == ch
            &&& r.0@ == window_bytes(src@, sw as int, x as int, y as int, cw as int, ch as int)
            &&& r.0@.len() == cw * ch * 4
        }),
{
    let (cx, cy, cw, ch) = window;
    let room_w: u32 = if cx < sw { sw - cx } else { 1 };
    let room_h: u32 = if cy < sh { sh - cy } else { 1 };
    let cw1: u32 = if cw < room_w { cw } else { room_w };
    let ch1: u32 = if ch < room_h { ch } else { room_h };
    let x: u32 = if cx < sw { cx } else { sw };
    let y: u32 = if cy < sh { cy } else { sh };
    let ww: u32 = if cw1 < sw - x { cw1 } else { sw - x };
    let hh: u32 = if ch1 < sh - y { ch1 } else { sh - y };
    (crop_window(src, sw, sh, x, y, ww, hh), ww, hh)
}

/// The pixels of a cached rendition: the image `src` (`sw` x `sh`, RGBA8),
/// cut to `window` when one is given (see `rendition_window`), then resized
/// to `w` x `h` with the Lanczos3 filter. Stated: the result is `w * h * 4`
/// bytes, and when the (clamped) window, or without one the whole image,
/// already has the target size, it is exactly those pixels; resampled
/// values the platform's floating point decides.
pub fn rendition_pixels(
    src: &Vec<u8>,
    sw: u32,
    sh: u32,
    window: Option<(u32, u32, u32, u32)>,
    w: u32,
    h: u32,
) -> (r: Vec<u8>)
    requires
        src@.len() >= sw * sh * 4,
        w * h * 4 <= usize::MAX,
    ensures
        r@.len() == w * h * 4,
        window is None && w == sw && h == sh ==> r@ == src@.take(w * h * 4),
        window matches Some(win) ==> ({
            let (x, y, cw, ch) = clamped_window(sw, sh, win);
            cw == w && ch == h ==> r@ == window_bytes(
                src@,
                sw as int,
                x as int,
                y as int,
                cw as int,
                ch as int,
            )
        }),
{
    match window {
        None => resize_rgba_lanczos3(src, sw, sh, w, h),
        Some(win) => {
            let (cropped, ww, hh) = rendition_window(src, sw, sh, win);
            let r = resize_rgba_lanczos3(&cropped, ww, hh, w, h);
            assert(cropped@.take(cropped@.len() as int) =~= cropped@);
            r
        },
    }
}

} // verus!
