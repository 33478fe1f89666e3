use vstd::prelude::*;

use crate::model::PaintLayer;

verus! {

/// The RGBA8 bytes (`w * h * 4`, row-major) that `image`'s triangle-filter
/// resize produces from the `sw` x `sh` RGBA8 image stored in `src`.
pub uninterp spec fn resized_triangle(src: Seq<u8>, sw: u32, sh: u32, w: u32, h: u32) -> Seq<u8>;

/// Resamples an RGBA8 pixel buffer with `image::imageops::resize` and the
/// `Triangle` (bilinear) filter. Stated: the result is `w * h * 4` bytes and
/// depends only on the source bytes and the two sizes; the resampling itself
/// is named, not described.
#[verifier::external_body]
fn resize_rgba_triangle(src: &Vec<u8>, sw: u32, sh: u32, w: u32, h: u32) -> (r: Vec<u8>)
    requires
        sw * sh * 4 <= src.len(),
        w * h * 4 <= usize::MAX,
    ensures
        r@ == resized_triangle(src@, sw, sh, w, h),
        r@.len() == w * h * 4,
{
    match image::RgbaImage::from_raw(sw, sh, src.clone()) {
        Some(img) => image::imageops::resize(&img, w, h, image::imageops::FilterType::Triangle).into_raw(),
        None => Vec::new(),
    }
}

/// Resamples an RGBA8 pixel buffer with `image::imageops::resize` and the
/// `Lanczos3` filter. Stated: the result is `w * h * 4` bytes, and at the
/// source's own size it is the source image itself (`resize` then copies
/// the pixels instead of resampling). Not stated:
/// its pixel values, which the Lanczos kernel computes with `f32::sin`,
/// whose precision the platform decides, so the same input need not give
/// the same bytes on every machine.
#[verifier::external_body]
pub(crate) fn resize_rgba_lanczos3(src: &Vec<u8>, sw: u32, sh: u32, w: u32, h: u32) -> (r: Vec<u8>)
    requires
        sw * sh * 4 <= src.len(),
        w * h * 4 <= usize::MAX,
    ensures
        r@.len() == w * h * 4,
        w == sw && h == sh ==> r@ == src@.take(w * h * 4),
{
    match image::RgbaImage::from_raw(sw, sh, src.clone()) {
        Some(img) => image::imageops::resize(&img, w, h, image::imageops::FilterType::Lanczos3).into_raw(),
        None => Vec::new(),
    }
}

/// A background image (`sw` x `sh`, RGBA8) stretched over the whole
/// `w` x `h` canvas with the Lanczos3 filter: `w * h * 4` bytes, whose
/// values the platform's floating point decides; an image already of the
/// canvas size is used as it is.
pub fn fit_background(src: &Vec<u8>, sw: u32, sh: u32, w: u32, h: u32) -> (r: Vec<u8>)
    requires
        src@.len() >= sw * sh * 4,
        w * h * 4 <= usize::MAX,
    ensures
        r@.len() == w * h * 4,
        w == sw && h == sh ==> r@ == src@.take(w * h * 4),
{
    resize_rgba_lanczos3(src, sw, sh, w, h)
}

/// An image (`w` x `h`, RGBA8) upscaled to twice its width and height with
/// the Lanczos3 filter: a `2w` x `2h` RGBA8 buffer, whose values the
/// platform's floating point decides.
pub fn upscale_2x(src: &Vec<u8>, w: u32, h: u32) -> (r: Vec<u8>)
    requires
        2 * w <= u32::MAX,
        2 * h <= u32::MAX,
        src@.len() >= w * h * 4,
        (2 * w) * (2 * h) * 4 <= usize::MAX,
    ensures
        r@.len() == (2 * w) * (2 * h) * 4,
{
    resize_rgba_lanczos3(src, w, h, 2 * w, 2 * h)
}

/// The bytes of a fully transparent `w` x `h` RGBA8 image.
pub open spec fn transparent_bytes(w: u32, h: u32) -> Seq<u8> {
    Seq::new((w * h * 4) as nat, |i: int| 0u8)
}

/// Scales the paint layer's own raw pixel buffer to fit the layer's current
/// on-canvas size `w` x `h`, as RGBA8 bytes: a buffer too short for the
/// layer's stated size draws as fully transparent, a buffer already at that
/// size is used as it is (its first `w * h * 4` bytes: an image of that size
/// reads no further), and any other is resampled (triangle filter).
pub fn draw_paint_content(layer: &PaintLayer, w: u32, h: u32) -> (r: Vec<u8>)
    requires
        w * h * 4 <= usize::MAX,
    ensures
        r@.len() == w * h * 4,
        layer.pixels@.len() < layer.width * layer.height * 4 ==> r@ == transparent_bytes(w, h),
        layer.pixels@.len() >= layer.width * layer.height * 4 && layer.width == w && layer.height
            == h ==> r@ == layer.pixels@.take(w * h * 4),
        layer.pixels@.len() >= layer.width * layer.height * 4 && !(layer.width == w
            && layer.height == h) ==> r@ == resized_triangle(
            layer.pixels@,
            layer.width,
            layer.height,
            w,
            h,
        ),
{
    let lw: u128 = layer.width as u128;
    let lh: u128 = layer.height as u128;
    assert(lw * lh <= 0xFFFF_FFFF * 0xFFFF_FFFF) by (nonlinear_arith)
        requires
            lw <= 0xFFFF_FFFF,
            lh <= 0xFFFF_FFFF,
    ;
    let need: u128 = lw * lh * 4;
    if (layer.pixels.len() as u128) < need {
        assert((w as int) * (h as int) <= usize::MAX) by (nonlinear_arith)
            requires
                (w as int) * (h as int) * 4 <= usize::MAX,
        ;
        let n: usize = (w as usize) * (h as usize) * 4;
        let r = vec![0u8; n];
        assert(r@ =~= transparent_bytes(w, h));
        return r;
    }
    if layer.width == w && layer.height == h {
        assert((w as int) * (h as int) <= usize::MAX) by (nonlinear_arith)
            requires
                (w as int) * (h as int) * 4 <= usize::MAX,
        ;
        let n: usize = (w as usize) * (h as usize) * 4;
        let mut r = layer.pixels.clone();
        assert(r@ =~= layer.pixels@);
        r.truncate(n);
        assert(r@ =~= layer.pixels@.take(w * h * 4));
        r
    } else {
        resize_rgba_triangle(&layer.pixels, layer.width, layer.height, w, h)
    }
}

/// A freshly created paint layer draws at its own size as fully transparent
/// pixels, untouched by any resampling.
pub proof fn lemma_new_paint_layer_is_transparent(width: u32, height: u32, pixels: Seq<u8>)
    requires
        pixels == Seq::new((width * height * 4) as nat, |i: int| 0u8),
    ensures
        pixels.len() >= width * height * 4,
        pixels == transparent_bytes(width, height),
{
}

// ---------------------------------------------------------------------------
// Greedy word wrapping of a text layer's content.
// ---------------------------------------------------------------------------

/// `s` holds no occurrence of `c`.
pub open spec fn lacks(s: Seq<char>, c: char) -> bool {
    forall|k: int| 0 <= k < s.len() ==> s[k] != c
}

/// Some character of `s` before position `j` is a space.
pub open spec fn space_before(s: Seq<char>, j: int) -> bool {
    exists|k: int| 0 <= k < j && s[k] == ' '
}

/// The lines of a wrapped text, put back together with a newline between
/// each two of them.
pub open spec fn joined(ls: Seq<Seq<char>>) -> Seq<char>
    decreases ls.len(),
{
    if ls.len() == 0 {
        seq![]
    } else if ls.len() == 1 {
        ls[0]
    } else {
        joined(ls.drop_last()) + seq!['\n'] + ls.last()
    }
}

/// The character contents of each line.
pub open spec fn line_views(ls: Seq<Vec<char>>) -> Seq<Seq<char>> {
    ls.map_values(|v: Vec<char>| v@)
}

/// `o` is `t` with some of its spaces turned into newlines, and nothing
/// else changed.
pub open spec fn spaces_broken(t: Seq<char>, o: Seq<char>) -> bool {
    &&& o.len() == t.len()
    &&& forall|k: int| 0 <= k < t.len() ==> o[k] == t[k] || (t[k] == ' ' && o[k] == '\n')
}

/// No line of `t` starts with a space and no space follows another: every
/// space stands between two words.
pub open spec fn well_spaced(t: Seq<char>) -> bool {
    forall|k: int|
        0 <= k < t.len() && #[trigger] t[k] == ' ' ==> k > 0 && t[k - 1] != ' ' && t[k - 1] != '\n'
}

/// The width test answered `b` on a candidate line holding `s`.
pub open spec fn judged<F: Fn(&Vec<char>) -> bool>(too_wide: F, s: Seq<char>, b: bool) -> bool {
    exists|v: Vec<char>| v@ == s && #[trigger] too_wide.ensures((&v,), b)
}

/// `j` ends a word of `line`: it is the line's end or a space stands there.
pub open spec fn word_end(line: Seq<char>, j: int) -> bool {
    0 <= j <= line.len() && (j == line.len() || line[j] == ' ')
}

/// Every prefix of `line` that ends a word and spans more than one word was
/// judged not too wide: the line was grown word by word while it fit.
pub open spec fn fits_greedily<F: Fn(&Vec<char>) -> bool>(too_wide: F, line: Seq<char>) -> bool {
    forall|j: int|
        0 < j && word_end(line, j) && space_before(line, j) ==> judged(
            too_wide,
            #[trigger] line.take(j),
            false,
        )
}

/// The line `prev` ends where it does because adding a space and the first
/// word of `next` to it was judged too wide.
pub open spec fn break_forced<F: Fn(&Vec<char>) -> bool>(
    too_wide: F,
    prev: Seq<char>,
    next: Seq<char>,
) -> bool {
    exists|k: int|
        word_end(next, k) && !space_before(next, k) && judged(
            too_wide,
            #[trigger] (prev + seq![' '] + next.take(k)),
            true,
        )
}

/// Where, in the joined text, the newline after line `i` stands.
pub open spec fn break_pos(ls: Seq<Seq<char>>, i: int) -> int {
    joined(ls.take(i + 1)).len() as int
}

proof fn lemma_joined_push(ls: Seq<Seq<char>>, x: Seq<char>)
    ensures
        joined(ls.push(x)) == (if ls.len() == 0 {
            x
        } else {
            joined(ls) + seq!['\n'] + x
        }),
{
    assert(ls.push(x).drop_last() =~= ls);
}

proof fn lemma_spaces_broken_concat(t1: Seq<char>, o1: Seq<char>, t2: Seq<char>, o2: Seq<char>)
    requires
        spaces_broken(t1, o1),
        spaces_broken(t2, o2),
    ensures
        spaces_broken(t1 + t2, o1 + o2),
{
    assert forall|k: int| 0 <= k < (t1 + t2).len() implies (o1 + o2)[k] == (t1 + t2)[k] || ((t1
        + t2)[k] == ' ' && (o1 + o2)[k] == '\n') by {
        if k >= t1.len() {
            assert((t1 + t2)[k] == t2[k - t1.len()]);
            assert((o1 + o2)[k] == o2[k - t1.len()]);
        }
    }
}

/// Puts one word on the line being built. On an empty line the word simply
/// starts it. Otherwise the line grown by a space and the word is offered
/// to `too_wide`: if it fits, it becomes the line; if not, the line is
/// finished (pushed onto `lines`) and the word starts the next one. The
/// result says whether a line was finished.
fn place_word<F: Fn(&Vec<char>) -> bool>(
    lines: &mut Vec<Vec<char>>,
    current: &mut Vec<char>,
    word: Vec<char>,
    too_wide: &F,
) -> (broke: bool)
    requires
        forall|v: &Vec<char>| #[trigger] too_wide.requires((v,)),
        lacks(word@, ' '),
        lacks(word@, '\n'),
        lacks(old(current)@, '\n'),
        fits_greedily(*too_wide, old(current)@),
    ensures
        lacks(final(current)@, '\n'),
        fits_greedily(*too_wide, final(current)@),
        old(current)@.len() == 0 ==> !broke && final(lines)@ == old(lines)@ && final(current)@
            == word@,
        old(current)@.len() > 0 && !broke ==> final(lines)@ == old(lines)@ && final(current)@ == old(
            current,
        )@ + seq![' '] + word@ && judged(*too_wide, final(current)@, false),
        broke ==> old(current)@.len() > 0 && final(lines)@ == old(lines)@.push(*old(current))
            && final(current)@ == word@ && judged(
            *too_wide,
            old(current)@ + seq![' '] + word@,
            true,
        ),
{
    if current.len() == 0 {
        proof {
            assert forall|j: int|
                0 < j && word_end(word@, j) && space_before(word@, j) implies judged(
                *too_wide,
                #[trigger] word@.take(j),
                false,
            ) by {
                let k = choose|k: int| 0 <= k < j && word@[k] == ' ';
                assert(word@[k] == ' ');
            }
        }
        *current = word;
        return false;
    }
    let mut candidate: Vec<char> = current.clone();
    assert(candidate@ =~= current@);
    candidate.push(' ');
    let mut tail: Vec<char> = word.clone();
    assert(tail@ =~= word@);
    candidate.append(&mut tail);
    let ghost cand = candidate@;
    assert(cand =~= current@ + seq![' '] + word@);
    let wide = too_wide(&candidate);
    assert(judged(*too_wide, cand, wide));
    if wide {
        let mut done: Vec<char> = word;
        std::mem::swap(current, &mut done);
        lines.push(done);
        proof {
            assert forall|j: int|
                0 < j && word_end(word@, j) && space_before(word@, j) implies judged(
                *too_wide,
                #[trigger] word@.take(j),
                false,
            ) by {
                let k = choose|k: int| 0 <= k < j && word@[k] == ' ';
                assert(word@[k] == ' ');
            }
        }
        true
    } else {
        proof {
            let c = current@;
            assert forall|j: int|
                0 < j && word_end(cand, j) && space_before(cand, j) implies judged(
                *too_wide,
                #[trigger] cand.take(j),
                false,
            ) by {
                if j == cand.len() {
                    assert(cand.take(j) =~= cand);
                } else if j <= c.len() {
                    assert(cand.take(j) =~= c.take(j));
                    assert(word_end(c, j));
                    let k = choose|k: int| 0 <= k < j && cand[k] == ' ';
                    assert(c[k] == ' ');
                    assert(space_before(c, j));
                } else {
                    assert(cand[j] == word@[j - c.len() - 1]);
                }
            }
            assert forall|k: int| 0 <= k < cand.len() implies cand[k] != '\n' by {
                if k < c.len() {
                    assert(cand[k] == c[k]);
                } else if k > c.len() {
                    assert(cand[k] == word@[k - c.len() - 1]);
                }
            }
        }
        *current = candidate;
        false
    }
}

/// While wrapping: the text before the word being read, `t.take(wstart)`,
/// relates to the finished lines `ls` and the line being built `c`.
spec fn layout_inv(t: Seq<char>, ls: Seq<Seq<char>>, c: Seq<char>, wstart: int) -> bool {
    if c.len() == 0 {
        &&& spaces_broken(t.take(wstart), joined(ls.push(c)))
        &&& (wstart == 0 || t[wstart - 1] == '\n')
    } else {
        &&& wstart > 0
        &&& t[wstart - 1] == ' '
        &&& spaces_broken(t.take(wstart - 1), joined(ls.push(c)))
    }
}

/// Every break between two of the lines `ls` that stands where `t` has a
/// space was forced.
spec fn breaks_inv<F: Fn(&Vec<char>) -> bool>(too_wide: F, t: Seq<char>, ls: Seq<Seq<char>>) -> bool {
    forall|i: int|
        #![trigger break_pos(ls, i)]
        0 <= i < ls.len() - 1 && t[break_pos(ls, i)] == ' ' ==> break_forced(
            too_wide,
            ls[i],
            ls[i + 1],
        )
}

proof fn lemma_breaks_inv_change<F: Fn(&Vec<char>) -> bool>(
    too_wide: F,
    t: Seq<char>,
    a: Seq<Seq<char>>,
    b: Seq<Seq<char>>,
)
    requires
        breaks_inv(too_wide, t, a),
        1 <= b.len() <= a.len() + 1,
        forall|k: int| 0 <= k < b.len() - 1 ==> b[k] == a[k],
        b.len() >= 2 && t[break_pos(b, b.len() - 2)] == ' ' ==> break_forced(
            too_wide,
            b[b.len() - 2],
            b.last(),
        ),
    ensures
        breaks_inv(too_wide, t, b),
{
    assert forall|i: int|
        #![trigger break_pos(b, i)]
        0 <= i < b.len() - 1 && t[break_pos(b, i)] == ' ' implies break_forced(
            too_wide,
            b[i],
            b[i + 1],
        ) by {
        if i < b.len() - 2 {
            assert(b.take(i + 1) =~= a.take(i + 1));
            assert(break_pos(b, i) == break_pos(a, i));
        }
    }
}

proof fn lemma_break_forced_grow<F: Fn(&Vec<char>) -> bool>(
    too_wide: F,
    prev: Seq<char>,
    c: Seq<char>,
    w: Seq<char>,
)
    requires
        break_forced(too_wide, prev, c),
    ensures
        break_forced(too_wide, prev, c + seq![' '] + w),
{
    let k = choose|k: int|
        word_end(c, k) && !space_before(c, k) && judged(
            too_wide,
            #[trigger] (prev + seq![' '] + c.take(k)),
            true,
        );
    let c2 = c + seq![' '] + w;
    assert(c2.take(k) =~= c.take(k));
    if space_before(c2, k) {
        let j = choose|j: int| 0 <= j < k && c2[j] == ' ';
        assert(c[j] == ' ');
    }
    assert(word_end(c2, k));
}

proof fn lemma_layout_after_place(
    t: Seq<char>,
    ls: Seq<Seq<char>>,
    c: Seq<char>,
    wstart: int,
    i: int,
    ls2: Seq<Seq<char>>,
    c2: Seq<char>,
    broke: bool,
)
    requires
        layout_inv(t, ls, c, wstart),
        0 <= wstart <= i <= t.len(),
        c.len() == 0 ==> !broke && ls2 == ls && c2 == t.subrange(wstart, i),
        c.len() > 0 && !broke ==> ls2 == ls && c2 == c + seq![' '] + t.subrange(wstart, i),
        broke ==> c.len() > 0 && ls2 == ls.push(c) && c2 == t.subrange(wstart, i),
    ensures
        spaces_broken(t.take(i), joined(ls2.push(c2))),
{
    let w = t.subrange(wstart, i);
    assert(spaces_broken(w, w));
    lemma_joined_push(ls, c);
    if c.len() == 0 {
        lemma_joined_push(ls, w);
        assert(joined(ls.push(w)) =~= joined(ls.push(c)) + w);
        assert(t.take(i) =~= t.take(wstart) + w);
        lemma_spaces_broken_concat(t.take(wstart), joined(ls.push(c)), w, w);
    } else if !broke {
        lemma_joined_push(ls, c2);
        assert(joined(ls.push(c2)) =~= joined(ls.push(c)) + (seq![' '] + w));
        assert(t.take(i) =~= t.take(wstart - 1) + (seq![' '] + w));
        assert(spaces_broken(seq![' '] + w, seq![' '] + w));
        lemma_spaces_broken_concat(
            t.take(wstart - 1),
            joined(ls.push(c)),
            seq![' '] + w,
            seq![' '] + w,
        );
    } else {
        lemma_joined_push(ls.push(c), w);
        assert(joined(ls2.push(c2)) =~= joined(ls.push(c)) + (seq!['\n'] + w));
        assert(t.take(i) =~= t.take(wstart - 1) + (seq![' '] + w));
        assert(spaces_broken(seq![' '] + w, seq!['\n'] + w)) by {
            assert forall|k: int| 0 <= k < (seq![' '] + w).len() implies (seq!['\n'] + w)[k] == (seq![' ']
                + w)[k] || ((seq![' '] + w)[k] == ' ' && (seq!['\n'] + w)[k] == '\n') by {
                if k > 0 {
                    assert((seq![' '] + w)[k] == w[k - 1]);
                    assert((seq!['\n'] + w)[k] == w[k - 1]);
                }
            }
        }
        lemma_spaces_broken_concat(
            t.take(wstart - 1),
            joined(ls.push(c)),
            seq![' '] + w,
            seq!['\n'] + w,
        );
    }
}

proof fn lemma_breaks_after_place<F: Fn(&Vec<char>) -> bool>(
    too_wide: F,
    t: Seq<char>,
    ls: Seq<Seq<char>>,
    cur: Seq<char>,
    wstart: int,
    i: int,
    ls2: Seq<Seq<char>>,
    c2: Seq<char>,
    broke: bool,
)
    requires
        layout_inv(t, ls, cur, wstart),
        breaks_inv(too_wide, t, ls.push(cur)),
        0 <= wstart <= i <= t.len(),
        lacks(t.subrange(wstart, i), ' '),
        cur.len() == 0 ==> !broke && ls2 == ls && c2 == t.subrange(wstart, i),
        cur.len() > 0 && !broke ==> ls2 == ls && c2 == cur + seq![' '] + t.subrange(wstart, i),
        broke ==> cur.len() > 0 && ls2 == ls.push(cur) && c2 == t.subrange(wstart, i) && judged(
            too_wide,
            cur + seq![' '] + t.subrange(wstart, i),
            true,
        ),
    ensures
        breaks_inv(too_wide, t, ls2.push(c2)),
{
    let w = t.subrange(wstart, i);
    let b = ls2.push(c2);
    let a = ls.push(cur);
    if cur.len() == 0 {
        lemma_joined_push(ls, cur);
        if ls.len() > 0 {
            assert(b.take(ls.len() as int) =~= ls);
        }
    } else if !broke {
        if ls.len() > 0 {
            assert(b.take(ls.len() as int) =~= ls);
            assert(a.take(ls.len() as int) =~= ls);
            assert(break_pos(a, ls.len() - 1) == break_pos(b, ls.len() - 1));
            if t[break_pos(b, ls.len() - 1)] == ' ' {
                assert(break_forced(too_wide, a[ls.len() - 1], a[ls.len() as int]));
                lemma_break_forced_grow(too_wide, ls.last(), cur, w);
            }
        }
    } else {
        assert(c2.take(c2.len() as int) =~= c2);
        if space_before(c2, c2.len() as int) {
            let k = choose|k: int| 0 <= k < c2.len() && c2[k] == ' ';
            assert(c2[k] == ' ');
        }
        assert(break_forced(too_wide, cur, c2));
    }
    lemma_breaks_inv_change(too_wide, t, a, b);
}

/// What wrapping made of one character of the text.
pub enum CharFate {
    /// Kept as it is.
    Kept,
    /// A space turned into a line break.
    Broken,
    /// A space left out.
    Dropped,
}

/// `fate` is a possible account of wrapping `t`: only spaces become line
/// breaks, and only spaces that begin the text or follow a space or a
/// newline are left out.
pub open spec fn fates_ok(t: Seq<char>, fate: Seq<CharFate>) -> bool {
    &&& fate.len() == t.len()
    &&& forall|k: int|
        0 <= k < t.len() ==> match #[trigger] fate[k] {
            CharFate::Kept => true,
            CharFate::Broken => t[k] == ' ',
            CharFate::Dropped => t[k] == ' ' && (k == 0 || t[k - 1] == ' ' || t[k - 1] == '\n'),
        }
}

/// The text `t` after applying `fate` to each of its characters.
pub open spec fn apply_fates(t: Seq<char>, fate: Seq<CharFate>) -> Seq<char>
    decreases t.len(),
{
    if t.len() == 0 || fate.len() == 0 {
        seq![]
    } else {
        apply_fates(t.drop_last(), fate.drop_last()) + match fate.last() {
            CharFate::Kept => seq![t.last()],
            CharFate::Broken => seq!['\n'],
            CharFate::Dropped => seq![],
        }
    }
}

/// `n` characters, each kept.
spec fn all_kept(n: nat) -> Seq<CharFate> {
    Seq::new(n, |i: int| CharFate::Kept)
}

/// Space number `k` of `t` is one that wrapping leaves out: it begins the
/// text or a paragraph, or follows a space that was left out or turned into
/// a line break (so that the line being built is still empty).
pub open spec fn drop_position(t: Seq<char>, fate: Seq<CharFate>, k: int) -> bool {
    k == 0 || t[k - 1] == '\n' || (t[k - 1] == ' ' && fate[k - 1] != CharFate::Kept)
}

/// Exactly the spaces at drop positions are left out.
pub open spec fn drops_exactly(t: Seq<char>, fate: Seq<CharFate>) -> bool {
    forall|k: int|
        0 <= k < t.len() && t[k] == ' ' ==> (#[trigger] fate[k] == CharFate::Dropped
            <==> drop_position(t, fate, k))
}

/// For each character of `apply_fates(t, fate)`: whether it is a line break
/// made from a space (rather than a character of `t` kept as it is).
pub open spec fn break_marks(t: Seq<char>, fate: Seq<CharFate>) -> Seq<bool>
    decreases t.len(),
{
    if t.len() == 0 || fate.len() == 0 {
        seq![]
    } else {
        break_marks(t.drop_last(), fate.drop_last()) + match fate.last() {
            CharFate::Kept => seq![false],
            CharFate::Broken => seq![true],
            CharFate::Dropped => seq![],
        }
    }
}

/// The line `prev` was ended because a longer line was judged too wide:
/// `prev`, a space and the first word of `next`, or (where the text has two
/// spaces in a row there) `prev` and a space.
pub open spec fn break_judged<F: Fn(&Vec<char>) -> bool>(
    too_wide: F,
    prev: Seq<char>,
    next: Seq<char>,
) -> bool {
    break_forced(too_wide, prev, next) || judged(too_wide, prev + seq![' '], true)
}

/// Every line break made from a space (as `marks` tells, at its place in
/// the joined lines) was judged necessary.
pub open spec fn breaks_judged<F: Fn(&Vec<char>) -> bool>(
    too_wide: F,
    marks: Seq<bool>,
    ls: Seq<Seq<char>>,
) -> bool {
    forall|i: int|
        #![trigger break_pos(ls, i)]
        0 <= i < ls.len() - 1 && marks[break_pos(ls, i)] ==> break_judged(
            too_wide,
            ls[i],
            ls[i + 1],
        )
}

/// What wrapping `t` into the lines `ls` did, character by character
/// (`fate`): spaces turned into line breaks, the spaces at drop positions
/// and only those left out, everything else kept, each break made from a
/// space judged necessary.
pub open spec fn wrapped_as<F: Fn(&Vec<char>) -> bool>(
    too_wide: F,
    t: Seq<char>,
    ls: Seq<Seq<char>>,
    fate: Seq<CharFate>,
) -> bool {
    &&& fates_ok(t, fate)
    &&& drops_exactly(t, fate)
    &&& apply_fates(t, fate) == joined(ls)
    &&& breaks_judged(too_wide, break_marks(t, fate), ls)
}

proof fn lemma_marks_push(t: Seq<char>, fate: Seq<CharFate>, c: char, f: CharFate)
    requires
        fate.len() == t.len(),
    ensures
        break_marks(t.push(c), fate.push(f)) == break_marks(t, fate) + match f {
            CharFate::Kept => seq![false],
            CharFate::Broken => seq![true],
            CharFate::Dropped => seq![],
        },
{
    assert(t.push(c).drop_last() =~= t);
    assert(fate.push(f).drop_last() =~= fate);
}

proof fn lemma_marks_len(t: Seq<char>, fate: Seq<CharFate>)
    requires
        fate.len() == t.len(),
    ensures
        break_marks(t, fate).len() == apply_fates(t, fate).len(),
    decreases t.len(),
{
    if t.len() > 0 {
        lemma_marks_len(t.drop_last(), fate.drop_last());
    }
}

proof fn lemma_marks_kept(t: Seq<char>, fate: Seq<CharFate>, w: Seq<char>)
    requires
        fate.len() == t.len(),
    ensures
        break_marks(t + w, fate + all_kept(w.len())).len() == break_marks(t, fate).len() + w.len(),
        forall|k: int|
            0 <= k < break_marks(t, fate).len() ==> #[trigger] break_marks(
                t + w,
                fate + all_kept(w.len()),
            )[k] == break_marks(t, fate)[k],
        forall|k: int|
            break_marks(t, fate).len() <= k < break_marks(t, fate).len() + w.len()
                ==> !#[trigger] break_marks(t + w, fate + all_kept(w.len()))[k],
    decreases w.len(),
{
    if w.len() == 0 {
        assert(t + w =~= t);
        assert(fate + all_kept(w.len()) =~= fate);
    } else {
        let w0 = w.drop_last();
        lemma_marks_kept(t, fate, w0);
        assert(t + w =~= (t + w0).push(w.last()));
        assert(fate + all_kept(w.len()) =~= (fate + all_kept(w0.len())).push(CharFate::Kept));
        lemma_marks_push(t + w0, fate + all_kept(w0.len()), w.last(), CharFate::Kept);
    }
}

proof fn lemma_joined_prefix(ls: Seq<Seq<char>>, j: int)
    requires
        0 < j < ls.len(),
    ensures
        joined(ls.take(j)).len() < joined(ls).len(),
    decreases ls.len(),
{
    let init = ls.drop_last();
    if j == ls.len() - 1 {
        assert(ls.take(j) =~= init);
    } else {
        assert(init.take(j) =~= ls.take(j));
        lemma_joined_prefix(init, j);
    }
}

proof fn lemma_apply_fates_push(t: Seq<char>, fate: Seq<CharFate>, c: char, f: CharFate)
    requires
        fate.len() == t.len(),
    ensures
        apply_fates(t.push(c), fate.push(f)) == apply_fates(t, fate) + match f {
            CharFate::Kept => seq![c],
            CharFate::Broken => seq!['\n'],
            CharFate::Dropped => seq![],
        },
{
    assert(t.push(c).drop_last() =~= t);
    assert(fate.push(f).drop_last() =~= fate);
}

proof fn lemma_apply_fates_kept(t: Seq<char>, fate: Seq<CharFate>, w: Seq<char>)
    requires
        fate.len() == t.len(),
    ensures
        apply_fates(t + w, fate + all_kept(w.len())) == apply_fates(t, fate) + w,
    decreases w.len(),
{
    if w.len() == 0 {
        assert(t + w =~= t);
        assert(fate + all_kept(w.len()) =~= fate);
        assert(apply_fates(t, fate) + w =~= apply_fates(t, fate));
    } else {
        let w0 = w.drop_last();
        lemma_apply_fates_kept(t, fate, w0);
        assert(t + w =~= (t + w0).push(w.last()));
        assert(fate + all_kept(w.len()) =~= (fate + all_kept(w0.len())).push(CharFate::Kept));
        lemma_apply_fates_push(t + w0, fate + all_kept(w0.len()), w.last(), CharFate::Kept);
        assert(apply_fates(t, fate) + w =~= (apply_fates(t, fate) + w0) + seq![w.last()]);
    }
}

proof fn lemma_fates_ok_extend(t: Seq<char>, fate: Seq<CharFate>, c: char, f: CharFate, w: Seq<char>)
    requires
        fates_ok(t, fate),
        match f {
            CharFate::Kept => true,
            CharFate::Broken => c == ' ',
            CharFate::Dropped => c == ' ' && (t.len() == 0 || t.last() == ' ' || t.last() == '\n'),
        },
    ensures
        fates_ok(t.push(c) + w, fate.push(f) + all_kept(w.len())),
{
    let t2 = t.push(c) + w;
    let f2 = fate.push(f) + all_kept(w.len());
    assert forall|k: int| 0 <= k < t2.len() implies match #[trigger] f2[k] {
        CharFate::Kept => true,
        CharFate::Broken => t2[k] == ' ',
        CharFate::Dropped => t2[k] == ' ' && (k == 0 || t2[k - 1] == ' ' || t2[k - 1] == '\n'),
    } by {
        if k < t.len() {
            assert(f2[k] == fate[k]);
            assert(t2[k] == t[k]);
            if k > 0 {
                assert(t2[k - 1] == t[k - 1]);
            }
        } else if k == t.len() {
            assert(f2[k] == f);
            assert(t2[k] == c);
            if k > 0 {
                assert(t2[k - 1] == t.last());
            }
        } else {
            assert(f2[k] == CharFate::Kept);
        }
    }
}

proof fn lemma_fates_ok_kept(t: Seq<char>, fate: Seq<CharFate>, w: Seq<char>)
    requires
        fates_ok(t, fate),
    ensures
        fates_ok(t + w, fate + all_kept(w.len())),
{
    let t2 = t + w;
    let f2 = fate + all_kept(w.len());
    assert forall|k: int| 0 <= k < t2.len() implies match #[trigger] f2[k] {
        CharFate::Kept => true,
        CharFate::Broken => t2[k] == ' ',
        CharFate::Dropped => t2[k] == ' ' && (k == 0 || t2[k - 1] == ' ' || t2[k - 1] == '\n'),
    } by {
        if k < t.len() {
            assert(f2[k] == fate[k]);
            assert(t2[k] == t[k]);
            if k > 0 {
                assert(t2[k - 1] == t[k - 1]);
            }
        } else {
            assert(f2[k] == CharFate::Kept);
        }
    }
}

proof fn lemma_drops_extend(t: Seq<char>, fate: Seq<CharFate>, c: char, f: CharFate, w: Seq<char>)
    requires
        fate.len() == t.len(),
        drops_exactly(t, fate),
        lacks(w, ' '),
        c == ' ' ==> (f == CharFate::Dropped <==> drop_position(t.push(c), fate.push(f), t.len() as int)),
    ensures
        drops_exactly(t.push(c) + w, fate.push(f) + all_kept(w.len())),
{
    let t1 = t.push(c);
    let f1 = fate.push(f);
    let t2 = t1 + w;
    let f2 = f1 + all_kept(w.len());
    assert forall|k: int| 0 <= k < t2.len() && t2[k] == ' ' implies (#[trigger] f2[k]
        == CharFate::Dropped <==> drop_position(t2, f2, k)) by {
        if k < t.len() {
            assert(t2[k] == t[k] && f2[k] == fate[k]);
            if k > 0 {
                assert(t2[k - 1] == t[k - 1] && f2[k - 1] == fate[k - 1]);
            }
            assert(drop_position(t2, f2, k) == drop_position(t, fate, k));
        } else if k == t.len() {
            assert(t2[k] == c && f2[k] == f);
            if k > 0 {
                assert(t2[k - 1] == t1[k - 1] && f2[k - 1] == f1[k - 1]);
            }
            assert(drop_position(t2, f2, k) == drop_position(t1, f1, k));
        } else {
            assert(t2[k] == w[k - t.len() - 1]);
        }
    }
}

proof fn lemma_drops_kept(t: Seq<char>, fate: Seq<CharFate>, w: Seq<char>)
    requires
        fate.len() == t.len(),
        drops_exactly(t, fate),
        lacks(w, ' '),
    ensures
        drops_exactly(t + w, fate + all_kept(w.len())),
{
    let t2 = t + w;
    let f2 = fate + all_kept(w.len());
    assert forall|k: int| 0 <= k < t2.len() && t2[k] == ' ' implies (#[trigger] f2[k]
        == CharFate::Dropped <==> drop_position(t2, f2, k)) by {
        if k < t.len() {
            assert(t2[k] == t[k] && f2[k] == fate[k]);
            if k > 0 {
                assert(t2[k - 1] == t[k - 1] && f2[k - 1] == fate[k - 1]);
            }
            assert(drop_position(t2, f2, k) == drop_position(t, fate, k));
        } else {
            assert(t2[k] == w[k - t.len()]);
        }
    }
}

/// Every pair of neighbouring lines of `b` but the last is a pair of `a` at
/// the same place in the joined text, with the same mark: the judged breaks
/// of `a` carry over, and the last pair of `b` needs its own reason.
proof fn lemma_breaks_judged_change<F: Fn(&Vec<char>) -> bool>(
    too_wide: F,
    ma: Seq<bool>,
    mb: Seq<bool>,
    a: Seq<Seq<char>>,
    b: Seq<Seq<char>>,
)
    requires
        breaks_judged(too_wide, ma, a),
        ma.len() == joined(a).len(),
        ma.len() <= mb.len(),
        forall|k: int| 0 <= k < ma.len() ==> #[trigger] mb[k] == ma[k],
        1 <= b.len() <= a.len() + 1,
        forall|k: int| 0 <= k < b.len() - 1 ==> b[k] == a[k],
        b.len() >= 2 && mb[break_pos(b, b.len() - 2)] ==> break_judged(
            too_wide,
            b[b.len() - 2],
            b.last(),
        ),
    ensures
        breaks_judged(too_wide, mb, b),
{
    assert forall|i: int|
        #![trigger break_pos(b, i)]
        0 <= i < b.len() - 1 && mb[break_pos(b, i)] implies break_judged(
            too_wide,
            b[i],
            b[i + 1],
        ) by {
        if i < b.len() - 2 {
            assert(b.take(i + 1) =~= a.take(i + 1));
            assert(break_pos(b, i) == break_pos(a, i));
            lemma_joined_prefix(a, i + 1);
            assert(mb[break_pos(b, i)] == ma[break_pos(a, i)]);
        }
    }
}

/// While wrapping: an account (`fate`) of the text read so far, up to the
/// word being read, that yields the finished lines `ls` and the line being
/// built `c`. A space just before the word is still undecided: it will be
/// left out exactly when `c` is empty.
spec fn fates_inv<F: Fn(&Vec<char>) -> bool>(
    too_wide: F,
    t: Seq<char>,
    ls: Seq<Seq<char>>,
    c: Seq<char>,
    wstart: int,
    fate: Seq<CharFate>,
) -> bool {
    if wstart > 0 && t[wstart - 1] == ' ' {
        &&& wrapped_as(too_wide, t.take(wstart - 1), ls.push(c), fate)
        &&& (c.len() == 0 <==> drop_position(t, fate, wstart - 1))
    } else {
        &&& c.len() == 0
        &&& wrapped_as(too_wide, t.take(wstart), ls.push(c), fate)
    }
}

proof fn lemma_place_pending<F: Fn(&Vec<char>) -> bool>(
    too_wide: F,
    t: Seq<char>,
    ls: Seq<Seq<char>>,
    c: Seq<char>,
    wstart: int,
    i: int,
    ls2: Seq<Seq<char>>,
    c2: Seq<char>,
    broke: bool,
    fate: Seq<CharFate>,
) -> (fate2: Seq<CharFate>)
    requires
        0 <= wstart <= i <= t.len(),
        wstart > 0 ==> t[wstart - 1] == ' ' || t[wstart - 1] == '\n',
        lacks(t.subrange(wstart, i), ' '),
        lacks(t.subrange(wstart, i), '\n'),
        fates_inv(too_wide, t, ls, c, wstart, fate),
        wstart > 0 && t[wstart - 1] == ' ',
        c.len() == 0 ==> !broke && ls2 == ls && c2 == t.subrange(wstart, i),
        c.len() > 0 && !broke ==> ls2 == ls && c2 == c + seq![' '] + t.subrange(wstart, i),
        broke ==> c.len() > 0 && ls2 == ls.push(c) && c2 == t.subrange(wstart, i) && judged(
            too_wide,
            c + seq![' '] + t.subrange(wstart, i),
            true,
        ),
    ensures
        fate2.len() == i,
        wrapped_as(too_wide, t.take(i), ls2.push(c2), fate2),
        c2.len() == 0 <==> drop_position(t, fate2, i),
{
    let w = t.subrange(wstart, i);
    lemma_joined_push(ls, c);
        let p = t.take(wstart - 1);
        let f = if c.len() == 0 {
            CharFate::Dropped
        } else if !broke {
            CharFate::Kept
        } else {
            CharFate::Broken
        };
        assert(t.take(i) =~= p.push(' ') + w);
        if p.len() > 0 {
            assert(p.last() == t[wstart - 2]);
        }
        assert(drop_position(p.push(' '), fate.push(f), p.len() as int) == drop_position(
            t,
            fate,
            wstart - 1,
        )) by {
            if wstart - 1 > 0 {
                assert(p.push(' ')[wstart - 2] == t[wstart - 2]);
                assert(fate.push(f)[wstart - 2] == fate[wstart - 2]);
            }
        }
        lemma_fates_ok_extend(p, fate, ' ', f, w);
        lemma_drops_extend(p, fate, ' ', f, w);
        lemma_apply_fates_push(p, fate, ' ', f);
        lemma_apply_fates_kept(p.push(' '), fate.push(f), w);
        lemma_marks_push(p, fate, ' ', f);
        lemma_marks_kept(p.push(' '), fate.push(f), w);
        lemma_marks_len(p, fate);
        let fate2 = fate.push(f) + all_kept(w.len());
        let ma = break_marks(p, fate);
        let mb = break_marks(t.take(i), fate2);
        let a = ls.push(c);
        let b = ls2.push(c2);
        assert forall|k: int| 0 <= k < ma.len() implies #[trigger] mb[k] == ma[k] by {
            assert(break_marks(p.push(' '), fate.push(f))[k] == ma[k]);
        }
        if c.len() == 0 {
            lemma_joined_push(ls, w);
            assert(joined(ls.push(w)) =~= joined(ls.push(c)) + w);
            assert(apply_fates(p, fate) + seq![] =~= apply_fates(p, fate));
            if ls.len() > 0 {
                assert(b.take(ls.len() as int) =~= ls);
                assert(a.take(ls.len() as int) =~= ls);
                if mb[break_pos(b, ls.len() - 1)] {
                    assert(break_pos(b, ls.len() - 1) == break_pos(a, ls.len() - 1));
                    lemma_joined_prefix(a, ls.len() as int);
                    assert(break_judged(too_wide, a[ls.len() - 1], a[ls.len() as int]));
                    let prev = ls.last();
                    if break_forced(too_wide, prev, c) {
                        let k = choose|k: int|
                            word_end(c, k) && !space_before(c, k) && judged(
                                too_wide,
                                #[trigger] (prev + seq![' '] + c.take(k)),
                                true,
                            );
                        assert(prev + seq![' '] + c.take(k) =~= prev + seq![' ']);
                    }
                }
            }
        } else if !broke {
            lemma_joined_push(ls, c2);
            assert(joined(ls.push(c2)) =~= joined(ls.push(c)) + seq![' '] + w);
            if ls.len() > 0 {
                assert(b.take(ls.len() as int) =~= ls);
                assert(a.take(ls.len() as int) =~= ls);
                if mb[break_pos(b, ls.len() - 1)] {
                    assert(break_pos(b, ls.len() - 1) == break_pos(a, ls.len() - 1));
                    lemma_joined_prefix(a, ls.len() as int);
                    assert(break_judged(too_wide, a[ls.len() - 1], a[ls.len() as int]));
                    if break_forced(too_wide, ls.last(), c) {
                        lemma_break_forced_grow(too_wide, ls.last(), c, w);
                    }
                }
            }
        } else {
            lemma_joined_push(ls.push(c), w);
            assert(b.take(ls.len() + 1 as int) =~= ls.push(c));
            assert(c2.take(c2.len() as int) =~= c2);
            if space_before(c2, c2.len() as int) {
                let k = choose|k: int| 0 <= k < c2.len() && c2[k] == ' ';
                assert(c2[k] == ' ');
            }
            assert(break_forced(too_wide, c, c2));
        }
        lemma_breaks_judged_change(too_wide, ma, mb, a, b);
        if w.len() > 0 {
            assert(t[i - 1] == w[w.len() - 1]);
        } else {
            assert(fate2[i - 1] == f);
        }
        fate2
}

proof fn lemma_place_fresh<F: Fn(&Vec<char>) -> bool>(
    too_wide: F,
    t: Seq<char>,
    ls: Seq<Seq<char>>,
    c: Seq<char>,
    wstart: int,
    i: int,
    ls2: Seq<Seq<char>>,
    c2: Seq<char>,
    broke: bool,
    fate: Seq<CharFate>,
) -> (fate2: Seq<CharFate>)
    requires
        0 <= wstart <= i <= t.len(),
        wstart > 0 ==> t[wstart - 1] == ' ' || t[wstart - 1] == '\n',
        lacks(t.subrange(wstart, i), ' '),
        lacks(t.subrange(wstart, i), '\n'),
        fates_inv(too_wide, t, ls, c, wstart, fate),
        !(wstart > 0 && t[wstart - 1] == ' '),
        c.len() == 0 ==> !broke && ls2 == ls && c2 == t.subrange(wstart, i),
        c.len() > 0 && !broke ==> ls2 == ls && c2 == c + seq![' '] + t.subrange(wstart, i),
        broke ==> c.len() > 0 && ls2 == ls.push(c) && c2 == t.subrange(wstart, i) && judged(
            too_wide,
            c + seq![' '] + t.subrange(wstart, i),
            true,
        ),
    ensures
        fate2.len() == i,
        wrapped_as(too_wide, t.take(i), ls2.push(c2), fate2),
        c2.len() == 0 <==> drop_position(t, fate2, i),
{
    let w = t.subrange(wstart, i);
    lemma_joined_push(ls, c);
        let p = t.take(wstart);
        assert(t.take(i) =~= p + w);
        lemma_fates_ok_kept(p, fate, w);
        lemma_drops_kept(p, fate, w);
        lemma_apply_fates_kept(p, fate, w);
        lemma_marks_kept(p, fate, w);
        lemma_marks_len(p, fate);
        lemma_joined_push(ls, w);
        assert(joined(ls.push(w)) =~= joined(ls.push(c)) + w);
        let fate2 = fate + all_kept(w.len());
        let ma = break_marks(p, fate);
        let mb = break_marks(t.take(i), fate2);
        let a = ls.push(c);
        let b = ls2.push(c2);
        if ls.len() > 0 {
            assert(b.take(ls.len() as int) =~= ls);
            assert(a.take(ls.len() as int) =~= ls);
            // the pair before the word is a paragraph break: its mark is the
            // newline kept as it is
            assert(p.drop_last().push(p.last()) =~= p);
            assert(fate.drop_last().push(fate.last()) =~= fate);
            assert(fate.last() == fate[wstart - 1]);
            lemma_marks_push(p.drop_last(), fate.drop_last(), p.last(), fate.last());
            lemma_marks_len(p.drop_last(), fate.drop_last());
            lemma_apply_fates_push(p.drop_last(), fate.drop_last(), p.last(), fate.last());
            assert(!ma[ma.len() - 1]);
            assert(break_pos(b, ls.len() - 1) == ma.len() - 1);
        }
        lemma_breaks_judged_change(too_wide, ma, mb, a, b);
        if w.len() > 0 {
            assert(t[i - 1] == w[w.len() - 1]);
        }
        fate2
}

proof fn lemma_fates_after_place<F: Fn(&Vec<char>) -> bool>(
    too_wide: F,
    t: Seq<char>,
    ls: Seq<Seq<char>>,
    c: Seq<char>,
    wstart: int,
    i: int,
    ls2: Seq<Seq<char>>,
    c2: Seq<char>,
    broke: bool,
    fate: Seq<CharFate>,
) -> (fate2: Seq<CharFate>)
    requires
        0 <= wstart <= i <= t.len(),
        wstart > 0 ==> t[wstart - 1] == ' ' || t[wstart - 1] == '\n',
        lacks(t.subrange(wstart, i), ' '),
        lacks(t.subrange(wstart, i), '\n'),
        fates_inv(too_wide, t, ls, c, wstart, fate),
        c.len() == 0 ==> !broke && ls2 == ls && c2 == t.subrange(wstart, i),
        c.len() > 0 && !broke ==> ls2 == ls && c2 == c + seq![' '] + t.subrange(wstart, i),
        broke ==> c.len() > 0 && ls2 == ls.push(c) && c2 == t.subrange(wstart, i) && judged(
            too_wide,
            c + seq![' '] + t.subrange(wstart, i),
            true,
        ),
    ensures
        fate2.len() == i,
        wrapped_as(too_wide, t.take(i), ls2.push(c2), fate2),
        c2.len() == 0 <==> drop_position(t, fate2, i),
{
    if wstart > 0 && t[wstart - 1] == ' ' {
        lemma_place_pending(too_wide, t, ls, c, wstart, i, ls2, c2, broke, fate)
    } else {
        lemma_place_fresh(too_wide, t, ls, c, wstart, i, ls2, c2, broke, fate)
    }
}

proof fn lemma_newline_step<F: Fn(&Vec<char>) -> bool>(
    too_wide: F,
    t: Seq<char>,
    i: int,
    ls: Seq<Seq<char>>,
    c: Seq<char>,
    fate: Seq<CharFate>,
) -> (fate2: Seq<CharFate>)
    requires
        0 <= i < t.len(),
        t[i] == '\n',
        fate.len() == i,
        wrapped_as(too_wide, t.take(i), ls.push(c), fate),
        well_spaced(t) ==> spaces_broken(t.take(i), joined(ls.push(c))),
        well_spaced(t) ==> breaks_inv(too_wide, t, ls.push(c)),
    ensures
        fates_inv(too_wide, t, ls.push(c), Seq::empty(), i + 1, fate2),
        well_spaced(t) ==> layout_inv(t, ls.push(c), Seq::empty(), i + 1),
        well_spaced(t) ==> breaks_inv(too_wide, t, ls.push(c).push(Seq::empty())),
{
    let tp = t.take(i);
    let e = Seq::<char>::empty();
    assert(t.take(i + 1) =~= tp.push('\n') + e);
    lemma_fates_ok_extend(tp, fate, '\n', CharFate::Kept, e);
    lemma_drops_extend(tp, fate, '\n', CharFate::Kept, e);
    lemma_apply_fates_push(tp, fate, '\n', CharFate::Kept);
    lemma_marks_push(tp, fate, '\n', CharFate::Kept);
    lemma_marks_len(tp, fate);
    assert(fate.push(CharFate::Kept) + all_kept(0) =~= fate.push(CharFate::Kept));
    lemma_joined_push(ls.push(c), e);
    let fate2 = fate.push(CharFate::Kept);
    assert(apply_fates(t.take(i + 1), fate2) =~= joined(ls.push(c).push(e)));
    let ma = break_marks(tp, fate);
    let mb = break_marks(t.take(i + 1), fate2);
    let b = ls.push(c).push(e);
    assert(b.take(ls.len() + 1 as int) =~= ls.push(c));
    lemma_breaks_judged_change(too_wide, ma, mb, ls.push(c), b);
    if well_spaced(t) {
        assert(t.take(i + 1) =~= t.take(i) + seq!['\n']);
        assert(spaces_broken(seq!['\n'], seq!['\n']));
        lemma_spaces_broken_concat(t.take(i), joined(ls.push(c)), seq!['\n'], seq!['\n']);
        assert(joined(b) =~= joined(ls.push(c)) + seq!['\n']);
        lemma_breaks_inv_change(too_wide, t, ls.push(c), b);
    }
    fate2
}

/// Breaks a text layer's content into the lines it is drawn as. Each
/// newline ends a paragraph; within a paragraph, words (split at single
/// spaces) are added to the current line for as long as `too_wide` says the
/// grown line still fits, and a word that does not fit starts a new line
/// (a word too wide on its own still gets a line of its own).
///
/// The width test is the caller's: `too_wide` measures a candidate line.
/// What is stated holds whatever it answers: every line was grown greedily
/// (each multi-word prefix ending a word was judged to fit); the lines,
/// joined by newlines, are the text with some of its spaces turned into
/// newlines and exactly the spaces at drop positions (see `drop_position`:
/// at the start of a paragraph, or after a space that was left out or
/// turned into a newline) left out; and each space turned into a newline
/// is a break that was judged necessary (see `wrapped_as`). On well-spaced
/// text (no space leads a line, no two spaces in a row) nothing is left
/// out, and the longer line judged too wide is always the line, a space and
/// the next line's first word.
pub fn wrap_text<F: Fn(&Vec<char>) -> bool>(text: &Vec<char>, too_wide: &F) -> (lines: Vec<Vec<char>>)
    requires
        forall|v: &Vec<char>| #[trigger] too_wide.requires((v,)),
    ensures
        lines.len() >= 1,
        forall|i: int| 0 <= i < lines.len() ==> lacks(#[trigger] lines[i]@, '\n'),
        forall|i: int| 0 <= i < lines.len() ==> fits_greedily(*too_wide, #[trigger] lines[i]@),
        exists|fate: Seq<CharFate>| wrapped_as(*too_wide, text@, line_views(lines@), fate),
        well_spaced(text@) ==> spaces_broken(text@, joined(line_views(lines@))),
        well_spaced(text@) ==> forall|i: int|
            #![trigger break_pos(line_views(lines@), i)]
            0 <= i < lines.len() - 1 && text@[break_pos(line_views(lines@), i)] == ' '
                ==> break_forced(*too_wide, lines[i]@, lines[i + 1]@),
{
    let mut lines: Vec<Vec<char>> = Vec::new();
    let mut current: Vec<char> = Vec::new();
    let mut word: Vec<char> = Vec::new();
    let ghost mut wstart: int = 0;
    let ghost mut fate: Seq<CharFate> = Seq::empty();
    let n = text.len();
    let mut i: usize = 0;
    proof {
        assert(line_views(lines@).push(current@) =~= seq![seq![]]);
        assert(apply_fates(text@.take(0), fate) =~= joined(line_views(lines@).push(current@)));
        assert(break_marks(text@.take(0), fate) =~= Seq::<bool>::empty());
        assert(text@.take(0) =~= seq![]);
        assert(word@ =~= text@.subrange(0, 0));
    }
    while i < n
        invariant
            0 <= wstart <= i <= n,
            n == text.len(),
            forall|v: &Vec<char>| #[trigger] too_wide.requires((v,)),
            word@ == text@.subrange(wstart, i as int),
            wstart > 0 ==> text@[wstart - 1] == ' ' || text@[wstart - 1] == '\n',
            fates_inv(*too_wide, text@, line_views(lines@), current@, wstart, fate),
            lacks(word@, ' '),
            lacks(word@, '\n'),
            lacks(current@, '\n'),
            fits_greedily(*too_wide, current@),
            forall|k: int| 0 <= k < lines.len() ==> lacks(#[trigger] lines[k]@, '\n'),
            forall|k: int| 0 <= k < lines.len() ==> fits_greedily(*too_wide, #[trigger] lines[k]@),
            well_spaced(text@) ==> layout_inv(text@, line_views(lines@), current@, wstart),
            well_spaced(text@) ==> breaks_inv(
                *too_wide,
                text@,
                line_views(lines@).push(current@),
            ),
        decreases n - i,
    {
        let c = text[i];
        if c == ' ' || c == '\n' {
            let mut w: Vec<char> = Vec::new();
            std::mem::swap(&mut word, &mut w);
            let ghost ls = line_views(lines@);
            let ghost cur = current@;
            let broke = place_word(&mut lines, &mut current, w, too_wide);
            proof {
                if broke {
                    assert(line_views(lines@) =~= ls.push(cur));
                } else {
                    assert(line_views(lines@) =~= ls);
                }
                fate = lemma_fates_after_place(
                    *too_wide,
                    text@,
                    ls,
                    cur,
                    wstart,
                    i as int,
                    line_views(lines@),
                    current@,
                    broke,
                    fate,
                );
                if well_spaced(text@) {
                    lemma_layout_after_place(
                        text@,
                        ls,
                        cur,
                        wstart,
                        i as int,
                        line_views(lines@),
                        current@,
                        broke,
                    );
                    lemma_breaks_after_place(
                        *too_wide,
                        text@,
                        ls,
                        cur,
                        wstart,
                        i as int,
                        line_views(lines@),
                        current@,
                        broke,
                    );
                }
            }
            if c == '\n' {
                let ghost ls2 = line_views(lines@);
                let ghost cur2 = current@;
                let mut done: Vec<char> = Vec::new();
                std::mem::swap(&mut current, &mut done);
                lines.push(done);
                proof {
                    assert(line_views(lines@) =~= ls2.push(cur2));
                    assert(current@ =~= Seq::<char>::empty());
                    fate = lemma_newline_step(*too_wide, text@, i as int, ls2, cur2, fate);
                }
            } else {
                proof {
                    if current@.len() == 0 {
                        assert(i == wstart);
                    }
                    if well_spaced(text@) {
                        if current@.len() == 0 {
                            assert(text@[i as int] == ' ');
                        }
                    }
                }
            }
            proof {
                wstart = i + 1;
            }
        } else {
            word.push(c);
        }
        i = i + 1;
        proof {
            assert(word@ =~= text@.subrange(wstart, i as int));
        }
    }
    let mut w: Vec<char> = Vec::new();
    std::mem::swap(&mut word, &mut w);
    let ghost ls = line_views(lines@);
    let ghost cur = current@;
    let broke = place_word(&mut lines, &mut current, w, too_wide);
    let ghost ls2 = line_views(lines@);
    lines.push(current);
    proof {
        assert(line_views(lines@) =~= ls2.push(lines@.last()@));
        if broke {
            assert(ls2 =~= ls.push(cur));
        } else {
            assert(ls2 =~= ls);
        }
        assert(text@.take(n as int) =~= text@);
        let fate2 = lemma_fates_after_place(
            *too_wide,
            text@,
            ls,
            cur,
            wstart,
            n as int,
            ls2,
            lines@.last()@,
            broke,
            fate,
        );
        assert(wrapped_as(*too_wide, text@, line_views(lines@), fate2));
        if well_spaced(text@) {
            lemma_layout_after_place(
                text@,
                ls,
                cur,
                wstart,
                n as int,
                ls2,
                lines@.last()@,
                broke,
            );
            lemma_breaks_after_place(
                *too_wide,
                text@,
                ls,
                cur,
                wstart,
                n as int,
                ls2,
                lines@.last()@,
                broke,
            );
        }
    }
    lines
}

// ---------------------------------------------------------------------------
// Compositing one RGBA8 image onto another.
// ---------------------------------------------------------------------------

/// The four channel bytes (r, g, b, a) of pixel number `p` of an RGBA8
/// buffer.
pub open spec fn rgba_at(buf: Seq<u8>, p: int) -> (u8, u8, u8, u8) {
    (buf[4 * p], buf[4 * p + 1], buf[4 * p + 2], buf[4 * p + 3])
}

/// The pixel at column `x`, row `y` of a row-major RGBA8 image `w` pixels
/// wide.
pub open spec fn pixel(buf: Seq<u8>, w: int, x: int, y: int) -> (u8, u8, u8, u8) {
    rgba_at(buf, y * w + x)
}

/// What compositing does to the destination pixel at (`px`, `py`): where a
/// source pixel lands on it (source origin at (`dst_x`, `dst_y`)) and that
/// source pixel is not fully transparent, the new pixel is what `blend`
/// gives for the old one and the source one; everywhere else the pixel is
/// unchanged. Only source pixels among the first `row` rows, and the first
/// `col` pixels of row `row`, count as placed.
pub open spec fn blit_pixel_ok<F: Fn((u8, u8, u8, u8), (u8, u8, u8, u8)) -> (u8, u8, u8, u8)>(
    blend: F,
    before: Seq<u8>,
    after: Seq<u8>,
    dw: int,
    src: Seq<u8>,
    sw: int,
    sh: int,
    dst_x: int,
    dst_y: int,
    row: int,
    col: int,
    px: int,
    py: int,
) -> bool {
    let sx = px - dst_x;
    let sy = py - dst_y;
    if 0 <= sx < sw && 0 <= sy < sh && (sy < row || (sy == row && sx < col)) && pixel(
        src,
        sw,
        sx,
        sy,
    ).3 != 0 {
        blend.ensures((pixel(before, dw, px, py), pixel(src, sw, sx, sy)), pixel(after, dw, px, py))
    } else {
        pixel(after, dw, px, py) == pixel(before, dw, px, py)
    }
}

proof fn lemma_pixel_index(w: int, h: int, x: int, y: int)
    requires
        0 <= x < w,
        0 <= y < h,
    ensures
        0 <= y * w,
        y * w <= y * w + x,
        (y * w + x) * 4 + 3 < w * h * 4,
{
    assert(y * w + x < w * h) by (nonlinear_arith)
        requires
            0 <= x < w,
            0 <= y < h,
    ;
    assert(0 <= y * w) by (nonlinear_arith)
        requires
            0 <= x < w,
            0 <= y,
    ;
}

proof fn lemma_pixel_index_injective(w: int, x1: int, y1: int, x2: int, y2: int)
    requires
        0 <= x1 < w,
        0 <= x2 < w,
        0 <= y1,
        0 <= y2,
        y1 * w + x1 == y2 * w + x2,
    ensures
        x1 == x2 && y1 == y2,
{
    if y1 < y2 {
        assert(y1 * w + w <= y2 * w) by (nonlinear_arith)
            requires
                y1 < y2,
                0 <= w,
        ;
    } else if y2 < y1 {
        assert(y2 * w + w <= y1 * w) by (nonlinear_arith)
            requires
                y2 < y1,
                0 <= w,
        ;
    }
}

/// Composites the `sw` x `sh` RGBA8 image `src` onto the `dw` x `dh` RGBA8
/// image `dst` with its top-left corner at (`dst_x`, `dst_y`) (which may lie
/// outside `dst`): source pixels that fall outside `dst`, and fully
/// transparent ones, are skipped; each other one replaces the destination
/// pixel under it by what `blend` gives for (destination, source).
pub fn alpha_blit<F: Fn((u8, u8, u8, u8), (u8, u8, u8, u8)) -> (u8, u8, u8, u8)>(
    dst: &mut Vec<u8>,
    dw: u32,
    dh: u32,
    src: &Vec<u8>,
    sw: u32,
    sh: u32,
    dst_x: i32,
    dst_y: i32,
    blend: &F,
)
    requires
        old(dst)@.len() >= dw * dh * 4,
        src@.len() >= sw * sh * 4,
        forall|d: (u8, u8, u8, u8), s: (u8, u8, u8, u8)| #[trigger] blend.requires((d, s)),
    ensures
        final(dst)@.len() == old(dst)@.len(),
        forall|px: int, py: int|
            0 <= px < dw && 0 <= py < dh ==> #[trigger] blit_pixel_ok(
                *blend,
                old(dst)@,
                final(dst)@,
                dw as int,
                src@,
                sw as int,
                sh as int,
                dst_x as int,
                dst_y as int,
                sh as int,
                0,
                px,
                py,
            ),
{
    let ghost d0 = dst@;
    let mut y: u32 = 0;
    while y < sh
        invariant
            y <= sh,
            d0.len() >= dw * dh * 4,
            dst@.len() == d0.len(),
            src@.len() >= sw * sh * 4,
            forall|d: (u8, u8, u8, u8), s: (u8, u8, u8, u8)| #[trigger] blend.requires((d, s)),
            forall|px: int, py: int|
                0 <= px < dw && 0 <= py < dh ==> #[trigger] blit_pixel_ok(
                    *blend,
                    d0,
                    dst@,
                    dw as int,
                    src@,
                    sw as int,
                    sh as int,
                    dst_x as int,
                    dst_y as int,
                    y as int,
                    0,
                    px,
                    py,
                ),
        decreases sh - y,
    {
        let mut x: u32 = 0;
        while x < sw
            invariant
                y < sh,
                x <= sw,
                d0.len() >= dw * dh * 4,
                dst@.len() == d0.len(),
                src@.len() >= sw * sh * 4,
                forall|d: (u8, u8, u8, u8), s: (u8, u8, u8, u8)| #[trigger] blend.requires((d, s)),
                forall|px: int, py: int|
                    0 <= px < dw && 0 <= py < dh ==> #[trigger] blit_pixel_ok(
                        *blend,
                        d0,
                        dst@,
                        dw as int,
                        src@,
                        sw as int,
                        sh as int,
                        dst_x as int,
                        dst_y as int,
                        y as int,
                        x as int,
                        px,
                        py,
                    ),
            decreases sw - x,
        {
            let px: i64 = dst_x as i64 + x as i64;
            let py: i64 = dst_y as i64 + y as i64;
            let ghost before = dst@;
            proof {
                lemma_pixel_index(sw as int, sh as int, x as int, y as int);
                assert(src@.len() == src.len());
            }
            let si: usize = ((y as usize) * (sw as usize) + (x as usize)) * 4;
            if 0 <= px && px < dw as i64 && 0 <= py && py < dh as i64 && src[si + 3] != 0 {
                proof {
                    lemma_pixel_index(dw as int, dh as int, px as int, py as int);
                    assert(dst@.len() == dst.len());
                }
                let di: usize = ((py as usize) * (dw as usize) + (px as usize)) * 4;
                let d = (dst[di], dst[di + 1], dst[di + 2], dst[di + 3]);
                let s = (src[si], src[si + 1], src[si + 2], src[si + 3]);
                let r = blend(d, s);
                dst.set(di, r.0);
                dst.set(di + 1, r.1);
                dst.set(di + 2, r.2);
                dst.set(di + 3, r.3);
                proof {
                    assert(pixel(before, dw as int, px as int, py as int) == d);
                    assert(pixel(src@, sw as int, x as int, y as int) == s);
                    assert(pixel(dst@, dw as int, px as int, py as int) == r);
                    assert forall|qx: int, qy: int| 0 <= qx < dw && 0 <= qy < dh implies #[trigger] blit_pixel_ok(
                        *blend,
                        d0,
                        dst@,
                        dw as int,
                        src@,
                        sw as int,
                        sh as int,
                        dst_x as int,
                        dst_y as int,
                        y as int,
                        x + 1,
                        qx,
                        qy,
                    ) by {
                        assert(blit_pixel_ok(
                            *blend,
                            d0,
                            before,
                            dw as int,
                            src@,
                            sw as int,
                            sh as int,
                            dst_x as int,
                            dst_y as int,
                            y as int,
                            x as int,
                            qx,
                            qy,
                        ));
                        if qx != px || qy != py {
                            lemma_pixel_index(dw as int, dh as int, qx, qy);
                            if qy * dw + qx == py * dw + px {
                                lemma_pixel_index_injective(dw as int, qx, qy, px as int, py as int);
                            }
                            assert(pixel(dst@, dw as int, qx, qy) == pixel(before, dw as int, qx, qy));
                        }
                    }
                }
            } else {
                proof {
                    assert forall|qx: int, qy: int| 0 <= qx < dw && 0 <= qy < dh implies #[trigger] blit_pixel_ok(
                        *blend,
                        d0,
                        dst@,
                        dw as int,
                        src@,
                        sw as int,
                        sh as int,
                        dst_x as int,
                        dst_y as int,
                        y as int,
                        x + 1,
                        qx,
                        qy,
                    ) by {
                        assert(blit_pixel_ok(
                            *blend,
                            d0,
                            before,
                            dw as int,
                            src@,
                            sw as int,
                            sh as int,
                            dst_x as int,
                            dst_y as int,
                            y as int,
                            x as int,
                            qx,
                            qy,
                        ));
                    }
                }
            }
            x = x + 1;
        }
        proof {
            assert forall|qx: int, qy: int| 0 <= qx < dw && 0 <= qy < dh implies #[trigger] blit_pixel_ok(
                *blend,
                d0,
                dst@,
                dw as int,
                src@,
                sw as int,
                sh as int,
                dst_x as int,
                dst_y as int,
                y + 1,
                0,
                qx,
                qy,
            ) by {
                assert(blit_pixel_ok(
                    *blend,
                    d0,
                    dst@,
                    dw as int,
                    src@,
                    sw as int,
                    sh as int,
                    dst_x as int,
                    dst_y as int,
                    y as int,
                    sw as int,
                    qx,
                    qy,
                ));
            }
        }
        y = y + 1;
    }
}

} // verus!
