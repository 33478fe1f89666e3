use mockup_studio::fonts::FontManager;
use mockup_studio::model::PaintLayer;
use mockup_studio::render::{alpha_blit, draw_paint_content, fit_background, upscale_2x, wrap_text};

#[test]
fn paint_content_at_native_size_is_the_buffer_itself() {
    let mut layer = PaintLayer::new_transparent(2, 2);
    layer.pixels[0] = 220;
    layer.pixels[3] = 255;
    let out = draw_paint_content(&layer, 2, 2);
    assert_eq!(out, layer.pixels);
}

#[test]
fn paint_content_with_a_short_buffer_is_transparent() {
    let layer = PaintLayer { width: 4, height: 4, pixels: vec![255; 10] };
    let out = draw_paint_content(&layer, 3, 2);
    assert_eq!(out, vec![0u8; 24]);
}

#[test]
fn paint_content_is_resampled_to_the_layer_size() {
    let mut layer = PaintLayer::new_transparent(2, 2);
    for px in layer.pixels.chunks_mut(4) {
        px.copy_from_slice(&[200, 10, 10, 255]);
    }
    let out = draw_paint_content(&layer, 4, 3);
    assert_eq!(out.len(), 4 * 3 * 4);
    for px in out.chunks(4) {
        assert_eq!(px, &[200, 10, 10, 255]);
    }
}

#[test]
fn fonts_that_do_not_parse_are_absent() {
    let junk = [1u8, 2, 3, 4];
    let fonts = FontManager::load(&junk, &junk, &[], &junk);
    assert!(fonts.light.is_none());
    assert!(fonts.regular.is_none());
    assert!(fonts.bold.is_none());
    assert!(fonts.black.is_none());
    for w in [100u16, 300, 400, 700, 900] {
        assert!(fonts.font_for_weight(w).is_none());
    }
}

fn wrap(text: &str, max_chars: usize) -> Vec<String> {
    let chars: Vec<char> = text.chars().collect();
    let too_wide = |candidate: &Vec<char>| candidate.len() > max_chars;
    wrap_text(&chars, &too_wide).into_iter().map(|l| l.into_iter().collect()).collect()
}

#[test]
fn wrap_breaks_before_the_word_that_does_not_fit() {
    assert_eq!(wrap("hello world foo", 10), vec!["hello", "world foo"]);
    assert_eq!(wrap("one two three four", 9), vec!["one two", "three", "four"]);
}

#[test]
fn wrap_keeps_a_fitting_paragraph_on_one_line() {
    assert_eq!(wrap("short text", 40), vec!["short text"]);
}

#[test]
fn wrap_of_empty_text_is_one_empty_line() {
    assert_eq!(wrap("", 10), vec![""]);
}

#[test]
fn wrap_keeps_paragraphs_and_empty_lines() {
    assert_eq!(wrap("a\n\nb", 10), vec!["a", "", "b"]);
    assert_eq!(wrap("title\n", 10), vec!["title", ""]);
}

#[test]
fn wrap_gives_an_overlong_word_its_own_line() {
    assert_eq!(wrap("abcdefghijklmnop", 5), vec!["abcdefghijklmnop"]);
    assert_eq!(wrap("hi abcdefghijklmnop yo", 5), vec!["hi", "abcdefghijklmnop", "yo"]);
}

#[test]
fn wrap_drops_the_spaces_after_a_break() {
    assert_eq!(wrap("a  b", 1), vec!["a", "b"]);
    assert_eq!(wrap("ab ", 2), vec!["ab", ""]);
    assert_eq!(wrap("ab ", 3), vec!["ab "]);
    assert_eq!(wrap(" a", 10), vec!["a"]);
    assert_eq!(wrap("a  b", 10), vec!["a  b"]);
}

#[test]
fn wrap_of_well_spaced_text_only_turns_spaces_into_newlines() {
    let text = "the quick brown fox jumps over\nthe lazy dog";
    let lines = wrap(text, 7);
    assert_eq!(lines.join("\n").replace('\n', " "), text.replace('\n', " "));
    assert_eq!(lines, vec!["the", "quick", "brown", "fox", "jumps", "over", "the", "lazy", "dog"]);
}

type Px = (u8, u8, u8, u8);

fn overwrite(_d: Px, s: Px) -> Px {
    s
}

fn px_at(buf: &[u8], w: u32, x: u32, y: u32) -> Px {
    let i = ((y * w + x) * 4) as usize;
    (buf[i], buf[i + 1], buf[i + 2], buf[i + 3])
}

#[test]
fn blit_places_the_source_at_its_offset() {
    let mut dst = vec![0u8, 0, 0, 255].repeat(9);
    let src: Vec<u8> = [[10u8, 20, 30, 255], [40, 50, 60, 255], [70, 80, 90, 255], [1, 2, 3, 255]].concat();
    alpha_blit(&mut dst, 3, 3, &src, 2, 2, 1, 1, &overwrite);
    assert_eq!(px_at(&dst, 3, 1, 1), (10, 20, 30, 255));
    assert_eq!(px_at(&dst, 3, 2, 1), (40, 50, 60, 255));
    assert_eq!(px_at(&dst, 3, 1, 2), (70, 80, 90, 255));
    assert_eq!(px_at(&dst, 3, 2, 2), (1, 2, 3, 255));
    for (x, y) in [(0, 0), (1, 0), (2, 0), (0, 1), (0, 2)] {
        assert_eq!(px_at(&dst, 3, x, y), (0, 0, 0, 255));
    }
}

#[test]
fn blit_clips_at_the_edges_and_skips_transparent_pixels() {
    let mut dst = vec![9u8; 2 * 2 * 4];
    let src: Vec<u8> = [[1u8, 1, 1, 255], [2, 2, 2, 0], [3, 3, 3, 255], [4, 4, 4, 255]].concat();
    alpha_blit(&mut dst, 2, 2, &src, 2, 2, -1, 1, &overwrite);
    // only source column 1 lands inside, on destination column 0, row 1
    assert_eq!(px_at(&dst, 2, 0, 1), (9, 9, 9, 9));
    assert_eq!(px_at(&dst, 2, 0, 0), (9, 9, 9, 9));
    assert_eq!(px_at(&dst, 2, 1, 0), (9, 9, 9, 9));
    assert_eq!(px_at(&dst, 2, 1, 1), (9, 9, 9, 9));
    alpha_blit(&mut dst, 2, 2, &src, 2, 2, -1, 0, &overwrite);
    assert_eq!(px_at(&dst, 2, 0, 0), (9, 9, 9, 9));
    assert_eq!(px_at(&dst, 2, 0, 1), (4, 4, 4, 255));
}

#[test]
fn blit_hands_each_pair_to_the_blend() {
    let mut dst = vec![100u8, 100, 100, 255];
    let src = vec![50u8, 60, 70, 128];
    let avg = |d: Px, s: Px| ((d.0 + s.0) / 2, (d.1 + s.1) / 2, (d.2 + s.2) / 2, 255);
    alpha_blit(&mut dst, 1, 1, &src, 1, 1, 0, 0, &avg);
    assert_eq!(dst, vec![75, 80, 85, 255]);
}

#[test]
fn fonts_that_parse_are_loaded_and_missing_weights_fall_back_to_regular() {
    let light = epaint_default_fonts::UBUNTU_LIGHT;
    let regular = epaint_default_fonts::HACK_REGULAR;
    let fonts = FontManager::load(light, regular, &[], &[7u8; 16]);
    assert!(fonts.light.is_some());
    assert!(fonts.regular.is_some());
    assert!(fonts.bold.is_none());
    assert!(fonts.black.is_none());
    let light_face = fonts.light.as_ref().unwrap();
    let regular_face = fonts.regular.as_ref().unwrap();
    assert!(std::ptr::eq(fonts.font_for_weight(300).unwrap(), light_face));
    assert!(std::ptr::eq(fonts.font_for_weight(400).unwrap(), regular_face));
    assert!(std::ptr::eq(fonts.font_for_weight(700).unwrap(), regular_face));
    assert!(std::ptr::eq(fonts.font_for_weight(900).unwrap(), regular_face));
}

#[test]
fn upscaling_doubles_both_sides() {
    let src = vec![200u8, 100, 50, 255].repeat(6);
    let out = upscale_2x(&src, 3, 2);
    assert_eq!(out.len(), 6 * 4 * 4);
    for px in out.chunks(4) {
        for (got, want) in px.iter().zip([200u8, 100, 50, 255]) {
            assert!((*got as i32 - want as i32).abs() <= 1);
        }
    }
}

#[test]
fn a_background_is_stretched_to_the_canvas() {
    let src = vec![9u8, 8, 7, 255].repeat(4);
    let out = fit_background(&src, 2, 2, 4, 3);
    assert_eq!(out.len(), 4 * 3 * 4);
    assert_eq!(fit_background(&src, 2, 2, 2, 2), src);
}

#[test]
fn paint_content_reads_only_the_layer_sized_prefix() {
    let layer = PaintLayer { width: 1, height: 1, pixels: vec![1, 2, 3, 4, 5, 6, 7, 8] };
    assert_eq!(draw_paint_content(&layer, 1, 1), vec![1, 2, 3, 4]);
}

#[test]
fn a_break_at_a_double_space_was_asked_about_the_line_and_a_space() {
    let asked = std::cell::RefCell::new(Vec::<String>::new());
    let chars: Vec<char> = "aaa  bbb".chars().collect();
    let too_wide = |candidate: &Vec<char>| {
        asked.borrow_mut().push(candidate.iter().collect());
        candidate.len() > 3
    };
    let lines: Vec<String> = wrap_text(&chars, &too_wide).into_iter().map(|l| l.into_iter().collect()).collect();
    assert_eq!(lines, vec!["aaa", "bbb"]);
    assert!(asked.borrow().contains(&"aaa ".to_string()));
    assert!(!asked.borrow().contains(&"aaa bbb".to_string()));
}
