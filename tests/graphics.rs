use goto::icon::{contains_bytes, keep_larger, theme_icon_matches};
use goto::frame::{Color, Frame};
use goto::icon::icon_from_argb_list;
use goto::icon_cache::IconCache;
use goto::tasks::Task;

fn filled_frame(w: u32, h: u32, c: Color) -> Frame {
    let mut f = Frame::new(w, h);
    f.draw_rect(0, 0, w, h, &c);
    f
}

fn all_pixels(f: &Frame) -> Vec<Color> {
    let mut v = Vec::new();
    for y in 0..f.height() {
        for x in 0..f.width() {
            v.push(f.pixel(x, y));
        }
    }
    v
}

const CLEAR: Color = Color { r: 0, g: 0, b: 0, a: 0 };

#[test]
fn new_frame_is_transparent() {
    let f = Frame::new(3, 2);
    assert_eq!(f.buf_u8().len(), 24);
    assert!(f.buf_u8().iter().all(|&b| b == 0));
}

#[test]
fn pixel_bytes_are_blue_green_red_alpha() {
    let c = Color::new(1, 2, 3, 4);
    let f = filled_frame(1, 1, c);
    assert_eq!(f.buf_u8(), &[3, 2, 1, 4]);
    assert_eq!(c.to_bgra(), 0x0401_0203);
}

#[test]
fn draw_rect_fills_and_clips() {
    let red = Color::new(255, 0, 0, 255);
    let mut f = Frame::new(4, 3);
    f.draw_rect(2, 1, 10, 10, &red);
    for y in 0..3 {
        for x in 0..4 {
            let want = if x >= 2 && y >= 1 { red } else { CLEAR };
            assert_eq!(f.pixel(x, y), want, "pixel {x},{y}");
        }
    }
    let before = all_pixels(&f);
    f.draw_rect(7, 0, 3, 3, &Color::new(0, 255, 0, 255));
    assert_eq!(all_pixels(&f), before);
}

#[test]
fn outline_paints_only_the_border() {
    let c = Color::new(9, 9, 9, 9);
    let mut f = Frame::new(5, 4);
    f.draw_rect_outline(0, 0, 5, 4, 1, &c);
    for y in 0..4 {
        for x in 0..5 {
            let border = x == 0 || y == 0 || x == 4 || y == 3;
            assert_eq!(f.pixel(x, y), if border { c } else { CLEAR });
        }
    }
    let mut g = Frame::new(5, 4);
    g.draw_rect_outline(0, 0, 5, 4, 0, &c);
    assert!(all_pixels(&g).iter().all(|p| *p == CLEAR));
}

#[test]
fn hline_paints_a_band() {
    let c = Color::new(1, 1, 1, 1);
    let mut f = Frame::new(4, 4);
    f.draw_hline(2, 1, 1, 3, &c);
    for y in 0..4 {
        for x in 0..4 {
            let on = (1..3).contains(&x) && (1..3).contains(&y);
            assert_eq!(f.pixel(x, y), if on { c } else { CLEAR });
        }
    }
    let mut g = Frame::new(4, 4);
    g.draw_hline(2, 1, 3, 1, &c);
    g.draw_hline(0, 1, 0, 4, &c);
    assert!(all_pixels(&g).iter().all(|p| *p == CLEAR));
}

#[test]
fn blit_copies_with_clipping() {
    let blue = Color::new(0, 0, 255, 255);
    let src = filled_frame(2, 2, blue);
    let mut dst = Frame::new(3, 3);
    dst.blit_frame(&src, 2, -1);
    for y in 0..3 {
        for x in 0..3 {
            let want = if x == 2 && y == 0 { blue } else { CLEAR };
            assert_eq!(dst.pixel(x, y), want);
        }
    }
}

#[test]
fn blit_fully_outside_changes_nothing() {
    let src = filled_frame(2, 3, Color::new(7, 7, 7, 7));
    let base = filled_frame(4, 4, Color::new(1, 2, 3, 4));
    for (x, y) in [(4, 0), (0, 4), (-2, 0), (0, -3), (100, -100), (-2, -3)] {
        let mut dst = filled_frame(4, 4, Color::new(1, 2, 3, 4));
        dst.blit_frame(&src, x, y);
        assert_eq!(dst.buf_u8(), base.buf_u8());
    }
}

#[test]
fn resample_uniform_colour_stays_uniform() {
    let c = Color::new(10, 200, 33, 128);
    let src = filled_frame(3, 2, c);
    for (w, h) in [(1, 1), (7, 5), (2, 9), (3, 2), (16, 16)] {
        let out = src.scale_bilinear(w, h);
        assert_eq!((out.width(), out.height()), (w, h));
        assert!(all_pixels(&out).iter().all(|p| *p == c));
    }
}

#[test]
fn resample_interpolates_and_rounds() {
    let mut src = Frame::new(2, 1);
    src.draw_rect(1, 0, 1, 1, &Color::new(0, 0, 255, 255));
    let out = src.scale_bilinear(3, 1);
    assert_eq!(out.pixel(0, 0), CLEAR);
    assert_eq!(out.pixel(1, 0), Color::new(0, 0, 128, 128));
    assert_eq!(out.pixel(2, 0), Color::new(0, 0, 255, 255));
    let out = src.scale_bilinear(5, 1);
    assert_eq!(out.pixel(1, 0).b, 64);
    assert_eq!(out.pixel(3, 0).b, 191);
}

#[test]
fn glyph_coverage_scales_colour() {
    let mut f = filled_frame(3, 2, Color::new(5, 5, 5, 5));
    let cov = vec![255, 0, 128, 51];
    f.draw_glyph(&cov, 2, 2, 1, 0, &Color::new(200, 100, 50, 255));
    assert_eq!(f.pixel(1, 0), Color::new(200, 100, 50, 255));
    assert_eq!(f.pixel(2, 0), Color::new(5, 5, 5, 5));
    assert_eq!(f.pixel(1, 1), Color::new(100, 50, 25, 128));
    assert_eq!(f.pixel(2, 1), Color::new(40, 20, 10, 51));
    assert_eq!(f.pixel(0, 0), Color::new(5, 5, 5, 5));
    let mut g = Frame::new(2, 2);
    g.draw_glyph(&cov, 2, 2, 1, 1, &Color::new(1, 1, 1, 255));
    assert_eq!(g.pixel(1, 1), Color::new(1, 1, 1, 255));
    assert_eq!(g.pixel(0, 0), CLEAR);
    assert_eq!(Color::new(255, 10, 0, 100).multiply(0), CLEAR);
}

#[test]
fn frames_from_icon_data() {
    let f = Frame::from_argb_u32(&[0x8011_2233, 0xff00_00ff], 2, 1);
    assert_eq!(f.pixel(0, 0), Color::new(0x11, 0x22, 0x33, 0x80));
    assert_eq!(f.pixel(1, 0), Color::new(0, 0, 0xff, 0xff));
    let g = Frame::from_rgba_u8(&[1, 2, 3, 4], 2, 1);
    assert_eq!(g.pixel(0, 0), Color::new(1, 2, 3, 4));
    assert_eq!(g.pixel(1, 0), CLEAR);
}

#[test]
fn resize_keeps_leading_pixels() {
    let c = Color::new(1, 2, 3, 4);
    let mut f = filled_frame(2, 2, c);
    f.resize(3, 2);
    assert_eq!((f.width(), f.height()), (3, 2));
    let px = all_pixels(&f);
    assert_eq!(&px[..4], &[c, c, c, c]);
    assert_eq!(&px[4..], &[CLEAR, CLEAR]);
    f.resize(1, 1);
    assert_eq!(f.buf_u8(), &[3, 2, 1, 4]);
}

#[test]
fn icon_list_picks_largest() {
    let data = vec![1, 1, 0xff00_0001, 2, 2, 1, 2, 3, 4, 1, 3, 5, 6, 7];
    let f = icon_from_argb_list(&data).unwrap();
    assert_eq!((f.width(), f.height()), (2, 2));
    assert_eq!(f.pixel(1, 1), Color::new(0, 0, 4, 0));
}

#[test]
fn icon_list_tie_keeps_first_and_truncation_stops() {
    let data = vec![1, 2, 10, 11, 2, 1, 20, 21, 5, 5, 1];
    let f = icon_from_argb_list(&data).unwrap();
    assert_eq!((f.width(), f.height()), (1, 2));
    assert_eq!(f.pixel(0, 1).b, 11);
    assert!(icon_from_argb_list(&[]).is_none());
    assert!(icon_from_argb_list(&[3]).is_none());
    assert!(icon_from_argb_list(&[2, 2, 1, 2, 3]).is_none());
}

#[test]
fn icon_list_empty_image_gives_empty_frame() {
    let f = icon_from_argb_list(&[0, 7]).unwrap();
    assert_eq!((f.width(), f.height()), (0, 7));
}

#[test]
fn icon_list_too_large_for_a_frame() {
    assert!(icon_from_argb_list(&[0x10000, 0x10000]).is_none());
}

fn task(wid: u32, class: &str) -> Task {
    Task::new(wid, "t".to_string(), ("inst".to_string(), class.to_string()))
}

#[test]
fn icon_cache_resolution_order() {
    let mut cache = IconCache::new();
    let own = filled_frame(1, 1, Color::new(1, 0, 0, 255));
    let theme = filled_frame(2, 2, Color::new(0, 1, 0, 255));
    let a = task(1, "A");
    cache.refresh(&a, Some(own), Some(theme), None);
    assert_eq!(cache.get(&a).width(), 1);

    let b = task(2, "B");
    cache.refresh(&b, None, Some(filled_frame(2, 2, Color::new(0, 1, 0, 255))), None);
    assert_eq!(cache.get(&b).width(), 2);

    let c = task(3, "C");
    cache.refresh(&c, None, None, Some(&("inst".to_string(), "A".to_string())));
    assert_eq!(cache.get(&c).buf_u8(), cache.get(&a).buf_u8());

    let d = task(4, "D");
    cache.refresh(&d, None, None, Some(&("inst".to_string(), "nope".to_string())));
    assert_eq!((cache.get(&d).width(), cache.get(&d).height()), (0, 0));
    let e = task(5, "E");
    cache.refresh(&e, None, None, None);
    assert_eq!(cache.get(&e).buf_u8().len(), 0);
}

#[test]
fn icon_cache_memoizes_until_refresh() {
    let mut list = goto::tasks::TaskList::new();
    for (w, c) in [(1, "A"), (2, "B"), (3, "A"), (4, "C")] {
        list.track(task(w, c));
    }
    let mut cache = IconCache::new();
    let a = task(1, "A");
    cache.refresh(&a, Some(filled_frame(1, 1, Color::new(9, 9, 9, 9))), None, None);
    assert_eq!(cache.missing(&list), vec![1, 3]);
    let first = cache.get(&a).buf_u8().to_vec();
    cache.refresh(&task(2, "B"), None, None, None);
    assert_eq!(cache.get(&a).buf_u8(), &first[..]);
    assert_eq!(cache.get(&task(3, "A")).buf_u8(), &first[..]);
    assert_eq!(cache.missing(&list), vec![3]);
    assert!(cache.contains(&("inst".to_string(), "B".to_string())));
    cache.refresh(&a, None, None, None);
    assert_eq!(cache.get(&a).width(), 0);
}

#[test]
fn theme_icon_names_match_case_insensitively() {
    assert!(theme_icon_matches("Firefox-Symbolic.svg", "FIREFOX"));
    assert!(theme_icon_matches("org.gnome.Terminal.svg", "gnome.terminal"));
    assert!(!theme_icon_matches("chromium.svg", "Firefox"));
    assert!(theme_icon_matches("anything.svg", ""));
    assert!(contains_bytes(b"abcabd", b"abd"));
    assert!(!contains_bytes(b"ab", b"abc"));
    assert!(contains_bytes(b"", b""));
}

#[test]
fn keep_larger_prefers_area_then_earlier() {
    let small = filled_frame(2, 2, Color::new(1, 1, 1, 1));
    let big = filled_frame(3, 2, Color::new(2, 2, 2, 2));
    let r = keep_larger(Some(small), big);
    assert_eq!(r.width(), 3);
    let same = filled_frame(2, 3, Color::new(3, 3, 3, 3));
    let r = keep_larger(Some(r), same);
    assert_eq!(r.width(), 3);
    let r = keep_larger(None, filled_frame(1, 1, Color::new(4, 4, 4, 4)));
    assert_eq!(r.width(), 1);
}
