use goto::keys::{keycode_for, modifier_index};
use goto::geometry::{compute_task_size, compute_window_geometry, LayoutConfig, ListLayout, Rect, WindowLocation};
use goto::text::{first_with_glyph, font_for_char, Glyph, GlyphCache};

fn conf(layout: ListLayout, location: WindowLocation) -> LayoutConfig {
    LayoutConfig {
        layout,
        location,
        task_width: 200,
        task_height: 64,
        width: 400,
        height: 100,
        border_width: 1,
    }
}

#[test]
fn rows_shrink_to_fit_screen() {
    assert_eq!(compute_task_size(150, 1, 64, 3), (148, 3));
    let g = compute_window_geometry(&conf(ListLayout::Rows, WindowLocation::NorthWest), (1000, 150), 3).unwrap();
    assert_eq!(g, Rect { x: 0, y: 0, w: 400, h: 148 });
    assert_ne!(g.h, 192);
}

#[test]
fn rows_keep_configured_size_when_they_fit() {
    assert_eq!(compute_task_size(1000, 1, 64, 3), (64, 1));
    let g = compute_window_geometry(&conf(ListLayout::Rows, WindowLocation::Center), (1000, 800), 3).unwrap();
    assert_eq!(g, Rect { x: 300, y: 304, w: 400, h: 192 });
}

#[test]
fn columns_use_width() {
    let g = compute_window_geometry(&conf(ListLayout::Columns, WindowLocation::SouthEast), (1000, 800), 2).unwrap();
    assert_eq!(g, Rect { x: 600, y: 700, w: 400, h: 100 });
    let g = compute_window_geometry(&conf(ListLayout::Columns, WindowLocation::South), (500, 800), 4).unwrap();
    assert_eq!(g, Rect { x: 1, y: 700, w: 498, h: 100 });
}

#[test]
fn no_tasks_no_geometry() {
    assert_eq!(compute_window_geometry(&conf(ListLayout::Rows, WindowLocation::Center), (1000, 800), 0), None);
    assert_eq!(compute_window_geometry(&conf(ListLayout::Rows, WindowLocation::Center), (1000, 2), 3), None);
    let mut c = conf(ListLayout::Rows, WindowLocation::Center);
    c.width = 0;
    assert_eq!(compute_window_geometry(&c, (1000, 800), 3), None);
}

#[test]
fn anchors() {
    let a = (100, 50);
    let b = (1000, 800);
    assert_eq!(WindowLocation::NorthWest.resolve(a, b), (0, 0));
    assert_eq!(WindowLocation::North.resolve(a, b), (450, 0));
    assert_eq!(WindowLocation::NorthEast.resolve(a, b), (900, 0));
    assert_eq!(WindowLocation::West.resolve(a, b), (0, 375));
    assert_eq!(WindowLocation::Center.resolve(a, b), (450, 375));
    assert_eq!(WindowLocation::East.resolve(a, b), (900, 375));
    assert_eq!(WindowLocation::SouthWest.resolve(a, b), (0, 750));
    assert_eq!(WindowLocation::South.resolve(a, b), (450, 750));
    assert_eq!(WindowLocation::SouthEast.resolve(a, b), (900, 750));
    assert_eq!(WindowLocation::Center.resolve((1001, 3), (1000, 8)), (0, 2));
    assert_eq!(WindowLocation::Center.resolve((1003, 3), (1000, 8)), (-1, 2));
    assert_eq!(WindowLocation::SouthEast.resolve((1003, 3), (1000, 8)), (-3, 5));
}

fn latin1() -> Vec<Glyph> {
    (0..256).map(|i| Glyph::new(1, 1, vec![i as u8])).collect()
}

#[test]
fn glyph_cache_latin1_lookup() {
    let cache = GlyphCache::new(latin1());
    assert_eq!(cache.get('A').coverage, vec![65]);
    assert_eq!(cache.get('\u{e9}').coverage, vec![0xe9]);
    assert!(!cache.needs_raster('A'));
    assert!(cache.needs_raster('\u{e9}'));
    assert!(cache.needs_raster('\u{4e2d}'));
}

#[test]
fn glyph_cache_memoizes_and_blanks() {
    let mut cache = GlyphCache::new(latin1());
    cache.store('\u{4e2d}', Some(Glyph::new(2, 1, vec![9, 8])));
    assert!(!cache.needs_raster('\u{4e2d}'));
    assert_eq!(cache.get('\u{4e2d}').coverage, vec![9, 8]);
    cache.store('\u{4e2d}', Some(Glyph::new(1, 1, vec![1])));
    assert_eq!(cache.get('\u{4e2d}').coverage, vec![9, 8]);
    cache.store('\u{1f600}', Some(Glyph::new(3, 0, vec![])));
    let g = cache.get('\u{1f600}');
    assert_eq!((g.width, g.height, g.coverage.len()), (0, 0, 0));
    cache.store('\u{2603}', None);
    assert_eq!(cache.get('\u{2603}').width, 0);
    cache.store('A', Some(Glyph::new(5, 5, vec![1; 25])));
    assert_eq!(cache.get('A').coverage, vec![65]);
}

#[test]
fn no_font_has_a_glyph_when_there_is_no_font() {
    assert_eq!(font_for_char(&Vec::new(), 'x'), None);
}

#[test]
fn keycode_lookup() {
    let syms = [10, 11, 20, 21, 30, 20];
    assert_eq!(keycode_for(&syms, 2, 8, 20), Some(9));
    assert_eq!(keycode_for(&syms, 2, 8, 30), Some(10));
    assert_eq!(keycode_for(&syms, 2, 8, 99), None);
    assert_eq!(keycode_for(&syms, 0, 8, 20), None);
    assert_eq!(keycode_for(&syms, 1, 254, 30), None);
    let map = [50, 62, 0, 0, 64, 0];
    assert_eq!(modifier_index(&map, 2, 64), Some(2));
    assert_eq!(modifier_index(&map, 2, 62), Some(0));
    assert_eq!(modifier_index(&map, 2, 9), None);
    assert_eq!(modifier_index(&map, 0, 64), None);
}

#[test]
fn first_font_with_glyph_wins() {
    assert_eq!(first_with_glyph(&[false, true, true]), Some(1));
    assert_eq!(first_with_glyph(&[true]), Some(0));
    assert_eq!(first_with_glyph(&[false, false]), None);
    assert_eq!(first_with_glyph(&[]), None);
}
