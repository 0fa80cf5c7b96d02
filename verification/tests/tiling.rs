use terra_wm::geometry::{Point, Rectangle, Size};
use terra_wm::tiling::{
    client_min_width, equal_share, fits_row, mins_fit, rebalanced_widths, row_positions, Direction,
    Placement, TilingLayout,
};

#[test]
fn equal_share_halves() {
    assert_eq!(equal_share(960, 1, 1920), 960);
    assert_eq!(equal_share(640, 1, 1920), 640);
}

#[test]
fn equal_share_capped_by_smallest_monitor() {
    // one window on a 3840 viewport: capped to smallest monitor width
    assert_eq!(equal_share(3840, 1, 1920), 1920);
}

#[test]
fn equal_share_floored_by_client_min() {
    assert_eq!(equal_share(100, 320, 1920), 320);
}

#[test]
fn row_positions_are_cumulative() {
    let rects = row_positions(&[100, 200, 50], 1080);
    assert_eq!(rects[0].loc, Point::new(0, 0));
    assert_eq!(rects[1].loc, Point::new(100, 0));
    assert_eq!(rects[2].loc, Point::new(300, 0));
    assert_eq!(rects[2].size, Size::new(50, 1080));
}

#[test]
fn row_positions_overflow_past_viewport() {
    // total width exceeds any single viewport: positions keep growing,
    // the extra is revealed by translating the viewport (infinity-layer)
    let rects = row_positions(&[800, 800, 800], 1080);
    assert_eq!(rects[2].loc.x, 1600);
}

fn place(window: u64, x: i32, w: i32, activate: bool) -> Placement {
    Placement { window, rect: Rectangle::new(Point::new(x, 0), Size::new(w, 1080)), activate }
}

fn viewport() -> Size {
    Size::new(1920, 1080)
}

#[test]
fn add_inserts_after_focus_and_rebalances() {
    let mut t = TilingLayout::new();
    let p = t.add(1, 1, &vec![], viewport(), 1920);
    assert_eq!(p, vec![place(1, 0, 1920, true)]);
    let p = t.add(2, 1, &vec![1], viewport(), 1920);
    assert_eq!(p, vec![place(1, 0, 960, false), place(2, 960, 960, true)]);
    assert_eq!(t.set_focus(1, 1080), Some(vec![place(1, 0, 960, true), place(2, 960, 960, false)]));
    let p = t.add(3, 1, &vec![1, 1], viewport(), 1920);
    assert_eq!(t.windows(), vec![1, 3, 2]);
    assert_eq!(p, vec![place(1, 0, 640, false), place(3, 640, 640, true), place(2, 1280, 640, false)]);
    assert_eq!(t.focused_window(), Some(3));
    assert_eq!(t.width_of(3), Some(640));
    assert_eq!(t.width_of(9), None);
}

#[test]
fn add_respects_client_minimum() {
    let mut t = TilingLayout::default();
    t.add(1, 1, &vec![], viewport(), 1920);
    let p = t.add(2, 1500, &vec![1], viewport(), 1920);
    assert_eq!(p, vec![place(1, 0, 960, false), place(2, 960, 1500, true)]);
}

#[test]
fn resize_neighbor_compensates() {
    let mut t = TilingLayout::new();
    t.add(1, 1, &vec![], viewport(), 1920);
    t.add(2, 1, &vec![1], viewport(), 1920);
    t.set_focus(1, 1080);
    t.add(3, 1, &vec![1, 1], viewport(), 1920);
    // right edge of window 3: window 2 gives up the 160 pixels
    let p = t.resize_window(3, 800, false, &vec![1, 1, 1], 1080);
    assert_eq!(p, Some(vec![place(1, 0, 640, false), place(3, 640, 800, true), place(2, 1440, 480, false)]));
    // left edge, below the client minimum of 200: window 1 takes the 600 pixels
    let p = t.resize_window(3, 100, true, &vec![1, 200, 1], 1080);
    assert_eq!(p, Some(vec![place(1, 0, 1240, false), place(3, 1240, 200, true), place(2, 1440, 480, false)]));
    // the neighbour never shrinks below its own minimum
    t.resize_window(3, 1700, false, &vec![1, 1, 300], 1080);
    assert_eq!(t.width_of(2), Some(300));
    assert_eq!(t.width_of(3), Some(1700));
}

#[test]
fn resize_without_neighbor_does_nothing() {
    let mut t = TilingLayout::new();
    t.add(1, 1, &vec![], viewport(), 1920);
    t.add(2, 1, &vec![1], viewport(), 1920);
    assert_eq!(t.resize_window(1, 500, true, &vec![1, 1], 1080), None);
    assert_eq!(t.resize_window(2, 500, false, &vec![1, 1], 1080), None);
    assert_eq!(t.resize_window(7, 500, false, &vec![1, 1], 1080), None);
    assert_eq!(t.width_of(1), Some(960));
}

#[test]
fn cleanup_drops_dead_windows() {
    let mut t = TilingLayout::new();
    t.add(1, 1, &vec![], viewport(), 1920);
    t.add(2, 1, &vec![1], viewport(), 1920);
    t.add(3, 1, &vec![1, 1], viewport(), 1920);
    assert_eq!(t.cleanup(&vec![true, true, true], &vec![1, 1, 1], viewport(), 1920), None);
    // window 3 was focused at index 2, past the end: focus moves to the last tile
    let p = t.cleanup(&vec![true, true, false], &vec![1, 1, 1], viewport(), 1920);
    assert_eq!(p, Some(vec![place(1, 0, 960, false), place(2, 960, 960, true)]));
    assert_eq!(t.focused_window(), Some(2));
    let p = t.cleanup(&vec![false, false], &vec![1, 1], viewport(), 1920);
    assert_eq!(p, Some(vec![]));
    assert_eq!(t.focused_window(), None);
}

#[test]
fn clear_focus_only_once() {
    let mut t = TilingLayout::new();
    t.add(1, 1, &vec![], viewport(), 1920);
    assert_eq!(t.clear_focus(1080), Some(vec![place(1, 0, 1920, false)]));
    assert_eq!(t.clear_focus(1080), None);
    assert_eq!(t.focused_window(), None);
    assert_eq!(t.set_focus(5, 1080), None);
}

#[test]
fn client_min_width_is_at_least_one() {
    assert_eq!(client_min_width(Some(320)), 320);
    assert_eq!(client_min_width(Some(0)), 1);
    assert_eq!(client_min_width(None), 1);
}

#[test]
fn fit_checks() {
    assert!(fits_row(&[100, 200]));
    assert!(!fits_row(&[i32::MAX, 1]));
    assert!(mins_fit(&vec![1, 1920], 1920));
    assert!(!mins_fit(&vec![0], 1920));
    assert!(!mins_fit(&vec![1921], 1920));
    assert_eq!(rebalanced_widths(&vec![1, 1, 1000], 1920, 1920), vec![640, 640, 1000]);
    let t = TilingLayout::new();
    assert!(t.add_fits(1, &vec![], 1920, 1920));
    assert!(!t.add_fits(2000, &vec![], 1920, 1920));
    assert!(t.cleanup_fits(&vec![], &vec![], 1920, 1920));
    assert!(t.resize_fits(1, 10, false, &vec![]));
}

#[test]
fn direction_defaults_to_horizontal() {
    assert_ne!(Direction::Horizontal, Direction::Vertical);
    assert_ne!(Direction::Vertical, Direction::Grid);
}

#[test]
fn resize_keeps_row_width() {
    let mut t = TilingLayout::new();
    t.add(1, 1, &vec![], viewport(), 1920);
    t.add(2, 1, &vec![1], viewport(), 1920);
    t.set_focus(1, 1080);
    t.add(3, 1, &vec![1, 1], viewport(), 1920);
    t.resize_window(3, 800, false, &vec![1, 1, 1], 1080);
    let total: i32 = t.windows().iter().map(|w| t.width_of(*w).unwrap()).sum();
    assert_eq!(total, 1920);
    assert_eq!(t.width_of(2), Some(480));
}

#[test]
fn tiles_capped_by_smallest_monitor() {
    // one window on a 3840 viewport, smallest monitor 1920 wide
    let mut t = TilingLayout::new();
    let p = t.add(1, 1, &vec![], Size::new(3840, 1080), 1920);
    assert_eq!(p, vec![place(1, 0, 1920, true)]);
    let p = t.add(2, 1, &vec![1], Size::new(3840, 1080), 1920);
    assert_eq!(p, vec![place(1, 0, 1920, false), place(2, 1920, 1920, true)]);
    assert_eq!(rebalanced_widths(&vec![1, 1, 1], 3840, 1000), vec![1000, 1000, 1000]);
    assert_eq!(rebalanced_widths(&vec![5], 0, 1000), vec![5]);
    assert!(!t.add_fits(1500, &vec![1, 1], 3840, 1280));
}
