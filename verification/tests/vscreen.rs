use terra_wm::geometry::{Point, Size};
use terra_wm::vscreen::{smallest_monitor_size, vscreen_of, vscreen_rect};

fn cell() -> Size {
    Size::new(100, 80)
}

#[test]
fn center_inside_vscreen() {
    assert_eq!(vscreen_of(Point::new(50, 40), cell()), Point::new(0, 0));
    assert_eq!(vscreen_of(Point::new(250, 100), cell()), Point::new(2, 1));
}

#[test]
fn vertical_border_goes_right() {
    // exactly on the border between column 0 and 1 -> right (column 1)
    assert_eq!(vscreen_of(Point::new(100, 40), cell()), Point::new(1, 0));
}

#[test]
fn horizontal_border_goes_top() {
    // exactly on the border between row 0 and 1 -> top (row 0)
    assert_eq!(vscreen_of(Point::new(50, 80), cell()), Point::new(0, 0));
}

#[test]
fn corner_goes_right_top() {
    assert_eq!(vscreen_of(Point::new(100, 80), cell()), Point::new(1, 0));
}

#[test]
fn rect_from_index() {
    let rect = vscreen_rect(Point::new(1, 2), cell());
    assert_eq!(rect.loc, Point::new(100, 160));
    assert_eq!(rect.size, cell());
}

#[test]
fn borders_above_origin_go_right_top() {
    assert_eq!(vscreen_of(Point::new(-1, -1), cell()), Point::new(-1, -1));
    assert_eq!(vscreen_of(Point::new(-100, 0), cell()), Point::new(-1, -1));
    assert_eq!(vscreen_of(Point::new(0, -80), cell()), Point::new(0, -2));
    assert_eq!(vscreen_of(Point::new(50, 0), cell()), Point::new(0, -1));
}

#[test]
fn smallest_monitor_ignores_output_order() {
    let a = vec![Some(Size::new(1920, 1080)), Some(Size::new(1280, 1440))];
    let b = vec![Some(Size::new(1280, 1440)), None, Some(Size::new(1920, 1080))];
    assert_eq!(smallest_monitor_size(&a), smallest_monitor_size(&b));
}

#[test]
fn smallest_monitor_is_elementwise_minimum() {
    let sizes = vec![Some(Size::new(1920, 1080)), None, Some(Size::new(1280, 1440))];
    assert_eq!(smallest_monitor_size(&sizes), Some(Size::new(1280, 1080)));
    assert_eq!(smallest_monitor_size(&vec![None]), None);
    assert_eq!(smallest_monitor_size(&vec![]), None);
}
