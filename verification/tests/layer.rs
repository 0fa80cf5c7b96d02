use terra_wm::geometry::Point;
use terra_wm::layer::Layer;

#[test]
fn cascade_restarts_every_ten_windows() {
    let layer = Layer::default();
    assert_eq!(layer.add_window(0), Point::new(0, 0));
    assert_eq!(layer.add_window(3), Point::new(72, 72));
    assert_eq!(layer.add_window(9), Point::new(216, 216));
    assert_eq!(layer.add_window(10), Point::new(0, 0));
    assert_eq!(layer.add_window(13), Point::new(72, 72));
}

#[test]
fn minimize_then_unminimize_restores_position() {
    let mut layer = Layer::new();
    assert!(!layer.is_minimized(7));
    assert!(layer.minimize(7, Some(Point::new(10, 20))));
    assert!(layer.is_minimized(7));
    // a second minimize keeps the first saved position
    assert!(!layer.minimize(7, Some(Point::new(99, 99))));
    // a window that is not mapped cannot be minimized
    assert!(!layer.minimize(8, None));
    assert!(!layer.is_minimized(8));
    assert_eq!(layer.unminimize(7), Some(Point::new(10, 20)));
    assert!(!layer.is_minimized(7));
    assert_eq!(layer.unminimize(7), None);
}

#[test]
fn cleanup_forgets_dead_windows() {
    let mut layer = Layer::new();
    layer.minimize(1, Some(Point::new(0, 0)));
    layer.minimize(2, Some(Point::new(24, 24)));
    layer.cleanup(&vec![1, 5]);
    assert!(!layer.is_minimized(1));
    assert!(layer.is_minimized(2));
}

#[test]
fn layer_constructs_empty() {
    let layer = Layer::default();
    for window in 0..16 {
        assert!(!layer.is_minimized(window));
    }
}
