use terra_wm::geometry::Point;
use terra_wm::wm::TerraWm;

#[test]
fn starts_with_one_active_layer() {
    let mut wm = TerraWm::new();
    assert_eq!(wm.layer_stack.len(), 1);
    assert_eq!(wm.active_layer, 0);
    assert_eq!(wm.view_offset, Point::new(0, 0));
    assert!(wm.active_layer_mut().minimize(4, Some(Point::new(1, 2))));
    assert!(wm.layer_stack[0].is_minimized(4));
}

#[test]
fn layer_of_surface_finds_first_layer() {
    let wm = TerraWm::new();
    let members = vec![vec![1, 2], vec![3], vec![2]];
    assert_eq!(wm.layer_of_surface(&members, 2), Some(0));
    assert_eq!(wm.layer_of_surface(&members, 3), Some(1));
    assert_eq!(wm.layer_of_surface(&members, 9), None);
}

#[test]
fn surface_under_searches_top_down() {
    let wm = TerraWm::new();
    assert_eq!(wm.surface_under(vec![Some("bottom"), None, Some("middle"), None]), Some("middle"));
    assert_eq!(wm.surface_under::<u8>(vec![None, None]), None);
    assert_eq!(wm.surface_under::<u8>(vec![]), None);
}
