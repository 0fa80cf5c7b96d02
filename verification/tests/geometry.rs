use terra_wm::geometry::{transform_size, viewport_size, Size, Transform};

#[test]
fn quarter_turns_swap_the_size() {
    assert_eq!(transform_size(Transform::Rotate90, Size::new(1920, 1080)), Size::new(1080, 1920));
    assert_eq!(transform_size(Transform::Flipped270, Size::new(1920, 1080)), Size::new(1080, 1920));
    assert_eq!(transform_size(Transform::Flipped180, Size::new(1920, 1080)), Size::new(1920, 1080));
    assert_eq!(transform_size(Transform::Normal, Size::new(1920, 1080)), Size::new(1920, 1080));
}

#[test]
fn viewport_without_mode_is_empty() {
    assert_eq!(viewport_size(None, Transform::Rotate90), Size::new(0, 0));
    assert_eq!(viewport_size(Some(Size::new(800, 600)), Transform::Rotate270), Size::new(600, 800));
}
