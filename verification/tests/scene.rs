use gravity::scene::{get_body_color, grid_radii, trail_color};

#[test]
fn body_colors() {
    assert_eq!(get_body_color(0), [255, 255, 0, 255]);
    assert_eq!(get_body_color(1), [165, 165, 165, 255]);
    assert_eq!(get_body_color(2), [255, 198, 107, 255]);
    assert_eq!(get_body_color(3), [100, 149, 237, 255]);
    assert_eq!(get_body_color(4), [255, 69, 0, 255]);
    assert_eq!(get_body_color(5), [210, 180, 140, 255]);
    assert_eq!(get_body_color(6), [238, 232, 170, 255]);
    assert_eq!(get_body_color(7), [173, 216, 230, 255]);
    assert_eq!(get_body_color(8), [65, 105, 225, 255]);
    assert_eq!(get_body_color(9), [224, 255, 255, 255]);
    assert_eq!(get_body_color(10), [139, 69, 19, 255]);
    assert_eq!(get_body_color(11), [200, 200, 200, 255]);
    assert_eq!(get_body_color(5000), [200, 200, 200, 255]);
}

#[test]
fn trail_color_halves_channels() {
    assert_eq!(trail_color([255, 255, 0, 255]), [127, 127, 0, 255]);
    assert_eq!(trail_color([100, 149, 237, 7]), [50, 74, 118, 255]);
    for c in 0..=255u8 {
        let f = ((c as f32) * 0.5) as u8;
        assert_eq!(trail_color([c, c, c, 0])[0], f);
    }
}

#[test]
fn grid_radii_values() {
    assert_eq!(
        grid_radii(),
        vec![1, 2, 3, 4, 5, 6, 7, 8, 9, 10, 15, 20, 25, 30, 35]
    );
}
