use ustripe::ledball_globe::{render_frame, StaticPixelMap, Texture};

#[test]
fn texels_by_nearest_led() {
    // 3 by 2 texels, assigned to LEDs 0, 1 and 2.
    let assignment = [0usize, 1, 1, 2, 0, 1];
    let map = StaticPixelMap::new(4, 3, 2, &assignment);
    assert_eq!(map.get_texcoords_for_pixel(0), &[(0, 0), (1, 1)]);
    assert_eq!(map.get_texcoords_for_pixel(1), &[(1, 0), (2, 0), (2, 1)]);
    assert_eq!(map.get_texcoords_for_pixel(2), &[(0, 1)]);
    assert!(map.get_texcoords_for_pixel(3).is_empty());
}

#[test]
fn average_of_texels() {
    let assignment = [0usize, 0, 1, 1];
    let map = StaticPixelMap::new(3, 2, 2, &assignment);
    let tex = Texture::new(2, 2, vec![[10, 20, 30], [20, 40, 61], [255, 255, 255], [0, 0, 0]]);
    let mut pixels = vec![[1u8, 2, 3]; 3];
    render_frame(&mut pixels, &map, &tex, 0);
    assert_eq!(pixels, vec![[15, 30, 45], [127, 127, 127], [1, 2, 3]]);
}

#[test]
fn texture_lookup() {
    let assignment = [0usize, 1, 1];
    let map = StaticPixelMap::new(2, 3, 1, &assignment);
    let tex = Texture::new(3, 1, vec![[0, 0, 0], [90, 0, 0], [30, 0, 0]]);
    assert_eq!(tex.width(), 3);
    assert_eq!(tex.get_pixel(1, 0), [90, 0, 0]);
    let mut pixels = vec![[0u8; 3]; 2];
    render_frame(&mut pixels, &map, &tex, 0);
    assert_eq!(pixels, vec![[0, 0, 0], [60, 0, 0]]);
}
