use bluenoise::dither::{dither_pixel, is_lit, next_frame, tile_index, FRAMES, TILE_CELLS, TILE_SIDE};

#[test]
fn tile_repeats_every_sixteen_pixels() {
    assert_eq!(TILE_SIDE, 16);
    assert_eq!(TILE_CELLS, 256);
    assert_eq!(tile_index(0, 0), 0);
    assert_eq!(tile_index(1, 0), 1);
    assert_eq!(tile_index(0, 1), 16);
    assert_eq!(tile_index(17, 33), 17);
    assert_eq!(tile_index(127, 63), 255);
    assert_eq!(tile_index(-1, -1), 255);
    assert_eq!(tile_index(-16, -32), 0);
    assert_eq!(tile_index(i32::MIN, i32::MAX), 240);
}

#[test]
fn black_is_never_lit() {
    assert!(!is_lit(0, 0));
    assert!(!is_lit(0, 255));
    assert!(is_lit(1, 0));
    assert!(is_lit(5, 5));
    assert!(!is_lit(4, 5));
    assert!(is_lit(255, 255));
    assert!(!is_lit(254, 255));
}

#[test]
fn pixel_is_compared_with_its_own_threshold() {
    let mut tile = [0u8; 256];
    for (i, t) in tile.iter_mut().enumerate() {
        *t = i as u8;
    }
    assert!(dither_pixel(&tile, 3, 0, 3));
    assert!(!dither_pixel(&tile, 4, 0, 3));
    assert!(dither_pixel(&tile, 0, 1, 16));
    assert!(!dither_pixel(&tile, 0, 1, 15));
    assert!(dither_pixel(&tile, 16, 16, 1));
    assert!(!dither_pixel(&tile, 0, 0, 0));
    assert!(!dither_pixel(&tile, -1, -1, 254));
    assert!(dither_pixel(&tile, -1, -1, 255));
}

#[test]
fn frames_cycle() {
    assert_eq!(FRAMES, 16);
    assert_eq!(next_frame(0), 1);
    assert_eq!(next_frame(14), 15);
    assert_eq!(next_frame(15), 0);
    assert_eq!(next_frame(16), 1);
    assert_eq!(next_frame(usize::MAX), 0);
}
