use tgarender::{Color, Image, TgaError};

#[test]
fn new_is_zero_filled() {
    let img = Image::new(3, 2, 3);
    assert_eq!(img.width, 3);
    assert_eq!(img.height, 2);
    assert_eq!(img.bytespp, 3);
    assert_eq!(img.data, vec![0u8; 18]);
}

#[test]
fn get_and_set_roundtrip_color() {
    let mut img = Image::new(4, 4, 3);
    let c = Color::rgba(10, 20, 30, 40);
    img.set(1, 2, &c).unwrap();
    let got = img.get(1, 2).unwrap();
    assert_eq!(got.b, 30);
    assert_eq!(got.g, 20);
    assert_eq!(got.r, 10);
    // the fourth channel is not stored at three bytes per pixel
    assert_eq!(got.a, 0);
    assert_eq!(got.bytespp, 3);
}

#[test]
fn get_out_of_bounds() {
    let img = Image::new(2, 2, 1);
    assert_eq!(img.get(2, 0), Err(TgaError::OutOfBounds));
    assert_eq!(img.get(0, 2), Err(TgaError::OutOfBounds));
}

#[test]
fn set_out_of_bounds_changes_nothing() {
    let mut img = Image::new(2, 2, 1);
    let r = img.set(5, 0, &Color::from_raw(&[9], 1));
    assert_eq!(r, Err(TgaError::OutOfBounds));
    assert_eq!(img.data, vec![0u8; 4]);
}

#[test]
fn clear_zeroes_all_bytes() {
    let mut img = Image::new(2, 2, 1);
    img.set(0, 0, &Color::from_raw(&[1], 1)).unwrap();
    img.set(1, 1, &Color::from_raw(&[2], 1)).unwrap();
    img.clear();
    assert_eq!(img.data, vec![0u8; 4]);
}

#[test]
fn flip_vertically_swaps_rows() {
    let mut img = Image::new(2, 2, 1);
    img.data = vec![1, 2, 3, 4];
    img.flip_vertically();
    assert_eq!(img.data, vec![3, 4, 1, 2]);
}

#[test]
fn flip_vertically_twice_is_identity() {
    let mut img = Image::new(3, 3, 3);
    img.data = (0u8..27).collect();
    let before = img.data.clone();
    img.flip_vertically();
    img.flip_vertically();
    assert_eq!(img.data, before);
}

#[test]
fn flip_horizontally_swaps_columns() {
    let mut img = Image::new(2, 2, 1);
    img.data = vec![1, 2, 3, 4];
    img.flip_horizontally();
    assert_eq!(img.data, vec![2, 1, 4, 3]);
}

#[test]
fn flip_horizontally_twice_is_identity() {
    let mut img = Image::new(3, 2, 3);
    img.data = (0u8..18).collect();
    let before = img.data.clone();
    img.flip_horizontally();
    img.flip_horizontally();
    assert_eq!(img.data, before);
}

#[test]
fn flip_horizontally_moves_whole_samples() {
    let mut img = Image::new(2, 1, 3);
    img.data = vec![1, 2, 3, 4, 5, 6];
    img.flip_horizontally();
    assert_eq!(img.data, vec![4, 5, 6, 1, 2, 3]);
}

#[test]
fn scale_down_picks_nearest_pixels() {
    let mut img = Image::new(4, 4, 1);
    img.data = (0u8..16).collect();
    img.scale(2, 2);
    assert_eq!(img.width, 2);
    assert_eq!(img.height, 2);
    // horizontally the scan emits source columns 0 and 2, vertically it
    // finishes a destination row at source rows 1 and 3
    assert_eq!(img.data, vec![4, 6, 12, 14]);
}

#[test]
fn scale_up_duplicates_and_leaves_tail() {
    let mut img = Image::new(2, 1, 1);
    img.data = vec![10, 20];
    img.scale(4, 1);
    // the error scan emits three destination pixels from two source
    // pixels and never reaches the fourth, which stays zero
    assert_eq!(img.data, vec![10, 20, 20, 0]);
}

#[test]
fn scale_up_rows() {
    let mut img = Image::new(1, 1, 1);
    img.data = vec![7];
    img.scale(1, 3);
    assert_eq!(img.data, vec![7, 7, 7]);
}

#[test]
fn scale_identity() {
    let mut img = Image::new(3, 2, 3);
    img.data = (0u8..18).collect();
    let before = img.data.clone();
    img.scale(3, 2);
    assert_eq!(img.data, before);
}

#[test]
fn color_constructors() {
    let c = Color::new();
    assert_eq!((c.b, c.g, c.r, c.a, c.bytespp), (0, 0, 0, 0, 1));
    let c2 = Color::rgba(1, 2, 3, 4);
    assert_eq!((c2.b, c2.g, c2.r, c2.a, c2.bytespp), (3, 2, 1, 4, 4));
    let c3 = Color::from_raw(&[10, 11, 12], 3);
    assert_eq!((c3.b, c3.g, c3.r, c3.a, c3.bytespp), (10, 11, 12, 0, 3));
    let c4 = Color::from_stream(&[99, 10, 11, 12, 13, 99], 1, 4);
    assert_eq!((c4.b, c4.g, c4.r, c4.a, c4.bytespp), (10, 11, 12, 13, 4));
}

#[test]
fn scale_down_color_keeps_samples_whole() {
    let mut img = Image::new(2, 1, 3);
    img.data = vec![1, 2, 3, 4, 5, 6];
    img.scale(1, 1);
    // the single destination pixel comes from source column ceil(0) = 0
    assert_eq!(img.data, vec![1, 2, 3]);
}
