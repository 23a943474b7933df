use drackpad::tensor::{bgr_frame_to_input, preprocess, rgb_frame_to_input, Frame, INPUT_PLANE_LEN, INPUT_SIZE};
use image::{Rgb, RgbImage};

fn to_unit(v: &[u8]) -> Vec<f32> {
    v.iter().map(|&b| b as f32 / 255.0).collect()
}

fn solid(width: u32, height: u32, px: [u8; 3]) -> Vec<u8> {
    let mut v = Vec::new();
    for _ in 0..(width * height) {
        v.extend_from_slice(&px);
    }
    v
}

#[test]
fn mat_to_input_shape_range_and_channel_order() {
    // A solid 10x20 BGR image with B=10, G=128, R=250.
    let source = Frame::new(10, 20, solid(10, 20, [10, 128, 250])).unwrap();
    assert_eq!((source.width(), source.height()), (10, 20));
    // Resizing a solid image keeps it solid; the model-sized frame is packed.
    let resized = Frame::new(INPUT_SIZE, INPUT_SIZE, solid(INPUT_SIZE, INPUT_SIZE, [10, 128, 250])).unwrap();
    let input = to_unit(&bgr_frame_to_input(&resized));
    assert_eq!(input.len(), 3 * (INPUT_SIZE as usize) * (INPUT_SIZE as usize));
    assert!(input.iter().all(|&v| (0.0..=1.0).contains(&v)));
    // Channels were reordered BGR -> RGB: R (250) > G (128) > B (10).
    assert!(input[0] > input[INPUT_PLANE_LEN]);
    assert!(input[INPUT_PLANE_LEN] > input[2 * INPUT_PLANE_LEN]);
}

#[test]
fn preprocess_shape_and_range() {
    let mut img = RgbImage::new(100, 50);
    img.put_pixel(0, 0, Rgb([255, 128, 0]));
    let frame = Frame::new(100, 50, img.into_raw()).unwrap();
    let arr = to_unit(&preprocess(&frame));
    assert_eq!(arr.len(), 3 * 224 * 224);
    assert!(arr.iter().all(|&v| (0.0..=1.0).contains(&v)));
    // Channel order is RGB: red channel of the top-left pixel is the largest.
    assert!(arr[0] > arr[224 * 224]);
    assert!(arr[224 * 224] > arr[2 * 224 * 224]);
}

#[test]
fn frame_new_checks_length() {
    assert!(Frame::new(2, 2, vec![0; 12]).is_some());
    assert!(Frame::new(2, 2, vec![0; 11]).is_none());
    assert!(Frame::new(2, 2, vec![0; 13]).is_none());
    assert!(Frame::new(0, 7, vec![]).is_some());
    assert!(Frame::new(u32::MAX, u32::MAX, vec![]).is_none());
    let f = Frame::new(1, 2, vec![1, 2, 3, 4, 5, 6]).unwrap();
    assert_eq!(f.pixels(), &vec![1, 2, 3, 4, 5, 6]);
}

#[test]
fn rgb_frame_packs_planes_row_by_row() {
    // 2 wide, 1 high: pixels (1,2,3) and (4,5,6).
    let f = Frame::new(2, 1, vec![1, 2, 3, 4, 5, 6]).unwrap();
    assert_eq!(rgb_frame_to_input(&f), vec![1, 4, 2, 5, 3, 6]);
    // 1 wide, 2 high.
    let g = Frame::new(1, 2, vec![10, 20, 30, 40, 50, 60]).unwrap();
    assert_eq!(rgb_frame_to_input(&g), vec![10, 40, 20, 50, 30, 60]);
}

#[test]
fn bgr_frame_packs_planes_as_rgb() {
    let f = Frame::new(2, 1, vec![1, 2, 3, 4, 5, 6]).unwrap();
    assert_eq!(bgr_frame_to_input(&f), vec![3, 6, 2, 5, 1, 4]);
}

#[test]
fn bgr_and_rgb_of_one_picture_agree() {
    let rgb = Frame::new(2, 2, vec![1, 2, 3, 4, 5, 6, 7, 8, 9, 10, 11, 12]).unwrap();
    let bgr = Frame::new(2, 2, vec![3, 2, 1, 6, 5, 4, 9, 8, 7, 12, 11, 10]).unwrap();
    assert_eq!(rgb_frame_to_input(&rgb), bgr_frame_to_input(&bgr));
}

#[test]
fn preprocess_of_model_sized_frame_only_packs() {
    let mut pixels = Vec::new();
    for i in 0..(224 * 224 * 3) {
        pixels.push((i % 251) as u8);
    }
    let frame = Frame::new(224, 224, pixels).unwrap();
    assert_eq!(preprocess(&frame), rgb_frame_to_input(&frame));
}

#[test]
fn preprocess_of_empty_frame_is_zero() {
    let frame = Frame::new(0, 0, vec![]).unwrap();
    let out = preprocess(&frame);
    assert_eq!(out.len(), 3 * 224 * 224);
    assert!(out.iter().all(|&v| v == 0));
}

#[test]
fn preprocess_resizes_a_solid_image_to_a_solid_tensor() {
    let frame = Frame::new(100, 50, solid(100, 50, [200, 100, 50])).unwrap();
    let out = preprocess(&frame);
    assert_eq!(out.len(), 3 * 224 * 224);
    assert!(out[..INPUT_PLANE_LEN].iter().all(|&v| v == 200));
    assert!(out[INPUT_PLANE_LEN..2 * INPUT_PLANE_LEN].iter().all(|&v| v == 100));
    assert!(out[2 * INPUT_PLANE_LEN..].iter().all(|&v| v == 50));
}
