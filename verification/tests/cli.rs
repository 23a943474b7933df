use drackpad::cli::{parse_args, parse_camera_args, DEFAULT_CAMERA_FRAMES, DEFAULT_CAMERA_INDEX, DEFAULT_MODEL};
use drackpad::paths::select_images;

fn strings(v: &[&str]) -> Vec<String> {
    v.iter().map(|s| s.to_string()).collect()
}

#[test]
fn model_and_images_are_split() {
    let (model, images) = parse_args(&strings(&["a.jpg", "m.onnx", "b.png"]), strings(&["d.jpg"]));
    assert_eq!(model, "m.onnx");
    assert_eq!(images, strings(&["a.jpg", "b.png"]));
}

#[test]
fn last_model_argument_wins() {
    let (model, images) = parse_args(&strings(&["x.onnx", "a.jpg", "y.onnx"]), vec![]);
    assert_eq!(model, "y.onnx");
    assert_eq!(images, strings(&["a.jpg"]));
}

#[test]
fn defaults_when_nothing_given() {
    let (model, images) = parse_args(&vec![], strings(&["testdata/a.jpg"]));
    assert_eq!(model, DEFAULT_MODEL);
    assert_eq!(images, strings(&["testdata/a.jpg"]));
    let (model, images) = parse_args(&strings(&["only.onnx"]), strings(&["testdata/b.png"]));
    assert_eq!(model, "only.onnx");
    assert_eq!(images, strings(&["testdata/b.png"]));
}

#[test]
fn suffix_must_be_exact() {
    let (model, images) = parse_args(&strings(&["m.ONNX", "onnx", "m.onnx.jpg"]), vec![]);
    assert_eq!(model, DEFAULT_MODEL);
    assert_eq!(images, strings(&["m.ONNX", "onnx", "m.onnx.jpg"]));
    let (model, _) = parse_args(&strings(&[".onnx"]), vec![]);
    assert_eq!(model, ".onnx");
}

#[test]
fn camera_flag_absent() {
    assert!(parse_camera_args(&strings(&["a.jpg", "--cam"])).is_none());
}

#[test]
fn camera_defaults() {
    let c = parse_camera_args(&strings(&["--camera"])).unwrap();
    assert_eq!((c.index, c.frames, c.model.as_str()), (DEFAULT_CAMERA_INDEX, DEFAULT_CAMERA_FRAMES, DEFAULT_MODEL));
    assert_eq!((DEFAULT_CAMERA_INDEX, DEFAULT_CAMERA_FRAMES), (0, 30));
}

#[test]
fn camera_index_and_frames() {
    let c = parse_camera_args(&strings(&["--camera", "1", "100"])).unwrap();
    assert_eq!((c.index, c.frames), (1, 100));
    let c = parse_camera_args(&strings(&["x", "--camera", "-2", "+7", "m.onnx"])).unwrap();
    assert_eq!((c.index, c.frames, c.model.as_str()), (-2, 7, "m.onnx"));
}

#[test]
fn camera_bad_numbers_fall_back() {
    let c = parse_camera_args(&strings(&["--camera", "one", "-5"])).unwrap();
    assert_eq!((c.index, c.frames), (0, 30));
    let c = parse_camera_args(&strings(&["--camera", "2147483648", "4294967296"])).unwrap();
    assert_eq!((c.index, c.frames), (0, 30));
    let c = parse_camera_args(&strings(&["--camera", "-2147483648", "4294967295"])).unwrap();
    assert_eq!((c.index, c.frames), (i32::MIN, u32::MAX));
    let c = parse_camera_args(&strings(&["--camera", " 1", "1 "])).unwrap();
    assert_eq!((c.index, c.frames), (0, 30));
    let c = parse_camera_args(&strings(&["--camera", "", "+"])).unwrap();
    assert_eq!((c.index, c.frames), (0, 30));
}

#[test]
fn camera_uses_first_model_and_first_flag() {
    let c = parse_camera_args(&strings(&["a.onnx", "--camera", "3", "--camera", "b.onnx"])).unwrap();
    // The frame count after the first flag is "--camera", which does not parse.
    assert_eq!((c.index, c.frames, c.model.as_str()), (3, 30, "a.onnx"));
}

#[test]
fn images_filtered_and_sorted() {
    let listing = strings(&[
        "testdata/b.PNG",
        "testdata/notes.txt",
        "testdata/a.jpg",
        "testdata/c.Jpeg",
        "testdata/.png",
        "testdata/noext",
        "testdata/d.png.bak",
        "testdata/a.jpeg",
        "testdata/.hidden.jpg",
        "testdata/e.gif",
    ]);
    assert_eq!(
        select_images(&listing),
        strings(&["testdata/.hidden.jpg", "testdata/a.jpeg", "testdata/a.jpg", "testdata/b.PNG", "testdata/c.Jpeg"])
    );
}

#[test]
fn images_empty_listing() {
    assert!(select_images(&vec![]).is_empty());
    assert!(select_images(&strings(&["x.txt", "jpg"])).is_empty());
}

#[test]
fn images_order_is_by_character() {
    let listing = strings(&["d/ab.png", "d/a.png", "d/B.png", "d/a-b.png"]);
    let mut expected = listing.clone();
    expected.sort();
    assert_eq!(select_images(&listing), expected);
    assert_eq!(expected, strings(&["d/B.png", "d/a-b.png", "d/a.png", "d/ab.png"]));
}
