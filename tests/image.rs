use pathtracer::image::Image;
use pathtracer::naming::output_filename;

#[test]
fn new_image_is_zeroed() {
    let image = Image::new(3, 2, String::from("a.png"));
    assert_eq!(image.width, 3);
    assert_eq!(image.height, 2);
    assert_eq!(image.data.len(), 24);
    assert!(image.data.iter().all(|b| *b == 0));
    assert_eq!(image.filename, "a.png");
}

#[test]
fn set_then_get_pixel() {
    let mut image = Image::new(4, 3, String::from("a.png"));
    image.set_pixel(2, 1, [10, 20, 30, 40]);
    assert_eq!(image.get_pixel(2, 1), [10, 20, 30, 40]);
    assert_eq!(image.get_pixel(1, 1), [0, 0, 0, 0]);
    let index = (2 + 1 * 4) * 4;
    assert_eq!(&image.data[index..index + 4], &[10, 20, 30, 40]);
    let others: usize = image.data.iter().filter(|b| **b != 0).count();
    assert_eq!(others, 4);
}

#[test]
fn set_pixel_past_right_edge_wraps_to_next_row() {
    let mut image = Image::new(4, 3, String::from("a.png"));
    image.set_pixel(5, 0, [1, 2, 3, 4]);
    assert_eq!(image.get_pixel(1, 1), [1, 2, 3, 4]);
}

#[test]
fn update_filename_replaces_name() {
    let mut image = Image::new(2, 2, String::from("a.png"));
    image.set_pixel(0, 0, [9, 9, 9, 9]);
    image.update_filename(String::from("subimages/output_3.png"));
    assert_eq!(image.filename, "subimages/output_3.png");
    assert_eq!(image.get_pixel(0, 0), [9, 9, 9, 9]);
}

#[test]
fn write_tile_fills_block_only() {
    let mut image = Image::new(4, 4, String::from("a.png"));
    let colors: Vec<[u8; 3]> = vec![[1, 1, 1], [2, 2, 2], [3, 3, 3], [4, 4, 4]];
    image.write_tile(2, 2, 2, &colors);
    assert_eq!(image.get_pixel(2, 2), [1, 1, 1, 255]);
    assert_eq!(image.get_pixel(3, 2), [2, 2, 2, 255]);
    assert_eq!(image.get_pixel(2, 3), [3, 3, 3, 255]);
    assert_eq!(image.get_pixel(3, 3), [4, 4, 4, 255]);
    assert_eq!(image.get_pixel(1, 2), [0, 0, 0, 0]);
    assert_eq!(image.get_pixel(2, 1), [0, 0, 0, 0]);
}

#[test]
fn output_filename_numbers() {
    assert_eq!(output_filename(0), "images/output_0.png");
    assert_eq!(output_filename(7), "images/output_7.png");
    assert_eq!(output_filename(42), "images/output_42.png");
    assert_eq!(output_filename(1000), "images/output_1000.png");
    assert_eq!(output_filename(u32::MAX), "images/output_4294967295.png");
}
