use std::io::Cursor;

use hexxengine::skybox::skybox_faces;
use image::{ImageFormat, Rgba, RgbaImage};

fn cross_png(width: u32, height: u32) -> Vec<u8> {
    let img = RgbaImage::from_fn(width, height, |x, y| Rgba([x as u8, y as u8, 7, 255]));
    let mut out = Cursor::new(Vec::new());
    img.write_to(&mut out, ImageFormat::Png).unwrap();
    out.into_inner()
}

fn face(x: u8, y: u8) -> Vec<u8> {
    vec![x, y, 7, 255, x + 1, y, 7, 255, x, y + 1, 7, 255, x + 1, y + 1, 7, 255]
}

#[test]
fn skybox_faces_are_cut_out_of_the_cross() {
    let faces = skybox_faces(&cross_png(8, 6), 2).unwrap();
    assert_eq!(faces.face_size, 2);
    assert_eq!(faces.top, face(2, 0));
    assert_eq!(faces.left, face(0, 2));
    assert_eq!(faces.back, face(2, 2));
    assert_eq!(faces.right, face(4, 2));
    assert_eq!(faces.front, face(6, 2));
    assert_eq!(faces.bottom, face(2, 4));
    let data = faces.image_data();
    assert_eq!((data.width, data.height), (2, 2));
    assert_eq!(data.cube_layer_data().len(), 6 * 16);
}

#[test]
fn skybox_faces_need_a_readable_image_large_enough_for_the_cross() {
    assert!(skybox_faces(&cross_png(8, 6), 3).is_none());
    assert!(skybox_faces(&cross_png(7, 6), 2).is_none());
    assert!(skybox_faces(&[1, 2, 3, 4], 2).is_none());
    assert!(skybox_faces(&cross_png(8, 6), 0).is_some());
}
