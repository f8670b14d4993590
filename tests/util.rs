use tiny_renderer::util::flip_vertically;

#[test]
fn flip_reverses_rows() {
    // 2 x 3 image, one distinct byte value per byte
    let buf: Vec<u8> = (0..18).collect();
    let flipped = flip_vertically(&buf, 2, 3);
    let expected: Vec<u8> = vec![12, 13, 14, 15, 16, 17, 6, 7, 8, 9, 10, 11, 0, 1, 2, 3, 4, 5];
    assert_eq!(flipped, expected);
}

#[test]
fn flip_twice_is_identity() {
    let buf: Vec<u8> = (0..24).collect();
    assert_eq!(flip_vertically(&flip_vertically(&buf, 2, 4), 2, 4), buf);
}

#[test]
fn flip_keeps_bytes_past_the_image() {
    let buf: Vec<u8> = (0..8).collect();
    assert_eq!(flip_vertically(&buf, 1, 2), vec![3, 4, 5, 0, 1, 2, 6, 7]);
}

#[test]
fn flip_of_empty_image() {
    let buf: Vec<u8> = vec![1, 2];
    assert_eq!(flip_vertically(&buf, 0, 5), vec![1, 2]);
}
