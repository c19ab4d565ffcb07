use tokio_websockets::mask::{frame, one_byte_at_once};
use tokio_websockets::rand::get_mask;

#[test]
fn test_mask() {
    let mut random_data: Vec<u8> = std::iter::repeat_with(|| fastrand::u8(..)).take(1024).collect();
    // Mess around with the data to ensure we have unaligned input
    let data = &mut random_data[2..998];
    let mut data_clone = data.to_vec();
    let mut mask = [0; 4];
    get_mask(&mut mask);
    let mut mask2 = mask;
    frame(&mut mask, data, true);
    one_byte_at_once(&mut mask2, &mut data_clone, true);

    assert_eq!(&data, &data_clone);
}

#[test]
fn masking_rotates_key_for_the_next_piece() {
    let mut key = [1, 2, 3, 4];
    let mut data = vec![0u8; 3];
    frame(&mut key, &mut data, false);
    assert_eq!(data, vec![1, 2, 3]);
    assert_eq!(key, [4, 1, 2, 3]);
}
