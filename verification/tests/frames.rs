use dinamika::{frame_file_name, FRAME_DIGITS};

#[test]
fn frames_are_numbered_from_one_and_padded() {
    assert_eq!(FRAME_DIGITS, 6);
    assert_eq!(frame_file_name(0), "000001.png");
    assert_eq!(frame_file_name(1), "000002.png");
    assert_eq!(frame_file_name(122), "000123.png");
    assert_eq!(frame_file_name(999_998), "999999.png");
}

#[test]
fn wide_frame_numbers_grow_the_name() {
    assert_eq!(frame_file_name(999_999), "1000000.png");
    assert_eq!(frame_file_name(1_234_566), "1234567.png");
}

