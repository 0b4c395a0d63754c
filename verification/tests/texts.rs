use bigram_match::scale::{ScoreScale, MAX_RATIO};
use bigram_match::text::{bytes_to_utf8_string, fold_case, replace_non_utf8_with_space};

#[test]
fn fold_case_lowers_ascii_letters() {
    assert_eq!(fold_case(b"AbC xYz"), b"abc xyz".to_vec());
    assert_eq!(fold_case(b"ABCDEFGHIJKLMNOPQRSTUVWXYZ"), b"abcdefghijklmnopqrstuvwxyz".to_vec());
}

#[test]
fn fold_case_leaves_everything_else() {
    assert_eq!(fold_case(b"@[`{ 0129\t"), b"@[`{ 0129\t".to_vec());
    assert_eq!(fold_case(&[0xc3, 0x89, 0xff, 0x00]), vec![0xc3, 0x89, 0xff, 0x00]);
    assert_eq!(fold_case(b""), Vec::<u8>::new());
}

#[test]
fn fold_case_twice_is_fold_case_once() {
    let all: Vec<u8> = (0..=255).collect();
    let once = fold_case(&all);
    assert_eq!(fold_case(&once), once);
}

#[test]
fn non_ascii_bytes_become_spaces() {
    let mut bytes = vec![b'a', 0xff, b'b', 0x80];
    let replaced = replace_non_utf8_with_space(&mut bytes);
    assert_eq!(bytes, b"a b ".to_vec());
    assert_eq!(replaced, 2);
}

#[test]
fn ascii_bytes_are_left_alone() {
    let mut bytes: Vec<u8> = (0..128).collect();
    let before = bytes.clone();
    assert_eq!(replace_non_utf8_with_space(&mut bytes), 0);
    assert_eq!(bytes, before);
    let mut none: Vec<u8> = Vec::new();
    assert_eq!(replace_non_utf8_with_space(&mut none), 0);
}

#[test]
fn every_high_byte_is_replaced() {
    let mut bytes: Vec<u8> = (128..=255).collect();
    assert_eq!(replace_non_utf8_with_space(&mut bytes), 128);
    assert_eq!(bytes, vec![b' '; 128]);
    assert_eq!(replace_non_utf8_with_space(&mut bytes), 0);
}

#[test]
fn text_of_ascii_bytes_is_the_same_text() {
    assert_eq!(bytes_to_utf8_string(b"a yellow banana"), "a yellow banana");
    assert_eq!(bytes_to_utf8_string(b""), "");
    assert_eq!(bytes_to_utf8_string(&[0x00, 0x7f, b'\t']), "\u{0}\u{7f}\t");
}

#[test]
fn text_has_a_space_for_every_non_ascii_byte() {
    assert_eq!(bytes_to_utf8_string("caf\u{e9}".as_bytes()), "caf  ");
    assert_eq!(bytes_to_utf8_string(&[0xff, b'x', 0x80, 0xc0]), " x  ");
    assert_eq!(bytes_to_utf8_string("\u{20ac}".as_bytes()).len(), 3);
}

#[test]
fn whole_number_scale_multiplies() {
    let scale = ScoreScale::from_ratio(2, 1).unwrap();
    assert_eq!(MAX_RATIO, 100);
    assert_eq!(scale.apply(0), 0);
    assert_eq!(scale.apply(1), 2);
    assert_eq!(scale.apply(75), 150);
    assert_eq!(scale.apply(100), 200);
}

#[test]
fn fractional_scale_rounds_to_nearest() {
    let third = ScoreScale::from_ratio(1, 3).unwrap();
    assert_eq!(third.apply(0), 0);
    assert_eq!(third.apply(1), 0);
    assert_eq!(third.apply(2), 1);
    assert_eq!(third.apply(3), 1);
    assert_eq!(third.apply(4), 1);
    assert_eq!(third.apply(5), 2);
    assert_eq!(third.apply(100), 33);
}

#[test]
fn fractional_scale_rounds_halves_up() {
    let two_and_a_half = ScoreScale::from_ratio(5, 2).unwrap();
    assert_eq!(two_and_a_half.apply(1), 3);
    assert_eq!(two_and_a_half.apply(2), 5);
    assert_eq!(two_and_a_half.apply(3), 8);
    assert_eq!(two_and_a_half.apply(100), 250);
    let half = ScoreScale::from_ratio(1, 2).unwrap();
    assert_eq!(half.apply(1), 1);
    assert_eq!(half.apply(99), 50);
}

#[test]
fn zero_scale_is_flat() {
    let flat = ScoreScale::from_ratio(0, 7).unwrap();
    assert_eq!(flat.apply(0), 0);
    assert_eq!(flat.apply(100), 0);
}

#[test]
fn scale_without_denominator_is_refused() {
    assert!(ScoreScale::from_ratio(2, 0).is_none());
    assert!(ScoreScale::from_ratio(0, 0).is_none());
}

#[test]
fn scale_that_does_not_fit_is_refused() {
    assert!(ScoreScale::from_ratio(u32::MAX, 1).is_none());
    assert!(ScoreScale::from_ratio(21474837, 1).is_none());
    let largest = ScoreScale::from_ratio(21474836, 1).unwrap();
    assert_eq!(largest.apply(100), 2147483600);
    assert!(ScoreScale::from_ratio(u32::MAX, u32::MAX).is_some());
}

#[test]
fn scale_from_table_reads_the_table() {
    let table: Vec<i32> = (0..=100).map(|r| 7 - 3 * r).collect();
    let scale = ScoreScale::from_table(table).unwrap();
    assert_eq!(scale.apply(0), 7);
    assert_eq!(scale.apply(1), 4);
    assert_eq!(scale.apply(100), -293);
}

#[test]
fn table_of_the_wrong_length_is_refused() {
    assert!(ScoreScale::from_table(Vec::new()).is_none());
    assert!(ScoreScale::from_table(vec![0; 100]).is_none());
    assert!(ScoreScale::from_table(vec![0; 102]).is_none());
    assert!(ScoreScale::from_table(vec![0; 101]).is_some());
}
