use msqueue::piglatin::encode;
use msqueue::stats::calc_mode;

#[test]
fn should_work() {
    let text: &str = "Hello, world! orange";
    let res = encode(text);
    assert_eq!(res, "ello,-Hay orld!-way orange-hay ");
}

#[test]
fn lowercase_consonant_moves_too() {
    // the consonant test uppercases the first letter first
    assert_eq!(encode("hello"), "ello-hay ");
    assert_eq!(encode("apple"), "apple-hay ");
}

#[test]
fn empty_text_encodes_to_nothing() {
    assert_eq!(encode(""), "");
    assert_eq!(encode("   "), "");
}

#[test]
fn calc_mode_should_return_most_frequent() {
    let mut input = vec![1, 9, 2, 2, 8, 1, 5, 2];
    let mode = calc_mode(&mut input);
    assert_eq!(mode, 2);
}

#[test]
fn calc_mode_sorts_its_input() {
    let mut input = vec![3, 1, 2, 1];
    let _ = calc_mode(&mut input);
    assert_eq!(input, vec![1, 1, 2, 3]);
}
