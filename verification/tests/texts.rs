use rawsort::text::{digit, extend, extend_range, extend_str, from_chars, push_zero_padded, to_chars};

#[test]
fn characters_of_a_string_and_back() {
    let chars = to_chars("héllo/→");
    assert_eq!(chars, vec!['h', 'é', 'l', 'l', 'o', '/', '→']);
    assert_eq!(from_chars(&chars), "héllo/→");
    assert_eq!(from_chars(&Vec::new()), "");
    assert_eq!(to_chars(""), Vec::<char>::new());
}

#[test]
fn digits_are_the_ten_characters() {
    let mut all = String::new();
    for d in 0..10u8 {
        all.push(digit(d));
    }
    assert_eq!(all, "0123456789");
}

#[test]
fn zero_padding_to_a_width() {
    let mut out: Vec<char> = vec!['x'];
    push_zero_padded(&mut out, 7, 3);
    assert_eq!(from_chars(&out), "x007");
    let mut out: Vec<char> = Vec::new();
    push_zero_padded(&mut out, 0, 2);
    assert_eq!(from_chars(&out), "00");
    let mut out: Vec<char> = Vec::new();
    push_zero_padded(&mut out, 0, 0);
    assert_eq!(from_chars(&out), "0");
    let mut out: Vec<char> = Vec::new();
    push_zero_padded(&mut out, 12345, 3);
    assert_eq!(from_chars(&out), "12345");
    let mut out: Vec<char> = Vec::new();
    push_zero_padded(&mut out, 2020, 4);
    assert_eq!(from_chars(&out), "2020");
    let mut out: Vec<char> = Vec::new();
    push_zero_padded(&mut out, 90, 5);
    assert_eq!(from_chars(&out), "00090");
}

#[test]
fn extending_a_vector_of_characters() {
    let mut out: Vec<char> = vec!['a'];
    extend(&mut out, &vec!['b', 'c']);
    extend_str(&mut out, "de");
    extend_range(&mut out, &vec!['x', 'f', 'g', 'y'], 1, 3);
    extend_range(&mut out, &vec!['x'], 1, 1);
    assert_eq!(from_chars(&out), "abcdefg");
}
