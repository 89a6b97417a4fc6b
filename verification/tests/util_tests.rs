use basalt::util;

#[test]
fn hexify() {
    let hex = util::hexify(&vec![7, 9, 100, 11, 15, 76]);
    assert_eq!("0709640b0f4c", hex);
}

#[test]
fn unhexify() {
    let bytes = util::unhexify("0709640b0f4c").unwrap();
    let expected: Vec<u8> = vec![7, 9, 100, 11, 15, 76];

    assert_eq!(expected, bytes);
}

#[test]
fn unhexify_bad_chars() {
    let bytes = util::unhexify("070r640b0f4c");

    assert_eq!(None, bytes);
}

#[test]
fn unhexify_bad_len() {
    let bytes = util::unhexify("070640b0f4c");

    assert_eq!(None, bytes);
}

#[test]
fn unhexify_trims_whitespace() {
    let bytes = util::unhexify("  0709640b0f4c\n").unwrap();
    assert_eq!(vec![7, 9, 100, 11, 15, 76], bytes);
}

#[test]
fn hexify_unhexify_round_trip() {
    let data: Vec<u8> = vec![0, 1, 2, 254, 255, 16, 32];
    let hex = util::hexify(&data);
    assert_eq!(Some(data), util::unhexify(&hex));
}

#[test]
fn unhexify_uppercase() {
    let bytes = util::unhexify("0A0B0C").unwrap();
    assert_eq!(vec![10, 11, 12], bytes);
}
