use b64dec::Error;
use b64dec::Standard;
use b64dec::decode;
use b64dec::decode_into_vec;

#[test]
fn basic_decode() {
    assert_eq!(
        &b"hello world\n"[..],
        &decode_into_vec(Standard, b"aGVsbG8gd29ybGQK").unwrap()
    );
    assert_eq!(
        &b"hell"[..],
        &decode_into_vec(Standard, b"aGVsbA==").unwrap()
    );
    assert_eq!(
        &b"hello"[..],
        &decode_into_vec(Standard, b"aGVsbG8=").unwrap()
    );
}

#[test]
fn padding_in_middle() {
    let mut out = vec![0u8; 32];
    assert_eq!(
        decode(Standard, b"a=VsbA==", &mut out),
        Err(Error::InvalidInput { at_offset: 2 })
    );
}

#[test]
fn unpadded() {
    assert_eq!(decode_into_vec(Standard, b"").unwrap(), vec![]);
    assert_eq!(
        decode_into_vec(Standard, b"a"),
        Err(Error::InvalidInput { at_offset: 0 })
    );
    assert_eq!(decode_into_vec(Standard, b"aa").unwrap(), vec![0x69]);
    assert_eq!(decode_into_vec(Standard, b"aaa").unwrap(), vec![0x69, 0xa6]);
    assert_eq!(
        decode_into_vec(Standard, b"aaaa").unwrap(),
        vec![0x69, 0xa6, 0x9a]
    );
}
