use b64dec::Alphabet;
use b64dec::Error;
use b64dec::Standard;
use b64dec::decode;
use b64dec::decode_into_vec;
use b64dec::decode_len_estimate;

#[test]
fn estimate_formula() {
    assert_eq!(decode_len_estimate(0), 0);
    assert_eq!(decode_len_estimate(1), 3);
    assert_eq!(decode_len_estimate(2), 3);
    assert_eq!(decode_len_estimate(3), 3);
    assert_eq!(decode_len_estimate(4), 3);
    assert_eq!(decode_len_estimate(5), 6);
    assert_eq!(decode_len_estimate(8), 6);
    assert_eq!(decode_len_estimate(9), 9);
    assert_eq!(decode_len_estimate(16), 12);
}

#[test]
fn estimate_bounds_decoded_length() {
    let inputs: [&[u8]; 6] = [
        b"",
        b"aa",
        b"aaa",
        b"aaaa",
        b"aGVsbG8gd29ybGQK",
        b"aGVsbA==",
    ];
    for input in inputs {
        let decoded = decode_into_vec(Standard, input).unwrap();
        assert!(decoded.len() <= decode_len_estimate(input.len()));
    }
}

#[test]
fn skip_bytes_anywhere() {
    // whitespace between symbols, before, between, and after pad markers
    assert_eq!(
        decode_into_vec(Standard, b"aGV\ns\tbA\r=\n=\t").unwrap(),
        b"hell".to_vec()
    );
    assert_eq!(
        decode_into_vec(Standard, b"\na\nG\nV\ns\nb\nG\n8\ngd29ybGQK\n").unwrap(),
        b"hello world\n".to_vec()
    );
    // whitespace-only input decodes to nothing
    assert_eq!(decode_into_vec(Standard, b"\n\r\t").unwrap(), vec![]);
}

#[test]
fn invalid_byte_offsets() {
    assert_eq!(
        decode_into_vec(Standard, b"a*aa"),
        Err(Error::InvalidInput { at_offset: 1 })
    );
    assert_eq!(
        decode_into_vec(Standard, b"\x80aaa"),
        Err(Error::InvalidInput { at_offset: 0 })
    );
    assert_eq!(
        decode_into_vec(Standard, b"aaaa aaaa"),
        Err(Error::InvalidInput { at_offset: 4 })
    );
}

#[test]
fn third_pad_marker_fails() {
    assert_eq!(
        decode_into_vec(Standard, b"aa==="),
        Err(Error::InvalidInput { at_offset: 4 })
    );
}

#[test]
fn value_after_pad_fails_at_its_offset() {
    assert_eq!(
        decode_into_vec(Standard, b"aa=a"),
        Err(Error::InvalidInput { at_offset: 3 })
    );
    assert_eq!(
        decode_into_vec(Standard, b"aa==a"),
        Err(Error::InvalidInput { at_offset: 4 })
    );
    // a skip byte between the pad marker and the symbol moves the offset
    assert_eq!(
        decode_into_vec(Standard, b"aa=\na"),
        Err(Error::InvalidInput { at_offset: 4 })
    );
}

#[test]
fn malformed_tails() {
    // padding alone carries no data
    assert_eq!(
        decode_into_vec(Standard, b"="),
        Err(Error::InvalidInput { at_offset: 0 })
    );
    assert_eq!(
        decode_into_vec(Standard, b"=="),
        Err(Error::InvalidInput { at_offset: 0 })
    );
    // one leftover symbol can never represent a byte
    assert_eq!(
        decode_into_vec(Standard, b"a="),
        Err(Error::InvalidInput { at_offset: 0 })
    );
    // three symbols leave room for one pad byte only
    assert_eq!(
        decode_into_vec(Standard, b"aaa=="),
        Err(Error::InvalidInput { at_offset: 0 })
    );
}

#[test]
fn lone_trailing_pad_accepted() {
    // a single trailing pad marker is taken like implied padding
    assert_eq!(decode_into_vec(Standard, b"aaa=").unwrap(), vec![0x69, 0xa6]);
    assert_eq!(decode_into_vec(Standard, b"aa==").unwrap(), vec![0x69]);
}

#[test]
fn late_alphabet_symbols() {
    // '+' -> 62, '/' -> 63: (62 << 2) | (63 >> 4) == 0xfb
    assert_eq!(decode_into_vec(Standard, b"+/").unwrap(), vec![0xfb]);
    // '0' -> 52, '9' -> 61: (52 << 2) | (61 >> 4) == 0xd3
    assert_eq!(decode_into_vec(Standard, b"09").unwrap(), vec![0xd3]);
}

#[test]
fn no_write_past_returned_length() {
    // buffer sized exactly to the estimate, poisoned past the result
    let mut out = vec![0xaa_u8; decode_len_estimate(8)];
    assert_eq!(decode(Standard, b"aGVsbG8=", &mut out), Ok(5));
    assert_eq!(&out[..5], b"hello");
    assert_eq!(out[5], 0xaa);

    // on failure, nothing past the bytes emitted before the error
    let mut out = vec![0xaa_u8; decode_len_estimate(5)];
    assert_eq!(
        decode(Standard, b"aaaa*", &mut out),
        Err(Error::InvalidInput { at_offset: 4 })
    );
    assert_eq!(&out[..3], &[0x69, 0xa6, 0x9a]);
    assert_eq!(&out[3..], &[0xaa, 0xaa, 0xaa]);
}

#[test]
fn failure_is_idempotent() {
    let inputs: [&[u8]; 4] = [b"a", b"a=VsbA==", b"aa===", b"\x80"];
    for input in inputs {
        let first = decode_into_vec(Standard, input);
        let second = decode_into_vec(Standard, input);
        assert!(first.is_err());
        assert_eq!(first, second);
    }
}

#[test]
fn empty_input_empty_buffer() {
    let mut out: Vec<u8> = vec![];
    assert_eq!(decode(Standard, b"", &mut out), Ok(0));
}

#[test]
fn encode_table_inverts_classification() {
    let table = Standard.encode_table();
    assert_eq!(
        &table[..],
        &b"ABCDEFGHIJKLMNOPQRSTUVWXYZabcdefghijklmnopqrstuvwxyz0123456789+/"[..]
    );
    // each symbol classifies back to its own 6-bit value: paired with 'A'
    // (value 0) it decodes to the single byte `v << 2`
    for (v, &sym) in table.iter().enumerate() {
        let decoded = decode_into_vec(Standard, &[sym, b'A']).unwrap();
        assert_eq!(decoded, vec![(v as u8) << 2]);
    }
    let decode_table = Standard.decode_table();
    assert_eq!(decode_table.len(), 256);
}
