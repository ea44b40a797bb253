use md2::MD2;
use md2::hex::to_hex;

fn test_hash(input: &str, expectation: &str) {
    let result = MD2::with_input(input.as_bytes()).to_string();
    assert_eq!(result, expectation,
        "Testing hash for \"{}\", expected \"{}\" but got \"{}\"", input, expectation, result);
}

fn hex_of(input: &[u8]) -> String {
    to_hex(&MD2::with_input(input).finalize())
}

#[test]
fn basic() {
    test_hash("", "8350e5a3e24c153df2275c9f80692773");
    test_hash("a", "32ec01ec4a6dac72c0ab96fb34c0b5d1");
    test_hash("abc", "da853b0d3f88d99b30283a69e6ded6bb");
    test_hash("message digest", "ab4f496bfb2a530b219ff33031fe06b0");
    test_hash("abcdefghijklmnopqrstuvwxyz", "4e8ddff3650292ab5a4108c3aa47940b");
    test_hash("ABCDEFGHIJKLMNOPQRSTUVWXYZabcdefghijklmnopqrstuvwxyz0123456789",
              "da33def2a42df13975352846c30338cd"
    );
    test_hash("12345678901234567890123456789012345678901234567890123456789012345678901234567890",
              "d5976f79d83d3a0dc9806c3c66f3efd8"
    );
}

#[test]
fn empty_digest_bytes() {
    let digest = MD2::new().finalize();
    assert_eq!(digest, [
        0x83, 0x50, 0xe5, 0xa3, 0xe2, 0x4c, 0x15, 0x3d,
        0xf2, 0x27, 0x5c, 0x9f, 0x80, 0x69, 0x27, 0x73,
    ]);
}

#[test]
fn default_is_new() {
    assert_eq!(MD2::default().finalize(), MD2::new().finalize());
    assert_eq!(MD2::default().to_string(), "8350e5a3e24c153df2275c9f80692773");
}

#[test]
fn empty_update_is_no_op() {
    let mut e = MD2::new();
    e.update(b"");
    e.update(b"abc");
    e.update(b"");
    assert_eq!(e.to_string(), "da853b0d3f88d99b30283a69e6ded6bb");
}

#[test]
fn same_bytes_same_digest() {
    let data = b"The quick brown fox jumps over the lazy dog";
    let first = MD2::with_input(data).finalize();
    let second = MD2::with_input(data).finalize();
    assert_eq!(first, second);
    assert_eq!(to_hex(&first), "03d85a0d629d2c442e987525319fc471");
}

#[test]
fn chunking_does_not_matter() {
    let data: Vec<u8> = (0..100u32).map(|i| (i * 7 + 3) as u8).collect();
    let whole = MD2::with_input(&data).finalize();
    let mut single = MD2::new();
    single.update(&data);
    assert_eq!(single.finalize(), whole);
    for size in 1..=40usize {
        let mut e = MD2::new();
        for chunk in data.chunks(size) {
            e.update(chunk);
        }
        assert_eq!(e.finalize(), whole, "chunks of {}", size);
    }
    let mut uneven = MD2::new();
    uneven.update(&data[..3]);
    uneven.update(&data[3..20]);
    uneven.update(&data[20..21]);
    uneven.update(&data[21..53]);
    uneven.update(&data[53..]);
    assert_eq!(uneven.finalize(), whole);
}

#[test]
fn digest_is_sixteen_bytes() {
    for len in [0usize, 1, 15, 16, 17, 31, 32, 33, 100, 1000] {
        let data = vec![0x61u8; len];
        let digest = MD2::with_input(&data).finalize();
        assert_eq!(digest.len(), 16);
        assert_eq!(to_hex(&digest).len(), 32);
    }
}

#[test]
fn display_leaves_engine_unchanged() {
    let mut e = MD2::new();
    e.update(b"message ");
    let shown = e.to_string();
    assert_eq!(shown, hex_of(b"message "));
    assert_eq!(e.to_string(), shown);
    e.update(b"digest");
    assert_eq!(e.to_string(), "ab4f496bfb2a530b219ff33031fe06b0");
    assert_eq!(to_hex(&e.finalize()), "ab4f496bfb2a530b219ff33031fe06b0");
}

#[test]
fn block_boundaries() {
    let data: Vec<u8> = (0..64u8).map(|i| i.wrapping_mul(37).wrapping_add(11)).collect();
    for len in [16usize, 17, 31, 32] {
        let whole = MD2::with_input(&data[..len]).finalize();
        for split in 0..=len {
            let mut e = MD2::new();
            e.update(&data[..split]);
            e.update(&data[split..len]);
            assert_eq!(e.finalize(), whole, "length {} split at {}", len, split);
        }
        let mut bytewise = MD2::new();
        for b in &data[..len] {
            bytewise.update(&[*b]);
        }
        assert_eq!(bytewise.finalize(), whole, "length {} byte by byte", len);
    }
    assert_ne!(MD2::with_input(&data[..16]).finalize(), MD2::with_input(&data[..17]).finalize());
    assert_ne!(MD2::with_input(&data[..31]).finalize(), MD2::with_input(&data[..32]).finalize());
}

#[test]
fn full_block_of_padding_value() {
    // Sixteen bytes of value 16 look like a padding block, but the message is longer.
    assert_ne!(MD2::with_input(&[16u8; 16]).finalize(), MD2::new().finalize());
}

#[test]
fn hex_rendering() {
    assert_eq!(to_hex(&[]), "");
    assert_eq!(to_hex(&[0x00, 0x0f, 0xa5, 0xff, 0x10]), "000fa5ff10");
}
