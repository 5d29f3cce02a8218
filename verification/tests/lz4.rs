//! LZ4 blocks.
use geosetta::compress::lz4::decompress;


fn literals_only_block(data: &[u8]) -> Vec<u8> {
    let mut out = Vec::new();
    let n = data.len();
    let token = if n >= 15 { 0xf0 } else { (n as u8) << 4 };
    out.push(token);
    if n >= 15 {
        let mut rem = n - 15;
        while rem >= 255 {
            out.push(255);
            rem -= 255;
        }
        out.push(rem as u8);
    }
    out.extend_from_slice(data);
    out
}

#[test]
fn decodes_literals_only() {
    for n in [0usize, 1, 5, 14, 15, 16, 270, 600] {
        let data: Vec<u8> = (0..n).map(|i| (i * 7 + 1) as u8).collect();
        let block = literals_only_block(&data);
        assert_eq!(decompress(&block, n).unwrap(), data);
    }
}

#[test]
fn decodes_a_match() {
    let block = [0x32u8, b'a', b'b', b'c', 0x03, 0x00];
    let out = decompress(&block, 9).unwrap();
    assert_eq!(&out, b"abcabcabc");
}

#[test]
fn rejects_bad_offset() {
    let block = [0x32u8, b'a', b'b', b'c', 0x05, 0x00];
    assert!(decompress(&block, 9).is_err());
}

#[test]
fn lz4_failures_are_told_apart() {
    let sentence = |block: &[u8], n: usize| decompress(block, n).unwrap_err().message();
    assert_eq!(
        sentence(&[0x32, b'a', b'b', b'c', 0x05, 0x00], 9),
        "invalid parquet: lz4: match offset out of range"
    );
    assert_eq!(sentence(&[0x30, b'a'], 3), "invalid parquet: lz4: literal run out of range");
    assert_eq!(
        sentence(&[0x10, b'a'], 2),
        "invalid parquet: lz4: decompressed size does not match the page header"
    );
}

#[test]
fn overlapping_copies_repeat() {
    let block = [0x16u8, b'z', 0x01, 0x00];
    assert_eq!(decompress(&block, 11).unwrap(), b"zzzzzzzzzzz");
}
