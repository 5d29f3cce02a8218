//! Gzip members, as compressors at several levels write them.
use geosetta::compress::gzip::decompress;

fn bytes_of(hex: &str) -> Vec<u8> {
    (0..hex.len() / 2).map(|i| u8::from_str_radix(&hex[2 * i..2 * i + 2], 16).unwrap()).collect()
}

fn check(input: &[u8], level: u32, compressed: &[u8]) {
    let got = decompress(compressed, input.len())
        .unwrap_or_else(|e| panic!("inflate failed (len {}, level {level}): {e:?}", input.len()));
    assert_eq!(got, input, "mismatch at len {} level {level}", input.len());
}

#[test]
fn roundtrip_repetitive() {
    let data = vec![0x42u8; 20_000];
    for (lvl, hex) in [
        (1, "1f8b0800000000000403edd0c1000000000321b7f3879ac61e855061c0800103060c183060c0800103060c183060c0800103060c183060c0800103060c183060c0800103060c183060c0800103060c183060c0800103060c183060c0800103060c183060c0800103060c183060c08001030f0303cca79464204e0000"),
        (6, "1f8b0800000000000003edc13101000000c2a06eeb1fca1a1e4001000000000000000000000000000000000000f060cca79464204e0000"),
        (9, "1f8b0800000000000203edc13101000000c2a06eeb1fca1a1e4001000000000000000000000000000000000000f060cca79464204e0000"),
    ] {
        check(&data, lvl, &bytes_of(hex));
    }
}

#[test]
fn roundtrip_text() {
    let mut data = Vec::new();
    while data.len() < 10_000 {
        data.extend_from_slice(b"the quick brown fox jumps over the lazy dog. ");
    }
    for (lvl, hex) in [
        (1, "1f8b0800000000000403edd7db0dc2300c05d0553c41778236a5a5d0409a94c7f420b6403a9f91f315c5f63d754a716f73bfc4b1e4c71a637ec6b95d6f5be43d95a8dff2e5f07ec5904fddefe4b2d7f037748ab961305a1396a6542023498cf23320e0123cd2311dd3311dd3311dd3311dd3311dd3311dd3311dd3311dd3311dd3311dd3311dd3f17feaf8031875343333270000"),
        (6, "1f8b0800000000000003edcadb1182301440c1566e05f4a4100451a221c147f53a76e1cc7e9e395ba714f736f74b1c4b7eac31e6679cdbf5b645de5389fadd97c3fb15433e75bf82611886611886611886611886611886611886611886611886611886e1ffc41f1875343333270000"),
        (9, "1f8b0800000000000203edcadb1182301440c1566e05f4a4100451a221c147f53a76e1cc7e9e395ba714f736f74b1c4b7eac31e6679cdbf5b645de5389fadd97c3fb15433e75bf82611886611886611886611886611886611886611886611886611886e1ffc41f1875343333270000"),
    ] {
        check(&data, lvl, &bytes_of(hex));
    }
}

#[test]
fn roundtrip_incompressible() {
    let mut s = 0x9E3779B97F4A7C15u64;
    let data: Vec<u8> = (0..8192)
        .map(|_| {
            s ^= s << 13;
            s ^= s >> 7;
            s ^= s << 17;
            (s >> 24) as u8
        })
        .collect();
    for (lvl, header) in [
        (1, "1f8b0800000000000403010020ffdf"),
        (6, "1f8b0800000000000003010020ffdf"),
        (9, "1f8b0800000000000203010020ffdf"),
    ] {
        let mut compressed = bytes_of(header);
        compressed.extend_from_slice(&data);
        compressed.extend_from_slice(&bytes_of("a085029700200000"));
        check(&data, lvl, &compressed);
    }
}

#[test]
fn roundtrip_small_sizes() {
    for (n, hex) in [
        (0, "1f8b080000000000000303000000000000000000"),
        (1, "1f8b08000000000000036307002e7a664c01000000"),
        (2, "1f8b080000000000000363570300c50195dc02000000"),
        (5, "1f8b08000000000000036357734d690600fde82af205000000"),
        (255, "1f8b080000000000000301ff0000ff0726456483a2c1e0ff1e3d5c7b9ab9d8f71635547392b1d0ef0e2d4c6b8aa9c8e70625446382a1c0dffe1d3c5b7a99b8d7f61534537291b0cfee0d2c4b6a89a8c7e60524436281a0bfdefd1c3b5a7998b7d6f51433527190afceed0c2b4a6988a7c6e504234261809fbeddfc1b3a597897b6d5f4133251708faecdec0b2a496887a6c5e4032241607f9ebddcfb1a39587796b5d4f31231506f8eadcceb0a29486786a5c4e30221405f7e9dbcdbfa1938577695b4d3f211304f6e8daccbea0928476685a4c3e201203f5e7d9cbbdaf91837567594b3d2f1102f4e6d8cabcae90827466584a3c2e1001f3e5d7c9bbad9f81736557493b2d1f00f2e4d6c8baac9052ba250ff000000"),
        (256, "1f8b0800000000000003010001fffe0726456483a2c1e0ff1e3d5c7b9ab9d8f71635547392b1d0ef0e2d4c6b8aa9c8e70625446382a1c0dffe1d3c5b7a99b8d7f61534537291b0cfee0d2c4b6a89a8c7e60524436281a0bfdefd1c3b5a7998b7d6f51433527190afceed0c2b4a6988a7c6e504234261809fbeddfc1b3a597897b6d5f4133251708faecdec0b2a496887a6c5e4032241607f9ebddcfb1a39587796b5d4f31231506f8eadcceb0a29486786a5c4e30221405f7e9dbcdbfa1938577695b4d3f211304f6e8daccbea0928476685a4c3e201203f5e7d9cbbdaf91837567594b3d2f1102f4e6d8cabcae90827466584a3c2e1001f3e5d7c9bbad9f81736557493b2d1f00f2e4d6c8baac9e863d3e90c00010000"),
        (1024, "1f8b08000000000000036357734d695e74f0c17f39db98ea593b6f7c17330d299eb4f1c27b3e5d9fecae95279eb3a9ba24372d3c70ff9fac4d74d5cc1dd7bf899a04174ddc70fe1daf8e7756e78ae3cf58559c931a17ecbff757c63aaa72c6f66b5f458c830a27ac3ff79647db2bb363f9b1a72cca4e890df3f7ddfd236d1559317ddbd52fc2468105fdebcebee1d6f2cc685f76f409b3926342fdbcbd777e4b5946944fdb7ae5b39061407edfda33afb9343dd2db961e79cca4e8105f3777cfed5f9216e16553b75cfe2468e09fd7bbe6f42b4e0df7b4d625871f312ad8c7d5ced97deba7847958e994cd973e0ae8fbe5f6ac3ef59243dd2db565f1a1870cf276b135b377ddfc216e165a3279d3c50ffc7abe39ddab4ebe601ff5ffa8ff47b0ff015d1b327c00040000"),
    ] {
        let n: usize = n;
        let data: Vec<u8> = (0..n).map(|i| (i * 31 + 7) as u8).collect();
        check(&data, 6, &bytes_of(hex));
    }
}

#[test]
fn gzip_rejects_what_is_no_member() {
    assert!(decompress(&[], 0).is_err());
    assert!(decompress(b"not a gzip member at all", 10).is_err());
    let mut cut = bytes_of("1f8b08000000000000036357734d690600fde82af205000000");
    cut.truncate(12);
    assert!(decompress(&cut, 5).is_err());
}

#[test]
fn stored_blocks_come_back() {
    let mut member = vec![0x1f, 0x8b, 8, 0, 0, 0, 0, 0, 0, 3];
    member.extend([1, 5, 0, 0xfa, 0xff]);
    member.extend(b"hello");
    member.extend([0; 8]);
    assert_eq!(decompress(&member, 5).unwrap(), b"hello");
    assert_eq!(
        decompress(&member, 6).unwrap_err().message(),
        "invalid parquet: gzip: inflated size does not match the page header"
    );
    member[13] = 0;
    assert_eq!(
        decompress(&member, 5).unwrap_err().message(),
        "invalid parquet: gzip: stored block length check failed"
    );
    member[2] = 7;
    assert_eq!(
        decompress(&member, 5).unwrap_err().message(),
        "invalid parquet: gzip: unsupported gzip compression method"
    );
}

#[test]
fn containers_and_trailers_change_nothing() {
    let mut raw = vec![1, 5, 0, 0xfa, 0xff];
    raw.extend(b"hello");
    // A block with the fixed codes that holds "aaaaaaaaaa".
    let fixed = bytes_of("4b4c840100");
    for (stream, wanted) in [(raw, &b"hello"[..]), (fixed, &b"aaaaaaaaaa"[..])] {
        assert_eq!(decompress(&stream, wanted.len()).unwrap(), wanted);
        let mut trailed = stream.clone();
        trailed.extend([1, 2, 3, 4]);
        assert_eq!(decompress(&trailed, wanted.len()).unwrap(), wanted);
        let mut member = vec![0x1f, 0x8b, 8, 0, 0, 0, 0, 0, 0, 0];
        member.extend(&stream);
        member.extend([9; 8]);
        assert_eq!(decompress(&member, wanted.len()).unwrap(), wanted);
        let mut zlib = vec![0x78, 0x9c];
        zlib.extend(&stream);
        zlib.extend([9; 4]);
        assert_eq!(decompress(&zlib, wanted.len()).unwrap(), wanted);
    }
}
