//! FlatBuffers tables, read and built.
use geosetta::flatbuffers::{Builder, Table};


fn sample() -> Vec<u8> {
    let mut b: Vec<u8> = Vec::new();
    b.extend_from_slice(&[0, 0, 0, 0]); // 0: root uoffset (patched below)

    b.extend_from_slice(&10u16.to_le_bytes()); // 4: vtable_size (2 hdr + 3 fields)
    b.extend_from_slice(&16u16.to_le_bytes()); // 6: table inline size
    b.extend_from_slice(&4u16.to_le_bytes()); // 8: field0 at table+4
    b.extend_from_slice(&8u16.to_le_bytes()); // 10: field1 at table+8
    b.extend_from_slice(&12u16.to_le_bytes()); // 12: field2 at table+12

    let table_pos = b.len();
    b.extend_from_slice(&((table_pos as i32 - 4).to_le_bytes())); // 14: soffset -> vtable
    b.extend_from_slice(&0x1234u16.to_le_bytes()); // 18: field0
    b.extend_from_slice(&[0, 0]); // 20: pad
    let f1 = b.len();
    b.extend_from_slice(&[0, 0, 0, 0]); // 22: field1 uoffset (patched)
    let f2 = b.len();
    b.extend_from_slice(&[0, 0, 0, 0]); // 26: field2 uoffset (patched)

    let str_pos = b.len();
    b.extend_from_slice(&2u32.to_le_bytes());
    b.extend_from_slice(b"hi\0\0");

    let vec_pos = b.len();
    b.extend_from_slice(&2u32.to_le_bytes());
    b.extend_from_slice(&1.5f64.to_le_bytes());
    b.extend_from_slice(&2.5f64.to_le_bytes());

    b[0..4].copy_from_slice(&(table_pos as u32).to_le_bytes());
    b[f1..f1 + 4].copy_from_slice(&((str_pos - f1) as u32).to_le_bytes());
    b[f2..f2 + 4].copy_from_slice(&((vec_pos - f2) as u32).to_le_bytes());
    b
}

#[test]
fn reads_scalar_string_and_vector() {
    let buf = sample();
    let t = Table::root(&buf).unwrap();
    assert_eq!(t.read_u16(0, 0).unwrap(), 0x1234);
    assert_eq!(t.read_str(1).unwrap(), Some("hi"));
    let v = t.read_vector(2).unwrap().unwrap();
    assert_eq!(v.len(), 2);
    assert_eq!(f64::from_bits(v.get_f64(0).unwrap()), 1.5);
    assert_eq!(f64::from_bits(v.get_f64(1).unwrap()), 2.5);
    assert_eq!(t.read_u16(7, 42).unwrap(), 42);
    assert!(t.read_str(5).unwrap().is_none());
}

#[test]
fn writer_round_trips_through_reader() {
    let mut b = Builder::new();
    let sub = {
        b.start_table(1);
        b.add_u16(0, 0xbeef, 0);
        b.end_table()
    };
    let s = b.create_string("héllo ☕");
    let xy = b.create_f64_vector(&[1.0f64.to_bits(), (-2.5f64).to_bits(), 3.25f64.to_bits()]);
    let ends = b.create_u32_vector(&[7, 42]);

    b.start_table(6);
    b.add_u8(0, 200, 0);
    b.add_u64(1, 0x0123_4567_89ab_cdef, 0);
    b.add_offset(2, s);
    b.add_offset(3, xy);
    b.add_offset(4, ends);
    b.add_offset(5, sub);
    let root = b.end_table();
    let buf = b.finish(root);

    let t = Table::root(&buf).unwrap();
    assert_eq!(t.read_u8(0, 0).unwrap(), 200);
    assert_eq!(t.read_u64(1, 0).unwrap(), 0x0123_4567_89ab_cdef);
    assert_eq!(t.read_str(2).unwrap(), Some("héllo ☕"));
    let xy = t.read_vector(3).unwrap().unwrap();
    assert_eq!(
        (
            f64::from_bits(xy.get_f64(0).unwrap()),
            f64::from_bits(xy.get_f64(1).unwrap()),
            f64::from_bits(xy.get_f64(2).unwrap()),
        ),
        (1.0, -2.5, 3.25)
    );
    let ends = t.read_vector(4).unwrap().unwrap();
    assert_eq!((ends.get_u32(0).unwrap(), ends.get_u32(1).unwrap()), (7, 42));
    let sub = t.read_table(5).unwrap().unwrap();
    assert_eq!(sub.read_u16(0, 0).unwrap(), 0xbeef);
}

#[test]
fn writer_offset_vector_of_tables() {
    let mut b = Builder::new();
    let a = {
        b.start_table(1);
        b.add_u8(0, 11, 0);
        b.end_table()
    };
    let c = {
        b.start_table(1);
        b.add_u8(0, 22, 0);
        b.end_table()
    };
    let vec = b.create_offset_vector(&[a, c]);
    b.start_table(1);
    b.add_offset(0, vec);
    let root = b.end_table();
    let buf = b.finish(root);

    let t = Table::root(&buf).unwrap();
    let v = t.read_vector(0).unwrap().unwrap();
    assert_eq!(v.len(), 2);
    assert_eq!(v.get_table(0).unwrap().read_u8(0, 0).unwrap(), 11);
    assert_eq!(v.get_table(1).unwrap().read_u8(0, 0).unwrap(), 22);
}

#[test]
fn fields_at_any_distance_from_the_end_are_found() {
    for len in [0usize, 1, 65520, 65524, 65528, 65532, 65536, 131064] {
        let content: Vec<u8> = (0..len).map(|i| (i % 251) as u8).collect();
        let mut b = Builder::new();
        let off = b.create_byte_vector(&content);
        b.start_table(2);
        b.add_u64(1, 77, 0);
        b.add_offset(0, off);
        let root = b.end_table();
        let buf = b.finish(root);
        let t = Table::root(&buf).unwrap();
        let v = t.read_vector(0).unwrap().expect("the vector is there");
        assert_eq!(v.bytes().unwrap(), content.as_slice(), "{len} bytes");
        assert_eq!(t.read_u64(1, 0).unwrap(), 77);
    }
}

#[test]
fn fields_read_back_from_a_buffer_of_any_size() {
    let long = "x".repeat(100_000);
    let mut b = Builder::new();
    let text = b.create_string(&long);
    let data = b.create_byte_vector(&[7; 70_000]);
    b.start_table(3);
    b.add_offset(0, text);
    b.add_offset(1, data);
    b.add_u64(2, 5, 0);
    let root = b.end_table();
    let buf = b.finish(root);
    let t = Table::root(&buf).unwrap();
    assert_eq!(t.read_str(0).unwrap(), Some(long.as_str()));
    assert_eq!(t.read_vector(1).unwrap().unwrap().bytes().unwrap(), &[7; 70_000]);
    assert_eq!(t.read_u64(2, 0).unwrap(), 5);
}

#[test]
fn every_kind_of_field_reads_back_from_a_finished_buffer() {
    let mut b = Builder::new();
    let empty = b.create_string("");
    let data = b.create_byte_vector(&[1, 2, 3]);
    let numbers = b.create_u32_vector(&[5, 6]);
    b.start_table(7);
    b.add_offset(3, numbers);
    b.add_u8(0, 9, 0);
    b.add_u64(5, 0x1122_3344_5566_7788, 1);
    b.add_offset(1, empty);
    b.add_offset(2, data);
    b.add_u64(6, 4, 4);
    let root = b.end_table();
    let buf = b.finish(root);
    let t = Table::root(&buf).unwrap();
    assert_eq!(t.read_u64(5, 1).unwrap(), 0x1122_3344_5566_7788);
    assert_eq!(t.read_u64(6, 4).unwrap(), 4);
    assert_eq!(t.read_str(1).unwrap(), Some(""));
    assert_eq!(t.read_vector(2).unwrap().unwrap().bytes().unwrap(), &[1, 2, 3]);
    let v = t.read_vector(3).unwrap().unwrap();
    assert_eq!((v.len(), v.get_u32(0).unwrap(), v.get_u32(1).unwrap()), (2, 5, 6));
    assert!(v.get_u32(2).is_err());
    assert_eq!(t.read_str(4).unwrap(), None);
    assert_eq!(t.read_str(40).unwrap(), None);
    let wanted = 0x1122_3344_5566_7788u64.to_le_bytes();
    let at = buf.windows(8).position(|w| w == wanted).unwrap();
    assert_eq!(at % 8, 0);
}
