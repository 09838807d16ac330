use apple_nvram::v1v2::{CHRPHeader, Nvram, Partition, Section, UnescapeVal, Variable};
use apple_nvram::v1v2::unescape_bytes;
use apple_nvram::VarType;

// a section sized so that two of them and the partition prefix fill one
// 0x10000-byte bank exactly
const SECTION_UNITS: u16 = 0x7FF;

fn section(name: &[u8], vars: Vec<Variable>) -> Section {
    Section {
        header: CHRPHeader { name: name.to_vec(), size: SECTION_UNITS, signature: 0x70 },
        values: vars,
    }
}

fn partition(generation: u32, common: Vec<Variable>, system: Vec<Variable>) -> Partition {
    Partition {
        header: CHRPHeader { name: b"nvram".to_vec(), size: 0x1000, signature: 0x5A },
        generation,
        common: section(b"common", common),
        system: section(b"system", system),
    }
}

fn two_bank_image() -> Vec<u8> {
    let p0 = partition(
        5,
        vec![Variable::new(b"boot-args", b"quiet", VarType::Common)],
        vec![Variable::new(b"fmm-mobileme-token-FMM", b"tok", VarType::System)],
    );
    let p1 = partition(
        5,
        vec![Variable::new(b"boot-args", b"quiet", VarType::Common)],
        vec![Variable::new(b"fmm-mobileme-token-FMM", b"tok", VarType::System)],
    );
    let nv = Nvram { partitions: vec![p0, p1], active: 1 };
    let data = nv.serialize().unwrap();
    assert_eq!(data.len(), 0x20000);
    data
}

#[test]
fn v1v2_round_trip_with_generation_bump() {
    let data = two_bank_image();
    let mut nv = Nvram::parse(&data).unwrap();
    // equal generations: the tie goes to the second bank
    assert_eq!(nv.active, 1);
    assert_eq!(nv.partitions[0].generation, 5);
    assert_eq!(nv.partitions[1].generation, 5);

    // mutate one variable in each section
    nv.active_part_mut().insert_variable(b"boot-args", b"verbose", VarType::Common);
    nv.active_part_mut().insert_variable(b"fmm-mobileme-token-FMM", b"tok2", VarType::System);
    nv.prepare_for_write();
    assert_eq!(nv.active, 0);

    let data2 = nv.serialize().unwrap();
    assert_eq!(data2.len(), 0x20000);

    // reparsing verifies both Adler-32 words and both checksums
    let nv2 = Nvram::parse(&data2).unwrap();
    assert_eq!(nv2.active, 0);
    assert_eq!(nv2.partitions[0].generation, 6);
    assert_eq!(nv2.partitions[1].generation, 5);

    let active = &nv2.partitions[0];
    let b = active.get_variable(b"boot-args", VarType::Common).unwrap();
    assert_eq!(unescape_bytes(&b.value), b"verbose".to_vec());
    let f = active.get_variable(b"fmm-mobileme-token-FMM", VarType::System).unwrap();
    assert_eq!(unescape_bytes(&f.value), b"tok2".to_vec());

    // prepare_for_write copied the already-mutated active bank, so the
    // previous generation's bank holds the same variables at generation 5
    let old = &nv2.partitions[1];
    let ob = old.get_variable(b"boot-args", VarType::Common).unwrap();
    assert_eq!(unescape_bytes(&ob.value), b"verbose".to_vec());
    let of = old.get_variable(b"fmm-mobileme-token-FMM", VarType::System).unwrap();
    assert_eq!(unescape_bytes(&of.value), b"tok2".to_vec());
}

#[test]
fn adler_corruption_rejects_bank() {
    let data = two_bank_image();
    let mut broken = data.clone();
    // flip one byte inside the first bank's record area: its Adler-32 no
    // longer matches, and the intact second bank is cloned over it
    broken[40] ^= 0x01;
    let nv = Nvram::parse(&broken).unwrap();
    assert_eq!(
        unescape_bytes(
            &nv.partitions[0].get_variable(b"boot-args", VarType::Common).unwrap().value
        ),
        b"quiet".to_vec()
    );

    // breaking both banks rejects the image
    let mut broken2 = data.clone();
    broken2[40] ^= 0x01;
    broken2[0x10000 + 40] ^= 0x01;
    assert!(Nvram::parse(&broken2).is_err());
}

#[test]
fn chrp_header_round_trip() {
    let h = CHRPHeader { name: b"common".to_vec(), size: 0x123, signature: 0x70 };
    let mut bytes: Vec<u8> = Vec::new();
    h.serialize(&mut bytes);
    assert_eq!(bytes.len(), 16);
    let h2 = CHRPHeader::parse(&bytes).unwrap();
    assert_eq!(h2.name, b"common".to_vec());
    assert_eq!(h2.size, 0x123);
    assert_eq!(h2.signature, 0x70);

    // a corrupted checksum byte is rejected
    let mut bad = bytes.clone();
    bad[1] = bad[1].wrapping_add(1);
    assert!(CHRPHeader::parse(&bad).is_err());
}

#[test]
fn section_too_big_on_serialize() {
    let mut sec = section(b"common", vec![]);
    sec.header.size = 2;  // 32 bytes: the 16-byte header plus 16 more
    sec.values.push(Variable::new(b"key", &vec![b'v'; 64], VarType::Common));
    let mut out: Vec<u8> = Vec::new();
    assert!(matches!(sec.serialize(&mut out), Err(apple_nvram::Error::SectionTooBig)));
}

#[test]
fn escape_codec_round_trip() {
    // the count byte's high bit selects the fill; its low seven bits give
    // the run length
    let encoded = [0xFFu8, 0x03, 0x41, 0xFF, 0x82];
    let expected = vec![0x00u8, 0x00, 0x00, 0x41, 0xFF, 0xFF];
    assert_eq!(unescape_bytes(&encoded), expected);

    let mut it = UnescapeVal::new(&encoded);
    let mut got: Vec<u8> = Vec::new();
    while let Some(b) = it.next() {
        got.push(b);
    }
    assert_eq!(got, expected);
}

#[test]
fn escape_codec_edge_cases() {
    // a lone 0xFF at the end is end-of-stream
    assert_eq!(unescape_bytes(&[0x41, 0xFF]), vec![0x41]);
    // a zero count emits nothing
    assert_eq!(unescape_bytes(&[0xFF, 0x00, 0x42]), vec![0x42]);
    assert_eq!(unescape_bytes(&[0xFF, 0x80, 0x42]), vec![0x42]);
    // plain bytes pass through
    assert_eq!(unescape_bytes(b"hello"), b"hello".to_vec());
    assert_eq!(unescape_bytes(&[]), Vec::<u8>::new());
}

#[test]
fn variable_value_decodes() {
    let v = Variable::new(b"k", &[0xFF, 0x83], VarType::Common);
    assert_eq!(v.value(), vec![0xFF, 0xFF, 0xFF]);
}
