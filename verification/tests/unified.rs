use apple_nvram::v1v2::{CHRPHeader, Section, Variable as V1Variable};
use apple_nvram::writer::{MemWriter, NvramWriter, WriteLog, WriteOp};
use apple_nvram::{chrp_checksum_add, nvram_parse, slice_find, slice_rstrip, Error, Nvram, VarType};

const PARTITION_SIZE: usize = 0x10000;

fn v3_store_header() -> Vec<u8> {
    let mut h: Vec<u8> = Vec::new();
    h.extend_from_slice(b"3VVN");
    h.extend_from_slice(&(PARTITION_SIZE as u32).to_le_bytes());
    h.extend_from_slice(&1u32.to_le_bytes());
    h.push(0xFE);
    h.push(0x5A);
    h.push(0x01);
    h.push(0x00);
    h.extend_from_slice(&0x4000u32.to_le_bytes());
    h.extend_from_slice(&0xC000u32.to_le_bytes());
    h
}

fn v3_image(bank_count: usize) -> Vec<u8> {
    let mut data = vec![0xFF; PARTITION_SIZE * bank_count];
    data[0..24].copy_from_slice(&v3_store_header());
    data
}

fn v1v2_image() -> Vec<u8> {
    let sec = |name: &[u8], vars: Vec<V1Variable>| apple_nvram::v1v2::Section {
        header: CHRPHeader { name: name.to_vec(), size: 0x7FF, signature: 0x70 },
        values: vars,
    };
    let part = |generation: u32| apple_nvram::v1v2::Partition {
        header: CHRPHeader { name: b"nvram".to_vec(), size: 0x1000, signature: 0x5A },
        generation,
        common: sec(b"common", vec![V1Variable::new(b"boot-args", b"-v", VarType::Common)]),
        system: sec(b"system", vec![]),
    };
    let nv = apple_nvram::v1v2::Nvram { partitions: vec![part(3), part(4)], active: 1 };
    nv.serialize().unwrap()
}

#[test]
fn auto_detect_v3() {
    // first four bytes "3VVN" and version byte 1: the v3 codec takes it
    let data = v3_image(2);
    assert_eq!(&data[0..4], b"3VVN");
    assert_eq!(data[14], 1);
    let nv = nvram_parse(&data).unwrap();
    assert!(matches!(nv, Nvram::V3(_)));
}

#[test]
fn auto_detect_v1v2() {
    // a valid CHRP header named nvram leads the image to the v1/v2 codec
    let data = v1v2_image();
    let h = CHRPHeader::parse(&data[0..16]).unwrap();
    assert_eq!(h.name, b"nvram".to_vec());
    let nv = nvram_parse(&data).unwrap();
    assert!(matches!(nv, Nvram::V1V2(_)));
}

#[test]
fn auto_detect_rejects_garbage() {
    assert!(matches!(nvram_parse(&[0u8; 0x20000]), Err(Error::ParseError)));
    assert!(matches!(nvram_parse(&[0x13u8; 64]), Err(Error::ParseError)));
    assert!(matches!(nvram_parse(&[]), Err(Error::ParseError)));
}

#[test]
fn unified_insert_get_apply_v3() {
    let data = v3_image(2);
    let mut nv = nvram_parse(&data).unwrap();
    nv.insert_variable(b"test-variable", b"test-value", VarType::Common);

    let got = nv.active_part().get_variable(b"test-variable", VarType::Common).unwrap();
    assert_eq!(got.value(), b"test-value".to_vec());
    assert_eq!(got.key(), b"test-variable");
    assert!(nv.active_part().get_variable(b"test-variable", VarType::System).is_none());

    let mut w = MemWriter::new(data);
    nv.apply(&mut w).unwrap();
    assert_eq!(w.get_erase_count(), 0);

    let nv2 = nvram_parse(w.get_data()).unwrap();
    let got2 = nv2.active_part().get_variable(b"test-variable", VarType::Common).unwrap();
    assert_eq!(got2.value(), b"test-value".to_vec());
    assert_eq!(nv2.active_part().variables().len(), 1);
    assert_eq!(nv2.partitions().len(), 1);
}

#[test]
fn unified_insert_supersedes_v3() {
    let data = v3_image(1);
    let mut nv = nvram_parse(&data).unwrap();
    nv.insert_variable(b"k", b"one", VarType::System);
    nv.insert_variable(b"k", b"two", VarType::System);
    let got = nv.active_part().get_variable(b"k", VarType::System).unwrap();
    assert_eq!(got.value(), b"two".to_vec());
    // the superseded record is still in the log, tombstoned
    assert_eq!(nv.active_part().variables().len(), 2);
    match &nv {
        Nvram::V3(v) => {
            let p = v.active_part();
            assert_eq!(p.values[0].header.state, 0x7C);
            assert_eq!(p.values[1].header.state, 0x7F);
        },
        Nvram::V1V2(_) => panic!("wrong format"),
    }
}

#[test]
fn unified_remove_v1v2() {
    let data = v1v2_image();
    let mut nv = nvram_parse(&data).unwrap();
    assert!(nv.active_part().get_variable(b"boot-args", VarType::Common).is_some());
    nv.remove_variable(b"boot-args", VarType::Common);
    assert!(nv.active_part().get_variable(b"boot-args", VarType::Common).is_none());
}

#[test]
fn unified_apply_v1v2_writes_whole_image() {
    let data = v1v2_image();
    let mut nv = nvram_parse(&data).unwrap();
    nv.insert_variable(b"boot-args", b"-s", VarType::Common);
    nv.prepare_for_write();

    let mut log = WriteLog::new();
    nv.apply(&mut log).unwrap();
    assert_eq!(log.ops.len(), 1);
    match &log.ops[0] {
        WriteOp::Write(offset, bytes) => {
            assert_eq!(*offset, 0);
            assert_eq!(bytes.len(), 0x20000);
            let nv2 = nvram_parse(bytes).unwrap();
            let got = nv2.active_part().get_variable(b"boot-args", VarType::Common).unwrap();
            assert_eq!(got.value(), b"-s".to_vec());
        },
        WriteOp::Erase(..) => panic!("no erase expected"),
    }
}

#[test]
fn unified_apply_v3_writes_one_bank() {
    let data = v3_image(2);
    let mut nv = nvram_parse(&data).unwrap();
    nv.insert_variable(b"k", b"v", VarType::Common);
    let mut log = WriteLog::new();
    nv.apply(&mut log).unwrap();
    assert_eq!(log.ops.len(), 1);
    match &log.ops[0] {
        WriteOp::Write(offset, bytes) => {
            assert_eq!(*offset, 0);
            assert_eq!(bytes.len(), PARTITION_SIZE);
        },
        WriteOp::Erase(..) => panic!("no erase expected"),
    }
}

#[test]
fn writer_records_erase_on_rotation() {
    // bank 1 holds garbage, and the update no longer fits in bank 0: the
    // writer sees exactly one erase, then the write of the rotated bank
    let mut data = v3_image(2);
    data[0x10000..0x10005].copy_from_slice(b"junk!");
    let mut nv = nvram_parse(&data).unwrap();
    nv.insert_variable(b"a", &vec![b'x'; 0x4000 - 100], VarType::System);
    nv.insert_variable(b"b", &vec![b'y'; 0xC000 - 100], VarType::Common);
    let mut w = MemWriter::new(data.clone());
    nv.apply(&mut w).unwrap();
    assert_eq!(w.get_erase_count(), 0);

    // supersede both: the log holds four records and overflows the bank
    let mut nv2 = nvram_parse(w.get_data()).unwrap();
    nv2.insert_variable(b"a", &vec![b'x'; 0x4000 - 100], VarType::System);
    nv2.insert_variable(b"b", &vec![b'y'; 0xC000 - 100], VarType::Common);
    nv2.apply(&mut w).unwrap();
    assert_eq!(w.get_erase_count(), 1);

    let nv3 = nvram_parse(w.get_data()).unwrap();
    match &nv3 {
        Nvram::V3(v) => assert_eq!(v.active, 1),
        Nvram::V1V2(_) => panic!("wrong format"),
    }
}

#[test]
fn helper_functions_behave() {
    assert_eq!(chrp_checksum_add(0xFF, 0x01), 0x01);
    assert_eq!(chrp_checksum_add(0x10, 0x20), 0x30);
    assert_eq!(slice_rstrip(&[1, 2, 0, 0], 0), &[1, 2]);
    assert_eq!(slice_rstrip(&[0, 0], 0), &[] as &[u8]);
    assert_eq!(slice_find(&[5, 6, 7], 0, 7), Some(2));
    assert_eq!(slice_find(&[5, 6, 7], 0, 9), None);
    assert_eq!(slice_find(&[5, 6, 5], 1, 5), Some(2));
}

#[test]
fn memwriter_has_flash_semantics() {
    let mut w = MemWriter::new(vec![0xF0, 0x0F, 0xFF]);
    w.write_all(0, &[0x33, 0x33, 0x33]).unwrap();
    assert_eq!(w.get_data().as_slice(), &[0x30, 0x03, 0x33]);
    w.erase_if_needed(1, 2);
    assert_eq!(w.get_data().as_slice(), &[0x30, 0xFF, 0xFF]);
    assert_eq!(w.get_erase_count(), 1);
}
