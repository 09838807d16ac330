use apple_nvram::v3::{Nvram, Slot, VAR_ADDED, VAR_DELETED, VAR_IN_DELETED_TRANSITION};
use apple_nvram::writer::MemWriter;
use apple_nvram::VarType;

const PARTITION_SIZE: usize = 0x10000;
const STORE_HEADER_SIZE: usize = 24;

fn store_header() -> &'static [u8] {
    &[
        0x33, 0x56, 0x56, 0x4e, 0x00, 0x00, 0x01, 0x00,
        0x01, 0x00, 0x00, 0x00, 0xfe, 0x5a, 0x01, 0x00,
        0x00, 0x40, 0x00, 0x00, 0x00, 0xc0, 0x00, 0x00,
    ]
}

fn empty_nvram(bank_count: usize) -> Vec<u8> {
    let mut data = vec![0xFF; PARTITION_SIZE * bank_count];
    data[0..STORE_HEADER_SIZE].copy_from_slice(store_header());
    data
}

#[test]
fn test_insert_variable() {
    let mut nvr = MemWriter::new(empty_nvram(2));
    let data = nvr.get_data().to_owned();
    let mut nv = Nvram::parse(&data).unwrap();

    assert!(matches!(nv.partitions[0], Slot::Valid(_)));
    assert!(matches!(nv.partitions[1], Slot::Empty));

    nv.active_part_mut().insert_variable(b"test-variable", b"test-value", VarType::Common);

    // write changes
    nv.apply(&mut nvr).unwrap();
    assert_eq!(nvr.get_erase_count(), 0);

    // try to parse again
    let data_after = nvr.get_data().to_owned();
    let nv_after = Nvram::parse(&data_after).unwrap();

    let test_var = nv_after
        .active_part()
        .get_variable(b"test-variable", VarType::Common)
        .unwrap();

    assert_eq!(test_var.value, b"test-value".to_vec());

    let test_var_entries: Vec<_> = nv_after
        .active_part()
        .values
        .iter()
        .filter(|v| v.key == b"test-variable".to_vec() && v.typ() == VarType::Common)
        .collect();

    assert_eq!(test_var_entries.len(), 1);
    assert_eq!(test_var_entries[0].header.state, VAR_ADDED);

    // update variable
    let mut nv_after = nv_after;
    nv_after.active_part_mut().insert_variable(b"test-variable", b"test-value2", VarType::Common);

    // write changes
    nv_after.apply(&mut nvr).unwrap();
    assert_eq!(nvr.get_erase_count(), 0);

    // try to parse again
    let data_after2 = nvr.get_data().to_owned();
    let nv_after2 = Nvram::parse(&data_after2).unwrap();

    let test_var2 = nv_after2
        .active_part()
        .get_variable(b"test-variable", VarType::Common)
        .unwrap();

    assert_eq!(test_var2.value, b"test-value2".to_vec());

    let test_var2_entries: Vec<_> = nv_after2
        .active_part()
        .values
        .iter()
        .filter(|v| v.key == b"test-variable".to_vec() && v.typ() == VarType::Common)
        .collect();

    assert_eq!(test_var2_entries.len(), 2);
    assert_eq!(
        test_var2_entries[0].header.state,
        VAR_ADDED & VAR_DELETED & VAR_IN_DELETED_TRANSITION
    );
    assert_eq!(test_var2_entries[1].header.state, VAR_ADDED);
}

#[test]
fn test_write_to_next_bank() {
    let mut nvr = MemWriter::new(empty_nvram(2));
    // write something to the second bank to force nvram erase later
    nvr.data[0x10000..0x10007].copy_from_slice(b"garbage");

    let data = nvr.get_data().to_owned();
    let mut nv = Nvram::parse(&data).unwrap();

    assert!(matches!(nv.partitions[0], Slot::Valid(_)));
    assert!(matches!(nv.partitions[1], Slot::Invalid));

    let orig_sys_val = vec![b'.'; 8192];
    nv.active_part_mut().insert_variable(b"test-large-variable", &orig_sys_val, VarType::System);

    let orig_common_val = vec![b'.'; 24576];
    nv.active_part_mut().insert_variable(
        b"test-large-variable",
        &orig_common_val,
        VarType::Common,
    );

    // write changes
    nv.apply(&mut nvr).unwrap();
    assert_eq!(nvr.get_erase_count(), 0);
    assert_eq!(nv.active, 0);

    // try to parse again
    let data_after = nvr.get_data().to_owned();
    let mut nv_after = Nvram::parse(&data_after).unwrap();
    assert_eq!(nv_after.active_part().header.generation, 1);

    assert!(matches!(nv_after.partitions[0], Slot::Valid(_)));
    assert!(matches!(nv_after.partitions[1], Slot::Invalid));

    // update variable
    let updated_sys_val = vec![b'.'; 9000];
    nv_after.active_part_mut().insert_variable(
        b"test-large-variable",
        &updated_sys_val,
        VarType::System,
    );

    let updated_common_val = vec![b'.'; 25000];
    nv_after.active_part_mut().insert_variable(
        b"test-large-variable",
        &updated_common_val,
        VarType::Common,
    );

    assert_eq!(nv_after.active_part().values.len(), 4);

    // write changes
    nv_after.apply(&mut nvr).unwrap();
    assert_eq!(nvr.get_erase_count(), 1);
    assert_eq!(nv_after.active, 1);
    assert_eq!(nv_after.active_part().values.len(), 2);

    // try to parse again
    let data_after2 = nvr.get_data().to_owned();
    let nv_after2 = Nvram::parse(&data_after2).unwrap();
    assert_eq!(nv_after2.active, 1);
    assert_eq!(nv_after2.active_part().values.len(), 2);
    assert_eq!(nv_after2.active_part().header.generation, 2);

    assert!(matches!(nv_after2.partitions[0], Slot::Valid(_)));
    assert!(matches!(nv_after2.partitions[1], Slot::Valid(_)));

    let test_sys_var2 = nv_after2
        .active_part()
        .get_variable(b"test-large-variable", VarType::System)
        .unwrap();

    let test_common_var2 = nv_after2
        .active_part()
        .get_variable(b"test-large-variable", VarType::Common)
        .unwrap();

    assert_eq!(test_sys_var2.value, updated_sys_val);
    assert_eq!(test_common_var2.value, updated_common_val);

    let test_old_sys_var = nv_after2.partitions[0]
        .as_ref()
        .unwrap()
        .get_variable(b"test-large-variable", VarType::System)
        .unwrap();

    let test_old_common_var = nv_after2.partitions[0]
        .as_ref()
        .unwrap()
        .get_variable(b"test-large-variable", VarType::Common)
        .unwrap();

    assert_eq!(test_old_sys_var.value, orig_sys_val);
    assert_eq!(test_old_common_var.value, orig_common_val);
}

#[test]
fn insert_writes_record_with_crc() {
    let mut nvr = MemWriter::new(empty_nvram(2));
    let data = nvr.get_data().to_owned();
    let mut nv = Nvram::parse(&data).unwrap();
    nv.active_part_mut().insert_variable(b"test-variable", b"test-value", VarType::Common);
    nv.apply(&mut nvr).unwrap();

    // the record sits right after the store header: 36-byte record header,
    // then the key with its NUL, then the value
    let bytes = nvr.get_data();
    let rec = STORE_HEADER_SIZE;
    assert_eq!(&bytes[rec..rec + 2], &[0xAA, 0x55]);
    assert_eq!(bytes[rec + 2], 0x7F);
    let name_size = u32::from_le_bytes(bytes[rec + 8..rec + 12].try_into().unwrap());
    let data_size = u32::from_le_bytes(bytes[rec + 12..rec + 16].try_into().unwrap());
    assert_eq!(name_size, b"test-variable".len() as u32 + 1);
    assert_eq!(data_size, b"test-value".len() as u32);
    let crc = u32::from_le_bytes(bytes[rec + 32..rec + 36].try_into().unwrap());
    assert_eq!(crc, crc32fast::hash(b"test-value"));
    let k_end = rec + 36 + name_size as usize;
    assert_eq!(&bytes[rec + 36..k_end - 1], b"test-variable");
    assert_eq!(bytes[k_end - 1], 0);
    assert_eq!(&bytes[k_end..k_end + data_size as usize], b"test-value");
}

#[test]
fn corrupt_crc_invalidates_bank() {
    let mut nvr = MemWriter::new(empty_nvram(1));
    let data = nvr.get_data().to_owned();
    let mut nv = Nvram::parse(&data).unwrap();
    nv.active_part_mut().insert_variable(b"k", b"hello", VarType::Common);
    nv.apply(&mut nvr).unwrap();

    let mut bytes = nvr.get_data().to_owned();
    // flip a bit inside the value: the stored CRC-32 no longer matches
    let val_at = STORE_HEADER_SIZE + 36 + 2;
    bytes[val_at] ^= 0x01;
    assert!(Nvram::parse(&bytes).is_err());
}

#[test]
fn quota_violation_is_section_too_big() {
    // a store with a 16-byte system quota rejects a larger system variable
    let mut header = store_header().to_owned();
    header[16..20].copy_from_slice(&16u32.to_le_bytes());
    let mut data = vec![0xFF; PARTITION_SIZE];
    data[0..STORE_HEADER_SIZE].copy_from_slice(&header);

    let mut nv = Nvram::parse(&data).unwrap();
    nv.active_part_mut().insert_variable(b"big", &vec![b'x'; 64], VarType::System);
    let mut nvr = MemWriter::new(data.clone());
    let r = nv.apply(&mut nvr);
    assert!(matches!(r, Err(apple_nvram::Error::SectionTooBig)));
    assert_eq!(nvr.get_erase_count(), 0);
}

#[test]
fn remove_tombstones_record() {
    let mut nvr = MemWriter::new(empty_nvram(1));
    let data = nvr.get_data().to_owned();
    let mut nv = Nvram::parse(&data).unwrap();
    nv.active_part_mut().insert_variable(b"gone", b"soon", VarType::Common);
    nv.apply(&mut nvr).unwrap();

    let data2 = nvr.get_data().to_owned();
    let mut nv2 = Nvram::parse(&data2).unwrap();
    nv2.active_part_mut().remove_variable(b"gone", VarType::Common);
    assert!(nv2.active_part().get_variable(b"gone", VarType::Common).is_none());
    assert_eq!(nv2.active_part().values[0].header.state, 0x7C);
    nv2.apply(&mut nvr).unwrap();

    let data3 = nvr.get_data().to_owned();
    let nv3 = Nvram::parse(&data3).unwrap();
    assert!(nv3.active_part().get_variable(b"gone", VarType::Common).is_none());
    assert_eq!(nv3.active_part().values.len(), 1);
    assert_eq!(nv3.active_part().values[0].header.state, 0x7C);
}

fn bank_with_generation(generation: u32) -> Vec<u8> {
    let mut bank = vec![0xFF; PARTITION_SIZE];
    bank[0..STORE_HEADER_SIZE].copy_from_slice(store_header());
    bank[8..12].copy_from_slice(&generation.to_le_bytes());
    bank
}

#[test]
fn highest_generation_bank_is_active() {
    let mut data = Vec::new();
    data.extend_from_slice(&bank_with_generation(2));
    data.extend_from_slice(&bank_with_generation(5));
    data.extend_from_slice(&bank_with_generation(3));
    let nv = Nvram::parse(&data).unwrap();
    assert_eq!(nv.active, 1);
    assert_eq!(nv.active_part().header.generation, 5);
}

#[test]
fn generation_tie_goes_to_lowest_index() {
    let mut data = Vec::new();
    data.extend_from_slice(&bank_with_generation(7));
    data.extend_from_slice(&bank_with_generation(7));
    let nv = Nvram::parse(&data).unwrap();
    assert_eq!(nv.active, 0);
}

#[test]
fn bank_count_caps_at_sixteen() {
    let mut data = Vec::new();
    for i in 0..17u32 {
        data.extend_from_slice(&bank_with_generation(i + 1));
    }
    let nv = Nvram::parse(&data).unwrap();
    assert_eq!(nv.partitions.len(), 16);
    assert_eq!(nv.active, 15);
}

#[test]
fn no_valid_bank_is_parse_error() {
    let data = vec![0xFF; PARTITION_SIZE * 2];
    assert!(matches!(Nvram::parse(&data), Err(apple_nvram::Error::ParseError)));
    let data2 = vec![0x00; PARTITION_SIZE];
    assert!(matches!(Nvram::parse(&data2), Err(apple_nvram::Error::ParseError)));
}
