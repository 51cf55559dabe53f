use outagefs::codec::decode_changes;
use outagefs::codec::encode_changes;
use outagefs::codec::get_change;
use outagefs::codec::get_varint;
use outagefs::codec::put_change;
use outagefs::codec::put_varint;
use outagefs::errors::ErrorKind;
use outagefs::journal::Change;
use serde::ser::SerializeStructVariant;
use serde::Serialize;
use serde::Serializer;

fn varint(n: u64) -> Vec<u8> {
    let mut out = Vec::new();
    put_varint(&mut out, n);
    out
}

struct Payload<'a>(&'a [u8]);

impl<'a> Serialize for Payload<'a> {
    fn serialize<S: Serializer>(&self, serializer: S) -> Result<S::Ok, S::Error> {
        serializer.serialize_bytes(self.0)
    }
}

struct Stored<'a>(&'a Change);

impl<'a> Serialize for Stored<'a> {
    fn serialize<S: Serializer>(&self, serializer: S) -> Result<S::Ok, S::Error> {
        match self.0 {
            Change::Write { offset, data } => {
                let mut fields = serializer.serialize_struct_variant("Change", 0, "Write", 2)?;
                fields.serialize_field("offset", &(*offset as usize))?;
                fields.serialize_field("data", &Payload(data))?;
                fields.end()
            }
            Change::Sync => serializer.serialize_unit_variant("Change", 1, "Sync"),
        }
    }
}

fn sample_changes() -> Vec<Change> {
    vec![
        Change::Write {
            offset: 1,
            data: vec![4, 6],
        },
        Change::Sync,
        Change::Write {
            offset: 300,
            data: vec![0; 200],
        },
        Change::Write {
            offset: 0,
            data: vec![],
        },
        Change::Sync,
        Change::Sync,
        Change::Write {
            offset: 1 << 40,
            data: (0..=255).collect(),
        },
    ]
}

#[test]
fn small_numbers_take_one_byte() {
    assert_eq!(varint(0), vec![0x00]);
    assert_eq!(varint(1), vec![0x01]);
    assert_eq!(varint(127), vec![0x7f]);
}

#[test]
fn larger_numbers_go_low_group_first() {
    assert_eq!(varint(128), vec![0x80, 0x01]);
    assert_eq!(varint(300), vec![0xac, 0x02]);
    assert_eq!(varint(16383), vec![0xff, 0x7f]);
    assert_eq!(varint(16384), vec![0x80, 0x80, 0x01]);
    assert_eq!(
        varint(u64::MAX),
        vec![0xff, 0xff, 0xff, 0xff, 0xff, 0xff, 0xff, 0xff, 0xff, 0x01]
    );
}

#[test]
fn numbers_are_appended() {
    let mut out = vec![9, 9];
    put_varint(&mut out, 300);
    assert_eq!(out, vec![9, 9, 0xac, 0x02]);
}

#[test]
fn numbers_read_back() {
    let numbers = [
        0u64,
        1,
        127,
        128,
        255,
        300,
        16383,
        16384,
        1 << 32,
        (1 << 63) - 1,
        1 << 63,
        u64::MAX,
    ];
    for n in numbers {
        let mut bytes = vec![0xff, 0xff];
        put_varint(&mut bytes, n);
        let end = bytes.len();
        bytes.push(0x55);
        assert_eq!(get_varint(&bytes, 2), Some((n, end)));
    }
}

#[test]
fn numbers_agree_with_varbincode() {
    for n in [0u64, 1, 127, 128, 300, 65535, 1 << 32, u64::MAX] {
        assert_eq!(varint(n), varbincode::serialize(&n).unwrap());
        let read: u64 = varbincode::deserialize(&varint(n)[..]).unwrap();
        assert_eq!(get_varint(&varint(n), 0), Some((read, varint(n).len())));
    }
}

#[test]
fn number_that_ends_early_is_refused() {
    assert_eq!(get_varint(&[], 0), None);
    assert_eq!(get_varint(&[0x80], 0), None);
    assert_eq!(get_varint(&[0x80, 0x80], 0), None);
    assert_eq!(get_varint(&[0x01], 1), None);
    assert_eq!(get_varint(&[0x01], 5), None);
}

#[test]
fn number_that_does_not_fit_is_refused() {
    let mut bytes = vec![0xff; 9];
    bytes.push(0x02);
    assert_eq!(get_varint(&bytes, 0), None);
    let mut bytes = vec![0x80; 9];
    bytes.push(0x81);
    bytes.push(0x00);
    assert_eq!(get_varint(&bytes, 0), None);
    assert!(varbincode::deserialize::<u64, _>(&bytes[..]).is_err());
}

#[test]
fn number_in_more_groups_than_needed_is_read() {
    assert_eq!(get_varint(&[0x80, 0x00], 0), Some((0, 2)));
    assert_eq!(get_varint(&[0x81, 0x80, 0x00], 0), Some((1, 3)));
    let mut bytes = vec![0x80; 9];
    bytes.push(0x00);
    assert_eq!(get_varint(&bytes, 0), Some((0, 10)));
    let read: u64 = varbincode::deserialize(&[0x81u8, 0x80, 0x00][..]).unwrap();
    assert_eq!(read, 1);
}

#[test]
fn sync_is_its_tag() {
    let mut out = Vec::new();
    put_change(&mut out, &Change::Sync);
    assert_eq!(out, vec![1]);
}

#[test]
fn write_is_tag_offset_length_payload() {
    let mut out = Vec::new();
    put_change(
        &mut out,
        &Change::Write {
            offset: 300,
            data: vec![7, 8, 9],
        },
    );
    assert_eq!(out, vec![0, 0xac, 0x02, 3, 7, 8, 9]);
}

#[test]
fn change_list_is_length_then_changes() {
    let changes = vec![
        Change::Write {
            offset: 1,
            data: vec![4, 6],
        },
        Change::Write {
            offset: 0,
            data: vec![8, 3],
        },
        Change::Sync,
    ];
    assert_eq!(
        encode_changes(&changes),
        vec![3, 0, 1, 2, 4, 6, 0, 0, 2, 8, 3, 1]
    );
    assert_eq!(encode_changes(&Vec::new()), vec![0]);
}

#[test]
fn change_list_reads_back() {
    let changes = sample_changes();
    let bytes = encode_changes(&changes);
    assert_eq!(decode_changes(&bytes).unwrap(), changes);
    assert_eq!(decode_changes(&[0]).unwrap(), Vec::new());
}

#[test]
fn change_list_agrees_with_varbincode() {
    let changes = sample_changes();
    let stored: Vec<Stored> = changes.iter().map(Stored).collect();
    let theirs = varbincode::serialize(&stored).unwrap();
    assert_eq!(encode_changes(&changes), theirs);
    assert_eq!(decode_changes(&theirs).unwrap(), changes);
}

#[test]
fn bytes_behind_the_list_are_passed_over() {
    let changes = sample_changes();
    let mut bytes = encode_changes(&changes);
    bytes.extend_from_slice(&[0xff, 0xff, 0xff]);
    assert_eq!(decode_changes(&bytes).unwrap(), changes);
}

#[test]
fn change_reads_from_the_middle() {
    let bytes = [9, 9, 0, 5, 2, 7, 8, 1];
    assert_eq!(
        get_change(&bytes, 2),
        Some((
            Change::Write {
                offset: 5,
                data: vec![7, 8]
            },
            7
        ))
    );
    assert_eq!(get_change(&bytes, 7), Some((Change::Sync, 8)));
    assert_eq!(get_change(&bytes, 8), None);
}

#[test]
fn corrupt_change_lists_are_refused() {
    let cases: Vec<Vec<u8>> = vec![
        vec![],
        vec![1],
        vec![1, 2],
        vec![1, 0],
        vec![1, 0, 1],
        vec![1, 0, 1, 2, 4],
        vec![2, 1],
        vec![1, 0x80],
        vec![1, 0, 0, 0xff, 0xff, 0xff, 0xff, 0xff, 0xff, 0xff, 0xff, 0xff, 0x01],
        vec![0xff, 0xff, 0xff, 0xff, 0xff, 0xff, 0xff, 0xff, 0xff, 0x01, 1, 1],
    ];
    for bytes in cases {
        let refused = decode_changes(&bytes).unwrap_err();
        assert_eq!(refused.kind, ErrorKind::InvalidData);
        assert_eq!(refused.to_string(), "invalid changes data");
    }
}

#[test]
fn truncated_change_list_is_refused_at_every_length() {
    let bytes = encode_changes(&sample_changes());
    for len in 0..bytes.len() {
        assert!(decode_changes(&bytes[..len]).is_err());
    }
}
