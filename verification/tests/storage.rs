use std::collections::HashMap;

use mvcc::header::TileGroupHeader;
use mvcc::logical_tile::LogicalTile;
use mvcc::schema::{Column, Schema};
use mvcc::tile::Tile;
use mvcc::tile_group::TileGroup;
use mvcc::types::{ItemPointer, StorageError, INVALID_OID, INVALID_TXN_ID, MAX_CID};
use mvcc::value::{decode_fixed, decode_le, encode_fixed, encode_le, Tuple, Value, ValueType};

fn three_column_group(capacity: usize) -> TileGroup {
    let wide = Schema::new(vec![
        Column::new_static(ValueType::Integer),
        Column::new_static(ValueType::BigInt),
    ])
    .unwrap();
    let narrow = Schema::new(vec![Column::new_dynamic(ValueType::Varchar, 50)]).unwrap();
    let mut col_map: HashMap<usize, (usize, usize)> = HashMap::new();
    col_map.insert(0, (0, 0));
    col_map.insert(1, (0, 1));
    col_map.insert(2, (1, 0));
    TileGroup::new(7, vec![wide, narrow], col_map, capacity).unwrap()
}

fn row(a: i32, b: i64, c: &[u8]) -> Tuple {
    Tuple::new(vec![Value::Integer(a), Value::BigInt(b), Value::Varchar(c.to_vec())])
}

#[test]
fn full_header_hands_out_no_slot() {
    let mut h = TileGroupHeader::new(3).unwrap();
    assert_eq!(h.get_capacity(), 3);
    assert_eq!(h.get_allocated_tuple_count(), 0);
    assert_eq!(h.next_empty_tuple_slot(), 0);
    assert_eq!(h.next_empty_tuple_slot(), 1);
    assert_eq!(h.next_empty_tuple_slot(), 2);
    assert_eq!(h.get_allocated_tuple_count(), 3);
    assert_eq!(h.next_empty_tuple_slot(), INVALID_OID);
    assert_eq!(h.next_empty_tuple_slot(), INVALID_OID);
    assert_eq!(h.get_allocated_tuple_count(), 3);
}

#[test]
fn header_of_no_slots_is_full_at_once() {
    let mut h = TileGroupHeader::new(0).unwrap();
    assert_eq!(h.next_empty_tuple_slot(), INVALID_OID);
}

#[test]
fn header_refuses_a_capacity_that_reaches_the_sentinel() {
    assert!(TileGroupHeader::new(0xFFFF_FFFF).is_none());
}

#[test]
fn allocation_hands_out_each_slot_once_in_order() {
    let mut h = TileGroupHeader::new(100).unwrap();
    for expected in 0..100u32 {
        assert_eq!(h.next_empty_tuple_slot(), expected);
    }
    for _ in 0..10 {
        assert_eq!(h.next_empty_tuple_slot(), INVALID_OID);
    }
}

#[test]
fn fresh_slot_is_unowned_and_invisible() {
    let h = TileGroupHeader::new(2).unwrap();
    assert_eq!(h.get_owning_tx(1), INVALID_TXN_ID);
    assert_eq!(h.get_tuple_begin_ts(1), MAX_CID);
    assert_eq!(h.get_tuple_end_ts(1), MAX_CID);
    assert_eq!(h.get_previous(1), ItemPointer { block: INVALID_OID, offset: INVALID_OID });
    assert!(!h.is_visible(1, 0, 5, true));
    assert!(!h.is_visible(1, MAX_CID - 1, 5, true));
}

#[test]
fn only_the_first_writer_claims_a_slot() {
    let mut h = TileGroupHeader::new(2).unwrap();
    assert!(h.install_owning_tx(0, 11));
    assert_eq!(h.get_owning_tx(0), 11);
    assert!(!h.install_owning_tx(0, 12));
    assert_eq!(h.get_owning_tx(0), 11);
    assert_eq!(h.get_owning_tx(1), INVALID_TXN_ID);
}

#[test]
fn install_version_stamps_the_begin_timestamp() {
    let mut h = TileGroupHeader::new(2).unwrap();
    assert!(h.install_version(1, 9, 100));
    assert_eq!(h.get_owning_tx(1), 9);
    assert_eq!(h.get_tuple_begin_ts(1), 100);
    assert_eq!(h.get_tuple_end_ts(1), MAX_CID);
    assert!(!h.install_version(1, 10, 200));
    assert_eq!(h.get_owning_tx(1), 9);
    assert_eq!(h.get_tuple_begin_ts(1), 100);
}

#[test]
fn visibility_follows_the_timestamps_and_the_owner() {
    let mut h = TileGroupHeader::new(1).unwrap();
    assert!(h.install_version(0, 9, 100));
    h.set_end_ts(0, 200);
    assert!(!h.is_visible(0, 99, 3, true));
    assert!(h.is_visible(0, 100, 3, true));
    assert!(h.is_visible(0, 199, 3, true));
    assert!(!h.is_visible(0, 200, 3, true));
    assert!(!h.is_visible(0, 150, 3, false));
    assert!(h.is_visible(0, 150, 9, false));
}

#[test]
fn an_update_chains_the_new_version_to_the_old() {
    let mut h = TileGroupHeader::new(4).unwrap();
    let old_slot = h.next_empty_tuple_slot();
    assert!(h.install_version(old_slot, 1, 10));
    let new_slot = h.next_empty_tuple_slot();
    assert!(h.install_version(new_slot, 2, 20));
    h.chain_previous(new_slot, ItemPointer { block: 7, offset: old_slot });
    h.set_end_ts(old_slot, 20);
    assert_eq!(h.get_previous(new_slot), ItemPointer { block: 7, offset: old_slot });
    assert_eq!(h.get_tuple_end_ts(old_slot), 20);
    assert!(h.is_visible(old_slot, 15, 3, true));
    assert!(!h.is_visible(new_slot, 15, 3, true));
    assert!(!h.is_visible(old_slot, 20, 3, true));
    assert!(h.is_visible(new_slot, 20, 3, true));
}

#[test]
fn little_endian_bytes_of_a_number() {
    assert_eq!(encode_le(0x0102, 4), vec![2u8, 1, 0, 0]);
    assert_eq!(encode_le(0x0102, 1), vec![2u8]);
    assert_eq!(encode_le(7, 0), Vec::<u8>::new());
    assert_eq!(
        encode_le(0x0102_0304_0506_0708, 8),
        vec![8u8, 7, 6, 5, 4, 3, 2, 1]
    );
    let buf: Vec<u8> = vec![9, 2, 1, 0, 0, 9];
    assert_eq!(decode_le(&buf, 1, 4), 0x0102);
    assert_eq!(decode_le(&buf, 1, 0), 0);
}

#[test]
fn fixed_width_values_are_stored_in_twos_complement() {
    assert_eq!(encode_fixed(&Value::TinyInt(-1)), vec![0xFFu8]);
    assert_eq!(encode_fixed(&Value::TinyInt(127)), vec![0x7Fu8]);
    assert_eq!(encode_fixed(&Value::SmallInt(258)), vec![2u8, 1]);
    assert_eq!(encode_fixed(&Value::SmallInt(-32768)), vec![0u8, 0x80]);
    assert_eq!(encode_fixed(&Value::Integer(-2)), vec![0xFEu8, 0xFF, 0xFF, 0xFF]);
    assert_eq!(
        encode_fixed(&Value::BigInt(i64::MIN)),
        vec![0u8, 0, 0, 0, 0, 0, 0, 0x80]
    );
    assert_eq!(
        encode_fixed(&Value::BigInt(-1)),
        vec![0xFFu8, 0xFF, 0xFF, 0xFF, 0xFF, 0xFF, 0xFF, 0xFF]
    );
    assert_eq!(encode_fixed(&Value::Varchar(vec![1, 2, 3])), Vec::<u8>::new());
}

#[test]
fn decoding_undoes_encoding() {
    let values = vec![
        Value::TinyInt(i8::MIN),
        Value::TinyInt(-1),
        Value::TinyInt(0),
        Value::TinyInt(i8::MAX),
        Value::SmallInt(i16::MIN),
        Value::SmallInt(-300),
        Value::SmallInt(i16::MAX),
        Value::Integer(i32::MIN),
        Value::Integer(-2),
        Value::Integer(123_456),
        Value::Integer(i32::MAX),
        Value::BigInt(i64::MIN),
        Value::BigInt(-1),
        Value::BigInt(1 << 40),
        Value::BigInt(i64::MAX),
    ];
    for v in values {
        let mut buf: Vec<u8> = vec![0xAA, 0xBB];
        buf.extend(encode_fixed(&v));
        buf.push(0xCC);
        assert_eq!(decode_fixed(v.value_type(), &buf, 2), v);
    }
}

#[test]
fn value_types_have_their_widths() {
    assert_eq!(ValueType::TinyInt.fixed_width(), 1);
    assert_eq!(ValueType::SmallInt.fixed_width(), 2);
    assert_eq!(ValueType::Integer.fixed_width(), 4);
    assert_eq!(ValueType::BigInt.fixed_width(), 8);
    assert_eq!(ValueType::Varchar.fixed_width(), 0);
    assert!(ValueType::Varchar.is_variable_length());
    assert!(!ValueType::BigInt.is_variable_length());
}

#[test]
fn schema_lays_columns_out_in_order() {
    let s = Schema::new(vec![
        Column::new_static(ValueType::Integer),
        Column::new_dynamic(ValueType::Varchar, 50),
        Column::new_static(ValueType::TinyInt),
        Column::new_static(ValueType::BigInt),
    ])
    .unwrap();
    assert_eq!(s.column_count(), 4);
    assert_eq!(s.get_column(0).offset, 0);
    assert_eq!(s.get_column(1).offset, 4);
    assert_eq!(s.get_column(2).offset, 20);
    assert_eq!(s.get_column(3).offset, 21);
    assert_eq!(s.tuple_length(), 29);
    assert_eq!(s.get_type(1), ValueType::Varchar);
    assert_eq!(s.get_column(1).length, 50);
    assert!(!s.get_column(1).is_inlined);
    assert_eq!(s.get_column(3).length, 8);
}

#[test]
fn schema_without_columns_has_empty_tuples() {
    let s = Schema::new(Vec::new()).unwrap();
    assert_eq!(s.column_count(), 0);
    assert_eq!(s.tuple_length(), 0);
}

#[test]
fn schema_refuses_a_column_whose_flag_contradicts_its_type() {
    let stored_by_reference = Schema::new(vec![
        Column::new_static(ValueType::Integer),
        Column::new_dynamic(ValueType::Integer, 8),
    ]);
    assert!(matches!(stored_by_reference, Err(StorageError::InvalidColumn)));
    let inlined_payload = Schema::new(vec![Column::new_static(ValueType::Varchar)]);
    assert!(matches!(inlined_payload, Err(StorageError::InvalidColumn)));
}

#[test]
fn tile_starts_with_zero_values() {
    let s = Schema::new(vec![
        Column::new_static(ValueType::SmallInt),
        Column::new_dynamic(ValueType::Varchar, 10),
    ])
    .unwrap();
    let t = Tile::new(&s, 3).unwrap();
    assert_eq!(t.get_capacity(), 3);
    assert_eq!(t.column_count(), 2);
    assert_eq!(t.column_type(1), ValueType::Varchar);
    for slot in 0..3 {
        assert_eq!(t.read_column(slot, 0).unwrap(), Value::SmallInt(0));
        assert_eq!(t.read_column(slot, 1).unwrap(), Value::Varchar(Vec::new()));
    }
}

#[test]
fn tile_refuses_a_buffer_beyond_the_address_space() {
    let s = Schema::new(vec![Column::new_static(ValueType::BigInt)]).unwrap();
    assert!(matches!(Tile::new(&s, usize::MAX), Err(StorageError::InvalidLayout)));
}

#[test]
fn written_value_is_read_back() {
    let s = Schema::new(vec![
        Column::new_static(ValueType::Integer),
        Column::new_static(ValueType::TinyInt),
        Column::new_static(ValueType::BigInt),
        Column::new_static(ValueType::SmallInt),
    ])
    .unwrap();
    let mut t = Tile::new(&s, 4).unwrap();
    assert_eq!(t.write_column(2, 0, &Value::Integer(-77)), Ok(()));
    assert_eq!(t.write_column(2, 1, &Value::TinyInt(-5)), Ok(()));
    assert_eq!(t.write_column(2, 2, &Value::BigInt(i64::MIN)), Ok(()));
    assert_eq!(t.write_column(2, 3, &Value::SmallInt(1234)), Ok(()));
    assert_eq!(t.write_column(3, 0, &Value::Integer(i32::MAX)), Ok(()));
    assert_eq!(t.read_column(2, 0).unwrap(), Value::Integer(-77));
    assert_eq!(t.read_column(2, 1).unwrap(), Value::TinyInt(-5));
    assert_eq!(t.read_column(2, 2).unwrap(), Value::BigInt(i64::MIN));
    assert_eq!(t.read_column(2, 3).unwrap(), Value::SmallInt(1234));
    assert_eq!(t.read_column(3, 0).unwrap(), Value::Integer(i32::MAX));
    assert_eq!(t.read_column(1, 0).unwrap(), Value::Integer(0));
    assert_eq!(t.read_column(3, 1).unwrap(), Value::TinyInt(0));
}

#[test]
fn payloads_are_read_back_and_kept_apart() {
    let s = Schema::new(vec![
        Column::new_dynamic(ValueType::Varchar, 20),
        Column::new_static(ValueType::Integer),
        Column::new_dynamic(ValueType::Varchar, 20),
    ])
    .unwrap();
    let mut t = Tile::new(&s, 2).unwrap();
    assert_eq!(t.write_column(0, 0, &Value::Varchar(b"alpha".to_vec())), Ok(()));
    assert_eq!(t.write_column(0, 2, &Value::Varchar(b"beta".to_vec())), Ok(()));
    assert_eq!(t.write_column(1, 0, &Value::Varchar(Vec::new())), Ok(()));
    assert_eq!(t.write_column(0, 1, &Value::Integer(5)), Ok(()));
    assert_eq!(t.read_column(0, 0).unwrap(), Value::Varchar(b"alpha".to_vec()));
    assert_eq!(t.read_column(0, 2).unwrap(), Value::Varchar(b"beta".to_vec()));
    assert_eq!(t.read_column(1, 0).unwrap(), Value::Varchar(Vec::new()));
    assert_eq!(t.read_column(1, 2).unwrap(), Value::Varchar(Vec::new()));
    assert_eq!(t.write_column(0, 0, &Value::Varchar(b"gamma delta".to_vec())), Ok(()));
    assert_eq!(t.read_column(0, 0).unwrap(), Value::Varchar(b"gamma delta".to_vec()));
    assert_eq!(t.read_column(0, 2).unwrap(), Value::Varchar(b"beta".to_vec()));
    assert_eq!(t.read_column(0, 1).unwrap(), Value::Integer(5));
}

#[test]
fn mismatched_write_fails_and_changes_nothing() {
    let s = Schema::new(vec![
        Column::new_static(ValueType::Integer),
        Column::new_dynamic(ValueType::Varchar, 20),
    ])
    .unwrap();
    let mut t = Tile::new(&s, 2).unwrap();
    assert_eq!(t.write_column(1, 0, &Value::Integer(42)), Ok(()));
    assert_eq!(t.write_column(1, 1, &Value::Varchar(b"kept".to_vec())), Ok(()));
    let before: Vec<u8> = t.get_tuple_location(1).to_vec();
    assert_eq!(
        t.write_column(1, 0, &Value::BigInt(1)),
        Err(StorageError::TypeMismatch)
    );
    assert_eq!(
        t.write_column(1, 0, &Value::Varchar(b"x".to_vec())),
        Err(StorageError::TypeMismatch)
    );
    assert_eq!(
        t.write_column(1, 1, &Value::Integer(1)),
        Err(StorageError::TypeMismatch)
    );
    assert_eq!(
        t.write_column(1, 2, &Value::Integer(1)),
        Err(StorageError::NoSuchColumn)
    );
    assert_eq!(t.get_tuple_location(1).to_vec(), before);
    assert_eq!(t.read_column(1, 0).unwrap(), Value::Integer(42));
    assert_eq!(t.read_column(1, 1).unwrap(), Value::Varchar(b"kept".to_vec()));
    assert!(matches!(t.read_column(1, 2), Err(StorageError::NoSuchColumn)));
}

#[test]
fn tuple_bytes_hold_the_inlined_columns_at_their_offsets() {
    let s = Schema::new(vec![
        Column::new_static(ValueType::Integer),
        Column::new_static(ValueType::TinyInt),
    ])
    .unwrap();
    let mut t = Tile::new(&s, 3).unwrap();
    assert_eq!(t.write_column(1, 0, &Value::Integer(0x0102_0304)), Ok(()));
    assert_eq!(t.write_column(1, 1, &Value::TinyInt(-1)), Ok(()));
    assert_eq!(t.get_tuple_location(1).to_vec(), vec![4u8, 3, 2, 1, 0xFF]);
    assert_eq!(t.get_tuple_location(0).to_vec(), vec![0u8; 5]);
    assert_eq!(t.get_tuple_location(2).to_vec(), vec![0u8; 5]);
}

#[test]
fn fourth_insert_into_a_group_of_three_reports_full() {
    let mut g = three_column_group(3);
    let first = g.insert_tuple(&row(1, 10, b"a")).unwrap();
    let second = g.insert_tuple(&row(2, 20, b"b")).unwrap();
    let third = g.insert_tuple(&row(3, 30, b"c")).unwrap();
    assert_eq!((first, second, third), (0, 1, 2));
    assert!(first < second && second < third);
    assert!(matches!(
        g.insert_tuple(&row(4, 40, b"d")),
        Err(StorageError::SlotExhausted)
    ));
    assert!(matches!(
        g.insert_tuple(&row(5, 50, b"e")),
        Err(StorageError::SlotExhausted)
    ));
    assert_eq!(g.get_allocated_tuple_count(), 3);
    assert_eq!(g.read_column(1, 0).unwrap(), Value::Integer(2));
    assert_eq!(g.read_column(2, 2).unwrap(), Value::Varchar(b"c".to_vec()));
}

#[test]
fn inserted_tuple_is_read_back_column_by_column() {
    let mut g = three_column_group(4);
    assert_eq!(g.get_tile_group_id(), 7);
    assert_eq!(g.column_count(), 3);
    let slot = g.insert_tuple(&row(-9, i64::MAX, b"payload")).unwrap();
    assert_eq!(slot, 0);
    assert_eq!(g.read_column(slot, 0).unwrap(), Value::Integer(-9));
    assert_eq!(g.read_column(slot, 1).unwrap(), Value::BigInt(i64::MAX));
    assert_eq!(g.read_column(slot, 2).unwrap(), Value::Varchar(b"payload".to_vec()));
    assert_eq!(g.read_column(1, 0).unwrap(), Value::Integer(0));
    assert!(matches!(g.read_column(4, 0), Err(StorageError::NoSuchSlot)));
    assert!(matches!(g.read_column(0, 3), Err(StorageError::NoSuchColumn)));
    assert!(matches!(g.read_column(9, 9), Err(StorageError::NoSuchSlot)));
}

#[test]
fn column_map_decides_where_a_column_lies() {
    let pair = Schema::new(vec![
        Column::new_static(ValueType::Integer),
        Column::new_static(ValueType::SmallInt),
    ])
    .unwrap();
    let single = Schema::new(vec![Column::new_static(ValueType::TinyInt)]).unwrap();
    let mut col_map: HashMap<usize, (usize, usize)> = HashMap::new();
    col_map.insert(0, (1, 0));
    col_map.insert(1, (0, 1));
    col_map.insert(2, (0, 0));
    let mut g = TileGroup::new(1, vec![pair, single], col_map, 2).unwrap();
    let t = Tuple::new(vec![Value::TinyInt(3), Value::SmallInt(-4), Value::Integer(5)]);
    assert_eq!(g.insert_tuple(&t), Ok(0));
    assert_eq!(g.read_column(0, 0).unwrap(), Value::TinyInt(3));
    assert_eq!(g.read_column(0, 1).unwrap(), Value::SmallInt(-4));
    assert_eq!(g.read_column(0, 2).unwrap(), Value::Integer(5));
    let in_tile_order = Tuple::new(vec![Value::Integer(5), Value::SmallInt(-4), Value::TinyInt(3)]);
    assert_eq!(g.insert_tuple(&in_tile_order), Err(StorageError::TypeMismatch));
}

#[test]
fn refused_tuple_takes_no_slot() {
    let mut g = three_column_group(2);
    let wrong_type = Tuple::new(vec![
        Value::Integer(1),
        Value::Integer(2),
        Value::Varchar(Vec::new()),
    ]);
    assert_eq!(g.insert_tuple(&wrong_type), Err(StorageError::TypeMismatch));
    let too_short = Tuple::new(vec![Value::Integer(1), Value::BigInt(2)]);
    assert_eq!(g.insert_tuple(&too_short), Err(StorageError::TypeMismatch));
    assert_eq!(g.get_allocated_tuple_count(), 0);
    assert_eq!(g.insert_tuple(&row(1, 2, b"")), Ok(0));
    assert_eq!(g.insert_tuple(&row(3, 4, b"")), Ok(1));
    assert_eq!(g.insert_tuple(&wrong_type), Err(StorageError::TypeMismatch));
    assert_eq!(g.insert_tuple(&row(5, 6, b"")), Err(StorageError::SlotExhausted));
}

#[test]
fn group_refuses_a_column_map_that_does_not_fit() {
    let schemas = || {
        vec![
            Schema::new(vec![
                Column::new_static(ValueType::Integer),
                Column::new_static(ValueType::Integer),
            ])
            .unwrap(),
            Schema::new(vec![Column::new_static(ValueType::TinyInt)]).unwrap(),
        ]
    };
    let map_of = |entries: &[(usize, (usize, usize))]| {
        let mut m: HashMap<usize, (usize, usize)> = HashMap::new();
        for (k, v) in entries {
            m.insert(*k, *v);
        }
        m
    };
    let good = map_of(&[(0, (0, 0)), (1, (0, 1)), (2, (1, 0))]);
    assert!(TileGroup::new(1, schemas(), good, 4).is_ok());
    let missing = map_of(&[(0, (0, 0)), (2, (1, 0))]);
    assert!(matches!(
        TileGroup::new(1, schemas(), missing, 4),
        Err(StorageError::InvalidLayout)
    ));
    let twice = map_of(&[(0, (0, 0)), (1, (0, 0)), (2, (1, 0))]);
    assert!(matches!(
        TileGroup::new(1, schemas(), twice, 4),
        Err(StorageError::InvalidLayout)
    ));
    let no_such_tile = map_of(&[(0, (0, 0)), (1, (0, 1)), (2, (2, 0))]);
    assert!(matches!(
        TileGroup::new(1, schemas(), no_such_tile, 4),
        Err(StorageError::InvalidLayout)
    ));
    let no_such_column = map_of(&[(0, (0, 0)), (1, (0, 1)), (2, (1, 1))]);
    assert!(matches!(
        TileGroup::new(1, schemas(), no_such_column, 4),
        Err(StorageError::InvalidLayout)
    ));
    let good_again = map_of(&[(0, (0, 0)), (1, (0, 1)), (2, (1, 0))]);
    assert!(matches!(
        TileGroup::new(1, schemas(), good_again, 0xFFFF_FFFF),
        Err(StorageError::InvalidLayout)
    ));
}

#[test]
fn versions_are_stamped_through_the_group() {
    let mut g = three_column_group(2);
    let slot = g.insert_tuple(&row(1, 2, b"v1")).unwrap();
    assert_eq!(g.get_header().get_owning_tx(slot), INVALID_TXN_ID);
    assert!(g.get_header_mut().install_version(slot, 4, 50));
    assert!(!g.get_header_mut().install_owning_tx(slot, 5));
    g.get_header_mut().set_end_ts(slot, 60);
    assert_eq!(g.get_header().get_owning_tx(slot), 4);
    assert_eq!(g.get_header().get_tuple_begin_ts(slot), 50);
    assert_eq!(g.get_header().get_tuple_end_ts(slot), 60);
    assert!(g.get_header().is_visible(slot, 55, 9, true));
    assert_eq!(g.read_column(slot, 2).unwrap(), Value::Varchar(b"v1".to_vec()));
    assert_eq!(g.insert_tuple(&row(3, 4, b"v2")), Ok(1));
}

#[test]
fn logical_tile_reads_through_its_position_lists() {
    let mut g = three_column_group(4);
    assert_eq!(g.insert_tuple(&row(10, 100, b"zero")), Ok(0));
    assert_eq!(g.insert_tuple(&row(11, 101, b"one")), Ok(1));
    assert_eq!(g.insert_tuple(&row(12, 102, b"two")), Ok(2));
    let mut lt = LogicalTile::new();
    assert_eq!(lt.column_count(), 0);
    assert_eq!(lt.row_count(), 0);
    assert!(lt.add_column(2, vec![2, 0]));
    assert!(lt.add_column(0, vec![1, 2]));
    assert!(!lt.add_column(1, vec![0]));
    assert!(!lt.add_column(1, vec![0, 1, 2]));
    assert_eq!(lt.column_count(), 2);
    assert_eq!(lt.row_count(), 2);
    assert_eq!(lt.get_value(&g, 0, 0).unwrap(), Value::Varchar(b"two".to_vec()));
    assert_eq!(lt.get_value(&g, 1, 0).unwrap(), Value::Varchar(b"zero".to_vec()));
    assert_eq!(lt.get_value(&g, 0, 1).unwrap(), Value::Integer(11));
    assert_eq!(lt.get_value(&g, 1, 1).unwrap(), Value::Integer(12));
    assert!(matches!(lt.get_value(&g, 0, 2), Err(StorageError::NoSuchColumn)));
    assert!(matches!(lt.get_value(&g, 2, 0), Err(StorageError::NoSuchSlot)));
}

#[test]
fn logical_tile_reports_positions_outside_the_group() {
    let g = three_column_group(2);
    let mut lt = LogicalTile::new();
    assert!(lt.add_column(0, vec![5]));
    assert!(lt.add_column(8, vec![0]));
    assert!(matches!(lt.get_value(&g, 0, 0), Err(StorageError::NoSuchSlot)));
    assert!(matches!(lt.get_value(&g, 0, 1), Err(StorageError::NoSuchColumn)));
}

#[test]
fn logical_tile_yields_its_row_ids_in_order() {
    let mut lt = LogicalTile::new();
    assert!(lt.add_column(0, vec![9, 8, 7]));
    let mut it = lt.into_iter();
    assert_eq!(it.next(), Some(0));
    assert_eq!(it.next(), Some(1));
    assert_eq!(it.next(), Some(2));
    assert_eq!(it.next(), None);
    assert_eq!(it.next(), None);
    let mut none = LogicalTile::new().into_iter();
    assert_eq!(none.next(), None);
}

#[test]
fn tuple_hands_out_its_values() {
    let t = row(1, 2, b"x");
    assert_eq!(t.len(), 3);
    assert_eq!(*t.get_value(0), Value::Integer(1));
    assert_eq!(*t.get_value(2), Value::Varchar(b"x".to_vec()));
}
