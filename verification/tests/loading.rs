use rmi_lib::data::{KeyType, RMITrainingData};
use rmi_lib::load::{
    contains_text, data_type_of, decode_le, load_data, ordered_bits_exec, read_limbs,
    record_width, shift_for_exec, shift_for_u128_exec, wide_input_exec, window_exec, DataType,
    LoadError, RMIMMap, Records, SliceAdapterF64, SliceAdapterU128, SliceAdapterU32,
    SliceAdapterU512, SliceAdapterU64,
};
use rmi_lib::U512;

fn file(count: u64, records: &[u8]) -> Vec<u8> {
    let mut bytes = count.to_le_bytes().to_vec();
    bytes.extend_from_slice(records);
    bytes
}

#[test]
fn bytes_are_read_least_significant_first() {
    assert_eq!(decode_le(&[0x01, 0x02], 0, 2), 0x0201);
    assert_eq!(decode_le(&[0xff, 0x01, 0x02, 0x03], 1, 4), 0x030201);
    assert_eq!(decode_le(&[9, 9], 1, 1), 0);
    assert_eq!(decode_le(&[0x80; 16], 0, 16), 0x8080_8080_8080_8080_8080_8080_8080_8080);
}

#[test]
fn each_kind_has_its_width() {
    assert_eq!(record_width(DataType::UINT32), 4);
    assert_eq!(record_width(DataType::UINT64), 8);
    assert_eq!(record_width(DataType::UINT128), 16);
    assert_eq!(record_width(DataType::UINT512), 64);
    assert_eq!(record_width(DataType::FLOAT64), 8);
}

#[test]
fn the_adapters_read_their_records() {
    let mut body = Vec::new();
    for key in [1u32, 0x0403_0201, u32::MAX] {
        body.extend_from_slice(&key.to_le_bytes());
    }
    let bytes = file(3, &body);
    let a32 = SliceAdapterU32::new(Records::new(&bytes, DataType::UINT32).unwrap());
    assert_eq!(a32.len(), 3);
    assert_eq!(a32.key_type(), KeyType::U32);
    assert_eq!(a32.get(0), Some((1, 0)));
    assert_eq!(a32.get(1), Some((0x0403_0201, 1)));
    assert_eq!(a32.get(2), Some((u32::MAX, 2)));
    assert_eq!(a32.get(3), None);

    let mut body = Vec::new();
    for key in [7u64, 0x0807_0605_0403_0201, u64::MAX] {
        body.extend_from_slice(&key.to_le_bytes());
    }
    let bytes = file(3, &body);
    let a64 = SliceAdapterU64::new(Records::new(&bytes, DataType::UINT64).unwrap());
    assert_eq!(a64.key_type(), KeyType::U64);
    assert_eq!(a64.get(1), Some((0x0807_0605_0403_0201, 1)));
    assert_eq!(a64.get(2), Some((u64::MAX, 2)));
    assert_eq!(a64.get(3), None);

    let af = SliceAdapterF64::new(Records::new(&bytes, DataType::FLOAT64).unwrap());
    assert_eq!(af.key_type(), KeyType::F64);
    assert_eq!(af.get(1), Some((0x0807_0605_0403_0201, 1)));

    let wide = 0x1122_3344_5566_7788_99aa_bbcc_ddee_ff00u128;
    let bytes = file(1, &wide.to_le_bytes());
    let a128 = SliceAdapterU128::new(Records::new(&bytes, DataType::UINT128).unwrap());
    assert_eq!(a128.key_type(), KeyType::U128);
    assert_eq!(a128.get(0), Some((wide, 0)));
    assert_eq!(a128.get(1), None);

    let mut body = Vec::new();
    for limb in 1..=8u64 {
        body.extend_from_slice(&(limb << 8).to_le_bytes());
    }
    let bytes = file(1, &body);
    let a512 = SliceAdapterU512::new(Records::new(&bytes, DataType::UINT512).unwrap());
    assert_eq!(a512.key_type(), KeyType::U512);
    let (key, at) = a512.get(0).unwrap();
    assert_eq!(at, 0);
    assert_eq!(key.0, [0x100, 0x200, 0x300, 0x400, 0x500, 0x600, 0x700, 0x800]);
    assert_eq!(read_limbs(&body[..16]), vec![0x100, 0x200]);
}

#[test]
fn a_short_file_is_refused() {
    assert_eq!(load_data(&[], DataType::UINT64).err(), Some(LoadError::Truncated));
    assert_eq!(load_data(&[0; 7], DataType::UINT64).err(), Some(LoadError::Truncated));
    assert_eq!(load_data(&file(2, &[0; 15]), DataType::UINT64).err(), Some(LoadError::Truncated));
    assert_eq!(load_data(&file(u64::MAX, &[0; 16]), DataType::UINT32).err(), Some(LoadError::Truncated));
    assert!(Records::new(&file(2, &[0; 15]), DataType::UINT64).is_err());
    assert!(load_data(&file(2, &[0; 16]), DataType::UINT64).is_ok());
    assert!(load_data(&file(0, &[]), DataType::UINT512).is_ok());
}

fn keys_of(map: &RMIMMap) -> Vec<(u64, usize)> {
    let data = map.training_data();
    (0..data.len()).map(|i| data.get(i).unwrap()).collect()
}

#[test]
fn keys_of_up_to_64_bits_are_their_own_inputs() {
    let mut body = Vec::new();
    for key in [3u64, 5, 1 << 40] {
        body.extend_from_slice(&key.to_le_bytes());
    }
    // a byte behind the last record is not read
    body.push(0xee);
    let bytes = file(3, &body);
    let (n, map) = load_data(&bytes, DataType::UINT64).unwrap();
    assert_eq!(n, 3);
    assert!(matches!(map, RMIMMap::UINT64(_)));
    assert_eq!(map.training_data().key_type(), KeyType::U64);
    assert_eq!(map.len(), 3);
    assert_eq!(map.shift(), 0);
    assert_eq!(keys_of(&map), vec![(3, 0), (5, 1), (1 << 40, 2)]);

    let mut body = Vec::new();
    for key in [3u32, 5, 1 << 30] {
        body.extend_from_slice(&key.to_le_bytes());
    }
    let bytes = file(3, &body);
    let (n, map) = load_data(&bytes, DataType::UINT32).unwrap();
    assert_eq!(n, 3);
    assert!(matches!(map, RMIMMap::UINT32(_)));
    assert_eq!(keys_of(&map), vec![(3, 0), (5, 1), (1 << 30, 2)]);
}

#[test]
fn wider_keys_keep_their_leading_64_bits() {
    // the largest key has 72 bits, so 8 low bits are left out
    let keys = [0x01ffu128, 0x10_0000_0000_0000_0080, 0xff_0000_0000_0000_0000];
    let mut body = Vec::new();
    for key in keys {
        body.extend_from_slice(&key.to_le_bytes());
    }
    let bytes = file(3, &body);
    let (_, map) = load_data(&bytes, DataType::UINT128).unwrap();
    assert!(matches!(map, RMIMMap::UINT128(_)));
    assert_eq!(
        keys_of(&map),
        vec![(0x01, 0), (0x1000_0000_0000_0000, 1), (0xff00_0000_0000_0000, 2)]
    );

    // keys that fit in 64 bits are kept whole
    let mut body = Vec::new();
    for key in [1u128, u64::MAX as u128] {
        body.extend_from_slice(&key.to_le_bytes());
    }
    let bytes = file(2, &body);
    let (_, map) = load_data(&bytes, DataType::UINT128).unwrap();
    assert_eq!(keys_of(&map), vec![(1, 0), (u64::MAX, 1)]);

    // 512 bits: the largest key has its top bit in limb 3, bit 3
    let mut small = [0u8; 64];
    small[0] = 0xff;
    let mut large = [0u8; 64];
    large[24] = 0x0f;
    large[23] = 0x80;
    let mut body = small.to_vec();
    body.extend_from_slice(&large);
    let bytes = file(2, &body);
    let (_, map) = load_data(&bytes, DataType::UINT512).unwrap();
    assert!(matches!(map, RMIMMap::UINT512(_)));
    assert_eq!(keys_of(&map), vec![(0, 0), (0xf800_0000_0000_0000, 1)]);
}

#[test]
fn floating_point_keys_keep_their_order() {
    let floats = [-1.0e300f64, -2.5, -0.0, 0.0, 1.0e-300, 3.25, f64::MAX];
    let mut body = Vec::new();
    for key in floats {
        body.extend_from_slice(&key.to_le_bytes());
    }
    let bytes = file(7, &body);
    let (n, map) = load_data(&bytes, DataType::FLOAT64).unwrap();
    assert_eq!(n, 7);
    assert!(matches!(map, RMIMMap::FLOAT64(_)));
    let inputs = keys_of(&map);
    for pair in inputs.windows(2) {
        assert!(pair[0].0 < pair[1].0);
    }
    assert_eq!(inputs[3].0, 0x8000_0000_0000_0000);
    assert_eq!(inputs[2].0, 0x7fff_ffff_ffff_ffff);
}

#[test]
fn only_64_bit_integer_data_comes_out_as_such() {
    let bytes = file(1, &[1, 0, 0, 0, 0, 0, 0, 0]);
    let (_, map) = load_data(&bytes, DataType::UINT64).unwrap();
    let copy = map.soft_copy();
    assert!(matches!(copy, RMIMMap::UINT64(_)));
    assert_eq!(keys_of(&copy), keys_of(&map));
    assert_eq!(map.into_u64().map(|d| d.len()), Some(1));
    let bytes = file(1, &[1, 0, 0, 0]);
    let (_, map) = load_data(&bytes, DataType::UINT32).unwrap();
    assert!(map.soft_copy().into_u64().is_none());
    let bytes = file(1, &[1, 0, 0, 0, 0, 0, 0, 0]);
    let (_, map) = load_data(&bytes, DataType::FLOAT64).unwrap();
    assert!(map.into_u64().is_none());
}

#[test]
fn the_name_of_a_file_tells_its_kind() {
    assert_eq!(data_type_of("data/books_200M_uint64"), Some(DataType::UINT64));
    assert_eq!(data_type_of("osm_uint32.bin"), Some(DataType::UINT32));
    assert_eq!(data_type_of("uint128"), Some(DataType::UINT128));
    assert_eq!(data_type_of("x_uint512_y"), Some(DataType::UINT512));
    assert_eq!(data_type_of("normal_f64"), Some(DataType::FLOAT64));
    // the first mark in the order of the kinds wins
    assert_eq!(data_type_of("uint32_uint64"), Some(DataType::UINT64));
    assert_eq!(data_type_of("f64_uint512"), Some(DataType::UINT512));
    assert_eq!(data_type_of("uint6"), None);
    assert_eq!(data_type_of(""), None);
    assert!(contains_text("abc", ""));
    assert!(contains_text("abc", "bc"));
    assert!(!contains_text("abc", "abcd"));
    assert!(!contains_text("ababab", "abb"));
}

#[test]
fn views_of_the_data_share_its_pairs() {
    let data = RMITrainingData::new(vec![10, 20, 30, 40, 50]);
    assert_eq!(data.len(), 5);
    assert_eq!(data.get(0), Some((10, 0)));
    assert_eq!(data.get(4), Some((50, 4)));
    assert_eq!(data.get(5), None);
    assert_eq!(data.first_index(), 0);
    let copy = data.soft_copy();
    assert_eq!(copy.to_keys(), data.to_keys());
    assert_eq!(copy.key_type(), KeyType::U64);
    let part = data.restrict(1, 4).unwrap();
    assert_eq!(part.len(), 3);
    assert_eq!(part.get(0), Some((20, 1)));
    assert_eq!(part.get(2), Some((40, 3)));
    assert_eq!(part.get(3), None);
    assert_eq!(part.first_index(), 1);
    assert_eq!(part.to_keys(), vec![20, 30, 40]);
    let inner = part.restrict(1, 2).unwrap();
    assert_eq!(inner.get(0), Some((30, 2)));
    assert!(data.restrict(3, 2).is_none());
    assert!(data.restrict(0, 6).is_none());
    assert_eq!(data.restrict(5, 5).unwrap().len(), 0);
    assert_eq!(RMITrainingData::empty().len(), 0);
    let floats = RMITrainingData::with_key_type(vec![1], KeyType::F64);
    assert_eq!(floats.key_type(), KeyType::F64);
}

#[test]
fn a_wide_key_is_yielded_as_the_file_writes_it() {
    // the keys 3 and 2^64: the file yields them whole, the models take them
    // without their lowest bit
    let mut body = Vec::new();
    for key in [3u128, 1 << 64] {
        body.extend_from_slice(&key.to_le_bytes());
    }
    let bytes = file(2, &body);
    let (n, map) = load_data(&bytes, DataType::UINT128).unwrap();
    assert_eq!(n, 2);
    match map {
        RMIMMap::UINT128(keys) => {
            assert_eq!(keys.len(), 2);
            assert_eq!(keys.get(0), Some((3, 0)));
            assert_eq!(keys.get(1), Some((1 << 64, 1)));
            assert_eq!(keys.get(2), None);
        }
        _ => panic!("not a file of 128-bit keys"),
    }
    assert_eq!(map.shift(), 1);
    assert_eq!(keys_of(&map), vec![(1, 0), (1 << 63, 1)]);
    // a key that is looked up is brought to its input in the same way
    assert_eq!(wide_input_exec(3, map.shift()), 1);
    assert_eq!(wide_input_exec(1 << 64, map.shift()), 1 << 63);

    let mut small = [0u8; 64];
    small[0] = 0xff;
    let mut large = [0u8; 64];
    large[24] = 0x0f;
    large[23] = 0x80;
    let mut body = small.to_vec();
    body.extend_from_slice(&large);
    let bytes = file(2, &body);
    let (_, map) = load_data(&bytes, DataType::UINT512).unwrap();
    let shift = map.shift();
    assert_eq!(shift, 132);
    match map {
        RMIMMap::UINT512(keys) => {
            let (first, _) = keys.get(0).unwrap();
            let (last, at) = keys.get(1).unwrap();
            assert_eq!(first.0, [0xff, 0, 0, 0, 0, 0, 0, 0]);
            assert_eq!(last.0, [0, 0, 0x8000_0000_0000_0000, 0x0f, 0, 0, 0, 0]);
            assert_eq!(at, 1);
            assert_eq!(last.shift(), shift);
            assert_eq!(first.model_input(shift), 0);
            assert_eq!(last.model_input(shift), 0xf800_0000_0000_0000);
        }
        _ => panic!("not a file of 512-bit keys"),
    }
}

#[test]
fn keys_are_brought_to_64_bits() {
    assert_eq!(shift_for_u128_exec(0), 0);
    assert_eq!(shift_for_u128_exec(u64::MAX as u128), 0);
    assert_eq!(shift_for_u128_exec(1 << 64), 1);
    assert_eq!(shift_for_u128_exec(u128::MAX), 64);
    assert_eq!(wide_input_exec(u128::MAX, 64), u64::MAX);
    assert_eq!(wide_input_exec(0x0123_4567_89ab_cdef_0011_2233_4455_6677, 0), 0x0011_2233_4455_6677);
    assert_eq!(wide_input_exec(0x0123_4567_89ab_cdef_0011_2233_4455_6677, 64), 0x0123_4567_89ab_cdef);
    assert_eq!(wide_input_exec(0x0123_4567_89ab_cdef_0011_2233_4455_6677, 60), 0x1234_5678_9abc_def0);
    assert_eq!(shift_for_exec(&[0, 0]), 0);
    assert_eq!(shift_for_exec(&[u64::MAX]), 0);
    assert_eq!(shift_for_exec(&[5, 1]), 1);
    assert_eq!(shift_for_exec(&[0, 0, 0, 0, 0, 0, 0, u64::MAX]), 448);
    assert_eq!(window_exec(&[0xaaaa, 0xbbbb], 0), 0xaaaa);
    assert_eq!(window_exec(&[0xaaaa, 0xbbbb], 64), 0xbbbb);
    assert_eq!(window_exec(&[0xaaaa, 0xbbbb], 128), 0);
    assert_eq!(window_exec(&[0xf000_0000_0000_0000, 0xb], 60), 0xbf);
    assert_eq!(window_exec(&[0xf000_0000_0000_0000, 0xb], 124), 0);
    let key = U512([1, 2, 3, 4, 5, 6, 7, 8]);
    assert_eq!(key.shift(), 448 + 4 - 64);
    assert_eq!(key.model_input(64), 2);
    assert_eq!(ordered_bits_exec(0), 0x8000_0000_0000_0000);
    assert_eq!(ordered_bits_exec(0x8000_0000_0000_0000), 0x7fff_ffff_ffff_ffff);
    assert_eq!(ordered_bits_exec(u64::MAX), 0);
}

#[test]
fn a_view_scales_its_positions() {
    let data = RMITrainingData::new(vec![10, 20, 30, 40, 50, 60, 70, 80]);
    // eight pairs onto four positions
    let halved = data.with_scale(1, 2).unwrap();
    assert_eq!(halved.len(), 8);
    let pairs: Vec<(u64, usize)> = (0..8).map(|i| halved.get(i).unwrap()).collect();
    assert_eq!(
        pairs,
        vec![(10, 0), (20, 0), (30, 1), (40, 1), (50, 2), (60, 2), (70, 3), (80, 3)]
    );
    assert_eq!(halved.to_keys(), data.to_keys());
    // the scale goes with the copies and the parts of a view
    assert_eq!(halved.soft_copy().get(7), Some((80, 3)));
    let part = halved.restrict(4, 8).unwrap();
    assert_eq!(part.get(0), Some((50, 2)));
    assert_eq!(part.get(3), Some((80, 3)));
    // a new scale takes the place of the old one
    let tripled = halved.with_scale(3, 1).unwrap();
    assert_eq!(tripled.get(2), Some((30, 6)));
    assert_eq!(data.with_scale(7, 3).unwrap().get(5), Some((60, 11)));
    assert_eq!(data.with_scale(0, 1).unwrap().get(5), Some((60, 0)));
    assert_eq!(data.with_scale(u64::MAX, 1).unwrap().get(0), Some((10, 0)));
    assert!(data.with_scale(1, 0).is_none());
    // the data itself is left as it was
    assert_eq!(data.get(5), Some((60, 5)));
}
