use screen_name_db::codec::{
    day_ids_to_value, id_to_key_prefix, ids_to_value, is_valid_screen_name, key_prefix_to_id, key_to_pair,
    key_to_screen_name, pair_to_key, screen_name_to_key, value_to_day_ids, value_to_ids,
};
use screen_name_db::dates::value_to_dates;
use screen_name_db::error::Error;
use screen_name_db::merge::{merge_for_pair, merge_for_screen_name};

#[test]
fn keys_are_big_endian() {
    assert_eq!(id_to_key_prefix(0x0102030405060708), vec![1, 2, 3, 4, 5, 6, 7, 8]);
    assert_eq!(pair_to_key(258, "Ab"), vec![0, 0, 0, 0, 0, 0, 1, 2, b'A', b'b']);
    assert_eq!(key_prefix_to_id(&[0, 0, 0, 0, 0, 0, 1, 2, 9]), Ok(258));
    assert_eq!(key_prefix_to_id(&[1, 2]), Err(Error::InvalidKey(vec![1, 2])));
    assert_eq!(key_to_pair(&pair_to_key(u64::MAX, "zz_9")), Ok((u64::MAX, "zz_9".to_string())));
    assert_eq!(
        key_to_pair(&[0, 0, 0, 0, 0, 0, 0, 1, 0xff]),
        Err(Error::InvalidString(vec![0xff]))
    );
}

#[test]
fn screen_name_keys_are_lower_case() {
    assert_eq!(screen_name_to_key("FoO_1"), b"foo_1".to_vec());
    assert_eq!(key_to_screen_name(b"abc"), Ok("abc".to_string()));
    assert_eq!(key_to_screen_name(&[0xc3]), Err(Error::InvalidString(vec![0xc3])));
}

#[test]
fn values_decode_by_width() {
    assert_eq!(value_to_day_ids(&[0, 1, 1, 0]), Ok(vec![1, 256]));
    assert_eq!(value_to_day_ids(&[0, 1, 1]), Err(Error::InvalidValue(vec![0, 1, 1])));
    assert_eq!(day_ids_to_value(&[1, 256]), vec![0, 1, 1, 0]);
    assert_eq!(value_to_ids(&ids_to_value(&[5, u64::MAX])), Ok(vec![5, u64::MAX]));
    assert_eq!(value_to_ids(&[0; 9]), Err(Error::InvalidValue(vec![0; 9])));
    assert_eq!(value_to_dates(&[0, 1]).unwrap().len(), 1);
}

#[test]
fn merges_append_only_new_elements() {
    let mut a = vec![0, 5, 0, 1];
    merge_for_pair(&mut a, &[0, 1, 0, 7, 0, 7]);
    assert_eq!(a, vec![0, 5, 0, 1, 0, 7]);
    let mut odd = vec![0, 5];
    merge_for_pair(&mut odd, &[0]);
    assert_eq!(odd, vec![0, 5]);
    let mut ids = ids_to_value(&[3]);
    merge_for_screen_name(&mut ids, &ids_to_value(&[4, 3, 4]));
    assert_eq!(value_to_ids(&ids), Ok(vec![3, 4]));
}

#[test]
fn screen_name_validity() {
    assert!(is_valid_screen_name("Abc_09"));
    assert!(is_valid_screen_name(""));
    assert!(!is_valid_screen_name("a-b"));
    assert!(!is_valid_screen_name("ü"));
}
