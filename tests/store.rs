use kvserver::reply::OutputValue;
use kvserver::store::KeyMap;

fn bulk(v: &OutputValue) -> Option<Vec<u8>> {
    match v {
        OutputValue::BulkString(b) => Some(b.clone()),
        _ => None,
    }
}

fn error(v: &OutputValue) -> Option<Vec<u8>> {
    match v {
        OutputValue::Error(b) => Some(b.clone()),
        _ => None,
    }
}

fn integer(v: &OutputValue) -> Option<i64> {
    match v {
        OutputValue::Integer(i) => Some(*i),
        _ => None,
    }
}

#[test]
fn test_set() {
    let mut map = KeyMap::default();
    map.set(b"foo".as_slice(), b"bar".to_vec());
    assert_eq!(bulk(&map.get(b"foo".as_slice())), Some(b"bar".to_vec()));
}

#[test]
fn test_set_overwrite() {
    let mut map = KeyMap::default();
    map.set(b"foo".as_slice(), b"bar".to_vec());
    map.set(b"fizz".as_slice(), b"bazz".to_vec());
    assert_eq!(bulk(&map.get(b"foo".as_slice())), Some(b"bar".to_vec()));
    assert_eq!(bulk(&map.get(b"fizz".as_slice())), Some(b"bazz".to_vec()));

    map.set(b"foo".as_slice(), b"fuga".to_vec());
    assert_eq!(bulk(&map.get(b"foo".as_slice())), Some(b"fuga".to_vec()));
    assert_eq!(bulk(&map.get(b"fizz".as_slice())), Some(b"bazz".to_vec()));
}

#[test]
fn get_absent_is_null() {
    let map = KeyMap::new();
    assert!(matches!(map.get(b"nope"), OutputValue::NullBulkString));
}

#[test]
fn delete_twice_answers_zero() {
    let mut map = KeyMap::new();
    map.set(b"k", b"v".to_vec());
    assert_eq!(integer(&map.del(&vec![b"k".to_vec()])), Some(1));
    assert_eq!(integer(&map.del(&vec![b"k".to_vec()])), Some(0));
    assert_eq!(map.len(), 0);
}

#[test]
fn exists_counts_repeats() {
    let mut map = KeyMap::new();
    map.set(b"k", b"v".to_vec());
    assert_eq!(integer(&map.count_existing(&vec![b"k".to_vec()])), Some(1));
    assert_eq!(integer(&map.count_existing(&vec![b"k".to_vec(), b"k".to_vec()])), Some(2));
    assert_eq!(integer(&map.count_existing(&vec![b"x".to_vec()])), Some(0));
}

#[test]
fn strlen_and_append() {
    let mut map = KeyMap::new();
    assert_eq!(integer(&map.strlen(b"k")), Some(0));
    assert_eq!(integer(&map.append(b"k", b"ab".to_vec())), Some(2));
    assert_eq!(integer(&map.append(b"k", b"cde".to_vec())), Some(5));
    assert_eq!(bulk(&map.get(b"k")), Some(b"abcde".to_vec()));
    assert_eq!(integer(&map.strlen(b"k")), Some(5));
}

#[test]
fn incr_then_decr_restores() {
    let mut map = KeyMap::new();
    map.set(b"n", b"41".to_vec());
    assert_eq!(integer(&map.incr(b"n")), Some(42));
    assert_eq!(integer(&map.decr(b"n")), Some(41));
    assert_eq!(bulk(&map.get(b"n")), Some(b"41".to_vec()));
}

#[test]
fn counters_create_parse_and_overflow() {
    let mut map = KeyMap::new();
    assert_eq!(integer(&map.incr_by(b"c", 10)), Some(10));
    assert_eq!(integer(&map.decr_by(b"c", 25)), Some(-15));
    assert_eq!(bulk(&map.get(b"c")), Some(b"-15".to_vec()));
    map.set(b"big", b"9223372036854775807".to_vec());
    assert_eq!(error(&map.incr(b"big")), Some(b"ERR integer overflow".to_vec()));
    assert_eq!(bulk(&map.get(b"big")), Some(b"9223372036854775807".to_vec()));
    map.set(b"word", b"abc".to_vec());
    assert_eq!(error(&map.incr(b"word")), Some(b"ERR value is not an integer".to_vec()));
    map.set(b"plus", b"+7".to_vec());
    assert_eq!(integer(&map.incr(b"plus")), Some(8));
    assert_eq!(integer(&map.decr_by(b"fresh", i64::MIN)).is_none(), true);
    assert_eq!(bulk(&map.get(b"fresh")), Some(b"0".to_vec()));
}

#[test]
fn mset_msetnx_mget() {
    let mut map = KeyMap::new();
    let kv = vec![b"a".to_vec(), b"1".to_vec(), b"b".to_vec(), b"2".to_vec()];
    assert!(matches!(map.mset(&kv), OutputValue::OkStatus));
    let got = map.mget(&vec![b"a".to_vec(), b"zz".to_vec(), b"b".to_vec()]);
    match got {
        OutputValue::Array(items) => {
            assert_eq!(items.len(), 3);
            assert_eq!(bulk(&items[0]), Some(b"1".to_vec()));
            assert!(matches!(items[1], OutputValue::NullBulkString));
            assert_eq!(bulk(&items[2]), Some(b"2".to_vec()));
        }
        _ => panic!("expected an array"),
    }
    let clash = vec![b"a".to_vec(), b"9".to_vec(), b"c".to_vec(), b"3".to_vec()];
    assert_eq!(integer(&map.msetnx(&clash)), Some(0));
    assert!(matches!(map.get(b"c"), OutputValue::NullBulkString));
    let fresh = vec![b"c".to_vec(), b"3".to_vec(), b"d".to_vec(), b"4".to_vec()];
    assert_eq!(integer(&map.msetnx(&fresh)), Some(1));
    assert_eq!(bulk(&map.get(b"d")), Some(b"4".to_vec()));
}

#[test]
fn keys_by_pattern_and_flush() {
    let mut map = KeyMap::new();
    map.set(b"a", b"1".to_vec());
    map.set(b"ab", b"2".to_vec());
    map.set(b"b", b"3".to_vec());
    let mut found: Vec<Vec<u8>> = match map.keys(b"a*") {
        OutputValue::Array(items) => items.iter().map(|i| bulk(i).unwrap()).collect(),
        _ => panic!("expected an array"),
    };
    found.sort();
    assert_eq!(found, vec![b"a".to_vec(), b"ab".to_vec()]);
    let all = match map.keys(b"*") {
        OutputValue::Array(items) => items.len(),
        _ => 0,
    };
    assert_eq!(all, 3);
    assert!(matches!(map.flushdb(), OutputValue::OkStatus));
    assert_eq!(map.len(), 0);
}
