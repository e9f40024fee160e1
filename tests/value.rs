use kvserver::value::Value;

#[test]
fn value_encodings() {
    assert_eq!(Value::Integer(7).to_bytes_vec(), b":7\r\n".to_vec());
    assert_eq!(Value::BulkString(b"hey".to_vec()).to_bytes_vec(), b"$3\r\nhey\r\n".to_vec());
    assert_eq!(Value::OkStatus.to_bytes_vec(), b"+OK\r\n".to_vec());
    assert_eq!(Value::NullArray.to_bytes_vec(), b"*-1\r\n".to_vec());
    let arr = Value::Array(vec![Value::SimpleString(b"a".to_vec()), Value::Error(b"E".to_vec())]);
    assert_eq!(arr.to_bytes_vec(), b"*2\r\n+a\r\n-E\r\n".to_vec());
}

#[test]
fn value_conversions() {
    assert_eq!(Value::BulkString(b"x".to_vec()).into_bulkstr(), Some(b"x".to_vec()));
    assert_eq!(Value::SimpleString(b"x".to_vec()).into_bulkstr(), None);
    assert_eq!(Value::Integer(5).to_usize(), Some(5));
    assert_eq!(Value::Integer(-5).to_usize(), None);
    assert_eq!(Value::BulkString(b"12".to_vec()).to_usize(), Some(12));
    assert_eq!(Value::BulkString(b"-1".to_vec()).to_usize(), None);
    assert_eq!(Value::SimpleString(b"-12".to_vec()).to_i64(), Some(-12));
    assert_eq!(Value::BulkString(b"9223372036854775808".to_vec()).to_i64(), None);
    assert_eq!(Value::NullBulkString.to_i64(), None);
}

#[test]
fn value_into_string() {
    assert_eq!(Value::BulkString(b"caf\xc3\xa9".to_vec()).into_string(), Some("caf\u{e9}".to_string()));
    assert_eq!(Value::BulkString(vec![0xff, 0xfe]).into_string(), None);
    assert_eq!(Value::Integer(1).into_string(), None);
}
