//! Reply values as a client reads them, with conversions to plain values.
use vstd::prelude::*;
use crate::reply::crlf;
use crate::text::{i64_text, int_text, nat_text, parse_i64, parse_i64_bytes, parse_index, parse_index_bytes, u64_text};

verus! {

broadcast use vstd::std_specs::vec::group_vec_axioms, vstd::seq::group_seq_axioms, vstd::slice::group_slice_axioms;

/// A RESP2 value.
#[derive(Debug)]
pub enum Value {
    SimpleString(Vec<u8>),
    Error(Vec<u8>),
    Integer(i64),
    BulkString(Vec<u8>),
    Array(Vec<Value>),
    NullBulkString,
    NullArray,
    OkStatus,
}

/// The RESP2 encoding of a value.
pub open spec fn value_bytes(v: Value) -> Seq<u8>
    decreases v,
{
    match v {
        Value::SimpleString(s) => seq![43u8] + s@ + crlf(),
        Value::Error(s) => seq![45u8] + s@ + crlf(),
        Value::Integer(i) => seq![58u8] + int_text(i as int) + crlf(),
        Value::BulkString(s) => seq![36u8] + nat_text(s@.len()) + crlf() + s@ + crlf(),
        Value::Array(items) => seq![42u8] + nat_text(items@.len()) + crlf() + values_bytes(items@),
        Value::NullBulkString => seq![36u8, 45u8, 49u8, 13u8, 10u8],
        Value::NullArray => seq![42u8, 45u8, 49u8, 13u8, 10u8],
        Value::OkStatus => seq![43u8, 79u8, 75u8, 13u8, 10u8],
    }
}

/// The encodings of values, one after another.
pub open spec fn values_bytes(items: Seq<Value>) -> Seq<u8>
    decreases items,
{
    if items.len() == 0 {
        Seq::empty()
    } else {
        values_bytes(items.drop_last()) + value_bytes(items.last())
    }
}

/// Relies on std::str::from_utf8: decodes UTF-8, failing exactly on invalid
/// input.
#[verifier::external_body]
fn decode_utf8(b: &[u8]) -> (r: Option<String>)
    ensures
        r is Some <==> vstd::utf8::valid_utf8(b@),
        r matches Some(s) ==> s@ == vstd::utf8::decode_utf8(b@),
{
    match std::str::from_utf8(b) {
        Ok(s) => Some(s.to_string()),
        Err(_) => None,
    }
}

fn push_all(out: &mut Vec<u8>, s: &[u8])
    ensures
        final(out)@ == old(out)@ + s@,
{
    let mut k: usize = 0;
    while k < s.len()
        invariant
            k <= s@.len(),
            out@ == old(out)@ + s@.subrange(0, k as int),
        decreases s@.len() - k,
    {
        out.push(s[k]);
        k += 1;
        assert(out@ =~= old(out)@ + s@.subrange(0, k as int));
    }
    assert(s@.subrange(0, k as int) =~= s@);
}

impl Value {
    /// Serialises the value to RESP2 bytes.
    pub fn to_bytes_vec(&self) -> (r: Vec<u8>)
        ensures
            r@ == value_bytes(*self),
        decreases self,
    {
        let mut out: Vec<u8> = Vec::new();
        match self {
            Value::SimpleString(v) => {
                out.push(43u8);
                push_all(&mut out, v.as_slice());
                push_all(&mut out, &[13u8, 10u8]);
            },
            Value::Error(v) => {
                out.push(45u8);
                push_all(&mut out, v.as_slice());
                push_all(&mut out, &[13u8, 10u8]);
            },
            Value::Integer(i) => {
                out.push(58u8);
                let t = i64_text(*i);
                push_all(&mut out, t.as_slice());
                push_all(&mut out, &[13u8, 10u8]);
            },
            Value::BulkString(v) => {
                out.push(36u8);
                let t = u64_text(v.len() as u64);
                push_all(&mut out, t.as_slice());
                push_all(&mut out, &[13u8, 10u8]);
                push_all(&mut out, v.as_slice());
                push_all(&mut out, &[13u8, 10u8]);
            },
            Value::Array(items) => {
                out.push(42u8);
                let t = u64_text(items.len() as u64);
                push_all(&mut out, t.as_slice());
                push_all(&mut out, &[13u8, 10u8]);
                let ghost head = out@;
                let mut k: usize = 0;
                while k < items.len()
                    invariant
                        k <= items@.len(),
                        *self == Value::Array(*items),
                        out@ == head + values_bytes(items@.subrange(0, k as int)),
                    decreases items@.len() - k,
                {
                    proof {
                        assert(decreases_to!(*self => self->Array_0));
                        assert(decreases_to!(*items => items@));
                        assert(decreases_to!(items@ => items@[k as int]));
                    }
                    let e = items[k].to_bytes_vec();
                    push_all(&mut out, e.as_slice());
                    assert(items@.subrange(0, k + 1).drop_last() =~= items@.subrange(0, k as int));
                    k += 1;
                }
                assert(items@.subrange(0, k as int) =~= items@);
            },
            Value::NullBulkString => {
                push_all(&mut out, &[36u8, 45u8, 49u8, 13u8, 10u8]);
            },
            Value::NullArray => {
                push_all(&mut out, &[42u8, 45u8, 49u8, 13u8, 10u8]);
            },
            Value::OkStatus => {
                push_all(&mut out, &[43u8, 79u8, 75u8, 13u8, 10u8]);
            },
        }
        proof {
            assert(out@ =~= value_bytes(*self));
        }
        out
    }

    /// The bytes of a bulk string.
    pub fn into_bulkstr(self) -> (r: Option<Vec<u8>>)
        ensures
            match self {
                Value::BulkString(v) => r == Some(v),
                _ => r is None,
            },
    {
        match self {
            Value::BulkString(v) => Some(v),
            _ => None,
        }
    }

    /// A non-negative integer, or a string holding one in decimal.
    pub fn to_usize(&self) -> (r: Option<usize>)
        ensures
            match *self {
                Value::Integer(i) => r == if 0 <= i <= usize::MAX { Some(i as usize) } else { None::<usize> },
                Value::BulkString(s) | Value::SimpleString(s) => r == match parse_index(s@) {
                    Some(n) => Some(n as usize),
                    None => None::<usize>,
                },
                _ => r is None,
            },
    {
        match self {
            Value::Integer(i) => {
                if *i >= 0 && (*i as u64) as u128 <= usize::MAX as u128 {
                    Some(*i as usize)
                } else {
                    None
                }
            },
            Value::BulkString(s) | Value::SimpleString(s) => parse_index_bytes(s.as_slice()),
            _ => None,
        }
    }

    /// An integer, or a string holding a signed 64-bit integer in decimal.
    pub fn to_i64(&self) -> (r: Option<i64>)
        ensures
            match *self {
                Value::Integer(i) => r == Some(i),
                Value::BulkString(s) | Value::SimpleString(s) => r == match parse_i64(s@) {
                    Some(n) => Some(n as i64),
                    None => None::<i64>,
                },
                _ => r is None,
            },
    {
        match self {
            Value::Integer(i) => Some(*i),
            Value::BulkString(s) | Value::SimpleString(s) => parse_i64_bytes(s.as_slice()),
            _ => None,
        }
    }

    /// The text of a simple or bulk string that holds UTF-8.
    pub fn into_string(self) -> (r: Option<String>)
        ensures
            match self {
                Value::BulkString(s) | Value::SimpleString(s) => (r is Some <==> vstd::utf8::valid_utf8(s@))
                    && (r matches Some(t) ==> t@ == vstd::utf8::decode_utf8(s@)),
                _ => r is None,
            },
    {
        match self {
            Value::SimpleString(v) | Value::BulkString(v) => decode_utf8(v.as_slice()),
            _ => None,
        }
    }
}

} // verus!
