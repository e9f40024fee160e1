//! Reply values and their RESP2 wire form.
use vstd::prelude::*;
use crate::text::{i64_text, int_text, nat_text, u64_text};

verus! {

broadcast use vstd::std_specs::vec::group_vec_axioms, vstd::seq::group_seq_axioms, vstd::slice::group_slice_axioms;

/// A reply to one request.
#[derive(Debug)]
pub enum OutputValue {
    SimpleString(Vec<u8>),
    Error(Vec<u8>),
    Integer(i64),
    BulkString(Vec<u8>),
    Array(Vec<OutputValue>),
    NullBulkString,
    NullArray,
    OkStatus,
}

pub open spec fn crlf() -> Seq<u8> {
    seq![13u8, 10u8]
}

/// The RESP2 encoding of a reply.
pub open spec fn encode(v: OutputValue) -> Seq<u8>
    decreases v,
{
    match v {
        OutputValue::SimpleString(s) => seq![43u8] + s@ + crlf(),
        OutputValue::Error(s) => seq![45u8] + s@ + crlf(),
        OutputValue::Integer(i) => seq![58u8] + int_text(i as int) + crlf(),
        OutputValue::BulkString(s) => seq![36u8] + nat_text(s@.len()) + crlf() + s@ + crlf(),
        OutputValue::Array(items) => seq![42u8] + nat_text(items@.len()) + crlf() + encode_all(
            items@,
        ),
        OutputValue::NullBulkString => seq![36u8, 45u8, 49u8, 13u8, 10u8],
        OutputValue::NullArray => seq![42u8, 45u8, 49u8, 13u8, 10u8],
        OutputValue::OkStatus => seq![43u8, 79u8, 75u8, 13u8, 10u8],
    }
}

/// The encodings of a sequence of replies, one after another.
pub open spec fn encode_all(items: Seq<OutputValue>) -> Seq<u8>
    decreases items,
{
    if items.len() == 0 {
        Seq::empty()
    } else {
        encode_all(items.drop_last()) + encode(items.last())
    }
}

/// A bulk-string reply holding `s`.
pub open spec fn is_bulk(r: OutputValue, s: Seq<u8>) -> bool {
    match r {
        OutputValue::BulkString(v) => v@ == s,
        _ => false,
    }
}

/// An error reply with message `m`.
pub open spec fn is_error(r: OutputValue, m: Seq<u8>) -> bool {
    match r {
        OutputValue::Error(v) => v@ == m,
        _ => false,
    }
}

/// An array reply of bulk strings holding exactly `ss`, in order.
pub open spec fn is_bulk_array(r: OutputValue, ss: Seq<Seq<u8>>) -> bool {
    match r {
        OutputValue::Array(items) => items@.len() == ss.len() && forall|i: int|
            0 <= i < ss.len() ==> is_bulk(#[trigger] items@[i], ss[i]),
        _ => false,
    }
}

fn push_bytes(out: &mut Vec<u8>, s: &[u8])
    ensures
        final(out)@ == old(out)@ + s@,
{
    let mut k: usize = 0;
    while k < s.len()
        invariant
            k <= s@.len(),
            out@ == old(out)@ + s@.subrange(0, k as int),
        decreases s@.len() - k,
    {
        out.push(s[k]);
        k += 1;
        assert(out@ =~= old(out)@ + s@.subrange(0, k as int));
    }
    assert(s@.subrange(0, k as int) =~= s@);
}

fn push_crlf(out: &mut Vec<u8>)
    ensures
        final(out)@ == old(out)@ + crlf(),
{
    out.push(13u8);
    out.push(10u8);
    assert(out@ =~= old(out)@ + crlf());
}

impl OutputValue {
    /// Serialises the reply to RESP2 bytes.
    pub fn to_bytes_vec(&self) -> (r: Vec<u8>)
        ensures
            r@ == encode(*self),
        decreases self,
    {
        let mut out: Vec<u8> = Vec::new();
        match self {
            OutputValue::SimpleString(v) => {
                out.push(43u8);
                push_bytes(&mut out, v.as_slice());
                push_crlf(&mut out);
            },
            OutputValue::Error(v) => {
                out.push(45u8);
                push_bytes(&mut out, v.as_slice());
                push_crlf(&mut out);
            },
            OutputValue::Integer(i) => {
                out.push(58u8);
                let t = i64_text(*i);
                push_bytes(&mut out, t.as_slice());
                push_crlf(&mut out);
            },
            OutputValue::BulkString(v) => {
                out.push(36u8);
                let t = u64_text(v.len() as u64);
                push_bytes(&mut out, t.as_slice());
                push_crlf(&mut out);
                push_bytes(&mut out, v.as_slice());
                push_crlf(&mut out);
            },
            OutputValue::Array(items) => {
                out.push(42u8);
                let t = u64_text(items.len() as u64);
                push_bytes(&mut out, t.as_slice());
                push_crlf(&mut out);
                let ghost head = out@;
                let mut k: usize = 0;
                while k < items.len()
                    invariant
                        k <= items@.len(),
                        *self == OutputValue::Array(*items),
                        out@ == head + encode_all(items@.subrange(0, k as int)),
                    decreases items@.len() - k,
                {
                    proof {
                        assert(decreases_to!(*self => self->Array_0));
                        assert(decreases_to!(*items => items@));
                        assert(decreases_to!(items@ => items@[k as int]));
                    }
                    let e = items[k].to_bytes_vec();
                    push_bytes(&mut out, e.as_slice());
                    assert(items@.subrange(0, k + 1).drop_last() =~= items@.subrange(0, k as int));
                    k += 1;
                }
                assert(items@.subrange(0, k as int) =~= items@);
            },
            OutputValue::NullBulkString => {
                out.push(36u8);
                out.push(45u8);
                out.push(49u8);
                push_crlf(&mut out);
            },
            OutputValue::NullArray => {
                out.push(42u8);
                out.push(45u8);
                out.push(49u8);
                push_crlf(&mut out);
            },
            OutputValue::OkStatus => {
                out.push(43u8);
                out.push(79u8);
                out.push(75u8);
                push_crlf(&mut out);
            },
        }
        proof {
            assert(out@ =~= encode(*self));
        }
        out
    }
}

} // verus!
