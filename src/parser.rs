//! Streaming RESP2 request parser.
use vstd::prelude::*;
use vstd::string::*;
use vstd::slice::slice_to_vec;
use crate::reply::{OutputValue, crlf, encode, encode_all};
use crate::text::{bytes_of, is_digit, lemma_nat_text, nat_text, parse_i64, parse_i64_bytes};

verus! {

broadcast use vstd::std_specs::vec::group_vec_axioms, vstd::seq::group_seq_axioms, vstd::slice::group_slice_axioms;

/// Why a frame could not be parsed.
#[derive(PartialEq, Eq, Structural, Clone, Copy, Debug)]
pub enum ParseError {
    OnlyResp2,
    InvalidDataType,
    InvalidLengthChar,
    InvalidLength,
    NegativeLength,
    NullArray,
    NullBulkString,
    ExpectedCr,
    ExpectedLf,
    NestedArray,
}

/// The error text for a parse error (without the leading `-`).
pub open spec fn parse_error_text(e: ParseError) -> Seq<u8> {
    match e {
        ParseError::OnlyResp2 => "ERR only RESP2 is supported".spec_bytes(),
        ParseError::InvalidDataType => "ERR invalid data type".spec_bytes(),
        ParseError::InvalidLengthChar => "ERR invalid character in length".spec_bytes(),
        ParseError::InvalidLength => "ERR invalid length".spec_bytes(),
        ParseError::NegativeLength => "ERR negative length is not supported".spec_bytes(),
        ParseError::NullArray => "ERR unexpected null array".spec_bytes(),
        ParseError::NullBulkString => "ERR unexpected null bulkstring".spec_bytes(),
        ParseError::ExpectedCr => "ERR expected '\\r'".spec_bytes(),
        ParseError::ExpectedLf => "ERR expected '\\n'".spec_bytes(),
        ParseError::NestedArray => "ERR nested arrays are not supported".spec_bytes(),
    }
}

impl ParseError {
    /// The error text sent to the client (without the leading `-`).
    pub fn message(&self) -> (r: Vec<u8>)
        ensures
            r@ == parse_error_text(*self),
    {
        let s = match self {
            ParseError::OnlyResp2 => "ERR only RESP2 is supported",
            ParseError::InvalidDataType => "ERR invalid data type",
            ParseError::InvalidLengthChar => "ERR invalid character in length",
            ParseError::InvalidLength => "ERR invalid length",
            ParseError::NegativeLength => "ERR negative length is not supported",
            ParseError::NullArray => "ERR unexpected null array",
            ParseError::NullBulkString => "ERR unexpected null bulkstring",
            ParseError::ExpectedCr => "ERR expected '\\r'",
            ParseError::ExpectedLf => "ERR expected '\\n'",
            ParseError::NestedArray => "ERR nested arrays are not supported",
        };
        let r = bytes_of(s);
        r
    }
}

/// A parsed frame.
#[derive(Debug)]
pub enum ParsedValue {
    BulkString(Vec<u8>),
    Array(Vec<ParsedValue>),
}

/// A parsed array whose elements are bulk strings holding exactly `items`.
pub open spec fn is_request(v: ParsedValue, items: Seq<Seq<u8>>) -> bool {
    match v {
        ParsedValue::Array(xs) => xs@.len() == items.len() && forall|i: int|
            0 <= i < items.len() ==> (#[trigger] xs@[i] is BulkString) && xs@[i]->BulkString_0@
                == items[i],
        _ => false,
    }
}

/// The outcome of reading one part of a frame: `None` when more bytes are
/// needed, an error, or a value and the position just after it.
pub type Step<T> = Option<Result<(T, int), ParseError>>;

pub open spec fn is_len_byte(c: u8) -> bool {
    48 <= c <= 57 || c == 45u8
}

/// The first position from `i` on that holds no length byte.
pub open spec fn scan_end(b: Seq<u8>, i: int) -> int
    decreases b.len() - i,
{
    if i < 0 || i >= b.len() {
        b.len() as int
    } else if is_len_byte(b[i]) {
        scan_end(b, i + 1)
    } else {
        i
    }
}

/// A length line starting at `i`: digits and `-`, then CR LF.
pub open spec fn spec_length(b: Seq<u8>, i: int) -> Step<int> {
    let j = scan_end(b, i);
    if j >= b.len() {
        None
    } else if b[j] != 13u8 {
        Some(Err(ParseError::InvalidLengthChar))
    } else if j + 1 >= b.len() {
        None
    } else if b[j + 1] != 10u8 {
        Some(Err(ParseError::InvalidLengthChar))
    } else {
        match parse_i64(b.subrange(i, j)) {
            None => Some(Err(ParseError::InvalidLength)),
            Some(n) => if n < -1 {
                Some(Err(ParseError::NegativeLength))
            } else {
                Some(Ok((n, j + 2)))
            },
        }
    }
}

/// One bulk-string element starting at `i`.
pub open spec fn spec_bulk(b: Seq<u8>, i: int) -> Step<Seq<u8>> {
    if i >= b.len() {
        None
    } else if b[i] == 42u8 {
        Some(Err(ParseError::NestedArray))
    } else if b[i] != 36u8 {
        Some(Err(ParseError::InvalidDataType))
    } else {
        match spec_length(b, i + 1) {
            None => None,
            Some(Err(e)) => Some(Err(e)),
            Some(Ok((n, p))) => if n == -1 {
                Some(Err(ParseError::NullBulkString))
            } else if p + n + 2 > b.len() {
                None
            } else if b[p + n] != 13u8 {
                Some(Err(ParseError::ExpectedCr))
            } else if b[p + n + 1] != 10u8 {
                Some(Err(ParseError::ExpectedLf))
            } else {
                Some(Ok((b.subrange(p, p + n), p + n + 2)))
            },
        }
    }
}

/// `n` bulk-string elements, one after another from `p`.
pub open spec fn spec_elems(b: Seq<u8>, p: int, n: nat) -> Step<Seq<Seq<u8>>>
    decreases n,
{
    if n == 0 {
        Some(Ok((Seq::empty(), p)))
    } else {
        match spec_elems(b, p, (n - 1) as nat) {
            Some(Ok((items, q))) => match spec_bulk(b, q) {
                Some(Ok((x, r))) => Some(Ok((items.push(x), r))),
                Some(Err(e)) => Some(Err(e)),
                None => None,
            },
            other => other,
        }
    }
}

/// One request at the start of `b`: an array of bulk strings.
pub open spec fn spec_request(b: Seq<u8>) -> Step<Seq<Seq<u8>>> {
    if b.len() == 0 {
        None
    } else if b[0] != 42u8 {
        Some(Err(ParseError::OnlyResp2))
    } else {
        match spec_length(b, 1) {
            None => None,
            Some(Err(e)) => Some(Err(e)),
            Some(Ok((n, p))) => if n == -1 {
                Some(Err(ParseError::NullArray))
            } else {
                spec_elems(b, p, n as nat)
            },
        }
    }
}

/// Buffers incoming bytes and takes complete requests off the front.
#[derive(Debug)]
pub struct Parser {
    buffer: Vec<u8>,
}

fn read_length(b: &[u8], i: usize) -> (r: Option<Result<(i64, usize), ParseError>>)
    requires
        i <= b@.len(),
    ensures
        match spec_length(b@, i as int) {
            None => r is None,
            Some(Err(e)) => r == Some(Err::<(i64, usize), ParseError>(e)),
            Some(Ok((n, p))) => r == Some(Ok::<(i64, usize), ParseError>((n as i64, p as usize))),
        },
        spec_length(b@, i as int) matches Some(Ok((n, p))) ==> -1 <= n <= i64::MAX && i < p <= b@.len(),
{
    let mut j: usize = i;
    while j < b.len() && ((48u8 <= b[j] && b[j] <= 57u8) || b[j] == 45u8)
        invariant
            i <= j <= b@.len(),
            scan_end(b@, i as int) == scan_end(b@, j as int),
        decreases b@.len() - j,
    {
        j += 1;
    }
    if j >= b.len() {
        return None;
    }
    if b[j] != 13u8 {
        return Some(Err(ParseError::InvalidLengthChar));
    }
    if j + 1 >= b.len() {
        return None;
    }
    if b[j + 1] != 10u8 {
        return Some(Err(ParseError::InvalidLengthChar));
    }
    let text = vstd::slice::slice_subrange(b, i, j);
    match parse_i64_bytes(text) {
        None => Some(Err(ParseError::InvalidLength)),
        Some(n) => {
            if n < -1 {
                Some(Err(ParseError::NegativeLength))
            } else {
                Some(Ok((n, j + 2)))
            }
        },
    }
}

fn read_bulk(b: &[u8], i: usize) -> (r: Option<Result<(Vec<u8>, usize), ParseError>>)
    requires
        i <= b@.len(),
    ensures
        match spec_bulk(b@, i as int) {
            None => r is None,
            Some(Err(e)) => r == Some(Err::<(Vec<u8>, usize), ParseError>(e)),
            Some(Ok((x, p))) => r is Some && r->0 is Ok && r->0->Ok_0.0@ == x && r->0->Ok_0.1 == p,
        },
{
    if i >= b.len() {
        return None;
    }
    if b[i] == 42u8 {
        return Some(Err(ParseError::NestedArray));
    }
    if b[i] != 36u8 {
        return Some(Err(ParseError::InvalidDataType));
    }
    match read_length(b, i + 1) {
        None => None,
        Some(Err(e)) => Some(Err(e)),
        Some(Ok((n, p))) => {
            if n == -1 {
                return Some(Err(ParseError::NullBulkString));
            }
            let n = n as u64;
            if (p as u64) > (b.len() as u64) || n + 2 > (b.len() - p) as u64 {
                return None;
            }
            let n = n as usize;
            if b[p + n] != 13u8 {
                return Some(Err(ParseError::ExpectedCr));
            }
            if b[p + n + 1] != 10u8 {
                return Some(Err(ParseError::ExpectedLf));
            }
            let body = slice_to_vec(vstd::slice::slice_subrange(b, p, p + n));
            Some(Ok((body, p + n + 2)))
        },
    }
}

impl Parser {
    /// The bytes received and not yet taken.
    pub closed spec fn pending(&self) -> Seq<u8> {
        self.buffer@
    }

    pub fn new() -> (r: Parser)
        ensures
            r.pending() == Seq::<u8>::empty(),
    {
        Parser { buffer: Vec::new() }
    }

    /// Appends freshly read bytes.
    pub fn extend(&mut self, bytes: &[u8])
        ensures
            final(self).pending() == old(self).pending() + bytes@,
    {
        let mut k: usize = 0;
        while k < bytes.len()
            invariant
                k <= bytes@.len(),
                self.buffer@ == old(self).buffer@ + bytes@.subrange(0, k as int),
            decreases bytes@.len() - k,
        {
            self.buffer.push(bytes[k]);
            k += 1;
            assert(self.buffer@ =~= old(self).buffer@ + bytes@.subrange(0, k as int));
        }
        assert(bytes@.subrange(0, k as int) =~= bytes@);
    }

    /// Takes one complete request off the front of the buffer.
    /// More bytes needed: `None`, the buffer kept. Malformed: the error, the
    /// buffer dropped. Complete: the request, its bytes removed.
    pub fn parse(&mut self) -> (r: Option<Result<ParsedValue, ParseError>>)
        ensures
            match spec_request(old(self).pending()) {
                None => r is None && final(self).pending() == old(self).pending(),
                Some(Err(e)) => r == Some(Err::<ParsedValue, ParseError>(e))
                    && final(self).pending() == Seq::<u8>::empty(),
                Some(Ok((items, p))) => r is Some && r->0 is Ok && is_request(r->0->Ok_0, items)
                    && final(self).pending() == old(self).pending().subrange(p, old(self).pending().len() as int),
            },
    {
        let b = self.buffer.as_slice();
        if b.len() == 0 {
            return None;
        }
        if b[0] != 42u8 {
            self.buffer.clear();
            return Some(Err(ParseError::OnlyResp2));
        }
        let (n, p) = match read_length(b, 1) {
            None => {
                return None;
            },
            Some(Err(e)) => {
                self.buffer.clear();
                return Some(Err(e));
            },
            Some(Ok(v)) => v,
        };
        if n == -1 {
            self.buffer.clear();
            return Some(Err(ParseError::NullArray));
        }
        let ghost bv = b@;
        let ghost nn = n as nat;
        let mut items: Vec<ParsedValue> = Vec::new();
        let mut pos: usize = p;
        let mut k: u64 = 0;
        while k < n as u64
            invariant
                bv == b@,
                bv == old(self).buffer@,
                self.buffer@ == bv,
                0 <= n,
                nn == n as nat,
                k <= n,
                pos <= bv.len(),
                spec_request(bv) == spec_elems(bv, p as int, nn),
                spec_elems(bv, p as int, k as nat) matches Some(Ok((gs, q))) && q == pos
                    && is_request(ParsedValue::Array(items), gs),
            decreases n - k,
        {
            let ghost prev = spec_elems(bv, p as int, k as nat);
            match read_bulk(b, pos) {
                None => {
                    proof {
                        assert(spec_elems(bv, p as int, (k + 1) as nat) is None);
                        lemma_elems_stuck(bv, p as int, (k + 1) as nat, nn);
                    }
                    return None;
                },
                Some(Err(e)) => {
                    proof {
                        lemma_elems_stuck(bv, p as int, (k + 1) as nat, nn);
                    }
                    self.buffer.clear();
                    return Some(Err(e));
                },
                Some(Ok((x, q))) => {
                    let ghost gs = prev->0->Ok_0.0;
                    let ghost old_items = items@;
                    items.push(ParsedValue::BulkString(x));
                    pos = q;
                    proof {
                        let next = spec_elems(bv, p as int, (k + 1) as nat);
                        assert(next->0->Ok_0.0 == gs.push(x@));
                        assert forall|i: int| 0 <= i < gs.len() + 1 implies (#[trigger] items@[i] is BulkString)
                            && items@[i]->BulkString_0@ == gs.push(x@)[i] by {
                            if i < gs.len() {
                                assert(items@[i] == old_items[i]);
                            }
                        };
                    }
                    k += 1;
                },
            }
        }
        let rest = slice_to_vec(vstd::slice::slice_subrange(b, pos, b.len()));
        self.buffer = rest;
        Some(Ok(ParsedValue::Array(items)))
    }
}

/// A failed or unfinished run of elements stays so when more are asked for.
proof fn lemma_elems_stuck(b: Seq<u8>, p: int, k: nat, m: nat)
    requires
        k <= m,
        !(spec_elems(b, p, k) matches Some(Ok(_))),
    ensures
        spec_elems(b, p, m) == spec_elems(b, p, k),
    decreases m - k,
{
    if k < m {
        lemma_elems_stuck(b, p, k, (m - 1) as nat);
    }
}

/// The RESP2 bytes of one bulk string.
pub open spec fn bulk_bytes(x: Seq<u8>) -> Seq<u8> {
    seq![36u8] + nat_text(x.len()) + crlf() + x + crlf()
}

/// The RESP2 bytes of bulk strings, one after another.
pub open spec fn bulks_bytes(items: Seq<Seq<u8>>) -> Seq<u8>
    decreases items.len(),
{
    if items.len() == 0 {
        Seq::empty()
    } else {
        bulks_bytes(items.drop_last()) + bulk_bytes(items.last())
    }
}

/// The RESP2 bytes of a request: an array of bulk strings.
pub open spec fn request_bytes(items: Seq<Seq<u8>>) -> Seq<u8> {
    seq![42u8] + nat_text(items.len()) + crlf() + bulks_bytes(items)
}

/// Lengths that a frame can state.
pub open spec fn sizes_fit(items: Seq<Seq<u8>>) -> bool {
    items.len() <= i64::MAX && forall|i: int| 0 <= i < items.len() ==> (#[trigger] items[i]).len() <= i64::MAX
}

proof fn lemma_scan_digits(b: Seq<u8>, i: int, e: int, j: int)
    requires
        0 <= i <= j <= e < b.len(),
        forall|k: int| i <= k < e ==> is_digit(#[trigger] b[k]),
        b[e] == 13u8,
    ensures
        scan_end(b, j) == e,
    decreases e - j,
{
    if j < e {
        lemma_scan_digits(b, i, e, j + 1);
    }
}

proof fn lemma_length_line(b: Seq<u8>, i: int, n: nat)
    requires
        0 <= i,
        n <= i64::MAX,
        i + nat_text(n).len() + 2 <= b.len(),
        b.subrange(i, i + nat_text(n).len() + 2) == nat_text(n) + crlf(),
    ensures
        spec_length(b, i) == Some(Ok::<(int, int), ParseError>((n as int, i + nat_text(n).len() + 2))),
{
    let t = nat_text(n);
    let tl = t.len() as int;
    lemma_nat_text(n);
    let e = i + tl;
    assert forall|k: int| i <= k < e implies is_digit(#[trigger] b[k]) by {
        assert(b[k] == b.subrange(i, e + 2)[k - i]);
    };
    assert(b[e] == b.subrange(i, e + 2)[tl]);
    assert(b[e + 1] == b.subrange(i, e + 2)[tl + 1]);
    lemma_scan_digits(b, i, e, i);
    assert(b.subrange(i, e) =~= t);
    assert(is_digit(t[0]));
}

proof fn lemma_bulk(b: Seq<u8>, q: int, x: Seq<u8>)
    requires
        0 <= q,
        x.len() <= i64::MAX,
        q + bulk_bytes(x).len() <= b.len(),
        b.subrange(q, q + bulk_bytes(x).len()) == bulk_bytes(x),
    ensures
        spec_bulk(b, q) == Some(Ok::<(Seq<u8>, int), ParseError>((x, q + bulk_bytes(x).len()))),
{
    let t = nat_text(x.len());
    let tl = t.len() as int;
    let whole = bulk_bytes(x);
    let p = q + 1 + tl + 2;
    assert(b[q] == whole[0]);
    assert(b.subrange(q + 1, q + 1 + tl + 2) =~= whole.subrange(1, 1 + tl + 2));
    assert(whole.subrange(1, 1 + tl + 2) =~= t + crlf());
    lemma_length_line(b, q + 1, x.len());
    assert(b[p + x.len()] == whole[p - q + x.len()]);
    assert(b[p + x.len() + 1] == whole[p - q + x.len() + 1]);
    assert(b.subrange(p, p + x.len()) =~= whole.subrange(p - q, p - q + x.len()));
    assert(whole.subrange(p - q, p - q + x.len()) =~= x);
}

proof fn lemma_elems(b: Seq<u8>, p: int, items: Seq<Seq<u8>>)
    requires
        0 <= p,
        sizes_fit(items),
        p + bulks_bytes(items).len() <= b.len(),
        b.subrange(p, p + bulks_bytes(items).len()) == bulks_bytes(items),
    ensures
        spec_elems(b, p, items.len()) == Some(Ok::<(Seq<Seq<u8>>, int), ParseError>((items, p + bulks_bytes(items).len()))),
    decreases items.len(),
{
    if items.len() > 0 {
        let front = items.drop_last();
        let a = bulks_bytes(front);
        let c = bulk_bytes(items.last());
        assert(bulks_bytes(items) == a + c);
        assert(sizes_fit(front)) by {
            assert forall|i: int| 0 <= i < front.len() implies (#[trigger] front[i]).len() <= i64::MAX by {
                assert(front[i] == items[i]);
            };
        };
        assert(b.subrange(p, p + a.len()) =~= (a + c).subrange(0, a.len() as int));
        assert((a + c).subrange(0, a.len() as int) =~= a);
        lemma_elems(b, p, front);
        let q = p + a.len();
        assert(b.subrange(q, q + c.len()) =~= (a + c).subrange(a.len() as int, (a + c).len() as int));
        assert((a + c).subrange(a.len() as int, (a + c).len() as int) =~= c);
        assert(items.last() == items[items.len() - 1]);
        lemma_bulk(b, q, items.last());
        assert(front.push(items.last()) =~= items);
    } else {
        assert(items =~= Seq::<Seq<u8>>::empty());
    }
}

/// A request's bytes, followed by anything, parse to that request and stop
/// where its bytes end.
pub proof fn lemma_request(b: Seq<u8>, items: Seq<Seq<u8>>)
    requires
        sizes_fit(items),
        request_bytes(items).len() <= b.len(),
        b.subrange(0, request_bytes(items).len() as int) == request_bytes(items),
    ensures
        spec_request(b) == Some(Ok::<(Seq<Seq<u8>>, int), ParseError>((items, request_bytes(items).len() as int))),
{
    let t = nat_text(items.len());
    let tl = t.len() as int;
    let whole = request_bytes(items);
    assert(b[0] == whole[0]);
    assert(b.subrange(1, 1 + tl + 2) =~= whole.subrange(1, 1 + tl + 2));
    assert(whole.subrange(1, 1 + tl + 2) =~= t + crlf());
    lemma_length_line(b, 1, items.len());
    let p = 1 + tl + 2;
    let body = bulks_bytes(items);
    assert(b.subrange(p, p + body.len()) =~= whole.subrange(p, whole.len() as int));
    assert(whole.subrange(p, whole.len() as int) =~= body);
    lemma_elems(b, p, items);
}

/// Parsing the encoding of a request gives that request back and takes all of
/// its bytes.
pub proof fn law_parse_encoded_request(items: Seq<Seq<u8>>)
    requires
        sizes_fit(items),
    ensures
        spec_request(request_bytes(items)) == Some(Ok::<(Seq<Seq<u8>>, int), ParseError>((items, request_bytes(items).len() as int))),
{
    let b = request_bytes(items);
    assert(b.subrange(0, b.len() as int) =~= b);
    lemma_request(b, items);
}

proof fn lemma_scan_prefix(b: Seq<u8>, len: int, i: int)
    requires
        0 <= i,
        0 <= len <= b.len(),
    ensures
        scan_end(b.subrange(0, len), i) == if scan_end(b, i) < len { scan_end(b, i) } else { len },
    decreases b.len() - i,
{
    let c = b.subrange(0, len);
    if i < len {
        assert(c[i] == b[i]);
        if is_len_byte(b[i]) {
            lemma_scan_prefix(b, len, i + 1);
        }
    } else if i < b.len() {
        lemma_scan_at_least(b, i);
    }
}

proof fn lemma_scan_at_least(b: Seq<u8>, i: int)
    requires
        0 <= i,
    ensures
        scan_end(b, i) >= i || scan_end(b, i) == b.len(),
        scan_end(b, i) >= i || i > b.len(),
    decreases b.len() - i,
{
    if i < b.len() && is_len_byte(b[i]) {
        lemma_scan_at_least(b, i + 1);
    }
}

proof fn lemma_length_prefix(b: Seq<u8>, i: int, len: int)
    requires
        0 <= i,
        0 <= len <= b.len(),
        spec_length(b, i) matches Some(Ok(_)),
    ensures
        spec_length(b, i)->0->Ok_0.1 > i,
        spec_length(b.subrange(0, len), i) == if len >= spec_length(b, i)->0->Ok_0.1 {
            spec_length(b, i)
        } else {
            None
        },
{
    let c = b.subrange(0, len);
    let j = scan_end(b, i);
    lemma_scan_at_least(b, i);
    lemma_scan_prefix(b, len, i);
    if len >= j + 2 {
        assert(c[j] == b[j]);
        assert(c[j + 1] == b[j + 1]);
        assert(c.subrange(i, j) =~= b.subrange(i, j));
    } else if len == j + 1 {
        assert(c[j] == b[j]);
    }
}

proof fn lemma_bulk_prefix(b: Seq<u8>, q: int, len: int)
    requires
        0 <= q,
        0 <= len <= b.len(),
        spec_bulk(b, q) matches Some(Ok(_)),
    ensures
        spec_bulk(b, q)->0->Ok_0.1 > q,
        spec_bulk(b.subrange(0, len), q) == if len >= spec_bulk(b, q)->0->Ok_0.1 {
            spec_bulk(b, q)
        } else {
            None
        },
{
    let c = b.subrange(0, len);
    lemma_length_prefix(b, q + 1, len);
    if q < len {
        assert(c[q] == b[q]);
        let (n, p) = spec_length(b, q + 1)->0->Ok_0;
        if len >= p && p + n + 2 <= len {
            assert(c[p + n] == b[p + n]);
            assert(c[p + n + 1] == b[p + n + 1]);
            assert(c.subrange(p, p + n) =~= b.subrange(p, p + n));
        }
    }
}

proof fn lemma_elems_prefix(b: Seq<u8>, p: int, k: nat, len: int)
    requires
        0 <= p <= len,
        len <= b.len(),
        spec_elems(b, p, k) matches Some(Ok(_)),
    ensures
        spec_elems(b, p, k)->0->Ok_0.1 >= p,
        spec_elems(b.subrange(0, len), p, k) == if len >= spec_elems(b, p, k)->0->Ok_0.1 {
            spec_elems(b, p, k)
        } else {
            None
        },
    decreases k,
{
    if k > 0 {
        let prev = spec_elems(b, p, (k - 1) as nat);
        if !(prev matches Some(Ok(_))) {
            assert(false);
        }
        lemma_elems_prefix(b, p, (k - 1) as nat, len);
        let q = prev->0->Ok_0.1;
        lemma_bulk_prefix(b, q, len);
        let c = b.subrange(0, len);
        if len < q {
            assert(spec_elems(c, p, (k - 1) as nat) is None);
            assert(spec_elems(c, p, k) is None);
        } else {
            assert(spec_elems(c, p, (k - 1) as nat) == prev);
        }
    }
}

proof fn lemma_elems_at_least(b: Seq<u8>, p: int, k: nat)
    requires
        spec_elems(b, p, k) matches Some(Ok(_)),
        0 <= p,
    ensures
        spec_elems(b, p, k)->0->Ok_0.1 >= p,
    decreases k,
{
    if k > 0 {
        let prev = spec_elems(b, p, (k - 1) as nat);
        if !(prev matches Some(Ok(_))) {
            assert(false);
        }
        lemma_elems_at_least(b, p, (k - 1) as nat);
        lemma_bulk_prefix(b, prev->0->Ok_0.1, b.len() as int);
    }
}

/// A proper prefix of a request's bytes is not yet a request: the parser
/// waits for more.
pub proof fn lemma_request_prefix(b: Seq<u8>, len: int)
    requires
        0 <= len <= b.len(),
        spec_request(b) matches Some(Ok(_)),
    ensures
        spec_request(b.subrange(0, len)) == if len >= spec_request(b)->0->Ok_0.1 {
            spec_request(b)
        } else {
            None
        },
{
    let c = b.subrange(0, len);
    lemma_length_prefix(b, 1, len);
    let (n, p) = spec_length(b, 1)->0->Ok_0;
    if len >= p {
        lemma_elems_prefix(b, p, n as nat, len);
    } else {
        lemma_elems_at_least(b, p, n as nat);
    }
    if len > 0 {
        assert(c[0] == b[0]);
    }
}

/// Fed a request's bytes one at a time, the parser has nothing until the last
/// byte arrives, and then has exactly that request.
pub proof fn law_parse_bytewise(items: Seq<Seq<u8>>, len: int)
    requires
        sizes_fit(items),
        0 <= len <= request_bytes(items).len(),
    ensures
        spec_request(request_bytes(items).subrange(0, len)) == if len == request_bytes(items).len() {
            Some(Ok::<(Seq<Seq<u8>>, int), ParseError>((items, len)))
        } else {
            None
        },
{
    law_parse_encoded_request(items);
    lemma_request_prefix(request_bytes(items), len);
    if len == request_bytes(items).len() {
        assert(request_bytes(items).subrange(0, len) =~= request_bytes(items));
    }
}

/// The contents of bulk-string replies.
pub open spec fn bulk_contents(vs: Seq<OutputValue>) -> Seq<Seq<u8>> {
    vs.map_values(|v: OutputValue| v->BulkString_0@)
}

proof fn lemma_encode_bulks(vs: Seq<OutputValue>)
    requires
        forall|i: int| 0 <= i < vs.len() ==> (#[trigger] vs[i]) is BulkString,
    ensures
        encode_all(vs) == bulks_bytes(bulk_contents(vs)),
    decreases vs.len(),
{
    if vs.len() > 0 {
        let front = vs.drop_last();
        lemma_encode_bulks(front);
        assert(bulk_contents(vs).drop_last() =~= bulk_contents(front));
        assert(bulk_contents(vs).last() == vs.last()->BulkString_0@);
        assert(encode(vs.last()) =~= bulk_bytes(vs.last()->BulkString_0@));
    } else {
        assert(bulk_contents(vs) =~= Seq::<Seq<u8>>::empty());
    }
}

/// Encoding an array of bulk strings and parsing the bytes gives the same
/// strings back.
pub proof fn law_parse_encode(v: OutputValue)
    requires
        v is Array,
        forall|i: int| 0 <= i < v->Array_0@.len() ==> (#[trigger] v->Array_0@[i]) is BulkString,
        sizes_fit(bulk_contents(v->Array_0@)),
    ensures
        spec_request(encode(v)) == Some(Ok::<(Seq<Seq<u8>>, int), ParseError>((bulk_contents(v->Array_0@), encode(v).len() as int))),
{
    let vs = v->Array_0@;
    lemma_encode_bulks(vs);
    assert(encode(v) =~= request_bytes(bulk_contents(vs)));
    law_parse_encoded_request(bulk_contents(vs));
}

/// Why a parsed frame is not a command.
#[derive(PartialEq, Eq, Structural, Clone, Copy, Debug)]
pub enum FrameError {
    BareBulkString,
    NestedArray,
}

/// The error text for a frame that is not a command (without the leading `-`).
pub open spec fn frame_error_text(e: FrameError) -> Seq<u8> {
    match e {
        FrameError::BareBulkString => "ERR Unexpected bare bulk string".spec_bytes(),
        FrameError::NestedArray => "ERR nested arrays are not supported".spec_bytes(),
    }
}

impl FrameError {
    /// The error text sent to the client (without the leading `-`).
    pub fn message(&self) -> (r: Vec<u8>)
        ensures
            r@ == frame_error_text(*self),
    {
        let s = match self {
            FrameError::BareBulkString => "ERR Unexpected bare bulk string",
            FrameError::NestedArray => "ERR nested arrays are not supported",
        };
        bytes_of(s)
    }
}

/// The arguments of a command frame: an array whose elements are all bulk
/// strings.
pub fn remove_non_command_values(value: ParsedValue) -> (r: Result<Vec<Vec<u8>>, FrameError>)
    ensures
        forall|items: Seq<Seq<u8>>| #[trigger] is_request(value, items) ==> (r matches Ok(v) && v@.map_values(|x: Vec<u8>| x@) == items),
        value is BulkString ==> r == Err::<Vec<Vec<u8>>, FrameError>(FrameError::BareBulkString),
        (value matches ParsedValue::Array(xs) && exists|i: int| 0 <= i < xs@.len() && #[trigger] xs@[i] is Array)
            ==> r == Err::<Vec<Vec<u8>>, FrameError>(FrameError::NestedArray),
{
    match value {
        ParsedValue::BulkString(_) => Err(FrameError::BareBulkString),
        ParsedValue::Array(xs) => {
            let mut out: Vec<Vec<u8>> = Vec::new();
            let mut k: usize = 0;
            while k < xs.len()
                invariant
                    value == ParsedValue::Array(xs),
                    k <= xs@.len(),
                    out@.len() == k,
                    forall|i: int| 0 <= i < k ==> (#[trigger] xs@[i]) is BulkString && out@[i]@ == xs@[i]->BulkString_0@,
                decreases xs@.len() - k,
            {
                match &xs[k] {
                    ParsedValue::BulkString(s) => {
                        out.push(slice_to_vec(s.as_slice()));
                    },
                    ParsedValue::Array(_) => {
                        proof {
                            assert forall|items: Seq<Seq<u8>>| !#[trigger] is_request(ParsedValue::Array(xs), items) by {
                                if is_request(ParsedValue::Array(xs), items) {
                                    assert(xs@[k as int] is BulkString);
                                }
                            };
                        }
                        return Err(FrameError::NestedArray);
                    },
                }
                k += 1;
            }
            proof {
                assert forall|items: Seq<Seq<u8>>| #[trigger] is_request(ParsedValue::Array(xs), items) implies out@.map_values(|x: Vec<u8>| x@) == items by {
                    assert(xs@.len() == items.len());
                    assert forall|i: int| 0 <= i < items.len() implies out@.map_values(|x: Vec<u8>| x@)[i] == items[i] by {
                        assert(out@[i]@ == xs@[i]->BulkString_0@);
                    };
                    assert(out@.map_values(|x: Vec<u8>| x@) =~= items);
                };
            }
            Ok(out)
        },
    }
}

/// A parsed request takes at least one byte and no more than there are.
pub proof fn lemma_request_progress(b: Seq<u8>)
    requires
        spec_request(b) matches Some(Ok(_)),
    ensures
        0 < spec_request(b)->0->Ok_0.1 <= b.len(),
{
    lemma_request_prefix(b, b.len() as int);
    assert(b.subrange(0, b.len() as int) =~= b);
    lemma_length_prefix(b, 1, b.len() as int);
    let (n, p) = spec_length(b, 1)->0->Ok_0;
    lemma_elems_at_least(b, p, n as nat);
}

} // verus!
