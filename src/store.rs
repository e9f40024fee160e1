//! One logical database: typed values keyed by byte strings.
use vstd::prelude::*;
use vstd::string::*;
use vstd::slice::slice_to_vec;
use crate::glob::{Finder, glob_match, lemma_star_matches_all};
use crate::reply::{OutputValue, is_bulk, is_error};
use crate::text::{i64_text, int_text, parse_i64, parse_i64_bytes, bytes_eq, bytes_of, lemma_int_text_round_trip};

verus! {

broadcast use vstd::std_specs::vec::group_vec_axioms, vstd::seq::group_seq_axioms, vstd::slice::group_slice_axioms;

/// A stored value. Only strings are operated on; hashes and lists are reserved.
#[derive(Debug)]
pub enum Value {
    String(Vec<u8>),
    Hash(Vec<(Vec<u8>, Vec<u8>)>),
    List(Vec<Vec<u8>>),
}

/// The mathematical content of a stored value.
pub enum Stored {
    Str(Seq<u8>),
    Hash(Seq<(Seq<u8>, Seq<u8>)>),
    List(Seq<Seq<u8>>),
}

impl View for Value {
    type V = Stored;

    open spec fn view(&self) -> Stored {
        match self {
            Value::String(s) => Stored::Str(s@),
            Value::Hash(h) => Stored::Hash(h@.map_values(|p: (Vec<u8>, Vec<u8>)| (p.0@, p.1@))),
            Value::List(l) => Stored::List(l@.map_values(|x: Vec<u8>| x@)),
        }
    }
}

/// One key and its value.
#[derive(Debug)]
pub struct Entry {
    pub key: Vec<u8>,
    pub value: Value,
}

/// The mapping that a sequence of entries denotes; a later entry wins.
pub open spec fn entries_view(s: Seq<Entry>) -> Map<Seq<u8>, Stored>
    decreases s.len(),
{
    if s.len() == 0 {
        Map::empty()
    } else {
        entries_view(s.drop_last()).insert(s.last().key@, s.last().value@)
    }
}

/// No two entries share a key.
pub open spec fn keys_unique(s: Seq<Entry>) -> bool {
    forall|i: int, j: int| 0 <= i < j < s.len() ==> s[i].key@ != s[j].key@
}

/// One database: a mapping from byte-string keys to typed values.
#[derive(Debug)]
pub struct KeyMap {
    entries: Vec<Entry>,
}

pub open spec fn msg_not_integer() -> Seq<u8> {
    "ERR value is not an integer".spec_bytes()
}

pub open spec fn msg_overflow() -> Seq<u8> {
    "ERR integer overflow".spec_bytes()
}

pub open spec fn msg_wrong_type_get() -> Seq<u8> {
    "ERR wrong target type for 'get'".spec_bytes()
}

pub open spec fn msg_wrong_type_append() -> Seq<u8> {
    "ERR wrong target type for 'append'".spec_bytes()
}

pub open spec fn msg_wrong_type_strlen() -> Seq<u8> {
    "ERR wrong target type for 'strlen'".spec_bytes()
}

/// The counter held under a key: absent counts as zero; a string must read as
/// a signed 64-bit integer; other values hold none.
pub open spec fn counter_of(m: Map<Seq<u8>, Stored>, k: Seq<u8>) -> Option<int> {
    if !m.contains_key(k) {
        Some(0)
    } else {
        match m[k] {
            Stored::Str(s) => parse_i64(s),
            _ => None,
        }
    }
}

/// The state after storing `kv`'s first `n` key/value pairs in order.
pub open spec fn set_pairs(m: Map<Seq<u8>, Stored>, kv: Seq<Seq<u8>>, n: nat) -> Map<Seq<u8>, Stored>
    decreases n,
{
    if n == 0 {
        m
    } else {
        set_pairs(m, kv, (n - 1) as nat).insert(kv[2 * (n - 1)], Stored::Str(kv[2 * (n - 1) + 1]))
    }
}

/// Whether any key among `kv`'s first `n` pairs is present.
pub open spec fn any_pair_key_present(m: Map<Seq<u8>, Stored>, kv: Seq<Seq<u8>>, n: nat) -> bool {
    exists|i: int| 0 <= i < n && #[trigger] m.contains_key(kv[2 * i])
}

/// How many of the keys are present, counting repeats.
pub open spec fn count_present(m: Map<Seq<u8>, Stored>, keys: Seq<Seq<u8>>) -> nat
    decreases keys.len(),
{
    if keys.len() == 0 {
        0
    } else {
        count_present(m, keys.drop_last()) + if m.contains_key(keys.last()) {
            1nat
        } else {
            0nat
        }
    }
}

/// The state after deleting the keys one by one.
pub open spec fn delete_all(m: Map<Seq<u8>, Stored>, keys: Seq<Seq<u8>>) -> Map<Seq<u8>, Stored>
    decreases keys.len(),
{
    if keys.len() == 0 {
        m
    } else {
        delete_all(m, keys.drop_last()).remove(keys.last())
    }
}

/// How many deletions found their key.
pub open spec fn count_deleted(m: Map<Seq<u8>, Stored>, keys: Seq<Seq<u8>>) -> nat
    decreases keys.len(),
{
    if keys.len() == 0 {
        0
    } else {
        count_deleted(m, keys.drop_last()) + if delete_all(m, keys.drop_last()).contains_key(
            keys.last(),
        ) {
            1nat
        } else {
            0nat
        }
    }
}

/// What `APPEND` does: an absent key gets the value; a string gets it added
/// at its end; another value is a type error. The reply is the new length.
pub open spec fn append_result(
    m: Map<Seq<u8>, Stored>,
    k: Seq<u8>,
    v: Seq<u8>,
    m2: Map<Seq<u8>, Stored>,
    r: OutputValue,
) -> bool {
    if !m.contains_key(k) {
        v.len() <= i64::MAX ==> m2 == m.insert(k, Stored::Str(v)) && r == OutputValue::Integer(v.len() as i64)
    } else {
        match m[k] {
            Stored::Str(s) => (s + v).len() <= i64::MAX ==> m2 == m.insert(k, Stored::Str(s + v))
                && r == OutputValue::Integer((s + v).len() as i64),
            _ => m2 == m && is_error(r, msg_wrong_type_append()),
        }
    }
}

/// The reply of `STRLEN`.
pub open spec fn strlen_reply(m: Map<Seq<u8>, Stored>, k: Seq<u8>, r: OutputValue) -> bool {
    if !m.contains_key(k) {
        r == OutputValue::Integer(0)
    } else {
        match m[k] {
            Stored::Str(s) => s.len() <= i64::MAX ==> r == OutputValue::Integer(s.len() as i64),
            _ => is_error(r, msg_wrong_type_strlen()),
        }
    }
}

/// What `MSETNX` does with the key/value list `kv`.
pub open spec fn msetnx_result(
    m: Map<Seq<u8>, Stored>,
    kv: Seq<Seq<u8>>,
    m2: Map<Seq<u8>, Stored>,
    r: OutputValue,
) -> bool {
    if any_pair_key_present(m, kv, (kv.len() / 2) as nat) {
        m2 == m && r == OutputValue::Integer(0)
    } else {
        m2 == set_pairs(m, kv, (kv.len() / 2) as nat) && r == OutputValue::Integer(1)
    }
}

/// The reply of `GET` on a state.
pub open spec fn get_reply(m: Map<Seq<u8>, Stored>, k: Seq<u8>, r: OutputValue) -> bool {
    if !m.contains_key(k) {
        r is NullBulkString
    } else {
        match m[k] {
            Stored::Str(v) => is_bulk(r, v),
            _ => is_error(r, msg_wrong_type_get()),
        }
    }
}

/// One element of an `MGET` reply.
pub open spec fn mget_item(m: Map<Seq<u8>, Stored>, k: Seq<u8>, r: OutputValue) -> bool {
    if m.contains_key(k) && m[k] is Str {
        is_bulk(r, m[k]->Str_0)
    } else {
        r is NullBulkString
    }
}

/// A `KEYS` reply: bulk strings naming each key of `m` that matches `p`,
/// each exactly once.
pub open spec fn keys_reply(m: Map<Seq<u8>, Stored>, p: Seq<u8>, r: OutputValue) -> bool {
    match r {
        OutputValue::Array(items) => {
            &&& forall|i: int| 0 <= i < items@.len() ==> (#[trigger] items@[i]) is BulkString
            &&& forall|i: int| 0 <= i < items@.len() ==> m.contains_key(#[trigger] items@[i]->BulkString_0@)
                && glob_match(p, items@[i]->BulkString_0@)
            &&& forall|k: Seq<u8>| m.contains_key(k) && glob_match(p, k) ==> exists|i: int|
                0 <= i < items@.len() && (#[trigger] items@[i])->BulkString_0@ == k
            &&& forall|i: int, j: int| 0 <= i < j < items@.len() ==> (#[trigger] items@[i])->BulkString_0@
                != (#[trigger] items@[j])->BulkString_0@
        },
        _ => false,
    }
}

proof fn lemma_view_lookup(s: Seq<Entry>, i: int)
    requires
        keys_unique(s),
        0 <= i < s.len(),
    ensures
        entries_view(s).contains_key(s[i].key@),
        entries_view(s)[s[i].key@] == s[i].value@,
    decreases s.len(),
{
    if i < s.len() - 1 {
        lemma_view_lookup(s.drop_last(), i);
    }
}

proof fn lemma_view_absent(s: Seq<Entry>, k: Seq<u8>)
    requires
        forall|i: int| 0 <= i < s.len() ==> (#[trigger] s[i]).key@ != k,
    ensures
        !entries_view(s).contains_key(k),
    decreases s.len(),
{
    if s.len() > 0 {
        lemma_view_absent(s.drop_last(), k);
    }
}

proof fn lemma_view_has_entry(s: Seq<Entry>, k: Seq<u8>)
    requires
        entries_view(s).contains_key(k),
    ensures
        exists|i: int| 0 <= i < s.len() && (#[trigger] s[i]).key@ == k,
{
    if forall|i: int| 0 <= i < s.len() ==> (#[trigger] s[i]).key@ != k {
        lemma_view_absent(s, k);
    }
}

proof fn lemma_view_update(s: Seq<Entry>, i: int, e: Entry)
    requires
        keys_unique(s),
        0 <= i < s.len(),
        s[i].key@ == e.key@,
    ensures
        entries_view(s.update(i, e)) == entries_view(s).insert(e.key@, e.value@),
    decreases s.len(),
{
    let t = s.update(i, e);
    if i == s.len() - 1 {
        assert(t.drop_last() =~= s.drop_last());
        assert(entries_view(t) =~= entries_view(s).insert(e.key@, e.value@));
    } else {
        assert(t.drop_last() =~= s.drop_last().update(i, e));
        lemma_view_update(s.drop_last(), i, e);
        assert(entries_view(t) =~= entries_view(s).insert(e.key@, e.value@));
    }
}

proof fn lemma_view_remove(s: Seq<Entry>, i: int)
    requires
        keys_unique(s),
        0 <= i < s.len(),
    ensures
        entries_view(s.remove(i)) == entries_view(s).remove(s[i].key@),
    decreases s.len(),
{
    let t = s.remove(i);
    if i == s.len() - 1 {
        assert(t =~= s.drop_last());
        lemma_view_absent(s.drop_last(), s[i].key@);
        assert(entries_view(t) =~= entries_view(s).remove(s[i].key@));
    } else {
        assert(t.drop_last() =~= s.drop_last().remove(i));
        lemma_view_remove(s.drop_last(), i);
        assert(entries_view(t) =~= entries_view(s).remove(s[i].key@));
    }
}

proof fn lemma_view_len(s: Seq<Entry>)
    requires
        keys_unique(s),
    ensures
        entries_view(s).dom().finite(),
        entries_view(s).len() == s.len(),
    decreases s.len(),
{
    if s.len() > 0 {
        lemma_view_len(s.drop_last());
        lemma_view_absent(s.drop_last(), s.last().key@);
    }
}

fn copy_bytes(s: &[u8]) -> (r: Vec<u8>)
    ensures
        r@ == s@,
{
    slice_to_vec(s)
}

fn err(m: &str) -> (r: OutputValue)
    ensures
        is_error(r, m.spec_bytes()),
{
    OutputValue::Error(bytes_of(m))
}

impl Default for KeyMap {
    fn default() -> (r: KeyMap)
        ensures
            r.wf(),
            r@ == Map::<Seq<u8>, Stored>::empty(),
    {
        KeyMap::new()
    }
}

impl KeyMap {
    pub closed spec fn view(&self) -> Map<Seq<u8>, Stored> {
        entries_view(self.entries@)
    }

    /// Keys are unique.
    pub closed spec fn wf(&self) -> bool {
        keys_unique(self.entries@)
    }

    pub fn new() -> (r: KeyMap)
        ensures
            r.wf(),
            r@ == Map::<Seq<u8>, Stored>::empty(),
    {
        KeyMap { entries: Vec::new() }
    }

    /// Position of the entry holding `key`, if any.
    fn find(&self, key: &[u8]) -> (r: Option<usize>)
        requires
            self.wf(),
        ensures
            match r {
                Some(i) => i < self.entries@.len() && self.entries@[i as int].key@ == key@
                    && self@.contains_key(key@) && self@[key@] == self.entries@[i as int].value@,
                None => !self@.contains_key(key@),
            },
    {
        let mut i: usize = 0;
        while i < self.entries.len()
            invariant
                self.wf(),
                i <= self.entries@.len(),
                forall|j: int| 0 <= j < i ==> (#[trigger] self.entries@[j]).key@ != key@,
            decreases self.entries@.len() - i,
        {
            if bytes_eq(self.entries[i].key.as_slice(), key) {
                proof {
                    lemma_view_lookup(self.entries@, i as int);
                }
                return Some(i);
            }
            i += 1;
        }
        proof {
            lemma_view_absent(self.entries@, key@);
        }
        None
    }

    /// Stores `value` under `key` as a string, replacing what was there.
    fn put(&mut self, key: &[u8], value: Vec<u8>)
        requires
            old(self).wf(),
        ensures
            final(self).wf(),
            final(self)@ == old(self)@.insert(key@, Stored::Str(value@)),
    {
        let e = Entry { key: copy_bytes(key), value: Value::String(value) };
        match self.find(key) {
            Some(i) => {
                proof {
                    lemma_view_update(self.entries@, i as int, e);
                }
                self.entries.set(i, e);
                assert(self.wf());
            },
            None => {
                let ghost old_entries = self.entries@;
                proof {
                    if exists|j: int| 0 <= j < old_entries.len() && (#[trigger] old_entries[j]).key@ == key@ {
                        let j = choose|j: int| 0 <= j < old_entries.len() && (#[trigger] old_entries[j]).key@ == key@;
                        lemma_view_lookup(old_entries, j);
                    }
                }
                self.entries.push(e);
                assert(self.entries@.drop_last() =~= old_entries);
            },
        }
    }

    /// `GET`: the string under `key`.
    pub fn get(&self, key: &[u8]) -> (r: OutputValue)
        requires
            self.wf(),
        ensures
            get_reply(self@, key@, r),
    {
        match self.find(key) {
            None => OutputValue::NullBulkString,
            Some(i) => match &self.entries[i].value {
                Value::String(s) => OutputValue::BulkString(copy_bytes(s.as_slice())),
                _ => err("ERR wrong target type for 'get'"),
            },
        }
    }

    /// `SET`: stores a string under `key`.
    pub fn set(&mut self, key: &[u8], value: Vec<u8>) -> (r: OutputValue)
        requires
            old(self).wf(),
        ensures
            final(self).wf(),
            final(self)@ == old(self)@.insert(key@, Stored::Str(value@)),
            r is OkStatus,
    {
        self.put(key, value);
        OutputValue::OkStatus
    }

    /// `MGET`: the string under each key, or a null where there is none.
    pub fn mget(&self, keys: &Vec<Vec<u8>>) -> (r: OutputValue)
        requires
            self.wf(),
        ensures
            r is Array,
            r->Array_0@.len() == keys@.len(),
            forall|i: int| 0 <= i < keys@.len() ==> mget_item(self@, keys@[i]@, #[trigger] r->Array_0@[i]),
    {
        let mut items: Vec<OutputValue> = Vec::new();
        let mut k: usize = 0;
        while k < keys.len()
            invariant
                self.wf(),
                k <= keys@.len(),
                items@.len() == k,
                forall|i: int| 0 <= i < k ==> mget_item(self@, keys@[i]@, #[trigger] items@[i]),
            decreases keys@.len() - k,
        {
            let item = match self.find(keys[k].as_slice()) {
                Some(i) => match &self.entries[i].value {
                    Value::String(s) => OutputValue::BulkString(copy_bytes(s.as_slice())),
                    _ => OutputValue::NullBulkString,
                },
                None => OutputValue::NullBulkString,
            };
            items.push(item);
            k += 1;
        }
        OutputValue::Array(items)
    }

    /// `MSET`: stores each key/value pair in order.
    pub fn mset(&mut self, key_values: &Vec<Vec<u8>>) -> (r: OutputValue)
        requires
            old(self).wf(),
            key_values@.len() % 2 == 0,
        ensures
            final(self).wf(),
            final(self)@ == set_pairs(old(self)@, key_values@.map_values(|v: Vec<u8>| v@), (key_values@.len() / 2) as nat),
            r is OkStatus,
    {
        self.store_pairs(key_values);
        OutputValue::OkStatus
    }

    fn store_pairs(&mut self, key_values: &Vec<Vec<u8>>)
        requires
            old(self).wf(),
            key_values@.len() % 2 == 0,
        ensures
            final(self).wf(),
            final(self)@ == set_pairs(old(self)@, key_values@.map_values(|v: Vec<u8>| v@), (key_values@.len() / 2) as nat),
    {
        let ghost kv = key_values@.map_values(|v: Vec<u8>| v@);
        let ghost start = self@;
        let mut p: usize = 0;
        while p < key_values.len() / 2
            invariant
                self.wf(),
                key_values@.len() % 2 == 0,
                p <= key_values@.len() / 2,
                kv == key_values@.map_values(|v: Vec<u8>| v@),
                self@ == set_pairs(start, kv, p as nat),
            decreases key_values@.len() / 2 - p,
        {
            let value = copy_bytes(key_values[2 * p + 1].as_slice());
            self.put(key_values[2 * p].as_slice(), value);
            p += 1;
        }
    }

    /// `MSETNX`: stores all pairs only when none of the keys is present.
    pub fn msetnx(&mut self, key_values: &Vec<Vec<u8>>) -> (r: OutputValue)
        requires
            old(self).wf(),
            key_values@.len() % 2 == 0,
        ensures
            final(self).wf(),
            msetnx_result(old(self)@, key_values@.map_values(|v: Vec<u8>| v@), final(self)@, r),
    {
        let ghost kv = key_values@.map_values(|v: Vec<u8>| v@);
        let mut p: usize = 0;
        while p < key_values.len() / 2
            invariant
                self.wf(),
                key_values@.len() % 2 == 0,
                p <= key_values@.len() / 2,
                kv == key_values@.map_values(|v: Vec<u8>| v@),
                !any_pair_key_present(self@, kv, p as nat),
            decreases key_values@.len() / 2 - p,
        {
            if self.find(key_values[2 * p].as_slice()).is_some() {
                assert(self@.contains_key(kv[2 * (p as int)]));
                return OutputValue::Integer(0);
            }
            proof {
                assert forall|i: int| 0 <= i < p + 1 implies !#[trigger] self@.contains_key(kv[2 * i]) by {
                    if i < p {
                        assert(!any_pair_key_present(self@, kv, p as nat));
                    }
                };
            }
            p += 1;
        }
        self.store_pairs(key_values);
        OutputValue::Integer(1)
    }

    /// `APPEND`: extends the string under `key`, creating it when absent.
    pub fn append(&mut self, key: &[u8], value: Vec<u8>) -> (r: OutputValue)
        requires
            old(self).wf(),
        ensures
            final(self).wf(),
            append_result(old(self)@, key@, value@, final(self)@, r),
    {
        match self.find(key) {
            None => {
                let n = value.len();
                if n as u128 > 9223372036854775807u128 {
                    return err("ERR integer overflow");
                }
                self.put(key, value);
                OutputValue::Integer(n as i64)
            },
            Some(i) => {
                match &self.entries[i].value {
                    Value::String(s) => {
                        let mut joined = copy_bytes(s.as_slice());
                        let mut tail = value;
                        joined.append(&mut tail);
                        let n = joined.len();
                        if n as u128 > 9223372036854775807u128 {
                            return err("ERR integer overflow");
                        }
                        self.put(key, joined);
                        OutputValue::Integer(n as i64)
                    },
                    _ => err("ERR wrong target type for 'append'"),
                }
            },
        }
    }

    /// `STRLEN`: the length of the string under `key`, zero when absent.
    pub fn strlen(&self, key: &[u8]) -> (r: OutputValue)
        requires
            self.wf(),
        ensures
            strlen_reply(self@, key@, r),
    {
        match self.find(key) {
            None => OutputValue::Integer(0),
            Some(i) => match &self.entries[i].value {
                Value::String(s) => {
                    if s.len() as u128 > 9223372036854775807u128 {
                        return err("ERR integer overflow");
                    }
                    OutputValue::Integer(s.len() as i64)
                },
                _ => err("ERR wrong target type for 'strlen'"),
            },
        }
    }

    /// `EXISTS`: how many of the keys are present, counting repeats.
    pub fn count_existing(&self, keys: &Vec<Vec<u8>>) -> (r: OutputValue)
        requires
            self.wf(),
        ensures
            r == OutputValue::Integer(count_present(self@, keys@.map_values(|v: Vec<u8>| v@)) as i64),
    {
        let ghost ks = keys@.map_values(|v: Vec<u8>| v@);
        let mut n: u64 = 0;
        let mut k: usize = 0;
        while k < keys.len()
            invariant
                self.wf(),
                k <= keys@.len(),
                ks == keys@.map_values(|v: Vec<u8>| v@),
                n == count_present(self@, ks.subrange(0, k as int)),
                n <= k,
            decreases keys@.len() - k,
        {
            assert(ks.subrange(0, k + 1).drop_last() =~= ks.subrange(0, k as int));
            if self.find(keys[k].as_slice()).is_some() {
                n += 1;
            }
            k += 1;
        }
        assert(ks.subrange(0, k as int) =~= ks);
        OutputValue::Integer(n as i64)
    }

    /// `DEL`: removes the keys, answering how many were present.
    pub fn del(&mut self, keys: &Vec<Vec<u8>>) -> (r: OutputValue)
        requires
            old(self).wf(),
        ensures
            final(self).wf(),
            final(self)@ == delete_all(old(self)@, keys@.map_values(|v: Vec<u8>| v@)),
            r == OutputValue::Integer(count_deleted(old(self)@, keys@.map_values(|v: Vec<u8>| v@)) as i64),
    {
        let ghost ks = keys@.map_values(|v: Vec<u8>| v@);
        let ghost start = self@;
        let mut n: u64 = 0;
        let mut k: usize = 0;
        while k < keys.len()
            invariant
                self.wf(),
                k <= keys@.len(),
                ks == keys@.map_values(|v: Vec<u8>| v@),
                self@ == delete_all(start, ks.subrange(0, k as int)),
                n == count_deleted(start, ks.subrange(0, k as int)),
                n <= k,
            decreases keys@.len() - k,
        {
            assert(ks.subrange(0, k + 1).drop_last() =~= ks.subrange(0, k as int));
            match self.find(keys[k].as_slice()) {
                Some(i) => {
                    proof {
                        lemma_view_remove(self.entries@, i as int);
                    }
                    self.entries.remove(i);
                    n += 1;
                },
                None => {
                    assert(self@.remove(ks[k as int]) =~= self@);
                },
            }
            k += 1;
        }
        assert(ks.subrange(0, k as int) =~= ks);
        OutputValue::Integer(n as i64)
    }

    /// `KEYS`: every key matching the glob pattern.
    pub fn keys(&self, pattern: &[u8]) -> (r: OutputValue)
        requires
            self.wf(),
        ensures
            keys_reply(self@, pattern@, r),
    {
        let finder = Finder::new(pattern);
        let mut items: Vec<OutputValue> = Vec::new();
        let ghost mut idx: Seq<int> = Seq::empty();
        let mut k: usize = 0;
        while k < self.entries.len()
            invariant
                self.wf(),
                k <= self.entries@.len(),
                forall|s: Seq<u8>| #[trigger] finder.denotes(s) == glob_match(pattern@, s),
                idx.len() == items@.len(),
                forall|i: int| 0 <= i < items@.len() ==> (#[trigger] items@[i]) is BulkString,
                forall|i: int| 0 <= i < idx.len() ==> 0 <= #[trigger] idx[i] < k,
                forall|i: int, j: int| 0 <= i < j < idx.len() ==> #[trigger] idx[i] < #[trigger] idx[j],
                forall|i: int| 0 <= i < items@.len() ==> (#[trigger] items@[i])->BulkString_0@
                    == self.entries@[idx[i]].key@,
                forall|i: int| 0 <= i < items@.len() ==> glob_match(pattern@, (#[trigger] items@[i])->BulkString_0@),
                forall|j: int| 0 <= j < k && glob_match(pattern@, (#[trigger] self.entries@[j]).key@) ==>
                    exists|i: int| 0 <= i < idx.len() && idx[i] == j,
            decreases self.entries@.len() - k,
        {
            let key = &self.entries[k].key;
            if finder.do_match(key.as_slice()) {
                items.push(OutputValue::BulkString(copy_bytes(key.as_slice())));
                proof {
                    let old_idx = idx;
                    idx = idx.push(k as int);
                    assert forall|j: int| 0 <= j < k + 1 && glob_match(pattern@, (#[trigger] self.entries@[j]).key@)
                        implies exists|i: int| 0 <= i < idx.len() && idx[i] == j by {
                        if j < k {
                            let i = choose|i: int| 0 <= i < old_idx.len() && old_idx[i] == j;
                            assert(idx[i] == j);
                        } else {
                            assert(idx[idx.len() - 1] == j);
                        }
                    };
                }
            }
            k += 1;
        }
        proof {
            assert forall|i: int| 0 <= i < items@.len() implies self@.contains_key(#[trigger] items@[i]->BulkString_0@) by {
                lemma_view_lookup(self.entries@, idx[i]);
            };
            assert forall|k2: Seq<u8>| self@.contains_key(k2) && glob_match(pattern@, k2) implies exists|i: int|
                0 <= i < items@.len() && (#[trigger] items@[i])->BulkString_0@ == k2 by {
                lemma_view_has_entry(self.entries@, k2);
                let j = choose|j: int| 0 <= j < self.entries@.len() && (#[trigger] self.entries@[j]).key@ == k2;
                let i = choose|i: int| 0 <= i < idx.len() && idx[i] == j;
                assert(items@[i]->BulkString_0@ == k2);
            };
        }
        OutputValue::Array(items)
    }

    /// `FLUSHDB`: removes every key.
    pub fn flushdb(&mut self) -> (r: OutputValue)
        ensures
            final(self).wf(),
            final(self)@ == Map::<Seq<u8>, Stored>::empty(),
            r is OkStatus,
    {
        self.entries.clear();
        OutputValue::OkStatus
    }

    /// `DBSIZE`: the number of keys.
    pub fn len(&self) -> (r: usize)
        requires
            self.wf(),
        ensures
            r == self@.len(),
    {
        proof {
            lemma_view_len(self.entries@);
        }
        self.entries.len()
    }

    /// Adds `delta` to the counter under `key`.
    fn add_to(&mut self, key: &[u8], delta: i128) -> (r: OutputValue)
        requires
            old(self).wf(),
            -0x8000_0000_0000_0000 <= delta <= 0x8000_0000_0000_0000,
        ensures
            final(self).wf(),
            counter_result(old(self)@, key@, delta as int, final(self)@, r),
    {
        let ghost m = self@;
        let found = self.find(key);
        let cur: i64 = match found {
            None => {
                let mut zero: Vec<u8> = Vec::new();
                zero.push(48u8);
                self.put(key, zero);
                assert(zero@ =~= seq![48u8]);
                0
            },
            Some(i) => match &self.entries[i].value {
                Value::String(s) => match parse_i64_bytes(s.as_slice()) {
                    Some(v) => v,
                    None => {
                        return err("ERR value is not an integer");
                    },
                },
                _ => {
                    return err("ERR value is not an integer");
                },
            },
        };
        assert(counter_of(m, key@) == Some(cur as int));
        let sum: i128 = cur as i128 + delta;
        if sum < i64::MIN as i128 || sum > i64::MAX as i128 {
            return err("ERR integer overflow");
        }
        let t = i64_text(sum as i64);
        self.put(key, t);
        assert(self@ =~= m.insert(key@, Stored::Str(int_text(sum as int))));
        OutputValue::Integer(sum as i64)
    }

    /// `INCRBY`: adds `n` to the counter under `key`.
    pub fn incr_by(&mut self, key: &[u8], n: i64) -> (r: OutputValue)
        requires
            old(self).wf(),
        ensures
            final(self).wf(),
            counter_result(old(self)@, key@, n as int, final(self)@, r),
    {
        self.add_to(key, n as i128)
    }

    /// `DECRBY`: subtracts `n` from the counter under `key`.
    pub fn decr_by(&mut self, key: &[u8], n: i64) -> (r: OutputValue)
        requires
            old(self).wf(),
        ensures
            final(self).wf(),
            counter_result(old(self)@, key@, -(n as int), final(self)@, r),
    {
        self.add_to(key, 0i128 - n as i128)
    }

    /// `INCR`: adds one to the counter under `key`.
    pub fn incr(&mut self, key: &[u8]) -> (r: OutputValue)
        requires
            old(self).wf(),
        ensures
            final(self).wf(),
            counter_result(old(self)@, key@, 1, final(self)@, r),
    {
        self.add_to(key, 1)
    }

    /// `DECR`: subtracts one from the counter under `key`.
    pub fn decr(&mut self, key: &[u8]) -> (r: OutputValue)
        requires
            old(self).wf(),
        ensures
            final(self).wf(),
            counter_result(old(self)@, key@, -1, final(self)@, r),
    {
        self.add_to(key, -1)
    }
}

/// What adding `delta` to the counter under `k` does: an error leaves the state
/// as it was (but for an absent key, which now holds zero); success stores the
/// new value's decimal text and answers it.
pub open spec fn counter_result(
    m: Map<Seq<u8>, Stored>,
    k: Seq<u8>,
    delta: int,
    m2: Map<Seq<u8>, Stored>,
    r: OutputValue,
) -> bool {
    let base = if m.contains_key(k) {
        m
    } else {
        m.insert(k, Stored::Str(seq![48u8]))
    };
    match counter_of(m, k) {
        None => m2 == m && is_error(r, msg_not_integer()),
        Some(c) => if i64::MIN <= c + delta <= i64::MAX {
            m2 == m.insert(k, Stored::Str(int_text(c + delta))) && r == OutputValue::Integer(
                (c + delta) as i64,
            )
        } else {
            m2 == base && is_error(r, msg_overflow())
        },
    }
}

/// After `SET k v`, `GET k` answers `v`.
pub proof fn law_set_then_get(m: Map<Seq<u8>, Stored>, k: Seq<u8>, v: Seq<u8>, m2: Map<Seq<u8>, Stored>, r: OutputValue)
    requires
        m2 == m.insert(k, Stored::Str(v)),
        get_reply(m2, k, r),
    ensures
        is_bulk(r, v),
{
}

/// A second `DEL k` finds nothing to delete and answers 0.
pub proof fn law_delete_twice(m: Map<Seq<u8>, Stored>, k: Seq<u8>)
    ensures
        count_deleted(delete_all(m, seq![k]), seq![k]) == 0,
{
    let ks = seq![k];
    assert(ks.drop_last() =~= Seq::<Seq<u8>>::empty());
    assert(delete_all(m, Seq::<Seq<u8>>::empty()) == m);
    assert(ks.last() == k);
    let m1 = delete_all(m, ks);
    assert(m1 == m.remove(k));
    assert(delete_all(m1, Seq::<Seq<u8>>::empty()) == m1);
    assert(count_deleted(m1, ks) == count_deleted(m1, Seq::empty()) + if delete_all(m1, Seq::empty()).contains_key(k) {
        1nat
    } else {
        0nat
    });
}

/// `EXISTS k` is 1 exactly when `k` is live, and `EXISTS k k` counts it twice.
pub proof fn law_exists_counts(m: Map<Seq<u8>, Stored>, k: Seq<u8>)
    ensures
        count_present(m, seq![k]) == if m.contains_key(k) { 1nat } else { 0nat },
        count_present(m, seq![k, k]) == if m.contains_key(k) { 2nat } else { 0nat },
{
    assert(seq![k].drop_last() =~= Seq::<Seq<u8>>::empty());
    assert(seq![k, k].drop_last() =~= seq![k]);
    assert(count_present(m, Seq::<Seq<u8>>::empty()) == 0);
    assert(seq![k].last() == k);
    assert(seq![k, k].last() == k);
    assert(count_present(m, seq![k]) == if m.contains_key(k) { 1nat } else { 0nat });
    assert(count_present(m, seq![k, k]) == count_present(m, seq![k, k].drop_last()) + if m.contains_key(k) { 1nat } else { 0nat });
}

/// `STRLEN k` is the length of the string last stored under `k`, and 0 when
/// `k` is absent.
pub proof fn law_strlen(m: Map<Seq<u8>, Stored>, k: Seq<u8>, v: Seq<u8>, r: OutputValue, r0: OutputValue)
    requires
        v.len() <= i64::MAX,
        strlen_reply(m.insert(k, Stored::Str(v)), k, r),
        strlen_reply(m.remove(k), k, r0),
    ensures
        r == OutputValue::Integer(v.len() as i64),
        r0 == OutputValue::Integer(0),
{
}

/// `INCR` then `DECR` on a key holding a number restores that number.
pub proof fn law_incr_then_decr(
    m0: Map<Seq<u8>, Stored>,
    k: Seq<u8>,
    m1: Map<Seq<u8>, Stored>,
    r1: OutputValue,
    m2: Map<Seq<u8>, Stored>,
    r2: OutputValue,
)
    requires
        counter_of(m0, k) is Some,
        counter_of(m0, k)->0 < i64::MAX,
        counter_result(m0, k, 1, m1, r1),
        counter_result(m1, k, -1, m2, r2),
    ensures
        counter_of(m2, k) == counter_of(m0, k),
        r2 == OutputValue::Integer(counter_of(m0, k)->0 as i64),
{
    let c = counter_of(m0, k)->0;
    lemma_int_text_round_trip(c + 1);
    assert(counter_of(m1, k) == Some(c + 1));
    lemma_int_text_round_trip(c);
}

/// `KEYS *` names every live key, each exactly once, and nothing else.
pub proof fn law_keys_star(m: Map<Seq<u8>, Stored>, r: OutputValue)
    requires
        keys_reply(m, seq![42u8], r),
    ensures
        r is Array,
        forall|k: Seq<u8>| m.contains_key(k) ==> exists|i: int| 0 <= i < r->Array_0@.len()
            && (#[trigger] r->Array_0@[i]) is BulkString && r->Array_0@[i]->BulkString_0@ == k,
        forall|i: int| 0 <= i < r->Array_0@.len() ==> (#[trigger] r->Array_0@[i]) is BulkString
            && m.contains_key(r->Array_0@[i]->BulkString_0@),
        forall|i: int, j: int| 0 <= i < j < r->Array_0@.len() ==> (#[trigger] r->Array_0@[i])->BulkString_0@
            != (#[trigger] r->Array_0@[j])->BulkString_0@,
{
    assert forall|k: Seq<u8>| m.contains_key(k) implies exists|i: int| 0 <= i < r->Array_0@.len()
        && (#[trigger] r->Array_0@[i]) is BulkString && r->Array_0@[i]->BulkString_0@ == k by {
        lemma_star_matches_all(k);
    };
}

} // verus!
