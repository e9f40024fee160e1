//! Connection registry: identifier allocation and per-connection state.
use vstd::prelude::*;
use vstd::slice::slice_to_vec;
use vstd::string::*;
use crate::reply::OutputValue;
use crate::text::nat_text;

verus! {

broadcast use vstd::std_specs::vec::group_vec_axioms, vstd::seq::group_seq_axioms, vstd::slice::group_slice_axioms;

/// The base of a connection identifier's digits.
pub open spec fn digit_base() -> nat {
    0x1_0000_0000
}

/// The value of base-2^32 digits, least significant first.
pub open spec fn digits_nat(d: Seq<u32>) -> nat
    decreases d.len(),
{
    if d.len() == 0 {
        0
    } else {
        d[0] as nat + digit_base() * digits_nat(d.drop_first())
    }
}

/// Digits in canonical form: no most-significant zero.
pub open spec fn canonical(d: Seq<u32>) -> bool {
    d.len() == 0 || d.last() != 0
}

/// Relies on num_bigint::BigUint (built with `new`, read back with
/// `to_u32_digits`) and num_integer::Integer::inc: the successor of a number.
#[verifier::external_body]
fn successor_digits(d: &Vec<u32>) -> (r: Vec<u32>)
    ensures
        digits_nat(r@) == digits_nat(d@) + 1,
        canonical(r@),
{
    let mut n = num_bigint::BigUint::new(d.clone());
    num_integer::Integer::inc(&mut n);
    n.to_u32_digits()
}

/// Relies on BigUint's `Display` (`to_string`): the base-10 text of a number.
#[verifier::external_body]
fn digits_text(d: &Vec<u32>) -> (r: Vec<u8>)
    ensures
        r@ == nat_text(digits_nat(d@)),
{
    num_bigint::BigUint::new(d.clone()).to_string().into_bytes()
}

/// Relies on BigUint::iter_u64_digits: its first item is the number modulo
/// 2^64, and there is none for zero.
#[verifier::external_body]
fn low_u64_digit(d: &Vec<u32>) -> (r: Option<u64>)
    ensures
        digits_nat(d@) == 0 <==> r is None,
        r matches Some(x) ==> x as nat == digits_nat(d@) % 0x1_0000_0000_0000_0000,
{
    num_bigint::BigUint::new(d.clone()).iter_u64_digits().next()
}

/// An unbounded connection identifier.
#[derive(Debug)]
pub struct ConnectionId {
    digits: Vec<u32>,
}

impl ConnectionId {
    pub closed spec fn digit_seq(&self) -> Seq<u32> {
        self.digits@
    }

    /// The identifier as a number.
    pub open spec fn value(&self) -> nat {
        digits_nat(self.digit_seq())
    }

    pub open spec fn wf(&self) -> bool {
        canonical(self.digit_seq())
    }

    /// Zero.
    pub fn zero() -> (r: ConnectionId)
        ensures
            r.value() == 0,
            r.wf(),
    {
        ConnectionId { digits: Vec::new() }
    }

    /// The next identifier.
    pub fn plus_one(&self) -> (r: ConnectionId)
        ensures
            r.value() == self.value() + 1,
            r.wf(),
    {
        ConnectionId { digits: successor_digits(&self.digits) }
    }

    /// A copy.
    pub fn duplicate(&self) -> (r: ConnectionId)
        ensures
            r.digit_seq() == self.digit_seq(),
    {
        ConnectionId { digits: slice_to_vec(self.digits.as_slice()) }
    }

    /// Whether two identifiers are the same.
    pub fn same_as(&self, other: &ConnectionId) -> (r: bool)
        ensures
            r == (self.digit_seq() == other.digit_seq()),
    {
        let mut k: usize = 0;
        if self.digits.len() != other.digits.len() {
            return false;
        }
        while k < self.digits.len()
            invariant
                k <= self.digits@.len(),
                self.digits@.len() == other.digits@.len(),
                forall|j: int| 0 <= j < k ==> self.digits@[j] == other.digits@[j],
            decreases self.digits@.len() - k,
        {
            if self.digits[k] != other.digits[k] {
                return false;
            }
            k += 1;
        }
        assert(self.digits@ =~= other.digits@);
        true
    }

    /// Base-10 text of the identifier.
    pub fn to_text(&self) -> (r: Vec<u8>)
        ensures
            r@ == nat_text(self.value()),
    {
        digits_text(&self.digits)
    }

    /// The identifier as a signed 64-bit integer: its low 64 bits, saturated
    /// at `i64::MAX`.
    pub fn to_i64(&self) -> (r: i64)
        ensures
            r as int == client_id_value(self.value()),
    {
        match low_u64_digit(&self.digits) {
            None => 0,
            Some(x) => if x <= i64::MAX as u64 {
                x as i64
            } else {
                i64::MAX
            },
        }
    }
}

/// What is held for each connection.
#[derive(Debug)]
pub struct ConnectionState {
    /// The selected database.
    pub db: usize,
    /// The peer's address, as `host:port` text.
    pub addr: Vec<u8>,
}

/// The database selected by the first connection whose identifier is `id`;
/// 0 when there is none.
pub open spec fn db_of(ids: Seq<Seq<u32>>, dbs: Seq<usize>, id: Seq<u32>) -> usize
    decreases ids.len(),
{
    if ids.len() == 0 || dbs.len() == 0 {
        0
    } else if ids[0] == id {
        dbs[0]
    } else {
        db_of(ids.drop_first(), dbs.drop_first(), id)
    }
}

/// The selected database is one of the databases held, or 0.
pub proof fn lemma_db_of_bound(ids: Seq<Seq<u32>>, dbs: Seq<usize>, id: Seq<u32>, n: usize)
    requires
        forall|i: int| 0 <= i < dbs.len() ==> #[trigger] dbs[i] < n,
        n > 0,
    ensures
        db_of(ids, dbs, id) < n,
    decreases ids.len(),
{
    if ids.len() > 0 && dbs.len() > 0 && ids[0] != id {
        assert forall|i: int| 0 <= i < dbs.drop_first().len() implies #[trigger] dbs.drop_first()[i] < n by {
            assert(dbs.drop_first()[i] == dbs[i + 1]);
        };
        lemma_db_of_bound(ids.drop_first(), dbs.drop_first(), id, n);
    }
}

/// `CLIENT ID`'s answer for an identifier: its low 64 bits, saturated at
/// `i64::MAX`.
pub open spec fn client_id_value(v: nat) -> int {
    if v % 0x1_0000_0000_0000_0000 <= i64::MAX {
        (v % 0x1_0000_0000_0000_0000) as int
    } else {
        i64::MAX as int
    }
}

/// One line of `CLIENT LIST`.
pub open spec fn client_line(id: nat, addr: Seq<u8>) -> Seq<u8> {
    "id=".spec_bytes() + nat_text(id) + " addr=".spec_bytes() + addr + seq![10u8]
}

/// The active connections, in ascending identifier order.
#[derive(Debug)]
pub struct ConnectionStore {
    data: Vec<(ConnectionId, ConnectionState)>,
    next_id: ConnectionId,
}

impl ConnectionStore {
    /// Identifier values of the active connections, in order.
    pub closed spec fn ids(&self) -> Seq<nat> {
        self.data@.map_values(|e: (ConnectionId, ConnectionState)| e.0.value())
    }

    /// Identifier digits of the active connections, in order.
    pub closed spec fn id_digits(&self) -> Seq<Seq<u32>> {
        self.data@.map_values(|e: (ConnectionId, ConnectionState)| e.0.digit_seq())
    }

    /// Selected database of each active connection, in order.
    pub closed spec fn dbs(&self) -> Seq<usize> {
        self.data@.map_values(|e: (ConnectionId, ConnectionState)| e.1.db)
    }

    /// Address of each active connection, in order.
    pub closed spec fn addrs(&self) -> Seq<Seq<u8>> {
        self.data@.map_values(|e: (ConnectionId, ConnectionState)| e.1.addr@)
    }

    /// The value the next connection will get.
    pub closed spec fn next_value(&self) -> nat {
        self.next_id.value()
    }

    /// Identifiers ascend and stay below the next one; all are canonical.
    pub closed spec fn wf(&self) -> bool {
        &&& forall|i: int, j: int| 0 <= i < j < self.data@.len() ==> self.data@[i].0.value() < self.data@[j].0.value()
        &&& forall|i: int| 0 <= i < self.data@.len() ==> (#[trigger] self.data@[i]).0.value() < self.next_id.value()
        &&& forall|i: int| 0 <= i < self.data@.len() ==> (#[trigger] self.data@[i]).0.wf()
        &&& self.next_id.wf()
    }

    pub fn new() -> (r: ConnectionStore)
        ensures
            r.wf(),
            r.ids().len() == 0,
            r.dbs().len() == 0,
            r.next_value() == 0,
    {
        ConnectionStore { data: Vec::new(), next_id: ConnectionId::zero() }
    }

    /// Registers a connection from `addr`, with database 0 selected.
    pub fn connect(&mut self, addr: Vec<u8>) -> (r: ConnectionId)
        requires
            old(self).wf(),
        ensures
            final(self).wf(),
            r.value() == old(self).next_value(),
            final(self).next_value() == old(self).next_value() + 1,
            final(self).ids() == old(self).ids().push(r.value()),
            final(self).id_digits() == old(self).id_digits().push(r.digit_seq()),
            final(self).dbs() == old(self).dbs().push(0),
            final(self).addrs() == old(self).addrs().push(addr@),
    {
        let id = self.next_id.duplicate();
        let stored = self.next_id.duplicate();
        self.next_id = self.next_id.plus_one();
        self.data.push((stored, ConnectionState { db: 0, addr }));
        assert(self.ids() =~= old(self).ids().push(id.value()));
        assert(self.id_digits() =~= old(self).id_digits().push(id.digit_seq()));
        assert(self.dbs() =~= old(self).dbs().push(0));
        assert(self.addrs() =~= old(self).addrs().push(addr@));
        id
    }

    fn position(&self, id: &ConnectionId) -> (r: Option<usize>)
        ensures
            match r {
                Some(i) => i < self.id_digits().len() && self.id_digits()[i as int] == id.digit_seq()
                    && forall|j: int| 0 <= j < i ==> self.id_digits()[j] != id.digit_seq(),
                None => !self.id_digits().contains(id.digit_seq()),
            },
    {
        let mut k: usize = 0;
        while k < self.data.len()
            invariant
                k <= self.data@.len(),
                forall|j: int| 0 <= j < k ==> self.id_digits()[j] != id.digit_seq(),
            decreases self.data@.len() - k,
        {
            if self.data[k].0.same_as(id) {
                return Some(k);
            }
            k += 1;
        }
        None
    }

    /// Forgets a connection; unknown identifiers are ignored.
    pub fn disconnect(&mut self, id: &ConnectionId)
        requires
            old(self).wf(),
        ensures
            final(self).wf(),
            final(self).next_value() == old(self).next_value(),
            !final(self).id_digits().contains(id.digit_seq()),
            old(self).id_digits().contains(id.digit_seq()) ==> exists|i: int| 0 <= i < old(self).ids().len()
                && #[trigger] old(self).id_digits()[i] == id.digit_seq()
                && final(self).ids() == old(self).ids().remove(i)
                && final(self).id_digits() == old(self).id_digits().remove(i)
                && final(self).dbs() == old(self).dbs().remove(i)
                && final(self).addrs() == old(self).addrs().remove(i),
            !old(self).id_digits().contains(id.digit_seq()) ==> final(self).ids() == old(self).ids(),
            forall|i: int| 0 <= i < final(self).dbs().len() ==> old(self).dbs().contains(#[trigger] final(self).dbs()[i]),
    {
        match self.position(id) {
            Some(i) => {
                self.data.remove(i);
                assert(self.id_digits() =~= old(self).id_digits().remove(i as int));
                assert(self.dbs() =~= old(self).dbs().remove(i as int));
                assert(self.ids() =~= old(self).ids().remove(i as int));
                assert(self.addrs() =~= old(self).addrs().remove(i as int));
                assert(old(self).id_digits()[i as int] == id.digit_seq());
                assert forall|k: int| 0 <= k < self.dbs().len() implies old(self).dbs().contains(#[trigger] self.dbs()[k]) by {
                    if k < i {
                        assert(self.dbs()[k] == old(self).dbs()[k]);
                    } else {
                        assert(self.dbs()[k] == old(self).dbs()[k + 1]);
                    }
                };
                assert forall|j: int| 0 <= j < self.id_digits().len() implies self.id_digits()[j] != id.digit_seq() by {
                    if j >= i {
                        assert(old(self).data@[j + 1].0.value() > old(self).data@[i as int].0.value());
                    } else {
                        assert(old(self).data@[j].0.value() < old(self).data@[i as int].0.value());
                    }
                };
            },
            None => {
                assert(self.data@ == old(self).data@);
                assert(self.dbs() == old(self).dbs());
                assert forall|k: int| 0 <= k < self.dbs().len() implies old(self).dbs().contains(#[trigger] self.dbs()[k]) by {
                    assert(self.dbs()[k] == old(self).dbs()[k]);
                };
            },
        }
    }

    /// Whether a connection is active.
    pub fn has(&self, id: &ConnectionId) -> (r: bool)
        ensures
            r == self.id_digits().contains(id.digit_seq()),
    {
        self.position(id).is_some()
    }

    /// The database a connection has selected; 0 for an unknown one.
    pub fn get_db(&self, id: &ConnectionId) -> (r: usize)
        ensures
            r == db_of(self.id_digits(), self.dbs(), id.digit_seq()),
    {
        let mut k: usize = 0;
        assert(self.id_digits().subrange(0, self.data@.len() as int) =~= self.id_digits());
        assert(self.dbs().subrange(0, self.data@.len() as int) =~= self.dbs());
        while k < self.data.len()
            invariant
                k <= self.data@.len(),
                db_of(self.id_digits(), self.dbs(), id.digit_seq()) == db_of(
                    self.id_digits().subrange(k as int, self.data@.len() as int),
                    self.dbs().subrange(k as int, self.data@.len() as int),
                    id.digit_seq(),
                ),
            decreases self.data@.len() - k,
        {
            let ghost ids = self.id_digits().subrange(k as int, self.data@.len() as int);
            let ghost dbs = self.dbs().subrange(k as int, self.data@.len() as int);
            assert(ids.drop_first() =~= self.id_digits().subrange(k + 1, self.data@.len() as int));
            assert(dbs.drop_first() =~= self.dbs().subrange(k + 1, self.data@.len() as int));
            if self.data[k].0.same_as(id) {
                return self.data[k].1.db;
            }
            k += 1;
        }
        0
    }

    /// Selects a database for a connection.
    pub fn set_db(&mut self, id: &ConnectionId, db_index: usize)
        requires
            old(self).wf(),
        ensures
            final(self).wf(),
            final(self).next_value() == old(self).next_value(),
            final(self).ids() == old(self).ids(),
            final(self).id_digits() == old(self).id_digits(),
            final(self).addrs() == old(self).addrs(),
            forall|i: int| 0 <= i < old(self).dbs().len() ==> #[trigger] final(self).dbs()[i] == if old(self).id_digits()[i]
                == id.digit_seq() {
                db_index
            } else {
                old(self).dbs()[i]
            },
            final(self).dbs().len() == old(self).dbs().len(),
    {
        let mut k: usize = 0;
        while k < self.data.len()
            invariant
                k <= self.data@.len(),
                self.data@.len() == old(self).data@.len(),
                self.wf(),
                self.next_id == old(self).next_id,
                forall|j: int| 0 <= j < self.data@.len() ==> (#[trigger] self.data@[j]).0 == old(self).data@[j].0,
                forall|j: int| 0 <= j < self.data@.len() ==> (#[trigger] self.data@[j]).1.addr == old(self).data@[j].1.addr,
                forall|j: int| 0 <= j < self.data@.len() ==> #[trigger] self.data@[j].1.db == if j < k
                    && old(self).data@[j].0.digit_seq() == id.digit_seq() {
                    db_index
                } else {
                    old(self).data@[j].1.db
                },
            decreases self.data@.len() - k,
        {
            if self.data[k].0.same_as(id) {
                let entry = &mut self.data[k];
                entry.1.db = db_index;
            }
            k += 1;
        }
        assert(self.ids() =~= old(self).ids());
        assert(self.id_digits() =~= old(self).id_digits());
        assert(self.addrs() =~= old(self).addrs());
    }

    /// `CLIENT LIST`: one line per active connection, in identifier order.
    pub fn list(&self) -> (r: OutputValue)
        ensures
            r matches OutputValue::BulkString(v) && v@ == client_list_text(self.ids(), self.addrs()),
    {
        let mut out: Vec<u8> = Vec::new();
        let mut k: usize = 0;
        while k < self.data.len()
            invariant
                k <= self.data@.len(),
                out@ == client_list_text(self.ids().subrange(0, k as int), self.addrs().subrange(0, k as int)),
            decreases self.data@.len() - k,
        {
            let ghost before = out@;
            append_str(&mut out, "id=");
            let t = self.data[k].0.to_text();
            append_bytes(&mut out, t.as_slice());
            append_str(&mut out, " addr=");
            append_bytes(&mut out, self.data[k].1.addr.as_slice());
            out.push(10u8);
            proof {
                let ids = self.ids().subrange(0, k + 1);
                let addrs = self.addrs().subrange(0, k + 1);
                assert(ids.drop_last() =~= self.ids().subrange(0, k as int));
                assert(addrs.drop_last() =~= self.addrs().subrange(0, k as int));
                assert(out@ =~= before + client_line(ids.last(), addrs.last()));
            }
            k += 1;
        }
        assert(self.ids().subrange(0, k as int) =~= self.ids());
        assert(self.addrs().subrange(0, k as int) =~= self.addrs());
        OutputValue::BulkString(out)
    }
}

/// The `CLIENT LIST` text for connections with these identifiers and addresses.
pub open spec fn client_list_text(ids: Seq<nat>, addrs: Seq<Seq<u8>>) -> Seq<u8>
    decreases ids.len(),
{
    if ids.len() == 0 || addrs.len() != ids.len() {
        Seq::empty()
    } else {
        client_list_text(ids.drop_last(), addrs.drop_last()) + client_line(ids.last(), addrs.last())
    }
}

fn append_bytes(out: &mut Vec<u8>, s: &[u8])
    ensures
        final(out)@ == old(out)@ + s@,
{
    let mut k: usize = 0;
    while k < s.len()
        invariant
            k <= s@.len(),
            out@ == old(out)@ + s@.subrange(0, k as int),
        decreases s@.len() - k,
    {
        out.push(s[k]);
        k += 1;
        assert(out@ =~= old(out)@ + s@.subrange(0, k as int));
    }
    assert(s@.subrange(0, k as int) =~= s@);
}

fn append_str(out: &mut Vec<u8>, s: &str)
    ensures
        final(out)@ == old(out)@ + s.spec_bytes(),
{
    append_bytes(out, s.as_bytes());
}

} // verus!
