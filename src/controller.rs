//! The dispatcher: resolves a request to a command, checks its arity and
//! runs it against the right scope.
use vstd::prelude::*;
use vstd::string::*;
use vstd::slice::slice_to_vec;
use crate::acl::{AclCategory, acl_name, all_categories};
use crate::command::{
    CommandListFilter, CommandStore, ContainerCommand, ControllerCommandDefinition, ControllerOp,
    MapOp, NameFilter, SimpleCommand, arity_ok, command_count, controller_min_args, entry_names,
    find_subcommand, kept_names, listing_reply, map_min_args,
};
use crate::connection::{
    ConnectionId, ConnectionStore, client_id_value, client_list_text, db_of, lemma_db_of_bound,
};
use crate::database::{Database, swapped, swap_twice_restores};
use crate::parser::{Parser, is_request, lemma_request_progress, parse_error_text, remove_non_command_values, spec_request};
use crate::reply::{OutputValue, crlf, encode, is_bulk, is_bulk_array, is_error};
use crate::store::{
    KeyMap, Stored, append_result, count_deleted, count_present, counter_result, delete_all,
    get_reply, keys_reply, mget_item, msetnx_result, set_pairs, strlen_reply, msg_not_integer,
};
use crate::text::{BStr, lower, parse_i64, parse_i64_bytes, parse_index, parse_index_bytes, to_lower, bytes_eq, bytes_of};

verus! {

broadcast use vstd::std_specs::vec::group_vec_axioms, vstd::seq::group_seq_axioms, vstd::slice::group_slice_axioms;

/// An effect that a server-scoped command asks the controller to carry out.
pub enum Interrupt {
    AclCat(Option<AclCategory>),
    ClientList,
    ClientId,
    CommandCount,
    CommandList(CommandListFilter),
    Select(usize),
    SwapDb(usize, usize),
    FlushAll,
}

pub open spec fn args_view(v: Seq<Vec<u8>>) -> Seq<Seq<u8>> {
    v.map_values(|x: Vec<u8>| x@)
}

pub open spec fn quoted(prefix: Seq<u8>, name: Seq<u8>) -> Seq<u8> {
    prefix + name + "'".spec_bytes()
}

pub open spec fn wrong_args_msg(name: Seq<u8>) -> Seq<u8> {
    quoted("ERR wrong number of arguments for '".spec_bytes(), name)
}

pub open spec fn unknown_command_msg(name: Seq<u8>) -> Seq<u8> {
    quoted("ERR unknown command '".spec_bytes(), name)
}

pub open spec fn unknown_subcommand_msg(name: Seq<u8>) -> Seq<u8> {
    quoted("ERR unknown subcommand for '".spec_bytes(), name)
}

/// The name used in a subcommand's arity error: `<command> <subcommand>`.
pub open spec fn spaced(cmd: Seq<u8>, sub: Seq<u8>) -> Seq<u8> {
    cmd + seq![32u8] + sub
}

fn quote_msg(prefix: &str, name: &[u8]) -> (r: OutputValue)
    ensures
        is_error(r, quoted(prefix.spec_bytes(), name@)),
{
    let mut v = bytes_of(prefix);
    let mut k: usize = 0;
    let ghost start = v@;
    while k < name.len()
        invariant
            k <= name@.len(),
            v@ == start + name@.subrange(0, k as int),
        decreases name@.len() - k,
    {
        v.push(name[k]);
        k += 1;
        assert(v@ =~= start + name@.subrange(0, k as int));
    }
    assert(name@.subrange(0, k as int) =~= name@);
    let mut tail = bytes_of("'");
    v.append(&mut tail);
    OutputValue::Error(v)
}

fn err(m: &str) -> (r: OutputValue)
    ensures
        is_error(r, m.spec_bytes()),
{
    OutputValue::Error(bytes_of(m))
}

/// What a key-space operation does to database `m` and answers.
pub open spec fn map_op_spec(op: MapOp, m: Map<Seq<u8>, Stored>, a: Seq<Seq<u8>>, m2: Map<Seq<u8>, Stored>, r: OutputValue) -> bool {
    match op {
        MapOp::Ping => m2 == m && if a.len() == 0 {
            (r matches OutputValue::SimpleString(v) && v@ == "PONG".spec_bytes())
        } else {
            is_bulk(r, a[0])
        },
        MapOp::Echo => m2 == m && is_bulk(r, a[0]),
        MapOp::DbSize => m2 == m && (m.len() <= i64::MAX ==> r == OutputValue::Integer(m.len() as i64)),
        MapOp::Exists => m2 == m && r == OutputValue::Integer(count_present(m, a) as i64),
        MapOp::Del => m2 == delete_all(m, a) && r == OutputValue::Integer(count_deleted(m, a) as i64),
        MapOp::Keys => m2 == m && keys_reply(m, a[0], r),
        MapOp::FlushDb => m2 == Map::<Seq<u8>, Stored>::empty() && r is OkStatus,
        MapOp::Get => m2 == m && get_reply(m, a[0], r),
        MapOp::SetValue => m2 == m.insert(a[0], Stored::Str(a[1])) && r is OkStatus,
        MapOp::MGet => m2 == m && r is Array && r->Array_0@.len() == a.len() && forall|i: int|
            0 <= i < a.len() ==> mget_item(m, a[i], #[trigger] r->Array_0@[i]),
        MapOp::MSet => if a.len() % 2 != 0 {
            m2 == m && is_error(r, wrong_args_msg("mset".spec_bytes()))
        } else {
            m2 == set_pairs(m, a, (a.len() / 2) as nat) && r is OkStatus
        },
        MapOp::MSetNx => if a.len() % 2 != 0 {
            m2 == m && is_error(r, wrong_args_msg("msetnx".spec_bytes()))
        } else {
            msetnx_result(m, a, m2, r)
        },
        MapOp::Append => append_result(m, a[0], a[1], m2, r),
        MapOp::Strlen => m2 == m && strlen_reply(m, a[0], r),
        MapOp::Incr => counter_result(m, a[0], 1, m2, r),
        MapOp::Decr => counter_result(m, a[0], -1, m2, r),
        MapOp::IncrBy => match parse_i64(a[1]) {
            None => m2 == m && is_error(r, msg_not_integer()),
            Some(n) => counter_result(m, a[0], n, m2, r),
        },
        MapOp::DecrBy => match parse_i64(a[1]) {
            None => m2 == m && is_error(r, msg_not_integer()),
            Some(n) => counter_result(m, a[0], -n, m2, r),
        },
    }
}

/// Runs a key-space operation.
pub fn run_map_op(op: MapOp, db: &mut KeyMap, args: Vec<Vec<u8>>) -> (r: OutputValue)
    requires
        old(db).wf(),
        args@.len() >= map_min_args(op),
    ensures
        final(db).wf(),
        map_op_spec(op, old(db)@, args_view(args@), final(db)@, r),
{
    let ghost a = args_view(args@);
    match op {
        MapOp::Ping => {
            if args.len() == 0 {
                OutputValue::SimpleString(bytes_of("PONG"))
            } else {
                OutputValue::BulkString(slice_to_vec(args[0].as_slice()))
            }
        },
        MapOp::Echo => OutputValue::BulkString(slice_to_vec(args[0].as_slice())),
        MapOp::DbSize => {
            let n = db.len();
            if n as u128 > 9223372036854775807u128 {
                return err("ERR integer overflow");
            }
            OutputValue::Integer(n as i64)
        },
        MapOp::Exists => db.count_existing(&args),
        MapOp::Del => db.del(&args),
        MapOp::Keys => db.keys(args[0].as_slice()),
        MapOp::FlushDb => db.flushdb(),
        MapOp::Get => db.get(args[0].as_slice()),
        MapOp::SetValue => db.set(args[0].as_slice(), slice_to_vec(args[1].as_slice())),
        MapOp::MGet => db.mget(&args),
        MapOp::MSet => {
            if args.len() % 2 != 0 {
                return quote_msg("ERR wrong number of arguments for '", bytes_of("mset").as_slice());
            }
            db.mset(&args)
        },
        MapOp::MSetNx => {
            if args.len() % 2 != 0 {
                return quote_msg("ERR wrong number of arguments for '", bytes_of("msetnx").as_slice());
            }
            db.msetnx(&args)
        },
        MapOp::Append => db.append(args[0].as_slice(), slice_to_vec(args[1].as_slice())),
        MapOp::Strlen => db.strlen(args[0].as_slice()),
        MapOp::Incr => db.incr(args[0].as_slice()),
        MapOp::Decr => db.decr(args[0].as_slice()),
        MapOp::IncrBy => match parse_i64_bytes(args[1].as_slice()) {
            None => err("ERR value is not an integer"),
            Some(n) => db.incr_by(args[0].as_slice(), n),
        },
        MapOp::DecrBy => match parse_i64_bytes(args[1].as_slice()) {
            None => err("ERR value is not an integer"),
            Some(n) => db.decr_by(args[0].as_slice(), n),
        },
    }
}

/// What parsing a server-scoped command's arguments gives: the effect to
/// carry out, or the reply to send at once.
pub open spec fn controller_op_result(op: ControllerOp, a: Seq<Seq<u8>>, r: Result<Interrupt, OutputValue>) -> bool {
    match op {
        ControllerOp::Select => match parse_index(a[0]) {
            Some(i) => r matches Ok(Interrupt::Select(j)) && j == i,
            None => r matches Err(e) && is_error(e, "ERR invalid argument for 'select'".spec_bytes()),
        },
        ControllerOp::FlushAll => r matches Ok(Interrupt::FlushAll),
        ControllerOp::SwapDb => match (parse_index(a[0]), parse_index(a[1])) {
            (Some(x), Some(y)) => r matches Ok(Interrupt::SwapDb(i, j)) && i == x && j == y,
            (None, _) => r matches Err(e) && is_error(e, "ERR invalid first DB index".spec_bytes()),
            (_, None) => r matches Err(e) && is_error(e, "ERR invalid second DB index".spec_bytes()),
        },
        ControllerOp::AclCat => if a.len() == 0 {
            r matches Ok(Interrupt::AclCat(None))
        } else if exists|c: AclCategory| lower(a[0]) == #[trigger] acl_name(c) {
            r matches Ok(Interrupt::AclCat(Some(c))) && lower(a[0]) == acl_name(c)
        } else {
            r matches Err(e) && is_error(e, "ERR unknown ACL category for 'acl cat'".spec_bytes())
        },
        ControllerOp::ClientId => r matches Ok(Interrupt::ClientId),
        ControllerOp::ClientList => r matches Ok(Interrupt::ClientList),
        ControllerOp::CommandRoot => r matches Err(e) && is_error(e, "ERR 'command' is not implemented yet".spec_bytes()),
        ControllerOp::CommandCount => r matches Ok(Interrupt::CommandCount),
        ControllerOp::CommandList => if a.len() == 0 {
            r matches Ok(Interrupt::CommandList(CommandListFilter::All))
        } else if a.len() != 3 {
            r matches Err(e) && is_error(e, wrong_args_msg("command list".spec_bytes()))
        } else if lower(a[0]) != "filterby".spec_bytes() {
            r matches Err(e) && is_error(e, "ERR invalid argument for 'command list'".spec_bytes())
        } else if lower(a[1]) == "module".spec_bytes() {
            r matches Err(e) && is_error(e, "ERR filterby module is not implemented yet".spec_bytes())
        } else if lower(a[1]) == "aclcat".spec_bytes() {
            if exists|c: AclCategory| lower(a[2]) == #[trigger] acl_name(c) {
                r matches Ok(Interrupt::CommandList(CommandListFilter::Category(c))) && lower(a[2]) == acl_name(c)
            } else {
                r matches Err(e) && is_error(e, "ERR unknown ACL category for 'command list'".spec_bytes())
            }
        } else if lower(a[1]) == "pattern".spec_bytes() {
            r matches Ok(Interrupt::CommandList(CommandListFilter::Pattern(p))) && p@ == a[2]
        } else {
            r matches Err(e) && is_error(e, "ERR unknown filter for 'command list'".spec_bytes())
        },
        ControllerOp::FunctionFlush => r matches Err(e) && is_error(e, "ERR 'function flush' is not implemented yet".spec_bytes()),
        ControllerOp::ConfigGet => r matches Err(e) && is_error(e, "ERR 'config get' is not implemented yet".spec_bytes()),
    }
}

fn lower_is(s: &[u8], word: &str) -> (r: bool)
    ensures
        r == (lower(s@) == word.spec_bytes()),
{
    let l = to_lower(s);
    let w = bytes_of(word);
    bytes_eq(l.as_slice(), w.as_slice())
}

/// Reads a server-scoped command's arguments.
pub fn run_controller_op(op: ControllerOp, args: &Vec<Vec<u8>>) -> (r: Result<Interrupt, OutputValue>)
    requires
        args@.len() >= controller_min_args(op),
    ensures
        controller_op_result(op, args_view(args@), r),
{
    let ghost a = args_view(args@);
    match op {
        ControllerOp::Select => match parse_index_bytes(args[0].as_slice()) {
            Some(i) => Ok(Interrupt::Select(i)),
            None => Err(err("ERR invalid argument for 'select'")),
        },
        ControllerOp::FlushAll => Ok(Interrupt::FlushAll),
        ControllerOp::SwapDb => {
            let first = parse_index_bytes(args[0].as_slice());
            let second = parse_index_bytes(args[1].as_slice());
            match (first, second) {
                (Some(x), Some(y)) => Ok(Interrupt::SwapDb(x, y)),
                (None, _) => Err(err("ERR invalid first DB index")),
                (_, None) => Err(err("ERR invalid second DB index")),
            }
        },
        ControllerOp::AclCat => {
            if args.len() == 0 {
                return Ok(Interrupt::AclCat(None));
            }
            match AclCategory::from_name(args[0].as_slice()) {
                Some(c) => Ok(Interrupt::AclCat(Some(c))),
                None => Err(err("ERR unknown ACL category for 'acl cat'")),
            }
        },
        ControllerOp::ClientId => Ok(Interrupt::ClientId),
        ControllerOp::ClientList => Ok(Interrupt::ClientList),
        ControllerOp::CommandRoot => Err(err("ERR 'command' is not implemented yet")),
        ControllerOp::CommandCount => Ok(Interrupt::CommandCount),
        ControllerOp::CommandList => {
            if args.len() == 0 {
                return Ok(Interrupt::CommandList(CommandListFilter::All));
            }
            if args.len() != 3 {
                return Err(quote_msg("ERR wrong number of arguments for '", bytes_of("command list").as_slice()));
            }
            if !lower_is(args[0].as_slice(), "filterby") {
                return Err(err("ERR invalid argument for 'command list'"));
            }
            if lower_is(args[1].as_slice(), "module") {
                return Err(err("ERR filterby module is not implemented yet"));
            }
            if lower_is(args[1].as_slice(), "aclcat") {
                return match AclCategory::from_name(args[2].as_slice()) {
                    Some(c) => Ok(Interrupt::CommandList(CommandListFilter::Category(c))),
                    None => Err(err("ERR unknown ACL category for 'command list'")),
                };
            }
            if lower_is(args[1].as_slice(), "pattern") {
                return Ok(Interrupt::CommandList(CommandListFilter::Pattern(slice_to_vec(args[2].as_slice()))));
            }
            Err(err("ERR unknown filter for 'command list'"))
        },
        ControllerOp::FunctionFlush => Err(err("ERR 'function flush' is not implemented yet")),
        ControllerOp::ConfigGet => Err(err("ERR 'config get' is not implemented yet")),
    }
}

/// `i` is the first position in `names` holding `name`.
pub open spec fn is_first(names: Seq<Seq<u8>>, i: int, name: Seq<u8>) -> bool {
    0 <= i < names.len() && names[i] == name && forall|j: int| 0 <= j < i ==> #[trigger] names[j] != name
}

/// The first position in `names` holding `name`.
pub open spec fn first_index(names: Seq<Seq<u8>>, name: Seq<u8>) -> Option<int> {
    if exists|i: int| is_first(names, i, name) {
        Some(choose|i: int| is_first(names, i, name))
    } else {
        None
    }
}

proof fn lemma_first_index(names: Seq<Seq<u8>>, name: Seq<u8>, k: int)
    requires
        is_first(names, k, name),
    ensures
        first_index(names, name) == Some(k),
{
    let i = choose|i: int| is_first(names, i, name);
    if i < k {
        assert(names[i] != name);
    } else if i > k {
        assert(names[k] != name);
    }
}

proof fn lemma_first_none(names: Seq<Seq<u8>>, name: Seq<u8>)
    requires
        forall|i: int| 0 <= i < names.len() ==> #[trigger] names[i] != name,
    ensures
        first_index(names, name) is None,
{
}

pub open spec fn simple_names(reg: CommandStore) -> Seq<Seq<u8>> {
    reg.simple_commands@.map_values(|c: SimpleCommand| c.name@)
}

pub open spec fn container_names(reg: CommandStore) -> Seq<Seq<u8>> {
    reg.container_commands@.map_values(|c: ContainerCommand| c.name@)
}

pub open spec fn controller_names(reg: CommandStore) -> Seq<Seq<u8>> {
    reg.controller_commands@.map_values(|c: ControllerCommandDefinition| c.name@)
}

pub open spec fn sub_names(c: ContainerCommand) -> Seq<Seq<u8>> {
    c.subcommands@.map_values(|d: ControllerCommandDefinition| d.name@)
}

/// The server: the fleet of databases, the connections and the registry.
pub struct Controller {
    db: Database,
    cons: ConnectionStore,
    commands: CommandStore,
}

/// `c1` is `c0` with connection `id`'s selected database set to `idx`.
pub open spec fn select_update(c0: ConnectionStore, c1: ConnectionStore, id: ConnectionId, idx: usize) -> bool {
    &&& c1.ids() == c0.ids()
    &&& c1.id_digits() == c0.id_digits()
    &&& c1.addrs() == c0.addrs()
    &&& c1.next_value() == c0.next_value()
    &&& c1.dbs().len() == c0.dbs().len()
    &&& forall|i: int| 0 <= i < c0.dbs().len() ==> #[trigger] c1.dbs()[i] == if c0.id_digits()[i] == id.digit_seq() {
        idx
    } else {
        c0.dbs()[i]
    }
}

impl Controller {
    pub closed spec fn fleet(&self) -> Database {
        self.db
    }

    pub closed spec fn conns(&self) -> ConnectionStore {
        self.cons
    }

    pub closed spec fn registry(&self) -> CommandStore {
        self.commands
    }

    /// The parts are well formed, there is at least one database, and every
    /// connection's selected database exists.
    pub open spec fn wf(&self) -> bool {
        &&& self.fleet().wf()
        &&& self.conns().wf()
        &&& self.registry().wf()
        &&& self.fleet().maps().len() > 0
        &&& forall|i: int| 0 <= i < self.conns().dbs().len() ==> #[trigger] self.conns().dbs()[i] < self.fleet().maps().len()
    }

    /// The database connection `id` works on.
    pub open spec fn selected(&self, id: ConnectionId) -> usize {
        db_of(self.conns().id_digits(), self.conns().dbs(), id.digit_seq())
    }

    /// A server with `db_count` empty databases and no connections.
    pub fn new(db_count: usize) -> (r: Controller)
        requires
            db_count > 0,
        ensures
            r.wf(),
            r.fleet().maps().len() == db_count,
            forall|i: int| 0 <= i < db_count ==> (#[trigger] r.fleet().maps()[i])@ == Map::<Seq<u8>, Stored>::empty(),
            r.conns().ids().len() == 0,
            r.conns().next_value() == 0,
    {
        Controller { db: Database::new(db_count), cons: ConnectionStore::new(), commands: CommandStore::new() }
    }

    /// Registers a connection from `addr` (its `host:port` text).
    pub fn connect(&mut self, addr: Vec<u8>) -> (r: ConnectionId)
        requires
            old(self).wf(),
        ensures
            final(self).wf(),
            r.value() == old(self).conns().next_value(),
            final(self).conns().ids() == old(self).conns().ids().push(r.value()),
            final(self).conns().id_digits() == old(self).conns().id_digits().push(r.digit_seq()),
            final(self).conns().dbs() == old(self).conns().dbs().push(0),
            final(self).conns().addrs() == old(self).conns().addrs().push(addr@),
            final(self).conns().next_value() == old(self).conns().next_value() + 1,
            final(self).fleet() == old(self).fleet(),
            final(self).registry() == old(self).registry(),
    {
        let r = self.cons.connect(addr);
        assert forall|i: int| 0 <= i < self.conns().dbs().len() implies #[trigger] self.conns().dbs()[i] < self.fleet().maps().len() by {
            if i < old(self).conns().dbs().len() {
                assert(self.conns().dbs()[i] == old(self).conns().dbs()[i]);
            }
        };
        r
    }

    /// Forgets a connection.
    pub fn disconnect(&mut self, con_id: &ConnectionId)
        requires
            old(self).wf(),
        ensures
            final(self).wf(),
            !final(self).conns().id_digits().contains(con_id.digit_seq()),
            old(self).conns().id_digits().contains(con_id.digit_seq()) ==> exists|i: int| 0 <= i < old(self).conns().ids().len()
                && #[trigger] old(self).conns().id_digits()[i] == con_id.digit_seq()
                && final(self).conns().ids() == old(self).conns().ids().remove(i)
                && final(self).conns().dbs() == old(self).conns().dbs().remove(i)
                && final(self).conns().addrs() == old(self).conns().addrs().remove(i),
            !old(self).conns().id_digits().contains(con_id.digit_seq()) ==> final(self).conns().ids() == old(self).conns().ids(),
            final(self).conns().next_value() == old(self).conns().next_value(),
            final(self).fleet() == old(self).fleet(),
            final(self).registry() == old(self).registry(),
    {
        self.cons.disconnect(con_id);
        assert forall|i: int| 0 <= i < self.conns().dbs().len() implies #[trigger] self.conns().dbs()[i] < self.fleet().maps().len() by {
            assert(old(self).conns().dbs().contains(self.conns().dbs()[i]));
            let j = choose|j: int| 0 <= j < old(self).conns().dbs().len() && old(self).conns().dbs()[j] == self.conns().dbs()[i];
        };
    }
}

/// What carrying out an effect does to the server and answers.
pub open spec fn interrupt_effect(s0: Controller, s1: Controller, it: Interrupt, con: ConnectionId, r: OutputValue) -> bool {
    let n = s0.fleet().maps().len();
    match it {
        Interrupt::Select(i) => if i < n {
            s1.fleet() == s0.fleet() && s1.registry() == s0.registry() && select_update(s0.conns(), s1.conns(), con, i)
                && r is OkStatus
        } else {
            s1 == s0 && is_error(r, "ERR DB index is out of range".spec_bytes())
        },
        Interrupt::SwapDb(a, b) => if a < n && b < n {
            s1.fleet().maps() == swapped(s0.fleet().maps(), a as int, b as int) && s1.conns() == s0.conns()
                && s1.registry() == s0.registry() && r is OkStatus
        } else if a >= n {
            s1 == s0 && is_error(r, "ERR first DB index is out of range".spec_bytes())
        } else {
            s1 == s0 && is_error(r, "ERR second DB index is out of range".spec_bytes())
        },
        Interrupt::FlushAll => s1.fleet().maps().len() == n && (forall|i: int| 0 <= i < n ==> (#[trigger] s1.fleet().maps()[i])@
            == Map::<Seq<u8>, Stored>::empty()) && s1.conns() == s0.conns() && s1.registry() == s0.registry()
            && r is OkStatus,
        Interrupt::ClientId => s1 == s0 && r == OutputValue::Integer(client_id_value(con.value()) as i64),
        Interrupt::ClientList => s1 == s0 && (r matches OutputValue::BulkString(v) && v@ == client_list_text(
            s0.conns().ids(),
            s0.conns().addrs(),
        )),
        Interrupt::CommandCount => s1 == s0 && r == OutputValue::Integer(command_count() as i64),
        Interrupt::CommandList(f) => s1 == s0 && listing_reply(r, kept_names(entry_names(), f.spec())),
        Interrupt::AclCat(None) => s1 == s0 && is_bulk_array(r, all_categories().map_values(|c: AclCategory| acl_name(c))),
        Interrupt::AclCat(Some(c)) => s1 == s0 && listing_reply(r, kept_names(entry_names(), NameFilter::Category(c))),
    }
}

impl Controller {
    fn handle_interrupt(&mut self, it: Interrupt, con: &ConnectionId) -> (r: OutputValue)
        requires
            old(self).wf(),
        ensures
            final(self).wf(),
            interrupt_effect(*old(self), *final(self), it, *con, r),
    {
        match it {
            Interrupt::Select(i) => {
                if i < self.db.len() {
                    self.cons.set_db(con, i);
                    assert forall|k: int| 0 <= k < self.conns().dbs().len() implies #[trigger] self.conns().dbs()[k]
                        < self.fleet().maps().len() by {
                        assert(old(self).conns().dbs()[k] < self.fleet().maps().len());
                    };
                    OutputValue::OkStatus
                } else {
                    err("ERR DB index is out of range")
                }
            },
            Interrupt::SwapDb(a, b) => {
                let n = self.db.len();
                if a >= n {
                    return err("ERR first DB index is out of range");
                }
                if b >= n {
                    return err("ERR second DB index is out of range");
                }
                self.db.swap(a, b);
                assert forall|k: int| 0 <= k < self.fleet().maps().len() implies (#[trigger] self.fleet().maps()[k]).wf() by {
                    assert(old(self).fleet().maps()[a as int].wf());
                    assert(old(self).fleet().maps()[b as int].wf());
                    assert(old(self).fleet().maps()[k].wf());
                };
                OutputValue::OkStatus
            },
            Interrupt::FlushAll => self.db.flushall(),
            Interrupt::ClientId => OutputValue::Integer(con.to_i64()),
            Interrupt::ClientList => self.cons.list(),
            Interrupt::CommandCount => self.commands.count(),
            Interrupt::CommandList(f) => self.commands.list(&f),
            Interrupt::AclCat(None) => AclCategory::array(),
            Interrupt::AclCat(Some(c)) => self.commands.list(&CommandListFilter::Category(c)),
        }
    }
}

/// Running a server-scoped operation: its arguments give an effect, carried
/// out, or a reply, sent as it is.
pub open spec fn op_outcome(s0: Controller, s1: Controller, op: ControllerOp, a: Seq<Seq<u8>>, con: ConnectionId, r: OutputValue) -> bool {
    exists|res: Result<Interrupt, OutputValue>| #[trigger] controller_op_result(op, a, res) && match res {
        Err(v) => s1 == s0 && r == v,
        Ok(it) => interrupt_effect(s0, s1, it, con, r),
    }
}

/// Dispatch through a container: no argument runs the root handler; else the
/// first argument, lower-cased, names the subcommand that gets the rest.
pub open spec fn container_dispatch(s0: Controller, s1: Controller, c: ContainerCommand, name: Seq<u8>, a: Seq<Seq<u8>>, con: ConnectionId, r: OutputValue) -> bool {
    if a.len() == 0 {
        match c.handler {
            Some(op) => op_outcome(s0, s1, op, a, con, r),
            None => s1 == s0 && is_error(r, wrong_args_msg(name)),
        }
    } else {
        let sub = lower(a[0]);
        match first_index(sub_names(c), sub) {
            None => s1 == s0 && is_error(r, unknown_subcommand_msg(name)),
            Some(j) => {
                let d = c.subcommands@[j];
                let rest = a.drop_first();
                if !arity_ok(d.arity_min, d.arity_max, rest.len()) {
                    s1 == s0 && is_error(r, wrong_args_msg(spaced(name, sub)))
                } else {
                    op_outcome(s0, s1, d.op, rest, con, r)
                }
            },
        }
    }
}

/// What one request does: its first element, lower-cased, names a key-space
/// command, else a container, else a server-scoped command; a command given
/// too few or too many arguments answers an arity error and changes nothing.
pub open spec fn dispatch(s0: Controller, s1: Controller, input: Seq<Seq<u8>>, con: ConnectionId, r: OutputValue) -> bool {
    let name = lower(input[0]);
    let a = input.drop_first();
    let reg = s0.registry();
    match first_index(simple_names(reg), name) {
        Some(i) => {
            let c = reg.simple_commands@[i];
            if !arity_ok(c.arity_min, c.arity_max, a.len()) {
                s1 == s0 && is_error(r, wrong_args_msg(name))
            } else {
                let d = s0.selected(con) as int;
                &&& s1.conns() == s0.conns()
                &&& s1.registry() == s0.registry()
                &&& s1.fleet().maps() == s0.fleet().maps().update(d, s1.fleet().maps()[d])
                &&& map_op_spec(c.op, s0.fleet().maps()[d]@, a, s1.fleet().maps()[d]@, r)
            }
        },
        None => match first_index(container_names(reg), name) {
            Some(i) => container_dispatch(s0, s1, reg.container_commands@[i], name, a, con, r),
            None => match first_index(controller_names(reg), name) {
                Some(i) => {
                    let c = reg.controller_commands@[i];
                    if !arity_ok(c.arity_min, c.arity_max, a.len()) {
                        s1 == s0 && is_error(r, wrong_args_msg(name))
                    } else {
                        op_outcome(s0, s1, c.op, a, con, r)
                    }
                },
                None => s1 == s0 && is_error(r, unknown_command_msg(input[0])),
            },
        },
    }
}

/// Copies all but the first element.
fn tail_of(v: &Vec<Vec<u8>>) -> (r: Vec<Vec<u8>>)
    requires
        v@.len() >= 1,
    ensures
        args_view(r@) == args_view(v@).drop_first(),
{
    let mut r: Vec<Vec<u8>> = Vec::new();
    let mut k: usize = 1;
    while k < v.len()
        invariant
            1 <= k <= v@.len(),
            args_view(r@) == args_view(v@).subrange(1, k as int),
        decreases v@.len() - k,
    {
        let item = slice_to_vec(v[k].as_slice());
        assert(item@ == v@[k as int]@);
        let ghost before = r@;
        let ghost iv = item@;
        r.push(item);
        assert(args_view(r@) =~= args_view(before).push(iv));
        assert(args_view(v@).subrange(1, k + 1) =~= args_view(v@).subrange(1, k as int).push(iv));
        k += 1;
    }
    assert(args_view(v@).subrange(1, k as int) =~= args_view(v@).drop_first());
    r
}

fn spaced_name(cmd: &Vec<u8>, sub: &Vec<u8>) -> (r: Vec<u8>)
    ensures
        r@ == spaced(cmd@, sub@),
{
    let mut r = slice_to_vec(cmd.as_slice());
    r.push(32u8);
    let mut tail = slice_to_vec(sub.as_slice());
    r.append(&mut tail);
    assert(r@ =~= spaced(cmd@, sub@));
    r
}

impl Controller {
    fn finish(&mut self, res: Result<Interrupt, OutputValue>, con: &ConnectionId) -> (r: OutputValue)
        requires
            old(self).wf(),
        ensures
            final(self).wf(),
            match res {
                Err(v) => *final(self) == *old(self) && r == v,
                Ok(it) => interrupt_effect(*old(self), *final(self), it, *con, r),
            },
    {
        match res {
            Err(v) => v,
            Ok(it) => self.handle_interrupt(it, con),
        }
    }

    fn run_op(&mut self, op: ControllerOp, args: &Vec<Vec<u8>>, con: &ConnectionId) -> (r: OutputValue)
        requires
            old(self).wf(),
            args@.len() >= controller_min_args(op),
        ensures
            final(self).wf(),
            op_outcome(*old(self), *final(self), op, args_view(args@), *con, r),
    {
        let res = run_controller_op(op, args);
        let ghost g = res;
        let r = self.finish(res, con);
        assert(controller_op_result(op, args_view(args@), g));
        r
    }

    fn respond_simple(&mut self, i: usize, name: &Vec<u8>, args: Vec<Vec<u8>>, con: &ConnectionId) -> (r: OutputValue)
        requires
            old(self).wf(),
            i < old(self).registry().simple_commands@.len(),
            old(self).registry().simple_commands@[i as int].name@ == name@,
        ensures
            final(self).wf(),
            ({
                let c = old(self).registry().simple_commands@[i as int];
                let a = args_view(args@);
                if !arity_ok(c.arity_min, c.arity_max, a.len()) {
                    *final(self) == *old(self) && is_error(r, wrong_args_msg(name@))
                } else {
                    let d = old(self).selected(*con) as int;
                    &&& final(self).conns() == old(self).conns()
                    &&& final(self).registry() == old(self).registry()
                    &&& final(self).fleet().maps() == old(self).fleet().maps().update(d, final(self).fleet().maps()[d])
                    &&& map_op_spec(c.op, old(self).fleet().maps()[d]@, a, final(self).fleet().maps()[d]@, r)
                }
            }),
    {
        let c = &self.commands.simple_commands[i];
        if !c.is_arity_correct(args.len()) {
            return quote_msg("ERR wrong number of arguments for '", name.as_slice());
        }
        let op = c.op;
        let d = self.cons.get_db(con);
        let n = self.db.len();
        proof {
            lemma_db_of_bound(self.conns().id_digits(), self.conns().dbs(), con.digit_seq(), n);
        }
        let r = run_map_op(op, self.db.get_mut(d), args);
        assert forall|k: int| 0 <= k < self.fleet().maps().len() implies (#[trigger] self.fleet().maps()[k]).wf() by {
            if k != d {
                assert(old(self).fleet().maps()[k].wf());
            }
        };
        r
    }

    fn respond_container(&mut self, i: usize, name: &Vec<u8>, args: Vec<Vec<u8>>, con: &ConnectionId) -> (r: OutputValue)
        requires
            old(self).wf(),
            i < old(self).registry().container_commands@.len(),
        ensures
            final(self).wf(),
            container_dispatch(*old(self), *final(self), old(self).registry().container_commands@[i as int], name@, args_view(args@), *con, r),
    {
        let c = &self.commands.container_commands[i];
        if args.len() == 0 {
            return match c.handler {
                Some(op) => self.run_op(op, &args, con),
                None => quote_msg("ERR wrong number of arguments for '", name.as_slice()),
            };
        }
        let sub = to_lower(args[0].as_slice());
        match find_subcommand(&c.subcommands, sub.as_slice()) {
            None => {
                proof {
                    lemma_first_none(sub_names(*c), sub@);
                }
                quote_msg("ERR unknown subcommand for '", name.as_slice())
            },
            Some(j) => {
                proof {
                    lemma_first_index(sub_names(*c), sub@, j as int);
                }
                let d = &c.subcommands[j];
                let rest = tail_of(&args);
                if !d.is_arity_correct(rest.len()) {
                    let full = spaced_name(name, &sub);
                    return quote_msg("ERR wrong number of arguments for '", full.as_slice());
                }
                let op = d.op;
                self.run_op(op, &rest, con)
            },
        }
    }

    /// Runs one request and answers it.
    pub fn respond(&mut self, input: &Vec<Vec<u8>>, con_id: &ConnectionId) -> (r: OutputValue)
        requires
            old(self).wf(),
            input@.len() >= 1,
        ensures
            final(self).wf(),
            dispatch(*old(self), *final(self), args_view(input@), *con_id, r),
    {
        let name = to_lower(input[0].as_slice());
        let args = tail_of(input);
        let ghost a = args_view(input@);
        match self.commands.find_simple(name.as_slice()) {
            Some(i) => {
                proof {
                    lemma_first_index(simple_names(self.registry()), name@, i as int);
                }
                return self.respond_simple(i, &name, args, con_id);
            },
            None => {
                proof {
                    lemma_first_none(simple_names(self.registry()), name@);
                }
            },
        }
        match self.commands.find_container(name.as_slice()) {
            Some(i) => {
                proof {
                    lemma_first_index(container_names(self.registry()), name@, i as int);
                }
                return self.respond_container(i, &name, args, con_id);
            },
            None => {
                proof {
                    lemma_first_none(container_names(self.registry()), name@);
                }
            },
        }
        match self.commands.find_controller(name.as_slice()) {
            Some(i) => {
                proof {
                    lemma_first_index(controller_names(self.registry()), name@, i as int);
                }
                let c = &self.commands.controller_commands[i];
                if !c.is_arity_correct(args.len()) {
                    return quote_msg("ERR wrong number of arguments for '", name.as_slice());
                }
                let op = c.op;
                self.run_op(op, &args, con_id)
            },
            None => {
                proof {
                    lemma_first_none(controller_names(self.registry()), name@);
                }
                quote_msg("ERR unknown command '", input[0].as_slice())
            },
        }
    }

    /// Runs one request and answers it in RESP2 bytes.
    pub fn execute(&mut self, input: &Vec<Vec<u8>>, con_id: &ConnectionId) -> (r: Vec<u8>)
        requires
            old(self).wf(),
            input@.len() >= 1,
        ensures
            final(self).wf(),
            exists|v: OutputValue| r@ == encode(v) && dispatch(*old(self), *final(self), args_view(input@), *con_id, v),
    {
        let v = self.respond(input, con_id);
        v.to_bytes_vec()
    }
}

/// `SWAPDB a b` twice leaves the databases, the connections and the registry
/// as they were.
pub proof fn law_swapdb_twice(
    s0: Controller,
    s1: Controller,
    s2: Controller,
    a: usize,
    b: usize,
    con: ConnectionId,
    r1: OutputValue,
    r2: OutputValue,
)
    requires
        interrupt_effect(s0, s1, Interrupt::SwapDb(a, b), con, r1),
        interrupt_effect(s1, s2, Interrupt::SwapDb(a, b), con, r2),
    ensures
        s2.fleet().maps() == s0.fleet().maps(),
        s2.conns() == s0.conns(),
        s2.registry() == s0.registry(),
{
    let n = s0.fleet().maps().len();
    if a < n && b < n {
        swap_twice_restores(s0.fleet().maps(), a as int, b as int);
    }
}

/// One request taken off the front of buffer `b0` and answered with `reply`;
/// a request with no elements names no command.
pub open spec fn batch_step(s0: Controller, b0: Seq<u8>, s1: Controller, b1: Seq<u8>, con: ConnectionId, reply: Seq<u8>) -> bool {
    match spec_request(b0) {
        Some(Ok((items, p))) => b1 == b0.subrange(p, b0.len() as int) && exists|v: OutputValue|
            #[trigger] encode(v) == reply && if items.len() == 0 {
                s1 == s0 && is_error(v, unknown_command_msg(Seq::empty()))
            } else {
                dispatch(s0, s1, items, con, v)
            },
        _ => false,
    }
}

/// How a batch ends: nothing complete is left, or a malformed frame is
/// answered with its error and the buffer dropped.
pub open spec fn batch_end(s0: Controller, b0: Seq<u8>, s1: Controller, b1: Seq<u8>, rest: Seq<Seq<u8>>) -> bool {
    match spec_request(b0) {
        None => rest.len() == 0 && s1 == s0 && b1 == b0,
        Some(Err(e)) => rest == seq![seq![45u8] + parse_error_text(e) + crlf()] && s1 == s0 && b1 == Seq::<u8>::empty(),
        Some(Ok(_)) => false,
    }
}

/// The servers and buffers that a run of answered requests passes through.
pub open spec fn batch_run(states: Seq<Controller>, bufs: Seq<Seq<u8>>, con: ConnectionId, rs: Seq<Seq<u8>>) -> bool {
    &&& states.len() == rs.len() + 1
    &&& bufs.len() == rs.len() + 1
    &&& forall|i: int| 0 <= i < rs.len() ==> batch_step(states[i], bufs[i], states[i + 1], bufs[i + 1], con, #[trigger] rs[i])
}

pub open spec fn replies_view(rs: Seq<Vec<u8>>) -> Seq<Seq<u8>> {
    rs.map_values(|r: Vec<u8>| r@)
}

impl Controller {
    /// Takes every complete request off the parser and answers each, in
    /// order. A malformed frame is answered with its error, and the rest of
    /// the batch is dropped.
    pub fn handle_batch(&mut self, parser: &mut Parser, con_id: &ConnectionId) -> (r: Vec<Vec<u8>>)
        requires
            old(self).wf(),
        ensures
            final(self).wf(),
            exists|states: Seq<Controller>, bufs: Seq<Seq<u8>>, n: int|
                0 <= n <= r@.len() && #[trigger] batch_run(states, bufs, *con_id, replies_view(r@).subrange(0, n))
                    && states[0] == *old(self) && bufs[0] == old(parser).pending() && batch_end(
                    states.last(),
                    bufs.last(),
                    *final(self),
                    final(parser).pending(),
                    replies_view(r@).subrange(n, r@.len() as int),
                ),
    {
        let mut replies: Vec<Vec<u8>> = Vec::new();
        let ghost mut states: Seq<Controller> = seq![*self];
        let ghost mut bufs: Seq<Seq<u8>> = seq![parser.pending()];
        loop
            invariant
                self.wf(),
                batch_run(states, bufs, *con_id, replies_view(replies@)),
                states[0] == *old(self),
                bufs[0] == old(parser).pending(),
                states.last() == *self,
                bufs.last() == parser.pending(),
            decreases parser.pending().len(),
        {
            let ghost before = parser.pending();
            let ghost s_before = *self;
            match parser.parse() {
                None => {
                    proof {
                        assert(replies_view(replies@).subrange(0, replies@.len() as int) =~= replies_view(replies@));
                        assert(replies_view(replies@).subrange(replies@.len() as int, replies@.len() as int) =~= Seq::<Seq<u8>>::empty());
                    }
                    return replies;
                },
                Some(Err(e)) => {
                    let ghost n = replies@.len() as int;
                    let ghost old_replies = replies@;
                    let bytes = e.message().to_redis_error();
                    replies.push(bytes);
                    proof {
                        assert(replies_view(replies@).subrange(0, n) =~= replies_view(old_replies));
                        assert(batch_run(states, bufs, *con_id, replies_view(replies@).subrange(0, n)));
                        assert(spec_request(bufs.last()) == Some(Err::<(Seq<Seq<u8>>, int), crate::parser::ParseError>(e)));
                        assert(replies_view(replies@).subrange(n, replies@.len() as int) =~= seq![seq![45u8] + parse_error_text(e) + crlf()]);
                    }
                    return replies;
                },
                Some(Ok(v)) => {
                    proof {
                        lemma_request_progress(before);
                    }
                    let ghost items = spec_request(before)->0->Ok_0.0;
                    let ghost pv = v;
                    assert(is_request(pv, items));
                    let reply = match remove_non_command_values(v) {
                        Ok(args) => {
                            if args.len() == 0 {
                                let e = quote_msg("ERR unknown command '", &[]);
                                e.to_bytes_vec()
                            } else {
                                self.execute(&args, con_id)
                            }
                        },
                        Err(_) => {
                            proof {
                                assert(false);
                            }
                            Vec::new()
                        },
                    };
                    let ghost old_replies = replies@;
                    replies.push(reply);
                    proof {
                        let rv = replies_view(replies@);
                        let k = old_replies.len() as int;
                        let new_states = states.push(*self);
                        let new_bufs = bufs.push(parser.pending());
                        assert(batch_step(s_before, before, *self, parser.pending(), *con_id, rv[k]));
                        assert forall|i: int| 0 <= i < rv.len() implies batch_step(new_states[i], new_bufs[i], new_states[i + 1], new_bufs[i + 1], *con_id, #[trigger] rv[i]) by {
                            if i < k {
                                assert(rv[i] == replies_view(old_replies)[i]);
                            }
                        };
                        states = new_states;
                        bufs = new_bufs;
                    }
                },
            }
        }
    }
}

} // verus!
