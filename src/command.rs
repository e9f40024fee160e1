//! The command registry: which commands exist, their arity bounds, ACL
//! categories and dispatch scope.
use vstd::prelude::*;
use vstd::string::*;
use crate::acl::AclCategory;
use crate::glob::{Finder, glob_match};
use crate::reply::OutputValue;
use crate::text::{bytes_eq, bytes_of};

verus! {

broadcast use vstd::std_specs::vec::group_vec_axioms, vstd::seq::group_seq_axioms, vstd::slice::group_slice_axioms;

/// Operations on one database.
#[derive(PartialEq, Eq, Structural, Clone, Copy, Debug)]
pub enum MapOp {
    Ping,
    Echo,
    DbSize,
    Exists,
    Del,
    Keys,
    FlushDb,
    Get,
    SetValue,
    MGet,
    MSet,
    MSetNx,
    Append,
    Strlen,
    Incr,
    Decr,
    IncrBy,
    DecrBy,
}

/// Operations on connections, the fleet or the registry.
#[derive(PartialEq, Eq, Structural, Clone, Copy, Debug)]
pub enum ControllerOp {
    Select,
    FlushAll,
    SwapDb,
    AclCat,
    ClientId,
    ClientList,
    CommandRoot,
    CommandCount,
    CommandList,
    FunctionFlush,
    ConfigGet,
}

/// A key-space command.
#[derive(Debug)]
pub struct SimpleCommand {
    pub name: Vec<u8>,
    pub op: MapOp,
    pub category: Vec<AclCategory>,
    pub arity_min: usize,
    pub arity_max: Option<usize>,
}

/// A command handled with access to connections, the fleet or the registry.
#[derive(Debug)]
pub struct ControllerCommandDefinition {
    pub name: Vec<u8>,
    pub op: ControllerOp,
    pub category: Vec<AclCategory>,
    pub arity_min: usize,
    pub arity_max: Option<usize>,
}

/// A command whose first argument names a subcommand.
#[derive(Debug)]
pub struct ContainerCommand {
    pub name: Vec<u8>,
    /// What runs when no subcommand is given.
    pub handler: Option<ControllerOp>,
    pub category: Vec<AclCategory>,
    pub subcommands: Vec<ControllerCommandDefinition>,
}

pub struct SimpleSpec {
    pub name: Seq<u8>,
    pub op: MapOp,
    pub category: Seq<AclCategory>,
    pub arity_min: usize,
    pub arity_max: Option<usize>,
}

pub struct ControllerSpec {
    pub name: Seq<u8>,
    pub op: ControllerOp,
    pub category: Seq<AclCategory>,
    pub arity_min: usize,
    pub arity_max: Option<usize>,
}

pub struct ContainerSpec {
    pub name: Seq<u8>,
    pub handler: Option<ControllerOp>,
    pub category: Seq<AclCategory>,
    pub subcommands: Seq<ControllerSpec>,
}

/// The fewest arguments an operation reads.
pub open spec fn map_min_args(op: MapOp) -> nat {
    match op {
        MapOp::Echo | MapOp::Keys | MapOp::Get | MapOp::Strlen | MapOp::Incr | MapOp::Decr => 1,
        MapOp::SetValue | MapOp::Append | MapOp::IncrBy | MapOp::DecrBy => 2,
        _ => 0,
    }
}

/// The fewest arguments a server-scoped operation reads.
pub open spec fn controller_min_args(op: ControllerOp) -> nat {
    match op {
        ControllerOp::Select => 1,
        ControllerOp::SwapDb => 2,
        _ => 0,
    }
}

/// Whether `n` arguments lie within the bounds.
pub open spec fn arity_ok(min: usize, max: Option<usize>, n: nat) -> bool {
    min <= n && match max {
        Some(m) => n <= m,
        None => true,
    }
}

fn arity_within(min: usize, max: Option<usize>, n: usize) -> (r: bool)
    ensures
        r == arity_ok(min, max, n as nat),
{
    if n < min {
        false
    } else {
        match max {
            Some(m) => n <= m,
            None => true,
        }
    }
}

impl SimpleCommand {
    pub open spec fn spec(&self) -> SimpleSpec {
        SimpleSpec {
            name: self.name@,
            op: self.op,
            category: self.category@,
            arity_min: self.arity_min,
            arity_max: self.arity_max,
        }
    }

    fn define(name: &str, op: MapOp, category: Vec<AclCategory>, arity_min: usize, arity_max: Option<usize>) -> (r: SimpleCommand)
        ensures
            r.spec() == (SimpleSpec { name: name.spec_bytes(), op, category: category@, arity_min, arity_max }),
    {
        SimpleCommand { name: bytes_of(name), op, category, arity_min, arity_max }
    }

    /// Whether `arity` arguments are accepted.
    pub fn is_arity_correct(&self, arity: usize) -> (r: bool)
        ensures
            r == arity_ok(self.arity_min, self.arity_max, arity as nat),
    {
        arity_within(self.arity_min, self.arity_max, arity)
    }
}

impl ControllerCommandDefinition {
    pub open spec fn spec(&self) -> ControllerSpec {
        ControllerSpec {
            name: self.name@,
            op: self.op,
            category: self.category@,
            arity_min: self.arity_min,
            arity_max: self.arity_max,
        }
    }

    fn define(name: &str, op: ControllerOp, category: Vec<AclCategory>, arity_min: usize, arity_max: Option<usize>) -> (r: ControllerCommandDefinition)
        ensures
            r.spec() == (ControllerSpec { name: name.spec_bytes(), op, category: category@, arity_min, arity_max }),
    {
        ControllerCommandDefinition { name: bytes_of(name), op, category, arity_min, arity_max }
    }

    /// Whether `arity` arguments are accepted.
    pub fn is_arity_correct(&self, arity: usize) -> (r: bool)
        ensures
            r == arity_ok(self.arity_min, self.arity_max, arity as nat),
    {
        arity_within(self.arity_min, self.arity_max, arity)
    }
}

impl ContainerCommand {
    pub open spec fn spec(&self) -> ContainerSpec {
        ContainerSpec {
            name: self.name@,
            handler: self.handler,
            category: self.category@,
            subcommands: self.subcommands@.map_values(|c: ControllerCommandDefinition| c.spec()),
        }
    }

    /// Whether `arity` arguments are accepted: without a root handler a
    /// subcommand is required.
    pub fn is_arity_correct(&self, arity: usize) -> (r: bool)
        ensures
            r == (self.handler is Some || arity >= 1),
    {
        self.handler.is_some() || arity >= 1
    }
}

/// The key-space commands: name, operation, categories, arity bounds.
#[verifier::opaque]
pub open spec fn simple_table() -> Seq<SimpleSpec> {
    seq![
        SimpleSpec { name: "flushdb".spec_bytes(), op: MapOp::FlushDb, category: seq![AclCategory::Keyspace, AclCategory::Write, AclCategory::Slow, AclCategory::Dangerous], arity_min: 0, arity_max: Some(0usize) },
        SimpleSpec { name: "ping".spec_bytes(), op: MapOp::Ping, category: seq![AclCategory::Fast, AclCategory::Connection], arity_min: 0, arity_max: Some(1usize) },
        SimpleSpec { name: "echo".spec_bytes(), op: MapOp::Echo, category: seq![AclCategory::Fast, AclCategory::Connection], arity_min: 1, arity_max: Some(1usize) },
        SimpleSpec { name: "dbsize".spec_bytes(), op: MapOp::DbSize, category: seq![AclCategory::Keyspace, AclCategory::Read, AclCategory::Fast], arity_min: 0, arity_max: Some(0usize) },
        SimpleSpec { name: "exists".spec_bytes(), op: MapOp::Exists, category: seq![AclCategory::Keyspace, AclCategory::Read, AclCategory::Fast], arity_min: 1, arity_max: None::<usize> },
        SimpleSpec { name: "del".spec_bytes(), op: MapOp::Del, category: seq![AclCategory::Keyspace, AclCategory::Write, AclCategory::Slow], arity_min: 1, arity_max: None::<usize> },
        SimpleSpec { name: "keys".spec_bytes(), op: MapOp::Keys, category: seq![AclCategory::Keyspace, AclCategory::Read, AclCategory::Slow, AclCategory::Dangerous], arity_min: 1, arity_max: Some(1usize) },
        SimpleSpec { name: "get".spec_bytes(), op: MapOp::Get, category: seq![AclCategory::Read, AclCategory::String, AclCategory::Fast], arity_min: 1, arity_max: Some(1usize) },
        SimpleSpec { name: "set".spec_bytes(), op: MapOp::SetValue, category: seq![AclCategory::Write, AclCategory::String, AclCategory::Slow], arity_min: 2, arity_max: Some(5usize) },
        SimpleSpec { name: "mget".spec_bytes(), op: MapOp::MGet, category: seq![AclCategory::Read, AclCategory::String, AclCategory::Fast], arity_min: 1, arity_max: None::<usize> },
        SimpleSpec { name: "mset".spec_bytes(), op: MapOp::MSet, category: seq![AclCategory::Write, AclCategory::String, AclCategory::Slow], arity_min: 2, arity_max: None::<usize> },
        SimpleSpec { name: "msetnx".spec_bytes(), op: MapOp::MSetNx, category: seq![AclCategory::Write, AclCategory::String, AclCategory::Slow], arity_min: 2, arity_max: None::<usize> },
        SimpleSpec { name: "append".spec_bytes(), op: MapOp::Append, category: seq![AclCategory::Write, AclCategory::String, AclCategory::Fast], arity_min: 2, arity_max: Some(2usize) },
        SimpleSpec { name: "strlen".spec_bytes(), op: MapOp::Strlen, category: seq![AclCategory::Read, AclCategory::String, AclCategory::Fast], arity_min: 1, arity_max: Some(1usize) },
        SimpleSpec { name: "incr".spec_bytes(), op: MapOp::Incr, category: seq![AclCategory::Write, AclCategory::String, AclCategory::Fast], arity_min: 1, arity_max: Some(1usize) },
        SimpleSpec { name: "decr".spec_bytes(), op: MapOp::Decr, category: seq![AclCategory::Write, AclCategory::String, AclCategory::Fast], arity_min: 1, arity_max: Some(1usize) },
        SimpleSpec { name: "incrby".spec_bytes(), op: MapOp::IncrBy, category: seq![AclCategory::Write, AclCategory::String, AclCategory::Fast], arity_min: 2, arity_max: Some(2usize) },
        SimpleSpec { name: "decrby".spec_bytes(), op: MapOp::DecrBy, category: seq![AclCategory::Write, AclCategory::String, AclCategory::Fast], arity_min: 2, arity_max: Some(2usize) },
    ]
}

/// The server-scoped commands.
#[verifier::opaque]
pub open spec fn controller_table() -> Seq<ControllerSpec> {
    seq![
        ControllerSpec { name: "select".spec_bytes(), op: ControllerOp::Select, category: seq![AclCategory::Fast, AclCategory::Connection], arity_min: 1, arity_max: Some(1usize) },
        ControllerSpec { name: "flushall".spec_bytes(), op: ControllerOp::FlushAll, category: seq![AclCategory::Keyspace, AclCategory::Write, AclCategory::Slow, AclCategory::Dangerous], arity_min: 0, arity_max: Some(0usize) },
        ControllerSpec { name: "swapdb".spec_bytes(), op: ControllerOp::SwapDb, category: seq![AclCategory::Keyspace, AclCategory::Write, AclCategory::Fast, AclCategory::Dangerous], arity_min: 2, arity_max: Some(2usize) },
    ]
}

/// The container commands, each with its subcommands.
#[verifier::opaque]
pub open spec fn container_table() -> Seq<ContainerSpec> {
    seq![
        ContainerSpec { name: "acl".spec_bytes(), handler: None::<ControllerOp>, category: seq![AclCategory::Slow], subcommands: seq![ControllerSpec { name: "cat".spec_bytes(), op: ControllerOp::AclCat, category: seq![AclCategory::Slow], arity_min: 0, arity_max: Some(1usize) }] },
        ContainerSpec { name: "client".spec_bytes(), handler: None::<ControllerOp>, category: seq![AclCategory::Slow], subcommands: seq![ControllerSpec { name: "id".spec_bytes(), op: ControllerOp::ClientId, category: seq![AclCategory::Slow, AclCategory::Connection], arity_min: 0, arity_max: Some(0usize) }, ControllerSpec { name: "list".spec_bytes(), op: ControllerOp::ClientList, category: seq![AclCategory::Admin, AclCategory::Slow, AclCategory::Dangerous, AclCategory::Connection], arity_min: 0, arity_max: Some(0usize) }] },
        ContainerSpec { name: "command".spec_bytes(), handler: Some(ControllerOp::CommandRoot), category: seq![AclCategory::Slow, AclCategory::Connection], subcommands: seq![ControllerSpec { name: "count".spec_bytes(), op: ControllerOp::CommandCount, category: seq![AclCategory::Slow, AclCategory::Connection], arity_min: 0, arity_max: Some(0usize) }, ControllerSpec { name: "list".spec_bytes(), op: ControllerOp::CommandList, category: seq![AclCategory::Slow, AclCategory::Connection], arity_min: 0, arity_max: Some(3usize) }] },
        ContainerSpec { name: "function".spec_bytes(), handler: None::<ControllerOp>, category: seq![AclCategory::Slow], subcommands: seq![ControllerSpec { name: "flush".spec_bytes(), op: ControllerOp::FunctionFlush, category: seq![AclCategory::Write, AclCategory::Slow, AclCategory::Scripting], arity_min: 0, arity_max: Some(1usize) }] },
        ContainerSpec { name: "config".spec_bytes(), handler: None::<ControllerOp>, category: seq![AclCategory::Slow], subcommands: seq![ControllerSpec { name: "get".spec_bytes(), op: ControllerOp::ConfigGet, category: seq![AclCategory::Admin, AclCategory::Slow, AclCategory::Dangerous], arity_min: 1, arity_max: None::<usize> }] },
    ]
}

fn initialise_simple_commands() -> (r: Vec<SimpleCommand>)
    ensures
        r@.map_values(|c: SimpleCommand| c.spec()) == simple_table(),
        forall|i: int| 0 <= i < r@.len() ==> (#[trigger] r@[i]).arity_min >= map_min_args(r@[i].op),
        r@.len() <= 64,
{
    reveal(simple_table);
    let mut t: Vec<SimpleCommand> = Vec::new();
    t.push(SimpleCommand::define("flushdb", MapOp::FlushDb, vec![AclCategory::Keyspace, AclCategory::Write, AclCategory::Slow, AclCategory::Dangerous], 0, Some(0usize)));
    t.push(SimpleCommand::define("ping", MapOp::Ping, vec![AclCategory::Fast, AclCategory::Connection], 0, Some(1usize)));
    t.push(SimpleCommand::define("echo", MapOp::Echo, vec![AclCategory::Fast, AclCategory::Connection], 1, Some(1usize)));
    t.push(SimpleCommand::define("dbsize", MapOp::DbSize, vec![AclCategory::Keyspace, AclCategory::Read, AclCategory::Fast], 0, Some(0usize)));
    t.push(SimpleCommand::define("exists", MapOp::Exists, vec![AclCategory::Keyspace, AclCategory::Read, AclCategory::Fast], 1, None));
    t.push(SimpleCommand::define("del", MapOp::Del, vec![AclCategory::Keyspace, AclCategory::Write, AclCategory::Slow], 1, None));
    t.push(SimpleCommand::define("keys", MapOp::Keys, vec![AclCategory::Keyspace, AclCategory::Read, AclCategory::Slow, AclCategory::Dangerous], 1, Some(1usize)));
    t.push(SimpleCommand::define("get", MapOp::Get, vec![AclCategory::Read, AclCategory::String, AclCategory::Fast], 1, Some(1usize)));
    t.push(SimpleCommand::define("set", MapOp::SetValue, vec![AclCategory::Write, AclCategory::String, AclCategory::Slow], 2, Some(5usize)));
    t.push(SimpleCommand::define("mget", MapOp::MGet, vec![AclCategory::Read, AclCategory::String, AclCategory::Fast], 1, None));
    t.push(SimpleCommand::define("mset", MapOp::MSet, vec![AclCategory::Write, AclCategory::String, AclCategory::Slow], 2, None));
    t.push(SimpleCommand::define("msetnx", MapOp::MSetNx, vec![AclCategory::Write, AclCategory::String, AclCategory::Slow], 2, None));
    t.push(SimpleCommand::define("append", MapOp::Append, vec![AclCategory::Write, AclCategory::String, AclCategory::Fast], 2, Some(2usize)));
    t.push(SimpleCommand::define("strlen", MapOp::Strlen, vec![AclCategory::Read, AclCategory::String, AclCategory::Fast], 1, Some(1usize)));
    t.push(SimpleCommand::define("incr", MapOp::Incr, vec![AclCategory::Write, AclCategory::String, AclCategory::Fast], 1, Some(1usize)));
    t.push(SimpleCommand::define("decr", MapOp::Decr, vec![AclCategory::Write, AclCategory::String, AclCategory::Fast], 1, Some(1usize)));
    t.push(SimpleCommand::define("incrby", MapOp::IncrBy, vec![AclCategory::Write, AclCategory::String, AclCategory::Fast], 2, Some(2usize)));
    t.push(SimpleCommand::define("decrby", MapOp::DecrBy, vec![AclCategory::Write, AclCategory::String, AclCategory::Fast], 2, Some(2usize)));
    proof {
        assert(t@.map_values(|c: SimpleCommand| c.spec()) =~= simple_table());
        assert forall|i: int| 0 <= i < t@.len() implies (#[trigger] t@[i]).arity_min >= map_min_args(t@[i].op) by {
            if i == 0 {} else if i == 1 {} else if i == 2 {} else if i == 3 {} else if i == 4 {} else if i == 5 {} else if i == 6 {} else if i == 7 {} else if i == 8 {} else if i == 9 {} else if i == 10 {} else if i == 11 {} else if i == 12 {} else if i == 13 {} else if i == 14 {} else if i == 15 {} else if i == 16 {} else if i == 17 {}
        };
    }
    t
}

fn initialise_controller_commands() -> (r: Vec<ControllerCommandDefinition>)
    ensures
        r@.map_values(|c: ControllerCommandDefinition| c.spec()) == controller_table(),
        forall|i: int| 0 <= i < r@.len() ==> (#[trigger] r@[i]).arity_min >= controller_min_args(r@[i].op),
        r@.len() <= 64,
{
    reveal(controller_table);
    let mut t: Vec<ControllerCommandDefinition> = Vec::new();
    t.push(ControllerCommandDefinition::define("select", ControllerOp::Select, vec![AclCategory::Fast, AclCategory::Connection], 1, Some(1usize)));
    t.push(ControllerCommandDefinition::define("flushall", ControllerOp::FlushAll, vec![AclCategory::Keyspace, AclCategory::Write, AclCategory::Slow, AclCategory::Dangerous], 0, Some(0usize)));
    t.push(ControllerCommandDefinition::define("swapdb", ControllerOp::SwapDb, vec![AclCategory::Keyspace, AclCategory::Write, AclCategory::Fast, AclCategory::Dangerous], 2, Some(2usize)));
    proof {
        assert(t@.map_values(|c: ControllerCommandDefinition| c.spec()) =~= controller_table());
        assert forall|i: int| 0 <= i < t@.len() implies (#[trigger] t@[i]).arity_min >= controller_min_args(t@[i].op) by {
            if i == 0 {} else if i == 1 {} else if i == 2 {}
        };
    }
    t
}

proof fn lemma_same_controller_spec(a: ControllerSpec, b: ControllerSpec)
    requires
        a.name =~= b.name,
        a.category =~= b.category,
        a.op == b.op,
        a.arity_min == b.arity_min,
        a.arity_max == b.arity_max,
    ensures
        a == b,
{
}

proof fn lemma_same_container_spec(a: ContainerSpec, b: ContainerSpec)
    requires
        a.name =~= b.name,
        a.category =~= b.category,
        a.handler == b.handler,
        a.subcommands =~= b.subcommands,
    ensures
        a == b,
{
}

fn acl_container() -> (r: ContainerCommand)
    ensures
        r.spec() == container_table()[0],
        r.subcommands@.len() == 1,
        forall|j: int| 0 <= j < r.subcommands@.len() ==> (#[trigger] r.subcommands@[j]).arity_min >= controller_min_args(r.subcommands@[j].op),
        r.handler matches Some(op) ==> controller_min_args(op) == 0,
{
    reveal(container_table);
    let mut subs: Vec<ControllerCommandDefinition> = Vec::new();
    subs.push(ControllerCommandDefinition::define("cat", ControllerOp::AclCat, vec![AclCategory::Slow], 0, Some(1usize)));
    let r = ContainerCommand { name: bytes_of("acl"), handler: None, category: vec![AclCategory::Slow], subcommands: subs };
    assert(r.subcommands@.len() == 1);
    proof {
        lemma_same_controller_spec(r.subcommands@[0].spec(), container_table()[0].subcommands[0]);
        lemma_same_container_spec(r.spec(), container_table()[0]);
    }
    assert forall|j: int| 0 <= j < r.subcommands@.len() implies (#[trigger] r.subcommands@[j]).arity_min >= controller_min_args(r.subcommands@[j].op) by {
        if j == 0 {}
    };
    r
}

fn client_container() -> (r: ContainerCommand)
    ensures
        r.spec() == container_table()[1],
        r.subcommands@.len() == 2,
        forall|j: int| 0 <= j < r.subcommands@.len() ==> (#[trigger] r.subcommands@[j]).arity_min >= controller_min_args(r.subcommands@[j].op),
        r.handler matches Some(op) ==> controller_min_args(op) == 0,
{
    reveal(container_table);
    let mut subs: Vec<ControllerCommandDefinition> = Vec::new();
    subs.push(ControllerCommandDefinition::define("id", ControllerOp::ClientId, vec![AclCategory::Slow, AclCategory::Connection], 0, Some(0usize)));
    subs.push(ControllerCommandDefinition::define("list", ControllerOp::ClientList, vec![AclCategory::Admin, AclCategory::Slow, AclCategory::Dangerous, AclCategory::Connection], 0, Some(0usize)));
    let r = ContainerCommand { name: bytes_of("client"), handler: None, category: vec![AclCategory::Slow], subcommands: subs };
    assert(r.subcommands@.len() == 2);
    proof {
        lemma_same_controller_spec(r.subcommands@[0].spec(), container_table()[1].subcommands[0]);
        lemma_same_controller_spec(r.subcommands@[1].spec(), container_table()[1].subcommands[1]);
        lemma_same_container_spec(r.spec(), container_table()[1]);
    }
    assert forall|j: int| 0 <= j < r.subcommands@.len() implies (#[trigger] r.subcommands@[j]).arity_min >= controller_min_args(r.subcommands@[j].op) by {
        if j == 0 {} else if j == 1 {}
    };
    r
}

fn command_container() -> (r: ContainerCommand)
    ensures
        r.spec() == container_table()[2],
        r.subcommands@.len() == 2,
        forall|j: int| 0 <= j < r.subcommands@.len() ==> (#[trigger] r.subcommands@[j]).arity_min >= controller_min_args(r.subcommands@[j].op),
        r.handler matches Some(op) ==> controller_min_args(op) == 0,
{
    reveal(container_table);
    let mut subs: Vec<ControllerCommandDefinition> = Vec::new();
    subs.push(ControllerCommandDefinition::define("count", ControllerOp::CommandCount, vec![AclCategory::Slow, AclCategory::Connection], 0, Some(0usize)));
    subs.push(ControllerCommandDefinition::define("list", ControllerOp::CommandList, vec![AclCategory::Slow, AclCategory::Connection], 0, Some(3usize)));
    let r = ContainerCommand { name: bytes_of("command"), handler: Some(ControllerOp::CommandRoot), category: vec![AclCategory::Slow, AclCategory::Connection], subcommands: subs };
    assert(r.subcommands@.len() == 2);
    proof {
        lemma_same_controller_spec(r.subcommands@[0].spec(), container_table()[2].subcommands[0]);
        lemma_same_controller_spec(r.subcommands@[1].spec(), container_table()[2].subcommands[1]);
        lemma_same_container_spec(r.spec(), container_table()[2]);
    }
    assert forall|j: int| 0 <= j < r.subcommands@.len() implies (#[trigger] r.subcommands@[j]).arity_min >= controller_min_args(r.subcommands@[j].op) by {
        if j == 0 {} else if j == 1 {}
    };
    r
}

fn function_container() -> (r: ContainerCommand)
    ensures
        r.spec() == container_table()[3],
        r.subcommands@.len() == 1,
        forall|j: int| 0 <= j < r.subcommands@.len() ==> (#[trigger] r.subcommands@[j]).arity_min >= controller_min_args(r.subcommands@[j].op),
        r.handler matches Some(op) ==> controller_min_args(op) == 0,
{
    reveal(container_table);
    let mut subs: Vec<ControllerCommandDefinition> = Vec::new();
    subs.push(ControllerCommandDefinition::define("flush", ControllerOp::FunctionFlush, vec![AclCategory::Write, AclCategory::Slow, AclCategory::Scripting], 0, Some(1usize)));
    let r = ContainerCommand { name: bytes_of("function"), handler: None, category: vec![AclCategory::Slow], subcommands: subs };
    assert(r.subcommands@.len() == 1);
    proof {
        lemma_same_controller_spec(r.subcommands@[0].spec(), container_table()[3].subcommands[0]);
        lemma_same_container_spec(r.spec(), container_table()[3]);
    }
    assert forall|j: int| 0 <= j < r.subcommands@.len() implies (#[trigger] r.subcommands@[j]).arity_min >= controller_min_args(r.subcommands@[j].op) by {
        if j == 0 {}
    };
    r
}

fn config_container() -> (r: ContainerCommand)
    ensures
        r.spec() == container_table()[4],
        r.subcommands@.len() == 1,
        forall|j: int| 0 <= j < r.subcommands@.len() ==> (#[trigger] r.subcommands@[j]).arity_min >= controller_min_args(r.subcommands@[j].op),
        r.handler matches Some(op) ==> controller_min_args(op) == 0,
{
    reveal(container_table);
    let mut subs: Vec<ControllerCommandDefinition> = Vec::new();
    subs.push(ControllerCommandDefinition::define("get", ControllerOp::ConfigGet, vec![AclCategory::Admin, AclCategory::Slow, AclCategory::Dangerous], 1, None));
    let r = ContainerCommand { name: bytes_of("config"), handler: None, category: vec![AclCategory::Slow], subcommands: subs };
    assert(r.subcommands@.len() == 1);
    proof {
        lemma_same_controller_spec(r.subcommands@[0].spec(), container_table()[4].subcommands[0]);
        lemma_same_container_spec(r.spec(), container_table()[4]);
    }
    assert forall|j: int| 0 <= j < r.subcommands@.len() implies (#[trigger] r.subcommands@[j]).arity_min >= controller_min_args(r.subcommands@[j].op) by {
        if j == 0 {}
    };
    r
}

fn initialise_container_commands() -> (r: Vec<ContainerCommand>)
    ensures
        r@.map_values(|c: ContainerCommand| c.spec()) == container_table(),
        forall|i: int| 0 <= i < r@.len() ==> (#[trigger] r@[i]).subcommands@.len() <= 2,
        forall|i: int, j: int| 0 <= i < r@.len() && 0 <= j < r@[i].subcommands@.len() ==> (#[trigger] r@[i].subcommands@[j]).arity_min >= controller_min_args(r@[i].subcommands@[j].op),
        forall|i: int| 0 <= i < r@.len() ==> ((#[trigger] r@[i]).handler matches Some(op) ==> controller_min_args(op) == 0),
        r@.len() <= 64,
{
    reveal(container_table);
    let mut t: Vec<ContainerCommand> = Vec::new();
    t.push(acl_container());
    t.push(client_container());
    t.push(command_container());
    t.push(function_container());
    t.push(config_container());
    proof {
        assert(t@.map_values(|c: ContainerCommand| c.spec()) =~= container_table());
        assert forall|i: int| 0 <= i < t@.len() implies (#[trigger] t@[i]).subcommands@.len() <= 2 by {
            if i == 0 {} else if i == 1 {} else if i == 2 {} else if i == 3 {} else if i == 4 {}
        };
        assert forall|i: int, j: int| 0 <= i < t@.len() && 0 <= j < t@[i].subcommands@.len() implies (#[trigger] t@[i].subcommands@[j]).arity_min >= controller_min_args(t@[i].subcommands@[j].op) by {
            if i == 0 {} else if i == 1 {} else if i == 2 {} else if i == 3 {} else if i == 4 {}
        };
        assert forall|i: int| 0 <= i < t@.len() implies ((#[trigger] t@[i]).handler matches Some(op) ==> controller_min_args(op) == 0) by {
            if i == 0 {} else if i == 1 {} else if i == 2 {} else if i == 3 {} else if i == 4 {}
        };
    }
    t
}

/// The registry of all commands.
#[derive(Debug)]
pub struct CommandStore {
    pub simple_commands: Vec<SimpleCommand>,
    pub container_commands: Vec<ContainerCommand>,
    pub controller_commands: Vec<ControllerCommandDefinition>,
}

impl CommandStore {
    /// The registry holds exactly the command tables.
    pub open spec fn wf(&self) -> bool {
        &&& self.simple_commands@.map_values(|c: SimpleCommand| c.spec()) == simple_table()
        &&& self.controller_commands@.map_values(|c: ControllerCommandDefinition| c.spec()) == controller_table()
        &&& self.container_commands@.map_values(|c: ContainerCommand| c.spec()) == container_table()
        &&& forall|i: int| 0 <= i < self.container_commands@.len() ==> (#[trigger] self.container_commands@[i]).subcommands@.len() <= 2
        &&& forall|i: int| 0 <= i < self.simple_commands@.len() ==> (#[trigger] self.simple_commands@[i]).arity_min >= map_min_args(self.simple_commands@[i].op)
        &&& forall|i: int| 0 <= i < self.controller_commands@.len() ==> (#[trigger] self.controller_commands@[i]).arity_min >= controller_min_args(self.controller_commands@[i].op)
        &&& forall|i: int, j: int| 0 <= i < self.container_commands@.len() && 0 <= j < self.container_commands@[i].subcommands@.len() ==> (#[trigger] self.container_commands@[i].subcommands@[j]).arity_min >= controller_min_args(self.container_commands@[i].subcommands@[j].op)
        &&& forall|i: int| 0 <= i < self.container_commands@.len() ==> ((#[trigger] self.container_commands@[i]).handler matches Some(op) ==> controller_min_args(op) == 0)
        &&& self.simple_commands@.len() <= 64
        &&& self.controller_commands@.len() <= 64
        &&& self.container_commands@.len() <= 64
    }

    /// The full registry.
    pub fn new() -> (r: CommandStore)
        ensures
            r.wf(),
    {
        let simple_commands = initialise_simple_commands();
        let container_commands = initialise_container_commands();
        let controller_commands = initialise_controller_commands();
        let r = CommandStore { simple_commands, container_commands, controller_commands };
        r
    }

    /// Position of the key-space command named `name`.
    pub fn find_simple(&self, name: &[u8]) -> (r: Option<usize>)
        ensures
            match r {
                Some(i) => i < self.simple_commands@.len() && self.simple_commands@[i as int].name@ == name@
                    && forall|j: int| 0 <= j < i ==> (#[trigger] self.simple_commands@[j]).name@ != name@,
                None => forall|i: int| 0 <= i < self.simple_commands@.len() ==> (#[trigger] self.simple_commands@[i]).name@ != name@,
            },
    {
        let mut k: usize = 0;
        while k < self.simple_commands.len()
            invariant
                k <= self.simple_commands@.len(),
                forall|i: int| 0 <= i < k ==> (#[trigger] self.simple_commands@[i]).name@ != name@,
            decreases self.simple_commands@.len() - k,
        {
            if bytes_eq(self.simple_commands[k].name.as_slice(), name) {
                return Some(k);
            }
            k += 1;
        }
        None
    }

    /// Position of the container command named `name`.
    pub fn find_container(&self, name: &[u8]) -> (r: Option<usize>)
        ensures
            match r {
                Some(i) => i < self.container_commands@.len() && self.container_commands@[i as int].name@ == name@
                    && forall|j: int| 0 <= j < i ==> (#[trigger] self.container_commands@[j]).name@ != name@,
                None => forall|i: int| 0 <= i < self.container_commands@.len() ==> (#[trigger] self.container_commands@[i]).name@ != name@,
            },
    {
        let mut k: usize = 0;
        while k < self.container_commands.len()
            invariant
                k <= self.container_commands@.len(),
                forall|i: int| 0 <= i < k ==> (#[trigger] self.container_commands@[i]).name@ != name@,
            decreases self.container_commands@.len() - k,
        {
            if bytes_eq(self.container_commands[k].name.as_slice(), name) {
                return Some(k);
            }
            k += 1;
        }
        None
    }

    /// Position of the server-scoped command named `name`.
    pub fn find_controller(&self, name: &[u8]) -> (r: Option<usize>)
        ensures
            match r {
                Some(i) => i < self.controller_commands@.len() && self.controller_commands@[i as int].name@ == name@
                    && forall|j: int| 0 <= j < i ==> (#[trigger] self.controller_commands@[j]).name@ != name@,
                None => forall|i: int| 0 <= i < self.controller_commands@.len() ==> (#[trigger] self.controller_commands@[i]).name@ != name@,
            },
    {
        let mut k: usize = 0;
        while k < self.controller_commands.len()
            invariant
                k <= self.controller_commands@.len(),
                forall|i: int| 0 <= i < k ==> (#[trigger] self.controller_commands@[i]).name@ != name@,
            decreases self.controller_commands@.len() - k,
        {
            if bytes_eq(self.controller_commands[k].name.as_slice(), name) {
                return Some(k);
            }
            k += 1;
        }
        None
    }
}

/// Position of the subcommand named `name`.
pub fn find_subcommand(subs: &Vec<ControllerCommandDefinition>, name: &[u8]) -> (r: Option<usize>)
    ensures
        match r {
            Some(i) => i < subs@.len() && subs@[i as int].name@ == name@
                && forall|j: int| 0 <= j < i ==> (#[trigger] subs@[j]).name@ != name@,
            None => forall|i: int| 0 <= i < subs@.len() ==> (#[trigger] subs@[i]).name@ != name@,
        },
{
    let mut k: usize = 0;
    while k < subs.len()
        invariant
            k <= subs@.len(),
            forall|i: int| 0 <= i < k ==> (#[trigger] subs@[i]).name@ != name@,
        decreases subs@.len() - k,
    {
        if bytes_eq(subs[k].name.as_slice(), name) {
            return Some(k);
        }
        k += 1;
    }
    None
}

/// `a` sorts no later than `b`, byte by byte.
pub open spec fn bytes_le(a: Seq<u8>, b: Seq<u8>) -> bool
    decreases a.len(),
{
    if a.len() == 0 {
        true
    } else if b.len() == 0 {
        false
    } else if a[0] != b[0] {
        a[0] < b[0]
    } else {
        bytes_le(a.drop_first(), b.drop_first())
    }
}

pub open spec fn sorted_names(s: Seq<Seq<u8>>) -> bool {
    forall|i: int, j: int| 0 <= i < j < s.len() ==> bytes_le(#[trigger] s[i], #[trigger] s[j])
}

pub open spec fn names_view(v: Seq<Vec<u8>>) -> Seq<Seq<u8>> {
    v.map_values(|x: Vec<u8>| x@)
}

/// Relies on slice::sort_unstable: the same names, in ascending order
/// (`Vec<u8>` compares lexicographically, byte by byte).
#[verifier::external_body]
fn sort_names(v: &mut Vec<Vec<u8>>)
    ensures
        names_view(final(v)@).to_multiset() == names_view(old(v)@).to_multiset(),
        sorted_names(names_view(final(v)@)),
{
    v.sort_unstable();
}

/// The name of a subcommand as listed: `<command>|<subcommand>`.
pub open spec fn sub_name(cmd: Seq<u8>, sub: Seq<u8>) -> Seq<u8> {
    cmd + seq![124u8] + sub
}

pub open spec fn sub_entries(cmd: Seq<u8>, subs: Seq<ControllerSpec>) -> Seq<(Seq<u8>, Seq<AclCategory>)> {
    subs.map_values(|c: ControllerSpec| (sub_name(cmd, c.name), c.category))
}

pub open spec fn container_entries(cs: Seq<ContainerSpec>) -> Seq<(Seq<u8>, Seq<AclCategory>)>
    decreases cs.len(),
{
    if cs.len() == 0 {
        Seq::empty()
    } else {
        container_entries(cs.drop_last()) + seq![(cs.last().name, cs.last().category)] + sub_entries(
            cs.last().name,
            cs.last().subcommands,
        )
    }
}

/// Every dispatchable name with its categories: the key-space commands, each
/// container and its subcommands, then the server-scoped commands.
pub open spec fn entry_names() -> Seq<(Seq<u8>, Seq<AclCategory>)> {
    simple_table().map_values(|c: SimpleSpec| (c.name, c.category)) + container_entries(container_table())
        + controller_table().map_values(|c: ControllerSpec| (c.name, c.category))
}

/// Which names a listing keeps.
pub enum NameFilter {
    All,
    Category(AclCategory),
    Pattern(Seq<u8>),
}

pub open spec fn keeps(f: NameFilter, e: (Seq<u8>, Seq<AclCategory>)) -> bool {
    match f {
        NameFilter::All => true,
        NameFilter::Category(c) => e.1.contains(c),
        NameFilter::Pattern(p) => glob_match(p, e.0),
    }
}

/// The names of the entries that the filter keeps, in order.
pub open spec fn kept_names(es: Seq<(Seq<u8>, Seq<AclCategory>)>, f: NameFilter) -> Seq<Seq<u8>>
    decreases es.len(),
{
    if es.len() == 0 {
        Seq::empty()
    } else {
        kept_names(es.drop_last(), f) + if keeps(f, es.last()) {
            seq![es.last().0]
        } else {
            Seq::empty()
        }
    }
}

/// The total of dispatchable names: commands, subcommands, and containers
/// with a root handler.
pub open spec fn container_count(cs: Seq<ContainerSpec>) -> nat
    decreases cs.len(),
{
    if cs.len() == 0 {
        0
    } else {
        container_count(cs.drop_last()) + cs.last().subcommands.len() + if cs.last().handler is Some {
            1nat
        } else {
            0nat
        }
    }
}

pub open spec fn command_count() -> nat {
    simple_table().len() + controller_table().len() + container_count(container_table())
}

/// A listing reply: bulk strings holding `expected`'s names, sorted.
pub open spec fn listing_reply(r: OutputValue, expected: Seq<Seq<u8>>) -> bool {
    match r {
        OutputValue::Array(items) => {
            &&& forall|i: int| 0 <= i < items@.len() ==> (#[trigger] items@[i]) is BulkString
            &&& sorted_names(items@.map_values(|x: OutputValue| x->BulkString_0@))
            &&& items@.map_values(|x: OutputValue| x->BulkString_0@).to_multiset() == expected.to_multiset()
        },
        _ => false,
    }
}

proof fn lemma_kept_append(a: Seq<(Seq<u8>, Seq<AclCategory>)>, b: Seq<(Seq<u8>, Seq<AclCategory>)>, f: NameFilter)
    ensures
        kept_names(a + b, f) == kept_names(a, f) + kept_names(b, f),
    decreases b.len(),
{
    if b.len() == 0 {
        assert(a + b =~= a);
        assert(kept_names(a, f) + kept_names(b, f) =~= kept_names(a, f));
    } else {
        assert((a + b).drop_last() =~= a + b.drop_last());
        lemma_kept_append(a, b.drop_last(), f);
        assert(kept_names(a + b, f) =~= kept_names(a, f) + kept_names(b, f));
    }
}

fn joined_name(cmd: &Vec<u8>, sub: &Vec<u8>) -> (r: Vec<u8>)
    ensures
        r@ == sub_name(cmd@, sub@),
{
    let mut r: Vec<u8> = Vec::new();
    let mut k: usize = 0;
    while k < cmd.len()
        invariant
            k <= cmd@.len(),
            r@ == cmd@.subrange(0, k as int),
        decreases cmd@.len() - k,
    {
        r.push(cmd[k]);
        k += 1;
        assert(r@ =~= cmd@.subrange(0, k as int));
    }
    r.push(124u8);
    let mut j: usize = 0;
    while j < sub.len()
        invariant
            j <= sub@.len(),
            r@ == cmd@ + seq![124u8] + sub@.subrange(0, j as int),
        decreases sub@.len() - j,
    {
        r.push(sub[j]);
        j += 1;
        assert(r@ =~= cmd@ + seq![124u8] + sub@.subrange(0, j as int));
    }
    assert(cmd@.subrange(0, cmd@.len() as int) =~= cmd@);
    assert(sub@.subrange(0, sub@.len() as int) =~= sub@);
    r
}

fn categories_contain(cats: &Vec<AclCategory>, c: AclCategory) -> (r: bool)
    ensures
        r == cats@.contains(c),
{
    let mut k: usize = 0;
    while k < cats.len()
        invariant
            k <= cats@.len(),
            forall|j: int| 0 <= j < k ==> cats@[j] != c,
        decreases cats@.len() - k,
    {
        if cats[k] == c {
            return true;
        }
        k += 1;
    }
    false
}

/// A filter as the library runs it.
pub enum CommandListFilter {
    All,
    Category(AclCategory),
    Pattern(Vec<u8>),
}

impl CommandListFilter {
    pub open spec fn spec(&self) -> NameFilter {
        match self {
            CommandListFilter::All => NameFilter::All,
            CommandListFilter::Category(c) => NameFilter::Category(*c),
            CommandListFilter::Pattern(p) => NameFilter::Pattern(p@),
        }
    }
}

fn keep_entry(f: &CommandListFilter, finder: &Finder, name: &Vec<u8>, cats: &Vec<AclCategory>) -> (r: bool)
    requires
        f matches CommandListFilter::Pattern(p) ==> forall|s: Seq<u8>| #[trigger] finder.denotes(s) == glob_match(p@, s),
    ensures
        r == keeps(f.spec(), (name@, cats@)),
{
    match f {
        CommandListFilter::All => true,
        CommandListFilter::Category(c) => categories_contain(cats, *c),
        CommandListFilter::Pattern(_) => finder.do_match(name.as_slice()),
    }
}

fn push_kept(out: &mut Vec<Vec<u8>>, f: &CommandListFilter, finder: &Finder, name: &Vec<u8>, cats: &Vec<AclCategory>)
    requires
        f matches CommandListFilter::Pattern(p) ==> forall|s: Seq<u8>| #[trigger] finder.denotes(s) == glob_match(p@, s),
    ensures
        names_view(final(out)@) == names_view(old(out)@) + kept_names(seq![(name@, cats@)], f.spec()),
{
    let ghost e = seq![(name@, cats@)];
    assert(e.drop_last() =~= Seq::<(Seq<u8>, Seq<AclCategory>)>::empty());
    assert(kept_names(e.drop_last(), f.spec()) =~= Seq::<Seq<u8>>::empty());
    assert(e.last() == (name@, cats@));
    if keep_entry(f, finder, name, cats) {
        out.push(vstd::slice::slice_to_vec(name.as_slice()));
        assert(names_view(out@) =~= names_view(old(out)@) + kept_names(e, f.spec()));
    } else {
        assert(names_view(out@) =~= names_view(old(out)@) + kept_names(e, f.spec()));
    }
}

impl CommandStore {
    /// The names the filter keeps, in registry order.
    fn collect_names(&self, f: &CommandListFilter) -> (r: Vec<Vec<u8>>)
        requires
            self.wf(),
        ensures
            names_view(r@) == kept_names(entry_names(), f.spec()),
    {
        let finder = match f {
            CommandListFilter::Pattern(p) => Finder::new(p.as_slice()),
            _ => Finder::NoMatch,
        };
        let ghost fs = f.spec();
        let mut out: Vec<Vec<u8>> = Vec::new();
        let ghost simple_part = simple_table().map_values(|c: SimpleSpec| (c.name, c.category));
        let mut k: usize = 0;
        while k < self.simple_commands.len()
            invariant
                self.wf(),
                fs == f.spec(),
                f matches CommandListFilter::Pattern(p) ==> forall|s: Seq<u8>| #[trigger] finder.denotes(s) == glob_match(p@, s),
                k <= self.simple_commands@.len(),
                simple_part == simple_table().map_values(|c: SimpleSpec| (c.name, c.category)),
                names_view(out@) == kept_names(simple_part.subrange(0, k as int), fs),
            decreases self.simple_commands@.len() - k,
        {
            let c = &self.simple_commands[k];
            let ghost before = names_view(out@);
            push_kept(&mut out, f, &finder, &c.name, &c.category);
            proof {
                let e = seq![(c.name@, c.category@)];
                assert(self.simple_commands@.map_values(|c: SimpleCommand| c.spec())[k as int] == simple_table()[k as int]);
                assert(simple_part.len() == self.simple_commands@.len());
                assert(simple_part[k as int] == (c.name@, c.category@));
                assert(simple_part.subrange(0, k + 1) =~= simple_part.subrange(0, k as int) + e);
                lemma_kept_append(simple_part.subrange(0, k as int), e, fs);
            }
            k += 1;
        }
        assert(simple_part.subrange(0, k as int) =~= simple_part);
        let ghost after_simple = names_view(out@);
        let mut k: usize = 0;
        while k < self.container_commands.len()
            invariant
                self.wf(),
                fs == f.spec(),
                f matches CommandListFilter::Pattern(p) ==> forall|s: Seq<u8>| #[trigger] finder.denotes(s) == glob_match(p@, s),
                k <= self.container_commands@.len(),
                names_view(out@) == after_simple + kept_names(container_entries(container_table().subrange(0, k as int)), fs),
            decreases self.container_commands@.len() - k,
        {
            let c = &self.container_commands[k];
            let ghost cs = container_table().subrange(0, k + 1);
            let ghost spec_c = container_table()[k as int];
            assert(self.container_commands@.map_values(|c: ContainerCommand| c.spec())[k as int] == spec_c);
            assert(cs.drop_last() =~= container_table().subrange(0, k as int));
            let ghost base = names_view(out@);
            push_kept(&mut out, f, &finder, &c.name, &c.category);
            let ghost head = seq![(spec_c.name, spec_c.category)];
            let mut j: usize = 0;
            while j < c.subcommands.len()
                invariant
                    fs == f.spec(),
                    f matches CommandListFilter::Pattern(p) ==> forall|s: Seq<u8>| #[trigger] finder.denotes(s) == glob_match(p@, s),
                    j <= c.subcommands@.len(),
                    spec_c == c.spec(),
                    names_view(out@) == base + kept_names(head, fs) + kept_names(sub_entries(spec_c.name, spec_c.subcommands).subrange(0, j as int), fs),
                decreases c.subcommands@.len() - j,
            {
                let sc = &c.subcommands[j];
                let full = joined_name(&c.name, &sc.name);
                let ghost mid = names_view(out@);
                push_kept(&mut out, f, &finder, &full, &sc.category);
                proof {
                    let subs = sub_entries(spec_c.name, spec_c.subcommands);
                    let e = seq![(full@, sc.category@)];
                    assert(spec_c.subcommands[j as int] == sc.spec());
                    assert(subs.subrange(0, j + 1) =~= subs.subrange(0, j as int) + e);
                    lemma_kept_append(subs.subrange(0, j as int), e, fs);
                }
                j += 1;
            }
            proof {
                let subs = sub_entries(spec_c.name, spec_c.subcommands);
                assert(subs.subrange(0, j as int) =~= subs);
                let prev = container_entries(container_table().subrange(0, k as int));
                assert(container_entries(cs) == prev + head + subs);
                lemma_kept_append(prev, head, fs);
                lemma_kept_append(prev + head, subs, fs);
            }
            k += 1;
        }
        assert(container_table().subrange(0, k as int) =~= container_table());
        let ghost after_containers = names_view(out@);
        let ghost ctrl_part = controller_table().map_values(|c: ControllerSpec| (c.name, c.category));
        let mut k: usize = 0;
        while k < self.controller_commands.len()
            invariant
                self.wf(),
                fs == f.spec(),
                f matches CommandListFilter::Pattern(p) ==> forall|s: Seq<u8>| #[trigger] finder.denotes(s) == glob_match(p@, s),
                k <= self.controller_commands@.len(),
                ctrl_part == controller_table().map_values(|c: ControllerSpec| (c.name, c.category)),
                names_view(out@) == after_containers + kept_names(ctrl_part.subrange(0, k as int), fs),
            decreases self.controller_commands@.len() - k,
        {
            let c = &self.controller_commands[k];
            push_kept(&mut out, f, &finder, &c.name, &c.category);
            proof {
                let e = seq![(c.name@, c.category@)];
                assert(self.controller_commands@.map_values(|c: ControllerCommandDefinition| c.spec())[k as int] == controller_table()[k as int]);
                assert(ctrl_part.len() == self.controller_commands@.len());
                assert(ctrl_part[k as int] == (c.name@, c.category@));
                assert(ctrl_part.subrange(0, k + 1) =~= ctrl_part.subrange(0, k as int) + e);
                lemma_kept_append(ctrl_part.subrange(0, k as int), e, fs);
            }
            k += 1;
        }
        proof {
            assert(ctrl_part.subrange(0, k as int) =~= ctrl_part);
            let cont = container_entries(container_table());
            lemma_kept_append(simple_part, cont, fs);
            lemma_kept_append(simple_part + cont, ctrl_part, fs);
        }
        out
    }

    /// `COMMAND LIST`: the names the filter keeps, sorted.
    pub fn list(&self, filter: &CommandListFilter) -> (r: OutputValue)
        requires
            self.wf(),
        ensures
            listing_reply(r, kept_names(entry_names(), filter.spec())),
    {
        let mut names = self.collect_names(filter);
        sort_names(&mut names);
        let mut items: Vec<OutputValue> = Vec::new();
        let mut k: usize = 0;
        let ghost nv = names_view(names@);
        while k < names.len()
            invariant
                k <= names@.len(),
                nv == names_view(names@),
                items@.len() == k,
                forall|i: int| 0 <= i < k ==> ((#[trigger] items@[i]) matches OutputValue::BulkString(v) && v@ == nv[i]),
            decreases names@.len() - k,
        {
            items.push(OutputValue::BulkString(vstd::slice::slice_to_vec(names[k].as_slice())));
            k += 1;
        }
        assert(items@.map_values(|x: OutputValue| x->BulkString_0@) =~= nv);
        OutputValue::Array(items)
    }

    /// `COMMAND COUNT`: how many names can be dispatched.
    pub fn count(&self) -> (r: OutputValue)
        requires
            self.wf(),
        ensures
            r == OutputValue::Integer(command_count() as i64),
    {
        let mut n: usize = self.simple_commands.len() + self.controller_commands.len();
        let mut k: usize = 0;
        assert(container_table().subrange(0, 0) =~= Seq::<ContainerSpec>::empty());
        while k < self.container_commands.len()
            invariant
                self.wf(),
                k <= self.container_commands@.len(),
                n == simple_table().len() + controller_table().len() + container_count(container_table().subrange(0, k as int)),
                n <= 3 * k + 128,
            decreases self.container_commands@.len() - k,
        {
            let c = &self.container_commands[k];
            assert(self.container_commands@.map_values(|c: ContainerCommand| c.spec())[k as int] == container_table()[k as int]);
            assert(container_table().subrange(0, k + 1).drop_last() =~= container_table().subrange(0, k as int));
            n = n + c.subcommands.len();
            if c.handler.is_some() {
                n = n + 1;
            }
            k += 1;
        }
        assert(container_table().subrange(0, k as int) =~= container_table());
        OutputValue::Integer(n as i64)
    }
}

} // verus!
