//! ACL categories: tags that group commands.
use vstd::prelude::*;
use vstd::string::*;
use crate::reply::{OutputValue, is_bulk_array};
use crate::text::{bytes_eq, bytes_of, lower, to_lower};

verus! {

broadcast use vstd::std_specs::vec::group_vec_axioms, vstd::seq::group_seq_axioms, vstd::slice::group_slice_axioms;

#[derive(PartialEq, Eq, Structural, Clone, Copy, Debug, Hash)]
pub enum AclCategory {
    Admin,
    Connection,
    Dangerous,
    Fast,
    Keyspace,
    Read,
    Slow,
    String,
    Write,
    Scripting,
}

/// The name of a category.
pub open spec fn acl_name(c: AclCategory) -> Seq<u8> {
    match c {
        AclCategory::Admin => "admin".spec_bytes(),
        AclCategory::Connection => "connection".spec_bytes(),
        AclCategory::Dangerous => "dangerous".spec_bytes(),
        AclCategory::Fast => "fast".spec_bytes(),
        AclCategory::Keyspace => "keyspace".spec_bytes(),
        AclCategory::Read => "read".spec_bytes(),
        AclCategory::Slow => "slow".spec_bytes(),
        AclCategory::String => "string".spec_bytes(),
        AclCategory::Write => "write".spec_bytes(),
        AclCategory::Scripting => "scripting".spec_bytes(),
    }
}

/// Every category, in ascending byte order of its name.
pub open spec fn all_categories() -> Seq<AclCategory> {
    seq![
        AclCategory::Admin,
        AclCategory::Connection,
        AclCategory::Dangerous,
        AclCategory::Fast,
        AclCategory::Keyspace,
        AclCategory::Read,
        AclCategory::Scripting,
        AclCategory::Slow,
        AclCategory::String,
        AclCategory::Write,
    ]
}

fn name_str(c: AclCategory) -> (r: &'static str)
    ensures
        r.spec_bytes() == acl_name(c),
{
    match c {
        AclCategory::Admin => "admin",
        AclCategory::Connection => "connection",
        AclCategory::Dangerous => "dangerous",
        AclCategory::Fast => "fast",
        AclCategory::Keyspace => "keyspace",
        AclCategory::Read => "read",
        AclCategory::Slow => "slow",
        AclCategory::String => "string",
        AclCategory::Write => "write",
        AclCategory::Scripting => "scripting",
    }
}

impl AclCategory {
    /// The category's name.
    pub fn as_bytes(&self) -> (r: Vec<u8>)
        ensures
            r@ == acl_name(*self),
    {
        bytes_of(name_str(*self))
    }

    /// The category's name, consuming it.
    pub fn into_bytes(self) -> (r: Vec<u8>)
        ensures
            r@ == acl_name(self),
    {
        self.as_bytes()
    }

    /// All category names, sorted: admin, connection, dangerous, fast,
    /// keyspace, read, scripting, slow, string, write.
    pub fn array() -> (r: OutputValue)
        ensures
            is_bulk_array(r, all_categories().map_values(|c: AclCategory| acl_name(c))),
    {
        let cats: Vec<AclCategory> = vec![
            AclCategory::Admin,
            AclCategory::Connection,
            AclCategory::Dangerous,
            AclCategory::Fast,
            AclCategory::Keyspace,
            AclCategory::Read,
            AclCategory::Scripting,
            AclCategory::Slow,
            AclCategory::String,
            AclCategory::Write,
        ];
        assert(cats@ =~= all_categories());
        let mut items: Vec<OutputValue> = Vec::new();
        let mut k: usize = 0;
        while k < cats.len()
            invariant
                k <= cats@.len(),
                cats@ == all_categories(),
                items@.len() == k,
                forall|i: int| 0 <= i < k ==> (#[trigger] items@[i] matches OutputValue::BulkString(v)
                    && v@ == acl_name(cats@[i])),
            decreases cats@.len() - k,
        {
            items.push(OutputValue::BulkString(cats[k].as_bytes()));
            k += 1;
        }
        OutputValue::Array(items)
    }

    /// The category named `s`, ignoring ASCII case.
    pub fn from_name(s: &[u8]) -> (r: Option<AclCategory>)
        ensures
            match r {
                Some(c) => lower(s@) == acl_name(c),
                None => forall|c: AclCategory| lower(s@) != #[trigger] acl_name(c),
            },
    {
        let l = to_lower(s);
        let cats: Vec<AclCategory> = vec![
            AclCategory::Admin,
            AclCategory::Connection,
            AclCategory::Dangerous,
            AclCategory::Fast,
            AclCategory::Keyspace,
            AclCategory::Read,
            AclCategory::Scripting,
            AclCategory::Slow,
            AclCategory::String,
            AclCategory::Write,
        ];
        assert(cats@ =~= all_categories());
        let mut k: usize = 0;
        while k < cats.len()
            invariant
                k <= cats@.len(),
                cats@ == all_categories(),
                l@ == lower(s@),
                forall|i: int| 0 <= i < k ==> l@ != acl_name(#[trigger] cats@[i]),
            decreases cats@.len() - k,
        {
            let name = cats[k].as_bytes();
            if bytes_eq(l.as_slice(), name.as_slice()) {
                return Some(cats[k]);
            }
            k += 1;
        }
        proof {
            assert forall|c: AclCategory| lower(s@) != #[trigger] acl_name(c) by {
                match c {
                    AclCategory::Admin => assert(cats@[0] == c),
                    AclCategory::Connection => assert(cats@[1] == c),
                    AclCategory::Dangerous => assert(cats@[2] == c),
                    AclCategory::Fast => assert(cats@[3] == c),
                    AclCategory::Keyspace => assert(cats@[4] == c),
                    AclCategory::Read => assert(cats@[5] == c),
                    AclCategory::Scripting => assert(cats@[6] == c),
                    AclCategory::Slow => assert(cats@[7] == c),
                    AclCategory::String => assert(cats@[8] == c),
                    AclCategory::Write => assert(cats@[9] == c),
                }
            };
        }
        None
    }
}

} // verus!
