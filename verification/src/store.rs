//! The store of secret messages.
//!
//! The persisted state is a single table of records, each holding one
//! generated identifier and one immutable text payload. `Store` is the
//! library's model of that table: a sequence of records with pairwise
//! distinct identifiers, viewed as a map from identifier value to
//! payload. Records are created by `insert` and read by `lookup`;
//! nothing updates or deletes them.

use crate::id::MessageId;
use vstd::prelude::*;

verus! {

/// A persisted record: one generated identifier, one payload.
#[derive(Debug)]
pub struct SecretMessage {
    pub id: MessageId,
    pub message: Vec<u8>,
}

/// A record as the client supplies it: the payload alone, with no
/// identity until it is persisted.
#[derive(Debug)]
pub struct NewSecretMessage {
    pub message: Vec<u8>,
}

/// Why an insert was refused.
#[derive(Clone, Copy, PartialEq, Eq, Structural, Debug)]
pub enum InsertError {
    /// The given identifier is already bound to a record.
    DuplicateId,
}

/// Why a lookup returned no record.
#[derive(Clone, Copy, PartialEq, Eq, Structural, Debug)]
pub enum LookupError {
    /// No record is bound to the given identifier.
    NotFound,
}

/// The map written by a sequence of records: each record binds its
/// identifier value to its payload, later records taking precedence.
pub open spec fn map_of_records(s: Seq<SecretMessage>) -> Map<u128, Seq<u8>>
    decreases s.len(),
{
    if s.len() == 0 {
        Map::empty()
    } else {
        map_of_records(s.drop_last()).insert(s.last().id.value, s.last().message@)
    }
}

/// Pairwise distinct identifiers.
pub open spec fn distinct_ids(s: Seq<SecretMessage>) -> bool {
    forall|i: int, j: int|
        0 <= i < j < s.len() ==> (#[trigger] s[i]).id.value != (#[trigger] s[j]).id.value
}

proof fn lemma_map_of_records_contains(s: Seq<SecretMessage>, k: u128)
    ensures
        map_of_records(s).contains_key(k) <==> exists|i: int|
            0 <= i < s.len() && (#[trigger] s[i]).id.value == k,
    decreases s.len(),
{
    if s.len() > 0 {
        lemma_map_of_records_contains(s.drop_last(), k);
        if map_of_records(s).contains_key(k) {
            if s.last().id.value == k {
                assert(s[s.len() - 1].id.value == k);
            } else {
                let i: int = choose|i: int|
                    0 <= i < s.drop_last().len() && (#[trigger] s.drop_last()[i]).id.value == k;
                assert(s[i].id.value == k);
            }
        }
        if exists|i: int| 0 <= i < s.len() && (#[trigger] s[i]).id.value == k {
            let i: int = choose|i: int| 0 <= i < s.len() && (#[trigger] s[i]).id.value == k;
            if i < s.len() - 1 {
                assert(s.drop_last()[i].id.value == k);
            }
        }
    }
}

proof fn lemma_map_of_records_get(s: Seq<SecretMessage>, i: int)
    requires
        distinct_ids(s),
        0 <= i < s.len(),
    ensures
        map_of_records(s).contains_key(s[i].id.value),
        map_of_records(s)[s[i].id.value] == s[i].message@,
    decreases s.len(),
{
    lemma_map_of_records_contains(s, s[i].id.value);
    if i < s.len() - 1 {
        assert(distinct_ids(s.drop_last()));
        assert(s.drop_last()[i] == s[i]);
        lemma_map_of_records_get(s.drop_last(), i);
        assert(s.last().id.value != s[i].id.value);
    }
}

proof fn lemma_map_of_records_len(s: Seq<SecretMessage>)
    requires
        distinct_ids(s),
    ensures
        map_of_records(s).dom().finite(),
        map_of_records(s).len() == s.len(),
    decreases s.len(),
{
    if s.len() == 0 {
        assert(map_of_records(s) == Map::<u128, Seq<u8>>::empty());
    } else {
        assert(distinct_ids(s.drop_last()));
        lemma_map_of_records_len(s.drop_last());
        lemma_map_of_records_contains(s.drop_last(), s.last().id.value);
        assert(forall|i: int|
            0 <= i < s.drop_last().len() ==> (#[trigger] s.drop_last()[i]).id.value
                != s.last().id.value);
        assert(!map_of_records(s.drop_last()).contains_key(s.last().id.value));
    }
}

/// The store of records, a model of the `secret_message` table.
pub struct Store {
    records: Vec<SecretMessage>,
}

impl Store {
    /// The stored bindings, from identifier value to payload.
    pub closed spec fn view(&self) -> Map<u128, Seq<u8>> {
        map_of_records(self.records@)
    }

    /// Validity: identifiers are pairwise distinct, as the primary key
    /// of the table makes them.
    pub closed spec fn wf(&self) -> bool {
        distinct_ids(self.records@)
    }

    /// An empty store.
    pub fn new() -> (r: Store)
        ensures
            r.wf(),
            r@ == Map::<u128, Seq<u8>>::empty(),
    {
        Store { records: Vec::new() }
    }

    /// How many records are stored.
    pub fn count(&self) -> (n: usize)
        requires
            self.wf(),
        ensures
            n == self@.len(),
    {
        proof {
            lemma_map_of_records_len(self.records@);
        }
        self.records.len()
    }

    /// Inserts a record under a freshly generated identifier and
    /// returns the persisted record. The identifier is the storage
    /// layer's choice and is handed in; an insert under an identifier
    /// that is already bound is refused and leaves the store unchanged,
    /// as the primary key would refuse it.
    pub fn insert(&mut self, id: MessageId, message: Vec<u8>) -> (r: Result<
        SecretMessage,
        InsertError,
    >)
        requires
            old(self).wf(),
        ensures
            final(self).wf(),
            match r {
                Ok(rec) => {
                    &&& !old(self)@.contains_key(id.value)
                    &&& rec.id == id
                    &&& rec.message@ == message@
                    &&& final(self)@ == old(self)@.insert(id.value, message@)
                },
                Err(e) => {
                    &&& e == InsertError::DuplicateId
                    &&& old(self)@.contains_key(id.value)
                    &&& final(self)@ == old(self)@
                },
            },
    {
        proof {
            lemma_map_of_records_contains(self.records@, id.value);
        }
        let n: usize = self.records.len();
        let mut i: usize = 0;
        while i < n
            invariant
                0 <= i <= n,
                self == old(self),
                old(self).wf(),
                n == self.records@.len(),
                map_of_records(self.records@).contains_key(id.value) <==> exists|j: int|
                    0 <= j < n && (#[trigger] self.records@[j]).id.value == id.value,
                forall|j: int| 0 <= j < i ==> (#[trigger] self.records@[j]).id.value != id.value,
            decreases n - i,
        {
            if self.records[i].id.value == id.value {
                return Err(InsertError::DuplicateId);
            }
            i = i + 1;
        }
        let rec: SecretMessage = SecretMessage { id, message: copy_bytes(&message) };
        let ghost before: Seq<SecretMessage> = self.records@;
        self.records.push(SecretMessage { id, message });
        proof {
            assert(self.records@.drop_last() =~= before);
            assert(distinct_ids(self.records@));
        }
        Ok(rec)
    }

    /// Returns the record bound to `id` exactly when one is stored,
    /// and the not-found error otherwise — never a record under any
    /// other identifier.
    pub fn lookup(&self, id: MessageId) -> (r: Result<SecretMessage, LookupError>)
        requires
            self.wf(),
        ensures
            match r {
                Ok(rec) => {
                    &&& self@.contains_key(id.value)
                    &&& rec.id == id
                    &&& rec.message@ == self@[id.value]
                },
                Err(e) => {
                    &&& e == LookupError::NotFound
                    &&& !self@.contains_key(id.value)
                },
            },
    {
        proof {
            lemma_map_of_records_contains(self.records@, id.value);
        }
        let n: usize = self.records.len();
        let mut i: usize = 0;
        while i < n
            invariant
                0 <= i <= n,
                n == self.records@.len(),
                distinct_ids(self.records@),
                self@.contains_key(id.value) <==> exists|j: int|
                    0 <= j < n && (#[trigger] self.records@[j]).id.value == id.value,
                forall|j: int| 0 <= j < i ==> (#[trigger] self.records@[j]).id.value != id.value,
            decreases n - i,
        {
            if self.records[i].id.value == id.value {
                proof {
                    lemma_map_of_records_get(self.records@, i as int);
                }
                let found: &SecretMessage = &self.records[i];
                return Ok(SecretMessage { id, message: copy_bytes(&found.message) });
            }
            i = i + 1;
        }
        Err(LookupError::NotFound)
    }
}

/// A byte-for-byte copy of a payload.
fn copy_bytes(v: &Vec<u8>) -> (r: Vec<u8>)
    ensures
        r@ == v@,
{
    let mut out: Vec<u8> = Vec::new();
    let n: usize = v.len();
    let mut i: usize = 0;
    while i < n
        invariant
            0 <= i <= n,
            n == v@.len(),
            out@ == v@.subrange(0, i as int),
        decreases n - i,
    {
        out.push(v[i]);
        proof {
            assert(v@.subrange(0, i + 1) =~= v@.subrange(0, i as int).push(v@[i as int]));
        }
        i = i + 1;
    }
    proof {
        assert(v@.subrange(0, n as int) =~= v@);
    }
    out
}

/// The pure row-to-record conversion: a database row hands over its
/// two typed columns and the record reflects them unchanged.
pub fn secret_message_from_row(id: MessageId, message: Vec<u8>) -> (r: SecretMessage)
    ensures
        r.id == id,
        r.message@ == message@,
{
    SecretMessage { id, message }
}

/// The single record of a one-row result set: the last row when there
/// is one, nothing when the set is empty.
pub fn last_row(rows: Vec<SecretMessage>) -> (r: Option<SecretMessage>)
    ensures
        match r {
            Some(rec) => rows@.len() > 0 && rec.id == rows@.last().id && rec.message@
                == rows@.last().message@,
            None => rows@.len() == 0,
        },
{
    let mut remaining: Vec<SecretMessage> = rows;
    remaining.pop()
}

/// Round trip: a message inserted under a fresh identifier is exactly
/// what a lookup of that identifier then yields, for every payload,
/// the empty one included.
pub proof fn lemma_insert_lookup_round_trip(
    pre: Map<u128, Seq<u8>>,
    post: Map<u128, Seq<u8>>,
    id: MessageId,
    message: Seq<u8>,
)
    requires
        post == pre.insert(id.value, message),
    ensures
        post.contains_key(id.value),
        post[id.value] == message,
{
}

/// Uniqueness: two creates that both succeed, in either order and
/// whatever their payloads, return distinct identifiers.
pub proof fn lemma_distinct_ids(
    s0: Map<u128, Seq<u8>>,
    s1: Map<u128, Seq<u8>>,
    id1: MessageId,
    m1: Seq<u8>,
    id2: MessageId,
)
    requires
        !s0.contains_key(id1.value),
        s1 == s0.insert(id1.value, m1),
        !s1.contains_key(id2.value),
    ensures
        id1 != id2,
{
    assert(s1.contains_key(id1.value));
}

/// No lost writes: a create leaves every record under any other
/// identifier exactly as it was, so earlier creates stay retrievable.
pub proof fn lemma_insert_preserves_others(
    pre: Map<u128, Seq<u8>>,
    post: Map<u128, Seq<u8>>,
    id: MessageId,
    message: Seq<u8>,
    other: u128,
)
    requires
        post == pre.insert(id.value, message),
        other != id.value,
    ensures
        post.contains_key(other) <==> pre.contains_key(other),
        pre.contains_key(other) ==> post[other] == pre[other],
{
}

} // verus!

