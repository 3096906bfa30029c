//! The transposition table: search results remembered by position hash.
use vstd::prelude::*;

use std::collections::HashMap;

verus! {

broadcast use vstd::std_specs::hash::group_hash_axioms;

/// A move, by the square it leaves and the square it reaches; the table
/// stores it without looking inside.
#[derive(Clone, Copy, Debug, PartialEq, Eq, Structural)]
pub struct Move {
    pub source: u8,
    pub dest: u8,
}

/// How a node's score relates to its exact value; scores are in centipawns.
#[derive(Clone, Copy, Debug, PartialEq, Eq, Structural)]
pub enum NodeType {
    /// The score fell inside the alpha-beta window: it is exact.
    PV(i32),
    /// A beta cutoff occurred: the score is a lower bound.
    All(i32),
    /// An alpha cutoff occurred: the score is an upper bound.
    Cut(i32),
}

/// One remembered search result.
#[derive(Clone, Copy, Debug, PartialEq, Eq, Structural)]
pub struct Entry {
    /// The best move seen, or one good enough to refute the opponent's move.
    pub best_move: Move,
    /// The depth, in ply, to which the position was searched.
    pub depth: u64,
    /// The kind of node the position turned out to be.
    pub ty: NodeType,
}

/// A table keyed by position hash. Distinct positions with one hash share one
/// entry: the hash stands for the position.
pub struct TransTable {
    entries: HashMap<u64, Entry>,
}

impl View for TransTable {
    type V = Map<u64, Entry>;

    closed spec fn view(&self) -> Map<u64, Entry> {
        self.entries@
    }
}

/// The table after an insertion: a hash already present keeps its entry.
pub open spec fn insert_first(m: Map<u64, Entry>, hash: u64, entry: Entry) -> Map<u64, Entry> {
    if m.contains_key(hash) {
        m
    } else {
        m.insert(hash, entry)
    }
}

/// What a query finds.
pub open spec fn lookup(m: Map<u64, Entry>, hash: u64) -> Option<Entry> {
    if m.contains_key(hash) {
        Some(m[hash])
    } else {
        None
    }
}

impl TransTable {
    /// An empty table.
    pub fn new() -> (r: TransTable)
        ensures
            r@ == Map::<u64, Entry>::empty(),
    {
        TransTable { entries: HashMap::new() }
    }

    /// Whether `hash` has an entry.
    pub fn contains(&self, hash: u64) -> (r: bool)
        ensures
            r == self@.contains_key(hash),
    {
        self.entries.contains_key(&hash)
    }
}

/// Records `entry` for `hash`, unless `hash` already has one: the first
/// entry for a hash is kept, however deep a later one was searched.
pub fn insert(table: &mut TransTable, hash: u64, entry: Entry)
    ensures
        final(table)@ == insert_first(old(table)@, hash, entry),
{
    if table.entries.contains_key(&hash) {
        return;
    }
    table.entries.insert(hash, entry);
}

/// A copy of the entry for `hash`, if there is one.
pub fn query(table: &TransTable, hash: u64) -> (r: Option<Entry>)
    ensures
        r == lookup(table@, hash),
{
    match table.entries.get(&hash) {
        Some(e) => Some(*e),
        None => None,
    }
}

/// Removes every entry.
pub fn clear(table: &mut TransTable)
    ensures
        final(table)@ == Map::<u64, Entry>::empty(),
{
    table.entries.clear();
}

/// The table after inserting each `(hash, entry)` of `ops` in turn.
pub open spec fn insert_all(m: Map<u64, Entry>, ops: Seq<(u64, Entry)>) -> Map<u64, Entry>
    decreases ops.len(),
{
    if ops.len() == 0 {
        m
    } else {
        insert_all(insert_first(m, ops[0].0, ops[0].1), ops.drop_first())
    }
}

/// A hash that no insertion named is not found.
pub proof fn lemma_never_inserted(m: Map<u64, Entry>, ops: Seq<(u64, Entry)>, hash: u64)
    requires
        !m.contains_key(hash),
        forall|i: int| 0 <= i < ops.len() ==> (#[trigger] ops[i]).0 != hash,
    ensures
        lookup(insert_all(m, ops), hash) == None::<Entry>,
    decreases ops.len(),
{
    if ops.len() > 0 {
        let rest = ops.drop_first();
        assert forall|i: int| 0 <= i < rest.len() implies (#[trigger] rest[i]).0 != hash by {
            assert(rest[i] == ops[i + 1]);
        }
        assert(ops[0].0 != hash);
        lemma_never_inserted(insert_first(m, ops[0].0, ops[0].1), rest, hash);
    }
}

/// Of two insertions under one new hash, the first one's entry is kept.
pub proof fn lemma_first_write_wins(m: Map<u64, Entry>, hash: u64, e1: Entry, e2: Entry)
    requires
        !m.contains_key(hash),
    ensures
        lookup(insert_first(insert_first(m, hash, e1), hash, e2), hash) == Some(e1),
{
}

/// After a clear, nothing is found, whatever was inserted before it.
pub proof fn lemma_clear_forgets(hash: u64)
    ensures
        lookup(Map::<u64, Entry>::empty(), hash) == None::<Entry>,
{
}

proof fn lemma_present_stays(m: Map<u64, Entry>, ops: Seq<(u64, Entry)>, hash: u64)
    requires
        m.contains_key(hash),
        forall|i: int| 0 <= i < ops.len() ==> (#[trigger] ops[i]).0 == hash,
    ensures
        insert_all(m, ops) == m,
    decreases ops.len(),
{
    if ops.len() > 0 {
        let rest = ops.drop_first();
        assert forall|i: int| 0 <= i < rest.len() implies (#[trigger] rest[i]).0 == hash by {
            assert(rest[i] == ops[i + 1]);
        }
        assert(ops[0].0 == hash);
        lemma_present_stays(m, rest, hash);
    }
}

/// However many insertions race under one new hash, exactly one entry
/// survives, the one inserted first, and the rest of the table is unchanged;
/// every later query then finds that same entry.
pub proof fn lemma_one_entry_survives(m: Map<u64, Entry>, ops: Seq<(u64, Entry)>, hash: u64)
    requires
        !m.contains_key(hash),
        ops.len() > 0,
        forall|i: int| 0 <= i < ops.len() ==> (#[trigger] ops[i]).0 == hash,
    ensures
        insert_all(m, ops) == m.insert(hash, ops[0].1),
        lookup(insert_all(m, ops), hash) == Some(ops[0].1),
{
    let rest = ops.drop_first();
    assert forall|i: int| 0 <= i < rest.len() implies (#[trigger] rest[i]).0 == hash by {
        assert(rest[i] == ops[i + 1]);
    }
    assert(ops[0].0 == hash);
    lemma_present_stays(m.insert(hash, ops[0].1), rest, hash);
}

} // verus!
