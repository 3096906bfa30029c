use vstd::prelude::*;

use crate::attacks::AttackTable;

verus! {

/// Owns one attack table for the lifetime of a search session.
pub struct Engine {
    attack_table: Box<AttackTable>,
}

impl Engine {
    /// The table this engine owns.
    pub closed spec fn table(&self) -> AttackTable {
        *self.attack_table
    }

    /// Builds a fresh, fully populated attack table.
    pub fn new() -> (r: Engine)
        ensures
            r.table().wf(),
    {
        Engine { attack_table: Box::new(AttackTable::new()) }
    }

    /// Read access to the table, valid while the engine lives.
    pub fn attack_table(&self) -> (r: &AttackTable)
        ensures
            *r == self.table(),
    {
        &self.attack_table
    }
}

} // verus!
