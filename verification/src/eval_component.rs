//! The Poseidon gate component as the recursive verifier sees it: its name,
//! its column counts and its use of the relation of gates.
use crate::air::{relation_uses_per_row, row_relation_entries, RelationUse, N_INTERACTION_COLUMNS, N_TRACE_COLUMNS};
use crate::field::M31;
use vstd::prelude::*;

verus! {

/// The Poseidon gate component; its constraints are those of the AIR component.
pub struct Component {}

impl Component {
    pub fn name(&self) -> (r: String)
        ensures
            r@ == "poseidon_gate"@,
    {
        let r = "poseidon_gate".to_string();
        proof {
            vstd::string::to_string_from_display_ensures_for_str("poseidon_gate", r);
        }
        r
    }

    pub fn trace_columns(&self) -> (r: usize)
        ensures
            r == N_TRACE_COLUMNS,
    {
        N_TRACE_COLUMNS
    }

    pub fn interaction_columns(&self) -> (r: usize)
        ensures
            r == N_INTERACTION_COLUMNS,
    {
        N_INTERACTION_COLUMNS
    }

    /// Three uses of the relation of gates per row.
    pub fn relation_uses_per_row(&self) -> (r: [RelationUse; 1])
        ensures
            r[0].relation_id@ == "gate"@,
            r[0].uses == 3,
            forall|pre: Seq<M31>, row: Seq<M31>| r[0].uses == #[trigger] row_relation_entries(pre, row).len(),
    {
        relation_uses_per_row()
    }
}

} // verus!
