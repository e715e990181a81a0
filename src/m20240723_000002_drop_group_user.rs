//! The step that drops the `group_user` table.
use vstd::prelude::*;
use crate::schema::{SchemaOp, Table};
use crate::step::{MigrationStep, StepSpec};

verus! {

/// Drops `group_user`; it has no revert.
pub struct Migration;

impl Migration {
    /// The step's name, which is its identity.
    pub fn name(&self) -> (r: &'static str)
        ensures
            r@ == "m20240723_000002_drop_group_user"@,
    {
        "m20240723_000002_drop_group_user"
    }

    /// The instructions that apply the step.
    pub fn up(&self) -> (r: Vec<SchemaOp>)
        ensures
            r@ == seq![SchemaOp::DropTable(Table::GroupUser)],
    {
        let r = vec![SchemaOp::DropTable(Table::GroupUser)];
        assert(r@ =~= seq![SchemaOp::DropTable(Table::GroupUser)]);
        r
    }

    /// The step as registered.
    pub fn step(&self) -> (r: MigrationStep)
        ensures
            r@ == (StepSpec {
                name: "m20240723_000002_drop_group_user"@,
                up: seq![SchemaOp::DropTable(Table::GroupUser)],
                reversible: false,
            }),
    {
        MigrationStep { name: self.name().to_owned(), up: self.up(), reversible: false }
    }
}

} // verus!
