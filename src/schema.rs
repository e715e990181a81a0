//! Tables, schema operations and their effect on the set of tables present.
use vstd::prelude::*;

verus! {

/// A table that the migrations create or drop.
#[derive(Clone, Copy, Debug, PartialEq, Eq, Structural)]
pub enum Table {
    User,
    Organization,
    Workspace,
    Group,
    Invitation,
    Snapshot,
    File,
    Task,
    GroupPermission,
    UserPermission,
    OrganizationUser,
    GroupUser,
}

/// A table's name in the database.
pub open spec fn table_name(t: Table) -> Seq<char> {
    match t {
        Table::User => "user"@,
        Table::Organization => "organization"@,
        Table::Workspace => "workspace"@,
        Table::Group => "group"@,
        Table::Invitation => "invitation"@,
        Table::Snapshot => "snapshot"@,
        Table::File => "file"@,
        Table::Task => "task"@,
        Table::GroupPermission => "grouppermission"@,
        Table::UserPermission => "userpermission"@,
        Table::OrganizationUser => "organization_user"@,
        Table::GroupUser => "group_user"@,
    }
}

impl Table {
    /// The table's name in the database.
    pub fn name(&self) -> (r: &'static str)
        ensures
            r@ == table_name(*self),
    {
        match self {
            Table::User => "user",
            Table::Organization => "organization",
            Table::Workspace => "workspace",
            Table::Group => "group",
            Table::Invitation => "invitation",
            Table::Snapshot => "snapshot",
            Table::File => "file",
            Table::Task => "task",
            Table::GroupPermission => "grouppermission",
            Table::UserPermission => "userpermission",
            Table::OrganizationUser => "organization_user",
            Table::GroupUser => "group_user",
        }
    }
}

/// One declarative schema instruction.
#[derive(Clone, Copy, Debug, PartialEq, Eq, Structural)]
pub enum SchemaOp {
    CreateTable(Table),
    DropTable(Table),
}

/// Why a schema instruction could not be executed.
#[derive(Clone, Copy, Debug, PartialEq, Eq, Structural)]
pub enum DdlError {
    /// `CreateTable` of a table that is already present.
    TableExists(Table),
    /// `DropTable` of a table that is not present.
    NoSuchTable(Table),
}

/// The effect of one instruction on the set of tables present.
pub open spec fn apply_op(s: Set<Table>, op: SchemaOp) -> Result<Set<Table>, DdlError> {
    match op {
        SchemaOp::CreateTable(t) => if s.contains(t) {
            Err(DdlError::TableExists(t))
        } else {
            Ok(s.insert(t))
        },
        SchemaOp::DropTable(t) => if s.contains(t) {
            Ok(s.remove(t))
        } else {
            Err(DdlError::NoSuchTable(t))
        },
    }
}

/// The effect of a sequence of instructions, run in order; the first failure
/// is the result.
pub open spec fn apply_ops(s: Set<Table>, ops: Seq<SchemaOp>) -> Result<Set<Table>, DdlError>
    decreases ops.len(),
{
    if ops.len() == 0 {
        Ok(s)
    } else {
        match apply_op(s, ops[0]) {
            Ok(s1) => apply_ops(s1, ops.skip(1)),
            Err(e) => Err(e),
        }
    }
}

/// The instruction that undoes `op`.
pub open spec fn inverse_op(op: SchemaOp) -> SchemaOp {
    match op {
        SchemaOp::CreateTable(t) => SchemaOp::DropTable(t),
        SchemaOp::DropTable(t) => SchemaOp::CreateTable(t),
    }
}

/// The instructions that undo `ops`: the inverse of each, last first.
pub open spec fn inverse_ops(ops: Seq<SchemaOp>) -> Seq<SchemaOp>
    decreases ops.len(),
{
    if ops.len() == 0 {
        Seq::empty()
    } else {
        inverse_ops(ops.skip(1)).push(inverse_op(ops[0]))
    }
}

/// Running `a` then `b` is running `a + b`.
pub proof fn lemma_apply_ops_concat(s: Set<Table>, a: Seq<SchemaOp>, b: Seq<SchemaOp>)
    ensures
        apply_ops(s, a + b) == match apply_ops(s, a) {
            Ok(s1) => apply_ops(s1, b),
            Err(e) => Err(e),
        },
    decreases a.len(),
{
    if a.len() == 0 {
        assert(a + b =~= b);
    } else {
        assert((a + b)[0] == a[0]);
        assert((a + b).skip(1) =~= a.skip(1) + b);
        match apply_op(s, a[0]) {
            Ok(s1) => lemma_apply_ops_concat(s1, a.skip(1), b),
            Err(_) => {},
        }
    }
}

/// Undoing a successful run of instructions restores the tables present
/// before it.
pub proof fn lemma_inverse_restores(s: Set<Table>, ops: Seq<SchemaOp>)
    requires
        apply_ops(s, ops) is Ok,
    ensures
        apply_ops(apply_ops(s, ops)->Ok_0, inverse_ops(ops)) == Ok::<Set<Table>, DdlError>(s),
    decreases ops.len(),
{
    if ops.len() > 0 {
        let op = ops[0];
        let s1 = apply_op(s, op)->Ok_0;
        let rest = ops.skip(1);
        let end = apply_ops(s, ops)->Ok_0;
        lemma_inverse_restores(s1, rest);
        lemma_apply_ops_concat(end, inverse_ops(rest), seq![inverse_op(op)]);
        assert(inverse_ops(rest).push(inverse_op(op)) =~= inverse_ops(rest) + seq![inverse_op(op)]);
        let one = seq![inverse_op(op)];
        assert(one.skip(1) =~= Seq::<SchemaOp>::empty());
        match op {
            SchemaOp::CreateTable(t) => {
                assert(s1.remove(t) =~= s);
            },
            SchemaOp::DropTable(t) => {
                assert(s1.insert(t) =~= s);
            },
        }
        assert(apply_op(s1, inverse_op(op)) == Ok::<Set<Table>, DdlError>(s));
        assert(one[0] == inverse_op(op));
        assert(apply_ops(s, one.skip(1)) == Ok::<Set<Table>, DdlError>(s));
        assert(apply_ops(s1, one) == Ok::<Set<Table>, DdlError>(s));
    }
}

/// The tables present in a database, each once.
pub struct Schema {
    tables: Vec<Table>,
}

impl View for Schema {
    type V = Set<Table>;

    closed spec fn view(&self) -> Set<Table> {
        self.tables@.to_set()
    }
}

impl Schema {
    /// Each table is listed once.
    pub closed spec fn wf(&self) -> bool {
        self.tables@.no_duplicates()
    }

    /// A schema with no tables.
    pub fn new() -> (r: Schema)
        ensures
            r.wf(),
            r@ == Set::<Table>::empty(),
    {
        let r = Schema { tables: Vec::new() };
        assert(r@ =~= Set::<Table>::empty());
        r
    }

    fn position(&self, t: Table) -> (r: Option<usize>)
        ensures
            match r {
                Some(i) => i < self.tables@.len() && self.tables@[i as int] == t,
                None => !self.tables@.contains(t),
            },
    {
        let mut i: usize = 0;
        while i < self.tables.len()
            invariant
                i <= self.tables@.len(),
                forall|k: int| 0 <= k < i ==> self.tables@[k] != t,
            decreases self.tables@.len() - i,
        {
            if self.tables[i] == t {
                return Some(i);
            }
            i = i + 1;
        }
        None
    }

    /// Whether `t` is present.
    pub fn contains(&self, t: Table) -> (r: bool)
        ensures
            r == self@.contains(t),
    {
        self.position(t).is_some()
    }

    /// The tables present, each once.
    pub fn tables(&self) -> (r: Vec<Table>)
        requires
            self.wf(),
        ensures
            r@.no_duplicates(),
            r@.to_set() == self@,
    {
        self.copy_tables()
    }

    fn copy_tables(&self) -> (r: Vec<Table>)
        ensures
            r@ == self.tables@,
    {
        let mut r: Vec<Table> = Vec::new();
        let mut i: usize = 0;
        while i < self.tables.len()
            invariant
                i <= self.tables@.len(),
                r@ == self.tables@.subrange(0, i as int),
            decreases self.tables@.len() - i,
        {
            r.push(self.tables[i]);
            i = i + 1;
            assert(r@ =~= self.tables@.subrange(0, i as int));
        }
        assert(r@ =~= self.tables@);
        r
    }

    /// Executes one instruction; on failure nothing changes.
    pub fn apply_op(&mut self, op: SchemaOp) -> (r: Result<(), DdlError>)
        requires
            old(self).wf(),
        ensures
            final(self).wf(),
            match apply_op(old(self)@, op) {
                Ok(s) => r == Ok::<(), DdlError>(()) && final(self)@ == s,
                Err(e) => r == Err::<(), DdlError>(e) && final(self)@ == old(self)@,
            },
    {
        match op {
            SchemaOp::CreateTable(t) => match self.position(t) {
                Some(_) => Err(DdlError::TableExists(t)),
                None => {
                    let ghost before = self.tables@;
                    self.tables.push(t);
                    proof {
                        assert(self.tables@ == before.push(t));
                        assert forall|k: int, l: int|
                            0 <= k < l < self.tables@.len() implies self.tables@[k]
                            != self.tables@[l] by {
                            if l == before.len() {
                                assert(before.contains(before[k]));
                            }
                        }
                        assert forall|x: Table| self@.contains(x) == before.to_set().insert(t).contains(
                            x,
                        ) by {
                            if x != t && self.tables@.contains(x) {
                                let k = choose|k: int|
                                    0 <= k < self.tables@.len() && self.tables@[k] == x;
                                assert(before[k] == x);
                            }
                            if x != t && before.contains(x) {
                                let k = choose|k: int| 0 <= k < before.len() && before[k] == x;
                                assert(self.tables@[k] == x);
                            }
                            if x == t {
                                assert(self.tables@[before.len() as int] == t);
                            }
                        }
                        assert(self@ =~= before.to_set().insert(t));
                    }
                    Ok(())
                },
            },
            SchemaOp::DropTable(t) => match self.position(t) {
                Some(i) => {
                    let ghost before = self.tables@;
                    self.tables.remove(i);
                    proof {
                        assert(self.tables@ == before.remove(i as int));
                        assert forall|k: int, l: int|
                            0 <= k < l < self.tables@.len() implies self.tables@[k]
                            != self.tables@[l] by {
                            let k2 = if k < i { k } else { k + 1 };
                            let l2 = if l < i { l } else { l + 1 };
                            assert(self.tables@[k] == before[k2]);
                            assert(self.tables@[l] == before[l2]);
                        }
                        assert forall|x: Table| self@.contains(x) == before.to_set().remove(t).contains(
                            x,
                        ) by {
                            if self.tables@.contains(x) {
                                let k = choose|k: int|
                                    0 <= k < self.tables@.len() && self.tables@[k] == x;
                                let k2 = if k < i { k } else { k + 1 };
                                assert(before[k2] == x);
                                assert(k2 != i);
                            }
                            if x != t && before.contains(x) {
                                let k = choose|k: int| 0 <= k < before.len() && before[k] == x;
                                assert(k != i);
                                let k2 = if k < i { k } else { k - 1 };
                                assert(self.tables@[k2] == x);
                            }
                        }
                        assert(self@ =~= before.to_set().remove(t));
                    }
                    Ok(())
                },
                None => Err(DdlError::NoSuchTable(t)),
            },
        }
    }

    fn duplicate(&self) -> (r: Schema)
        ensures
            r.tables@ == self.tables@,
    {
        Schema { tables: self.copy_tables() }
    }

    /// Executes `ops` in order as one atomic unit: either all of them take
    /// effect, or, at the first failure, none does.
    pub fn apply_ops(&mut self, ops: &Vec<SchemaOp>) -> (r: Result<(), DdlError>)
        requires
            old(self).wf(),
        ensures
            final(self).wf(),
            match apply_ops(old(self)@, ops@) {
                Ok(s) => r == Ok::<(), DdlError>(()) && final(self)@ == s,
                Err(e) => r == Err::<(), DdlError>(e) && final(self)@ == old(self)@,
            },
    {
        let mut work = self.duplicate();
        let mut i: usize = 0;
        assert(ops@.skip(0) =~= ops@);
        while i < ops.len()
            invariant
                i <= ops@.len(),
                self.wf(),
                self@ == old(self)@,
                work.wf(),
                apply_ops(self@, ops@) == apply_ops(work@, ops@.skip(i as int)),
            decreases ops@.len() - i,
        {
            let ghost rest = ops@.skip(i as int);
            assert(rest[0] == ops@[i as int]);
            assert(rest.skip(1) =~= ops@.skip(i + 1));
            match work.apply_op(ops[i]) {
                Ok(()) => {},
                Err(e) => {
                    return Err(e);
                },
            }
            i = i + 1;
        }
        assert(ops@.skip(i as int) =~= Seq::<SchemaOp>::empty());
        *self = work;
        Ok(())
    }
}

} // verus!
