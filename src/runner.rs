//! A model of applying registered steps to a database: each step at most
//! once, in order, each one atomic, halting at the first failure. A step is
//! known in the log by its name. The proofs here are about this model and
//! hold of it alone. A deployment hands the registry to an outside runner,
//! which keys its log by name and applies pending steps in registry order
//! too, but differs in places: it may refuse to start when its log holds a
//! name that no registered step has, where this model skips over it; and how
//! much a failure undoes depends on the database it drives (a whole run in
//! one transaction on some, no transaction at all on others), where this
//! model undoes exactly the failing step.
use vstd::prelude::*;
use crate::registry::{Registry, names_increasing, names_of, ordered};
use crate::schema::{DdlError, Schema, SchemaOp, Table, apply_op, apply_ops, lemma_inverse_restores};
use crate::step::{MigrationStep, StepSpec, lemma_name_lt_irreflexive, name_lt};

verus! {

/// A database as a mathematical value: the tables present, and the names of
/// the steps applied so far, in the order they were applied.
pub struct DbModel {
    pub schema: Set<Table>,
    pub log: Seq<Seq<char>>,
}

/// The names held in a log.
pub open spec fn log_view(log: Seq<String>) -> Seq<Seq<char>> {
    log.map_values(|s: String| s@)
}

/// A step that failed, by name, and why, as a mathematical value.
pub struct Failure {
    pub name: Seq<char>,
    pub cause: DdlError,
}

/// A step that failed, by name, and why.
#[derive(Clone, Debug, PartialEq, Eq)]
pub struct ApplyError {
    pub name: String,
    pub cause: DdlError,
}

impl View for ApplyError {
    type V = Failure;

    open spec fn view(&self) -> Failure {
        Failure { name: self.name@, cause: self.cause }
    }
}

/// Applying one step: skipped when its name is logged; otherwise its
/// instructions run as one unit and, on success, its name is logged.
pub open spec fn apply_step(db: DbModel, step: StepSpec) -> Result<DbModel, DdlError> {
    if db.log.contains(step.name) {
        Ok(db)
    } else {
        match apply_ops(db.schema, step.up) {
            Ok(s) => Ok(DbModel { schema: s, log: db.log.push(step.name) }),
            Err(e) => Err(e),
        }
    }
}

/// Why a step could not be reverted.
#[derive(Clone, Debug, PartialEq, Eq)]
pub enum RevertError {
    /// The step has no revert.
    Irreversible,
    /// A revert instruction failed.
    Failed(DdlError),
    /// The last applied name belongs to no registered step.
    NotRegistered(String),
}

/// Reverting the step applied last: its revert instructions run as one unit
/// and, on success, its name leaves the log.
pub open spec fn revert_step(db: DbModel, step: StepSpec) -> Result<DbModel, RevertError> {
    match step.down() {
        None => Err(RevertError::Irreversible),
        Some(d) => match apply_ops(db.schema, d) {
            Ok(s) => Ok(DbModel { schema: s, log: db.log.drop_last() }),
            Err(e) => Err(RevertError::Failed(e)),
        },
    }
}

/// Applying a step that has a revert and then reverting it restores the
/// database exactly as it was: the same tables and the same log.
pub proof fn lemma_apply_then_revert(db: DbModel, step: StepSpec)
    requires
        step.reversible,
        !db.log.contains(step.name),
        apply_step(db, step) is Ok,
    ensures
        revert_step(apply_step(db, step)->Ok_0, step) == Ok::<DbModel, RevertError>(db),
{
    lemma_inverse_restores(db.schema, step.up);
    assert(db.log.push(step.name).drop_last() =~= db.log);
}

/// Applying steps in order: the database reached, and the failure that
/// halted the run, if any.
pub open spec fn run_steps(db: DbModel, steps: Seq<StepSpec>) -> (DbModel, Option<Failure>)
    decreases steps.len(),
{
    if steps.len() == 0 {
        (db, None)
    } else {
        match apply_step(db, steps[0]) {
            Ok(d) => run_steps(d, steps.skip(1)),
            Err(e) => (db, Some(Failure { name: steps[0].name, cause: e })),
        }
    }
}

/// The names of the steps that a run would execute, as the log stands:
/// those not logged, in registry order.
pub open spec fn pending_of(steps: Seq<StepSpec>, log: Seq<Seq<char>>) -> Seq<Seq<char>>
    decreases steps.len(),
{
    if steps.len() == 0 {
        Seq::empty()
    } else if log.contains(steps[0].name) {
        pending_of(steps.skip(1), log)
    } else {
        seq![steps[0].name] + pending_of(steps.skip(1), log)
    }
}

/// A run only adds to the log.
proof fn lemma_run_keeps_log(db: DbModel, steps: Seq<StepSpec>, t: Seq<char>)
    requires
        db.log.contains(t),
    ensures
        run_steps(db, steps).0.log.contains(t),
    decreases steps.len(),
{
    if steps.len() > 0 {
        match apply_step(db, steps[0]) {
            Ok(d) => {
                if !db.log.contains(steps[0].name) {
                    let k = choose|k: int| 0 <= k < db.log.len() && db.log[k] == t;
                    assert(d.log[k] == t);
                }
                lemma_run_keeps_log(d, steps.skip(1), t);
            },
            Err(_) => {},
        }
    }
}

/// Running the same steps a second time changes nothing and ends as the
/// first run did: whatever a run applied is skipped, and a step that failed
/// fails again on the same database.
pub proof fn lemma_run_idempotent(db: DbModel, steps: Seq<StepSpec>)
    ensures
        run_steps(run_steps(db, steps).0, steps) == run_steps(db, steps),
    decreases steps.len(),
{
    if steps.len() > 0 {
        let h = steps[0];
        let first = run_steps(db, steps);
        match apply_step(db, h) {
            Ok(d) => {
                lemma_run_idempotent(d, steps.skip(1));
                if db.log.contains(h.name) {
                    assert(first.0.log.contains(h.name)) by {
                        lemma_run_keeps_log(d, steps.skip(1), h.name);
                    }
                } else {
                    assert(d.log[d.log.len() - 1] == h.name);
                    lemma_run_keeps_log(d, steps.skip(1), h.name);
                }
                assert(apply_step(first.0, h) == Ok::<DbModel, DdlError>(first.0));
            },
            Err(_) => {},
        }
    }
}

/// A successful run of steps whose names strictly increase and come after
/// every logged one logs each of them once, in order.
proof fn lemma_run_logs_all(db: DbModel, steps: Seq<StepSpec>)
    requires
        names_increasing(names_of(steps)),
        forall|i: int, j: int|
            0 <= i < db.log.len() && 0 <= j < steps.len() ==> name_lt(db.log[i], steps[j].name),
        run_steps(db, steps).1 is None,
    ensures
        run_steps(db, steps).0.log == db.log + names_of(steps),
    decreases steps.len(),
{
    if steps.len() == 0 {
        assert(db.log + names_of(steps) =~= db.log);
    } else {
        let h = steps[0];
        let rest = steps.skip(1);
        assert(names_of(rest) =~= names_of(steps).skip(1));
        if db.log.contains(h.name) {
            let k = choose|k: int| 0 <= k < db.log.len() && db.log[k] == h.name;
            assert(name_lt(db.log[k], steps[0].name));
            lemma_name_lt_irreflexive(h.name);
        }
        let d = apply_step(db, h)->Ok_0;
        assert(d.log == db.log.push(h.name));
        assert forall|i: int, j: int| 0 <= i < d.log.len() && 0 <= j < rest.len() implies name_lt(
            d.log[i],
            rest[j].name,
        ) by {
            assert(rest[j] == steps[j + 1]);
            assert(names_of(steps)[j + 1] == steps[j + 1].name);
            assert(names_of(steps)[0] == h.name);
            if i < db.log.len() {
                assert(name_lt(db.log[i], steps[j + 1].name));
            }
        }
        lemma_run_logs_all(d, rest);
        assert(db.log + names_of(steps) =~= d.log + names_of(rest));
    }
}

/// Steps whose names are all logged are skipped without effect.
proof fn lemma_run_skips_logged(db: DbModel, steps: Seq<StepSpec>, k: int)
    requires
        0 <= k <= steps.len(),
        forall|i: int| 0 <= i < k ==> db.log.contains(#[trigger] steps[i].name),
    ensures
        run_steps(db, steps) == run_steps(db, steps.skip(k)),
    decreases k,
{
    if k == 0 {
        assert(steps.skip(0) =~= steps);
    } else {
        assert(db.log.contains(steps[0].name));
        let rest = steps.skip(1);
        assert forall|i: int| 0 <= i < k - 1 implies db.log.contains(#[trigger] rest[i].name) by {
            assert(rest[i] == steps[i + 1]);
        }
        lemma_run_skips_logged(db, rest, k - 1);
        assert(rest.skip(k - 1) =~= steps.skip(k));
    }
}

/// The step creates one table, absent from the database, under a name that
/// is not logged.
pub open spec fn creates_one_fresh(db: DbModel, step: StepSpec) -> bool {
    &&& step.up.len() == 1
    &&& step.up[0] is CreateTable
    &&& !db.schema.contains(step.up[0]->CreateTable_0)
    &&& !db.log.contains(step.name)
}

/// Every step creates one fresh table, no two steps the same table, under
/// names that are distinct and not logged.
pub open spec fn creates_fresh(db: DbModel, steps: Seq<StepSpec>) -> bool {
    &&& forall|i: int| 0 <= i < steps.len() ==> creates_one_fresh(db, #[trigger] steps[i])
    &&& forall|i: int, j: int|
        0 <= i < j < steps.len() ==> #[trigger] steps[i].up[0] != #[trigger] steps[j].up[0]
            && steps[i].name != steps[j].name
}

/// Running `a + b` runs `a`, then, if that succeeded, `b`.
pub proof fn lemma_run_concat(db: DbModel, a: Seq<StepSpec>, b: Seq<StepSpec>)
    ensures
        run_steps(db, a + b) == if run_steps(db, a).1 is None {
            run_steps(run_steps(db, a).0, b)
        } else {
            run_steps(db, a)
        },
    decreases a.len(),
{
    if a.len() == 0 {
        assert(a + b =~= b);
    } else {
        assert((a + b)[0] == a[0]);
        assert((a + b).skip(1) =~= a.skip(1) + b);
        match apply_step(db, a[0]) {
            Ok(d) => lemma_run_concat(d, a.skip(1), b),
            Err(_) => {},
        }
    }
}

/// A run of steps that each create a fresh table succeeds, adds exactly
/// those tables and logs every step.
pub proof fn lemma_fresh_creates_succeed(db: DbModel, steps: Seq<StepSpec>)
    requires
        creates_fresh(db, steps),
    ensures
        run_steps(db, steps).1 is None,
        run_steps(db, steps).0.log == db.log + names_of(steps),
        forall|t: Table|
            #[trigger] run_steps(db, steps).0.schema.contains(t) <==> (db.schema.contains(t)
                || exists|i: int|
                0 <= i < steps.len() && steps[i].up[0] == SchemaOp::CreateTable(t)),
    decreases steps.len(),
{
    if steps.len() == 0 {
        assert(db.log + names_of(steps) =~= db.log);
    } else {
        let h = steps[0];
        assert(h.up.len() == 1);
        let t = h.up[0]->CreateTable_0;
        assert(h.up.skip(1) =~= Seq::<SchemaOp>::empty());
        let d = DbModel { schema: db.schema.insert(t), log: db.log.push(h.name) };
        assert(!db.log.contains(h.name));
        assert(!db.schema.contains(t));
        assert(apply_op(db.schema, h.up[0]) == Ok::<Set<Table>, DdlError>(db.schema.insert(t)));
        assert(apply_ops(db.schema.insert(t), h.up.skip(1)) == Ok::<Set<Table>, DdlError>(
            db.schema.insert(t),
        ));
        assert(apply_ops(db.schema, h.up) == Ok::<Set<Table>, DdlError>(db.schema.insert(t)));
        assert(apply_step(db, h) == Ok::<DbModel, DdlError>(d));
        let rest = steps.skip(1);
        assert forall|i: int| 0 <= i < rest.len() implies creates_one_fresh(d, #[trigger] rest[i]) by {
            assert(rest[i] == steps[i + 1]);
            assert(steps[i + 1].up.len() == 1);
            assert(steps[0].up[0] != steps[i + 1].up[0]);
            assert(steps[0].name != steps[i + 1].name);
            if d.log.contains(rest[i].name) {
                let k = choose|k: int| 0 <= k < d.log.len() && d.log[k] == rest[i].name;
                if k < db.log.len() {
                    assert(db.log[k] == rest[i].name);
                }
            }
        }
        assert forall|i: int, j: int| 0 <= i < j < rest.len() implies rest[i].up[0] != rest[j].up[0]
            && rest[i].name != rest[j].name by {
            assert(rest[i] == steps[i + 1]);
            assert(rest[j] == steps[j + 1]);
        }
        assert(creates_fresh(d, rest));
        lemma_fresh_creates_succeed(d, rest);
        assert(names_of(rest) =~= names_of(steps).skip(1));
        assert(db.log + names_of(steps) =~= d.log + names_of(rest));
        let end = run_steps(db, steps).0;
        assert forall|u: Table| #[trigger] end.schema.contains(u) <==> (db.schema.contains(u)
            || exists|i: int| 0 <= i < steps.len() && steps[i].up[0] == SchemaOp::CreateTable(u)) by {
            if exists|i: int| 0 <= i < rest.len() && rest[i].up[0] == SchemaOp::CreateTable(u) {
                let i = choose|i: int| 0 <= i < rest.len() && rest[i].up[0] == SchemaOp::CreateTable(u);
                assert(steps[i + 1] == rest[i]);
            }
            if exists|i: int| 0 <= i < steps.len() && steps[i].up[0] == SchemaOp::CreateTable(u) {
                let i = choose|i: int| 0 <= i < steps.len() && steps[i].up[0] == SchemaOp::CreateTable(u);
                if i > 0 {
                    assert(rest[i - 1] == steps[i]);
                }
            }
        }
    }
}

/// Applying the first `k` steps of a registry to a database with an empty log,
/// then the whole registry: the second run executes only the steps after the
/// first `k`, and if it succeeds the log holds the name of every step of the
/// registry once, in order.
pub proof fn lemma_resume_after_prefix(db: DbModel, steps: Seq<StepSpec>, k: int)
    requires
        ordered(steps),
        0 <= k <= steps.len(),
        db.log.len() == 0,
        run_steps(db, steps.subrange(0, k)).1 is None,
    ensures
        run_steps(db, steps.subrange(0, k)).0.log == names_of(steps.subrange(0, k)),
        run_steps(run_steps(db, steps.subrange(0, k)).0, steps) == run_steps(
            run_steps(db, steps.subrange(0, k)).0,
            steps.skip(k),
        ),
        run_steps(run_steps(db, steps.subrange(0, k)).0, steps).1 is None ==> {
            let log = run_steps(run_steps(db, steps.subrange(0, k)).0, steps).0.log;
            &&& log == names_of(steps)
            &&& log.no_duplicates()
        },
{
    let pre = steps.subrange(0, k);
    let post = steps.skip(k);
    let names = names_of(steps);
    assert(names_of(pre) =~= names.subrange(0, k));
    assert(names_of(post) =~= names.skip(k));
    lemma_run_logs_all(db, pre);
    let d1 = run_steps(db, pre).0;
    assert(db.log + names_of(pre) =~= names_of(pre));
    assert forall|i: int| 0 <= i < k implies d1.log.contains(#[trigger] steps[i].name) by {
        assert(d1.log[i] == names[i]);
    }
    lemma_run_skips_logged(d1, steps, k);
    if run_steps(d1, steps).1 is None {
        assert forall|i: int, j: int| 0 <= i < d1.log.len() && 0 <= j < post.len() implies name_lt(
            d1.log[i],
            post[j].name,
        ) by {
            assert(post[j] == steps[k + j]);
            assert(names[k + j] == steps[k + j].name);
        }
        lemma_run_logs_all(d1, post);
        assert(d1.log + names_of(post) =~= names);
        assert forall|i: int, j: int|
            0 <= i < names.len() && 0 <= j < names.len() && i != j implies names[i] != names[j] by {
            lemma_name_lt_irreflexive(names[i]);
            if i < j {
                assert(name_lt(names[i], names[j]));
            } else {
                assert(name_lt(names[j], names[i]));
            }
        }
    }
}

/// A database: its tables, and the log of the steps applied to it.
pub struct Database {
    schema: Schema,
    log: Vec<String>,
}

impl View for Database {
    type V = DbModel;

    closed spec fn view(&self) -> DbModel {
        DbModel { schema: self.schema@, log: log_view(self.log@) }
    }
}

impl Database {
    pub closed spec fn wf(&self) -> bool {
        self.schema.wf()
    }

    /// A database with no tables and an empty log.
    pub fn new() -> (r: Database)
        ensures
            r.wf(),
            r@ == (DbModel { schema: Set::<Table>::empty(), log: Seq::<Seq<char>>::empty() }),
    {
        let r = Database { schema: Schema::new(), log: Vec::new() };
        assert(log_view(r.log@) =~= Seq::<Seq<char>>::empty());
        r
    }

    /// Whether `t` is present.
    pub fn has_table(&self, t: Table) -> (r: bool)
        ensures
            r == self@.schema.contains(t),
    {
        self.schema.contains(t)
    }

    /// The tables present, each once.
    pub fn tables(&self) -> (r: Vec<Table>)
        requires
            self.wf(),
        ensures
            r@.no_duplicates(),
            r@.to_set() == self@.schema,
    {
        self.schema.tables()
    }

    /// The names of the steps applied, in the order they were applied.
    pub fn applied(&self) -> (r: &Vec<String>)
        ensures
            log_view(r@) == self@.log,
    {
        &self.log
    }

    /// Whether the step named `name` has been applied.
    pub fn is_applied(&self, name: &String) -> (r: bool)
        ensures
            r == self@.log.contains(name@),
    {
        let ghost log = self@.log;
        let mut i: usize = 0;
        while i < self.log.len()
            invariant
                i <= self.log@.len(),
                log == log_view(self.log@),
                forall|k: int| 0 <= k < i ==> log[k] != name@,
            decreases self.log@.len() - i,
        {
            assert(log[i as int] == self.log@[i as int]@);
            if self.log[i] == *name {
                return true;
            }
            i = i + 1;
        }
        false
    }

    /// Runs `ops` as one atomic unit outside any step; the log is untouched.
    pub fn execute(&mut self, ops: &Vec<SchemaOp>) -> (r: Result<(), DdlError>)
        requires
            old(self).wf(),
        ensures
            final(self).wf(),
            final(self)@.log == old(self)@.log,
            match apply_ops(old(self)@.schema, ops@) {
                Ok(s) => r == Ok::<(), DdlError>(()) && final(self)@.schema == s,
                Err(e) => r == Err::<(), DdlError>(e) && final(self)@.schema == old(self)@.schema,
            },
    {
        self.schema.apply_ops(ops)
    }

    /// Applies one step unless it is logged already: `Ok(true)` when it ran,
    /// `Ok(false)` when it was skipped; on failure nothing changes.
    pub fn apply_step(&mut self, step: &MigrationStep) -> (r: Result<bool, DdlError>)
        requires
            old(self).wf(),
        ensures
            final(self).wf(),
            match apply_step(old(self)@, step@) {
                Ok(d) => r == Ok::<bool, DdlError>(!old(self)@.log.contains(step.name@))
                    && final(self)@ == d,
                Err(e) => r == Err::<bool, DdlError>(e) && final(self)@ == old(self)@,
            },
    {
        if self.is_applied(&step.name) {
            return Ok(false);
        }
        match self.schema.apply_ops(&step.up) {
            Ok(()) => {
                let ghost before = self.log@;
                self.log.push(step.name.clone());
                assert(log_view(self.log@) =~= log_view(before).push(step.name@));
                Ok(true)
            },
            Err(e) => Err(e),
        }
    }
}

impl Database {
    /// Reverts `step`, which must be the step applied last; on failure
    /// nothing changes.
    pub fn revert_step(&mut self, step: &MigrationStep) -> (r: Result<(), RevertError>)
        requires
            old(self).wf(),
            old(self)@.log.len() > 0,
            old(self)@.log.last() == step.name@,
        ensures
            final(self).wf(),
            match revert_step(old(self)@, step@) {
                Ok(d) => r == Ok::<(), RevertError>(()) && final(self)@ == d,
                Err(e) => r == Err::<(), RevertError>(e) && final(self)@ == old(self)@,
            },
    {
        match step.down() {
            None => Err(RevertError::Irreversible),
            Some(down) => match self.schema.apply_ops(&down) {
                Ok(()) => {
                    let ghost before = self.log@;
                    self.log.pop();
                    assert(log_view(self.log@) =~= log_view(before).drop_last());
                    Ok(())
                },
                Err(e) => Err(RevertError::Failed(e)),
            },
        }
    }
}

impl Registry {
    /// The names of the steps not yet applied to `db`, in execution order.
    pub fn pending(&self, db: &Database) -> (r: Vec<String>)
        ensures
            log_view(r@) == pending_of(self@, db@.log),
    {
        let steps = self.steps_all();
        let mut r: Vec<String> = Vec::new();
        let mut i: usize = 0;
        assert(self@.skip(0) =~= self@);
        assert(log_view(r@) + pending_of(self@, db@.log) =~= pending_of(self@, db@.log));
        while i < steps.len()
            invariant
                i <= steps@.len(),
                steps@.len() == self@.len(),
                forall|k: int| 0 <= k < steps@.len() ==> #[trigger] steps@[k]@ == self@[k],
                log_view(r@) + pending_of(self@.skip(i as int), db@.log) == pending_of(self@, db@.log),
            decreases steps@.len() - i,
        {
            let ghost rest = self@.skip(i as int);
            let ghost before = log_view(r@);
            let ghost before_r = r@;
            assert(rest[0] == steps@[i as int]@);
            assert(rest.skip(1) =~= self@.skip(i + 1));
            if !db.is_applied(&steps[i].name) {
                r.push(steps[i].name.clone());
                assert(log_view(r@) =~= log_view(before_r).push(rest[0].name));
                assert(log_view(r@) + pending_of(self@.skip(i + 1), db@.log) =~= before + (seq![
                    rest[0].name,
                ] + pending_of(rest.skip(1), db@.log)));
            }
            i = i + 1;
        }
        assert(self@.skip(i as int) =~= Seq::<StepSpec>::empty());
        assert(log_view(r@) + Seq::<Seq<char>>::empty() =~= log_view(r@));
        r
    }

    /// Reverts the step applied last, if any: `Ok(Some(t))` with its name
    /// when it was reverted, `Ok(None)` when the log is empty; on failure
    /// nothing changes.
    pub fn revert_last(&self, db: &mut Database) -> (r: Result<Option<String>, RevertError>)
        requires
            old(db).wf(),
        ensures
            final(db).wf(),
            old(db)@.log.len() == 0 ==> r == Ok::<Option<String>, RevertError>(None) && final(db)@
                == old(db)@,
            old(db)@.log.len() > 0 ==> {
                let t = old(db)@.log.last();
                match r {
                    Ok(Some(u)) => exists|i: int|
                        0 <= i < self@.len() && #[trigger] self@[i].name == t && u@ == t
                            && revert_step(old(db)@, self@[i]) == Ok::<DbModel, RevertError>(
                            final(db)@,
                        ),
                    Ok(None) => false,
                    Err(RevertError::NotRegistered(u)) => u@ == t && final(db)@ == old(db)@
                        && forall|i: int| 0 <= i < self@.len() ==> #[trigger] self@[i].name != t,
                    Err(e) => final(db)@ == old(db)@ && exists|i: int|
                        0 <= i < self@.len() && #[trigger] self@[i].name == t && revert_step(
                            old(db)@,
                            self@[i],
                        ) == Err::<DbModel, RevertError>(e),
                }
            },
    {
        let n = db.log.len();
        if n == 0 {
            return Ok(None);
        }
        let t = db.log[n - 1].clone();
        assert(t@ == db@.log.last());
        let steps = self.steps_all();
        let mut i: usize = 0;
        while i < steps.len()
            invariant
                i <= steps@.len(),
                steps@.len() == self@.len(),
                forall|k: int| 0 <= k < steps@.len() ==> #[trigger] steps@[k]@ == self@[k],
                forall|k: int| 0 <= k < i ==> #[trigger] self@[k].name != t@,
                db.wf(),
                db@ == old(db)@,
                db@.log.len() > 0,
                t@ == db@.log.last(),
            decreases steps@.len() - i,
        {
            assert(steps@[i as int]@ == self@[i as int]);
            if steps[i].name == t {
                let ghost k = i as int;
                assert(self@[k].name == t@);
                match db.revert_step(&steps[i]) {
                    Ok(()) => {
                        assert(revert_step(old(db)@, self@[k]) == Ok::<DbModel, RevertError>(db@));
                        return Ok(Some(t));
                    },
                    Err(e) => {
                        assert(revert_step(old(db)@, self@[k]) == Err::<DbModel, RevertError>(e));
                        return Err(e);
                    },
                }
            }
            i = i + 1;
        }
        Err(RevertError::NotRegistered(t))
    }

    /// Applies every step in order, skipping those already logged, and halts
    /// at the first failure; the steps before it stay applied.
    pub fn apply_all(&self, db: &mut Database) -> (r: Result<(), ApplyError>)
        requires
            old(db).wf(),
        ensures
            final(db).wf(),
            run_steps(old(db)@, self@) == (final(db)@, match r {
                Ok(()) => None,
                Err(e) => Some(e@),
            }),
    {
        let steps = self.steps_all();
        let mut i: usize = 0;
        assert(self@.skip(0) =~= self@);
        while i < steps.len()
            invariant
                i <= steps@.len(),
                steps@.len() == self@.len(),
                forall|k: int| 0 <= k < steps@.len() ==> #[trigger] steps@[k]@ == self@[k],
                db.wf(),
                run_steps(old(db)@, self@) == run_steps(db@, self@.skip(i as int)),
            decreases steps@.len() - i,
        {
            let ghost rest = self@.skip(i as int);
            assert(rest[0] == steps@[i as int]@);
            assert(rest.skip(1) =~= self@.skip(i + 1));
            match db.apply_step(&steps[i]) {
                Ok(_) => {},
                Err(e) => {
                    return Err(ApplyError { name: steps[i].name.clone(), cause: e });
                },
            }
            i = i + 1;
        }
        assert(self@.skip(i as int) =~= Seq::<StepSpec>::empty());
        Ok(())
    }
}

} // verus!
