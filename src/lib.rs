//! Ordered, versioned schema migrations and the rules for applying them.
use vstd::prelude::*;

pub mod m20240723_000002_drop_group_user;
pub mod registry;
pub mod runner;
pub mod schema;
pub mod step;

use crate::registry::{Registry, names_increasing, names_of, ordered};
use crate::runner::{DbModel, Failure, creates_one_fresh, lemma_fresh_creates_succeed, lemma_resume_after_prefix, lemma_run_concat, run_steps};
use crate::schema::{DdlError, SchemaOp, Table, apply_ops};
use crate::step::{
    MigrationStep, StepSpec, lemma_name_lt_irreflexive, lemma_name_lt_transitive, name_lt,
    name_lt_at,
};

verus! {

/// A step that creates `table`, as a value.
pub open spec fn creates(name: Seq<char>, table: Table) -> StepSpec {
    StepSpec {
        name,
        up: seq![SchemaOp::CreateTable(table)],
        reversible: true,
    }
}

/// A step that drops `table`, as a value.
pub open spec fn drops(name: Seq<char>, table: Table) -> StepSpec {
    StepSpec {
        name,
        up: seq![SchemaOp::DropTable(table)],
        reversible: false,
    }
}

/// This project's migration steps, in execution order.
pub open spec fn project_steps() -> Seq<StepSpec> {
    seq![
        creates("m20240718_000001_create_user"@, Table::User),
        creates("m20240718_000002_create_organization"@, Table::Organization),
        creates("m20240718_000003_create_workspace"@, Table::Workspace),
        creates("m20240718_000004_create_group"@, Table::Group),
        creates("m20240718_000005_create_invitation"@, Table::Invitation),
        creates("m20240718_000006_create_snapshot"@, Table::Snapshot),
        creates("m20240718_000007_create_file"@, Table::File),
        creates("m20240718_000008_create_task"@, Table::Task),
        creates("m20240718_000009_create_grouppermission"@, Table::GroupPermission),
        creates("m20240718_000010_create_userpermission"@, Table::UserPermission),
        drops("m20240723_000001_drop_organization_user"@, Table::OrganizationUser),
        drops("m20240723_000002_drop_group_user"@, Table::GroupUser),
    ]
}

/// Two names that agree before position `i` and differ there are ordered by
/// their characters at `i`.
proof fn lemma_name_lt_literal(a: Seq<char>, b: Seq<char>, i: int)
    requires
        0 <= i < a.len(),
        i < b.len(),
        forall|k: int| 0 <= k < i ==> a[k] == b[k],
        (a[i] as u32) < (b[i] as u32),
    ensures
        name_lt(a, b),
{
    assert(a.subrange(0, i) =~= b.subrange(0, i));
    assert(name_lt_at(a, b, i));
}

/// The project's step names strictly increase.
proof fn lemma_project_names_increase()
    ensures
        name_lt("m20240718_000001_create_user"@, "m20240718_000002_create_organization"@),
        name_lt("m20240718_000002_create_organization"@, "m20240718_000003_create_workspace"@),
        name_lt("m20240718_000003_create_workspace"@, "m20240718_000004_create_group"@),
        name_lt("m20240718_000004_create_group"@, "m20240718_000005_create_invitation"@),
        name_lt("m20240718_000005_create_invitation"@, "m20240718_000006_create_snapshot"@),
        name_lt("m20240718_000006_create_snapshot"@, "m20240718_000007_create_file"@),
        name_lt("m20240718_000007_create_file"@, "m20240718_000008_create_task"@),
        name_lt("m20240718_000008_create_task"@, "m20240718_000009_create_grouppermission"@),
        name_lt("m20240718_000009_create_grouppermission"@, "m20240718_000010_create_userpermission"@),
        name_lt("m20240718_000010_create_userpermission"@, "m20240723_000001_drop_organization_user"@),
        name_lt("m20240723_000001_drop_organization_user"@, "m20240723_000002_drop_group_user"@),
{
        reveal_strlit("m20240718_000001_create_user");
        reveal_strlit("m20240718_000002_create_organization");
        reveal_strlit("m20240718_000003_create_workspace");
        reveal_strlit("m20240718_000004_create_group");
        reveal_strlit("m20240718_000005_create_invitation");
        reveal_strlit("m20240718_000006_create_snapshot");
        reveal_strlit("m20240718_000007_create_file");
        reveal_strlit("m20240718_000008_create_task");
        reveal_strlit("m20240718_000009_create_grouppermission");
        reveal_strlit("m20240718_000010_create_userpermission");
        reveal_strlit("m20240723_000001_drop_organization_user");
        reveal_strlit("m20240723_000002_drop_group_user");
        lemma_name_lt_literal("m20240718_000001_create_user"@, "m20240718_000002_create_organization"@, 15);
        lemma_name_lt_literal("m20240718_000002_create_organization"@, "m20240718_000003_create_workspace"@, 15);
        lemma_name_lt_literal("m20240718_000003_create_workspace"@, "m20240718_000004_create_group"@, 15);
        lemma_name_lt_literal("m20240718_000004_create_group"@, "m20240718_000005_create_invitation"@, 15);
        lemma_name_lt_literal("m20240718_000005_create_invitation"@, "m20240718_000006_create_snapshot"@, 15);
        lemma_name_lt_literal("m20240718_000006_create_snapshot"@, "m20240718_000007_create_file"@, 15);
        lemma_name_lt_literal("m20240718_000007_create_file"@, "m20240718_000008_create_task"@, 15);
        lemma_name_lt_literal("m20240718_000008_create_task"@, "m20240718_000009_create_grouppermission"@, 15);
        lemma_name_lt_literal("m20240718_000009_create_grouppermission"@, "m20240718_000010_create_userpermission"@, 14);
        lemma_name_lt_literal("m20240718_000010_create_userpermission"@, "m20240723_000001_drop_organization_user"@, 7);
        lemma_name_lt_literal("m20240723_000001_drop_organization_user"@, "m20240723_000002_drop_group_user"@, 15);
}

/// Position of a table among those the project creates; the two tables it
/// only drops come last.
pub open spec fn created_index(t: Table) -> int {
    match t {
        Table::User => 0,
        Table::Organization => 1,
        Table::Workspace => 2,
        Table::Group => 3,
        Table::Invitation => 4,
        Table::Snapshot => 5,
        Table::File => 6,
        Table::Task => 7,
        Table::GroupPermission => 8,
        Table::UserPermission => 9,
        Table::OrganizationUser => 10,
        Table::GroupUser => 11,
    }
}

/// Names that increase from each one to the next increase throughout.
proof fn lemma_names_increase_throughout(s: Seq<Seq<char>>)
    requires
        forall|i: int| 0 < i < s.len() ==> name_lt(#[trigger] s[i - 1], s[i]),
    ensures
        names_increasing(s),
    decreases s.len(),
{
    if s.len() > 0 {
        let p = s.drop_last();
        assert forall|i: int| 0 < i < p.len() implies name_lt(#[trigger] p[i - 1], p[i]) by {
            assert(s[i - 1] == p[i - 1]);
        }
        lemma_names_increase_throughout(p);
        let n = s.len() - 1;
        assert forall|i: int, j: int| 0 <= i < j < s.len() implies name_lt(s[i], s[j]) by {
            if j == n && i < n - 1 {
                assert(name_lt(p[i], p[n - 1]));
                assert(name_lt(s[n - 1], s[n]));
                lemma_name_lt_transitive(s[i], s[n - 1], s[n]);
            } else if j < n {
                assert(name_lt(p[i], p[j]));
            }
        }
    }
}

/// The project's first ten steps, as a registry in their own right, with
/// names strictly increasing, each creating the table at its
/// position.
proof fn lemma_project_creates()
    ensures
        ordered(project_steps().subrange(0, 10)),
        forall|i: int|
            0 <= i < 10 ==> {
                let st = #[trigger] project_steps().subrange(0, 10)[i];
                &&& st.up.len() == 1
                &&& st.up[0] is CreateTable
                &&& created_index(st.up[0]->CreateTable_0) == i
            },
{
    let s = project_steps().subrange(0, 10);
    lemma_project_names_increase();
    let m = names_of(s);
    assert forall|i: int| 0 < i < m.len() implies name_lt(#[trigger] m[i - 1], m[i]) by {
        assert(m[i - 1] == s[i - 1].name);
    }
    lemma_names_increase_throughout(m);
    assert forall|i: int| 0 <= i < 10 implies {
        let st = #[trigger] s[i];
        &&& st.up.len() == 1
        &&& st.up[0] is CreateTable
        &&& created_index(st.up[0]->CreateTable_0) == i
    } by {
        if i == 0 {
            assert(s[i].up =~= seq![SchemaOp::CreateTable(Table::User)]);
        } else if i == 1 {
            assert(s[i].up =~= seq![SchemaOp::CreateTable(Table::Organization)]);
        } else if i == 2 {
            assert(s[i].up =~= seq![SchemaOp::CreateTable(Table::Workspace)]);
        } else if i == 3 {
            assert(s[i].up =~= seq![SchemaOp::CreateTable(Table::Group)]);
        } else if i == 4 {
            assert(s[i].up =~= seq![SchemaOp::CreateTable(Table::Invitation)]);
        } else if i == 5 {
            assert(s[i].up =~= seq![SchemaOp::CreateTable(Table::Snapshot)]);
        } else if i == 6 {
            assert(s[i].up =~= seq![SchemaOp::CreateTable(Table::File)]);
        } else if i == 7 {
            assert(s[i].up =~= seq![SchemaOp::CreateTable(Table::Task)]);
        } else if i == 8 {
            assert(s[i].up =~= seq![SchemaOp::CreateTable(Table::GroupPermission)]);
        } else if i == 9 {
            assert(s[i].up =~= seq![SchemaOp::CreateTable(Table::UserPermission)]);
        }
    }
}

/// Applying the project's first five steps to an empty database, then its
/// first ten: both runs succeed, the second executes only the steps after the
/// fifth, and the log ends with the names of the ten steps, each once, in
/// order.
pub proof fn lemma_project_resume()
    ensures
        ({
            let db0 = DbModel { schema: Set::<Table>::empty(), log: Seq::<Seq<char>>::empty() };
            let s = project_steps().subrange(0, 10);
            let first = run_steps(db0, s.subrange(0, 5));
            let second = run_steps(first.0, s);
            &&& first.1 is None
            &&& second == run_steps(first.0, s.skip(5))
            &&& second.1 is None
            &&& second.0.log == names_of(s)
            &&& second.0.log.no_duplicates()
        }),
{
    let db0 = DbModel { schema: Set::<Table>::empty(), log: Seq::<Seq<char>>::empty() };
    let s = project_steps().subrange(0, 10);
    let pre = s.subrange(0, 5);
    let post = s.skip(5);
    lemma_project_creates();
    let m = names_of(s);
    assert forall|i: int, j: int| 0 <= i < j < 10 implies s[i].up[0] != s[j].up[0] && s[i].name
        != s[j].name by {
        assert(s[i] == #[trigger] s[i]);
        assert(s[j] == #[trigger] s[j]);
        assert(name_lt(m[i], m[j]));
        lemma_name_lt_irreflexive(m[i]);
    }
    assert forall|i: int| 0 <= i < pre.len() implies creates_one_fresh(db0, #[trigger] pre[i]) by {
        assert(pre[i] == s[i]);
    }
    assert forall|i: int, j: int| 0 <= i < j < pre.len() implies #[trigger] pre[i].up[0]
        != #[trigger] pre[j].up[0] && pre[i].name != pre[j].name by {
        assert(pre[i] == s[i]);
        assert(pre[j] == s[j]);
    }
    lemma_fresh_creates_succeed(db0, pre);
    lemma_resume_after_prefix(db0, s, 5);
    let d1 = run_steps(db0, pre).0;
    assert forall|i: int| 0 <= i < post.len() implies creates_one_fresh(d1, #[trigger] post[i]) by {
        assert(post[i] == s[i + 5]);
        let t = s[i + 5].up[0]->CreateTable_0;
        if d1.schema.contains(t) {
            let k = choose|k: int| 0 <= k < pre.len() && pre[k].up[0] == SchemaOp::CreateTable(t);
            assert(pre[k] == s[k]);
            assert(s[k].up[0] != s[i + 5].up[0]);
        }
        if d1.log.contains(s[i + 5].name) {
            let k = choose|k: int| 0 <= k < d1.log.len() && d1.log[k] == s[i + 5].name;
            assert(d1.log[k] == names_of(pre)[k]);
            assert(pre[k] == s[k]);
            assert(s[k].name != s[i + 5].name);
        }
    }
    assert forall|i: int, j: int| 0 <= i < j < post.len() implies #[trigger] post[i].up[0]
        != #[trigger] post[j].up[0] && post[i].name != post[j].name by {
        assert(post[i] == s[i + 5]);
        assert(post[j] == s[j + 5]);
    }
    lemma_fresh_creates_succeed(d1, post);
}

/// Applying the whole project registry to an empty database: the ten tables
/// the project creates are made, and then the run halts at the step that
/// drops `organization_user`, a table that no step creates, with its name
/// left out of the log.
pub proof fn lemma_project_on_empty_database()
    ensures
        ({
            let db0 = DbModel { schema: Set::<Table>::empty(), log: Seq::<Seq<char>>::empty() };
            let r = run_steps(db0, project_steps());
            &&& r.1 == Some(
                Failure {
                    name: "m20240723_000001_drop_organization_user"@,
                    cause: DdlError::NoSuchTable(Table::OrganizationUser),
                },
            )
            &&& r.0.log == names_of(project_steps().subrange(0, 10))
            &&& forall|t: Table| #[trigger] r.0.schema.contains(t) <==> created_index(t) < 10
        }),
{
    let db0 = DbModel { schema: Set::<Table>::empty(), log: Seq::<Seq<char>>::empty() };
    let all = project_steps();
    let s = all.subrange(0, 10);
    let tail = all.subrange(10, 12);
    lemma_project_creates();
    lemma_project_names_increase();
    let ma = names_of(all);
    assert forall|i: int| 0 < i < ma.len() implies name_lt(#[trigger] ma[i - 1], ma[i]) by {
        assert(ma[i - 1] == all[i - 1].name);
    }
    lemma_names_increase_throughout(ma);
    assert forall|i: int| 0 <= i < s.len() implies creates_one_fresh(db0, #[trigger] s[i]) by {}
    assert forall|i: int, j: int| 0 <= i < j < s.len() implies #[trigger] s[i].up[0]
        != #[trigger] s[j].up[0] && s[i].name != s[j].name by {
        assert(s[i] == all[i]);
        assert(s[j] == all[j]);
        assert(name_lt(ma[i], ma[j]));
        lemma_name_lt_irreflexive(ma[i]);
    }
    lemma_fresh_creates_succeed(db0, s);
    let d10 = run_steps(db0, s).0;
    assert(db0.log + names_of(s) =~= names_of(s));
    assert forall|t: Table| #[trigger] d10.schema.contains(t) <==> created_index(t) < 10 by {
        if created_index(t) < 10 {
            let i = created_index(t);
            assert(s[i].up[0] is CreateTable);
            if s[i].up[0] != SchemaOp::CreateTable(t) {
                let u = s[i].up[0]->CreateTable_0;
                assert(created_index(u) == i);
            }
        }
    }
    assert(all =~= s + tail);
    lemma_run_concat(db0, s, tail);
    let h = tail[0];
    assert(h == all[10]);
    assert(h.up =~= seq![SchemaOp::DropTable(Table::OrganizationUser)]);
    if d10.log.contains(h.name) {
        let k = choose|k: int| 0 <= k < d10.log.len() && d10.log[k] == h.name;
        assert(d10.log[k] == ma[k]);
        assert(name_lt(ma[k], ma[10]));
        lemma_name_lt_irreflexive(ma[10]);
    }
    assert(!d10.schema.contains(Table::OrganizationUser));
    assert(apply_ops(d10.schema, h.up) == Err::<Set<Table>, DdlError>(
        DdlError::NoSuchTable(Table::OrganizationUser),
    ));
}

/// The project's registry.
pub struct Migrator;

impl Migrator {
    /// The project's steps, in execution order; their names strictly
    /// increase. Every registration is proved to succeed.
    pub fn migrations() -> (r: Registry)
        ensures
            r.wf(),
            r@ == project_steps(),
    {
        proof {
            lemma_project_names_increase();
        }
        let mut reg = Registry::empty();
        let r = reg.register(MigrationStep::create_table("m20240718_000001_create_user", Table::User));
        assert(r is Ok);
        let r = reg.register(MigrationStep::create_table("m20240718_000002_create_organization", Table::Organization));
        assert(r is Ok);
        let r = reg.register(MigrationStep::create_table("m20240718_000003_create_workspace", Table::Workspace));
        assert(r is Ok);
        let r = reg.register(MigrationStep::create_table("m20240718_000004_create_group", Table::Group));
        assert(r is Ok);
        let r = reg.register(MigrationStep::create_table("m20240718_000005_create_invitation", Table::Invitation));
        assert(r is Ok);
        let r = reg.register(MigrationStep::create_table("m20240718_000006_create_snapshot", Table::Snapshot));
        assert(r is Ok);
        let r = reg.register(MigrationStep::create_table("m20240718_000007_create_file", Table::File));
        assert(r is Ok);
        let r = reg.register(MigrationStep::create_table("m20240718_000008_create_task", Table::Task));
        assert(r is Ok);
        let r = reg.register(MigrationStep::create_table("m20240718_000009_create_grouppermission", Table::GroupPermission));
        assert(r is Ok);
        let r = reg.register(MigrationStep::create_table("m20240718_000010_create_userpermission", Table::UserPermission));
        assert(r is Ok);
        let r = reg.register(MigrationStep::drop_table("m20240723_000001_drop_organization_user", Table::OrganizationUser));
        assert(r is Ok);
        let r = reg.register(m20240723_000002_drop_group_user::Migration.step());
        assert(r is Ok);
        assert(reg@ =~= project_steps());
        reg
    }
}

} // verus!
