use migrations::m20240723_000002_drop_group_user::Migration;
use migrations::registry::{Registry, RegistryError};
use migrations::runner::{ApplyError, Database, RevertError};
use migrations::schema::{DdlError, SchemaOp, Table};
use migrations::step::{MigrationStep, name_precedes};
use migrations::Migrator;

const DECLARED: [Table; 10] = [
    Table::User,
    Table::Organization,
    Table::Workspace,
    Table::Group,
    Table::Invitation,
    Table::Snapshot,
    Table::File,
    Table::Task,
    Table::GroupPermission,
    Table::UserPermission,
];

fn cname(seq: u32) -> String {
    format!("m20240718_{:06}_create", seq)
}

fn create_steps(n: u32) -> Vec<MigrationStep> {
    (0..n)
        .map(|i| {
            MigrationStep::create_table(&cname(i + 1), DECLARED[i as usize])
        })
        .collect()
}

fn legacy_database() -> Database {
    let mut db = Database::new();
    db.execute(&vec![
        SchemaOp::CreateTable(Table::OrganizationUser),
        SchemaOp::CreateTable(Table::GroupUser),
    ])
    .unwrap();
    db
}

#[test]
fn migrator_lists_steps_in_strictly_increasing_token_order() {
    let reg = Migrator::migrations();
    let steps = reg.steps();
    assert_eq!(steps.len(), 12);
    for w in steps.windows(2) {
        assert!(name_precedes(&w[0].name, &w[1].name));
        assert!(!name_precedes(&w[1].name, &w[0].name));
    }
    assert_eq!(steps[0].name, "m20240718_000001_create_user");
    assert_eq!(steps[9].name, "m20240718_000010_create_userpermission");
    assert_eq!(steps[10].name, "m20240723_000001_drop_organization_user");
    assert_eq!(steps[11].name, "m20240723_000002_drop_group_user");
    assert_eq!(steps[11].up, vec![SchemaOp::DropTable(Table::GroupUser)]);
}

#[test]
fn token_order_is_by_date_then_number() {
    assert!(name_precedes("m20240718_000010_x", "m20240723_000001_a"));
    assert!(name_precedes("m20240718_000002_z", "m20240718_000010_a"));
    assert!(!name_precedes("m20240718_000002_a", "m20240718_000002_a"));
    assert!(!name_precedes("m20240723_000001_a", "m20240718_000009_z"));
}

#[test]
fn full_registry_on_legacy_database_leaves_declared_tables() {
    let reg = Migrator::migrations();
    let mut db = legacy_database();
    assert_eq!(reg.apply_all(&mut db), Ok(()));
    for t in DECLARED {
        assert!(db.has_table(t));
    }
    assert!(!db.has_table(Table::OrganizationUser));
    assert!(!db.has_table(Table::GroupUser));
    assert_eq!(db.tables().len(), 10);
    let expected: Vec<String> = reg.steps().iter().map(|s| s.name.clone()).collect();
    assert_eq!(db.applied(), &expected);
    assert_eq!(db.applied()[0], "m20240718_000001_create_user");
}

#[test]
fn full_registry_on_empty_database_halts_at_missing_legacy_table() {
    let reg = Migrator::migrations();
    let mut db = Database::new();
    assert_eq!(
        reg.apply_all(&mut db),
        Err(ApplyError {
            name: String::from("m20240723_000001_drop_organization_user"),
            cause: DdlError::NoSuchTable(Table::OrganizationUser),
        })
    );
    for t in DECLARED {
        assert!(db.has_table(t));
    }
    assert_eq!(db.applied().len(), 10);
    assert_eq!(
        reg.pending(&db),
        vec![
            String::from("m20240723_000001_drop_organization_user"),
            String::from("m20240723_000002_drop_group_user"),
        ]
    );
}

#[test]
fn applying_twice_equals_applying_once() {
    let reg = Migrator::migrations();
    let mut db = legacy_database();
    reg.apply_all(&mut db).unwrap();
    let tables = db.tables();
    let log = db.applied().clone();
    assert_eq!(reg.apply_all(&mut db), Ok(()));
    assert_eq!(db.tables(), tables);
    assert_eq!(db.applied(), &log);
    assert!(reg.pending(&db).is_empty());
}

#[test]
fn applying_twice_repeats_the_same_failure() {
    let reg = Migrator::migrations();
    let mut db = Database::new();
    let first = reg.apply_all(&mut db);
    let tables = db.tables();
    let log = db.applied().clone();
    assert_eq!(reg.apply_all(&mut db), first);
    assert_eq!(db.tables(), tables);
    assert_eq!(db.applied(), &log);
}

#[test]
fn up_then_down_restores_schema() {
    let step = MigrationStep::create_table("m20240718_000001_create_user", Table::User);
    assert_eq!(step.down(), Some(vec![SchemaOp::DropTable(Table::User)]));
    let mut db = legacy_database();
    let tables = db.tables();
    assert_eq!(db.apply_step(&step), Ok(true));
    assert!(db.has_table(Table::User));
    assert_eq!(db.revert_step(&step), Ok(()));
    assert_eq!(db.tables(), tables);
    assert!(db.applied().is_empty());
}

#[test]
fn down_of_several_instructions_runs_inverses_last_first() {
    let step = MigrationStep {
        name: String::from("swap"),
        up: vec![SchemaOp::DropTable(Table::GroupUser), SchemaOp::CreateTable(Table::Task)],
        reversible: true,
    };
    assert_eq!(
        step.down(),
        Some(vec![SchemaOp::DropTable(Table::Task), SchemaOp::CreateTable(Table::GroupUser)])
    );
    let mut db = legacy_database();
    let tables = db.tables();
    assert_eq!(db.apply_step(&step), Ok(true));
    assert_eq!(db.revert_step(&step), Ok(()));
    let mut after = db.tables();
    let mut before = tables;
    after.sort_by_key(|t| format!("{:?}", t));
    before.sort_by_key(|t| format!("{:?}", t));
    assert_eq!(after, before);
}

#[test]
fn drop_step_cannot_be_reverted() {
    let step = Migration.step();
    assert_eq!(step.down(), None);
    let mut db = legacy_database();
    assert_eq!(db.apply_step(&step), Ok(true));
    assert_eq!(db.revert_step(&step), Err(RevertError::Irreversible));
    assert!(!db.has_table(Table::GroupUser));
    assert_eq!(db.applied(), &vec![String::from("m20240723_000002_drop_group_user")]);
}

#[test]
fn revert_failure_changes_nothing() {
    let step = MigrationStep::create_table("create_user", Table::User);
    let mut db = Database::new();
    db.apply_step(&step).unwrap();
    db.execute(&vec![SchemaOp::DropTable(Table::User)]).unwrap();
    assert_eq!(db.revert_step(&step), Err(RevertError::Failed(DdlError::NoSuchTable(Table::User))));
    assert_eq!(db.applied(), &vec![String::from("create_user")]);
}

#[test]
fn duplicate_token_fails_at_assembly() {
    let steps = vec![
        MigrationStep::create_table("m20240718_000001_a", Table::User),
        MigrationStep::create_table("m20240718_000002_b", Table::Group),
        MigrationStep::create_table("m20240718_000001_a", Table::Task),
    ];
    assert_eq!(Registry::new(steps).err(), Some(RegistryError::DuplicateName(2)));

    let mut reg = Registry::empty();
    assert_eq!(reg.register(MigrationStep::create_table("m20240718_000003_a", Table::User)), Ok(()));
    assert_eq!(
        reg.register(MigrationStep::create_table("m20240718_000003_a", Table::Group)),
        Err(RegistryError::DuplicateName(1))
    );
    assert_eq!(reg.len(), 1);
}

#[test]
fn out_of_order_token_fails_at_assembly() {
    let steps = vec![
        MigrationStep::create_table("m20240718_000002_a", Table::User),
        MigrationStep::create_table("m20240718_000001_b", Table::Group),
    ];
    assert_eq!(Registry::new(steps).err(), Some(RegistryError::OutOfOrder(1)));
    let mut reg = Registry::empty();
    reg.register(MigrationStep::create_table("m20240723_000001_a", Table::User)).unwrap();
    assert_eq!(
        reg.register(MigrationStep::create_table("m20240718_000009_b", Table::Group)),
        Err(RegistryError::OutOfOrder(1))
    );
    assert_eq!(reg.len(), 1);
}

#[test]
fn distinct_rising_names_are_accepted() {
    let steps = vec![
        MigrationStep::create_table("a", Table::User),
        MigrationStep::create_table("b", Table::Group),
        MigrationStep::create_table("c", Table::Task),
    ];
    let reg = Registry::new(steps).unwrap();
    let names: Vec<String> = reg.steps().iter().map(|s| s.name.clone()).collect();
    assert_eq!(names, vec!["a", "b", "c"]);
}

#[test]
fn registry_new_keeps_order() {
    let reg = Registry::new(create_steps(3)).unwrap();
    assert_eq!(reg.len(), 3);
    let names: Vec<String> = reg.steps().iter().map(|s| s.name.clone()).collect();
    assert_eq!(names, vec![cname(1), cname(2), cname(3)]);
    assert_eq!(Registry::new(Vec::new()).map(|r| r.len()), Ok(0));
}

fn project_prefix(n: usize) -> Registry {
    let steps = Migrator::migrations()
        .steps()
        .iter()
        .take(n)
        .map(|s| MigrationStep {
            name: s.name.clone(),
            up: s.up.clone(),
            reversible: s.reversible,
        })
        .collect();
    Registry::new(steps).unwrap()
}

fn project_names(n: usize) -> Vec<String> {
    Migrator::migrations().steps().iter().take(n).map(|s| s.name.clone()).collect()
}

#[test]
fn resuming_runs_only_the_remaining_steps() {
    let first = project_prefix(5);
    let full = project_prefix(10);
    let mut db = Database::new();
    assert_eq!(first.apply_all(&mut db), Ok(()));
    assert_eq!(db.applied().len(), 5);
    let all = project_names(10);
    let expected_pending = all[5..].to_vec();
    assert_eq!(full.pending(&db), expected_pending);
    let mut executed = Vec::new();
    for step in full.steps() {
        if db.apply_step(step).unwrap() {
            executed.push(step.name.clone());
        }
    }
    assert_eq!(executed, expected_pending);
    assert_eq!(db.applied(), &all);
    assert_eq!(full.apply_all(&mut db), Ok(()));
    assert_eq!(db.applied(), &all);
    for t in DECLARED {
        assert!(db.has_table(t));
    }
}

#[test]
fn resuming_through_apply_all_logs_each_step_once() {
    let mut db = Database::new();
    project_prefix(5).apply_all(&mut db).unwrap();
    project_prefix(10).apply_all(&mut db).unwrap();
    let all = project_names(10);
    assert_eq!(db.applied(), &all);
    assert_eq!(db.tables().len(), 10);
}

#[test]
fn create_of_present_table_fails_atomically() {
    let mut db = Database::new();
    db.execute(&vec![SchemaOp::CreateTable(Table::User)]).unwrap();
    let step = MigrationStep {
        name: String::from("two"),
        up: vec![SchemaOp::CreateTable(Table::Task), SchemaOp::CreateTable(Table::User)],
        reversible: true,
    };
    assert_eq!(db.apply_step(&step), Err(DdlError::TableExists(Table::User)));
    assert!(!db.has_table(Table::Task));
    assert!(db.applied().is_empty());
    let reg = Registry::new(vec![step]).unwrap();
    assert_eq!(
        reg.apply_all(&mut db),
        Err(ApplyError { name: String::from("two"), cause: DdlError::TableExists(Table::User) })
    );
}

#[test]
fn logged_step_is_skipped() {
    let step = MigrationStep::create_table("create_user", Table::User);
    let mut db = Database::new();
    assert_eq!(db.apply_step(&step), Ok(true));
    assert!(db.is_applied(&String::from("create_user")));
    assert!(!db.is_applied(&String::from("create_group")));
    assert_eq!(db.apply_step(&step), Ok(false));
    assert_eq!(db.applied().len(), 1);
}

#[test]
fn drop_group_user_step_describes_itself() {
    let m = Migration;
    assert_eq!(m.name(), "m20240723_000002_drop_group_user");
    assert_eq!(m.up(), vec![SchemaOp::DropTable(Table::GroupUser)]);
    let step = m.step();
    assert_eq!(step.name, "m20240723_000002_drop_group_user");
    assert!(!step.reversible);
}

#[test]
fn revert_last_goes_newest_to_oldest() {
    let reg = Registry::new(create_steps(3)).unwrap();
    let mut db = Database::new();
    assert_eq!(reg.revert_last(&mut db), Ok(None));
    reg.apply_all(&mut db).unwrap();
    assert_eq!(reg.revert_last(&mut db), Ok(Some(cname(3))));
    assert!(!db.has_table(Table::Workspace));
    assert_eq!(reg.revert_last(&mut db), Ok(Some(cname(2))));
    assert_eq!(reg.revert_last(&mut db), Ok(Some(cname(1))));
    assert!(db.tables().is_empty());
    assert!(db.applied().is_empty());
    assert_eq!(reg.revert_last(&mut db), Ok(None));
}

#[test]
fn revert_last_of_drop_step_is_refused() {
    let reg = Migrator::migrations();
    let mut db = legacy_database();
    reg.apply_all(&mut db).unwrap();
    assert_eq!(reg.revert_last(&mut db), Err(RevertError::Irreversible));
    assert_eq!(db.applied().len(), 12);
}

#[test]
fn revert_last_of_unregistered_token_is_refused() {
    let mut db = Database::new();
    let stray = MigrationStep::create_table("stray", Table::Task);
    db.apply_step(&stray).unwrap();
    let reg = Registry::new(create_steps(2)).unwrap();
    assert_eq!(reg.revert_last(&mut db), Err(RevertError::NotRegistered(String::from("stray"))));
    assert!(db.has_table(Table::Task));
}

#[test]
fn duplicate_name_fails_at_assembly() {
    let steps = vec![
        MigrationStep::create_table("m20240718_000001_create_user", Table::User),
        MigrationStep::create_table("m20240718_000001_create_user", Table::Group),
    ];
    assert_eq!(Registry::new(steps).err(), Some(RegistryError::DuplicateName(1)));
    let mut reg = Registry::empty();
    reg.register(MigrationStep::create_table("m_a", Table::User)).unwrap();
    reg.register(MigrationStep::create_table("m_b", Table::Group)).unwrap();
    assert_eq!(
        reg.register(MigrationStep::create_table("m_a", Table::Task)),
        Err(RegistryError::DuplicateName(2))
    );
    assert_eq!(reg.len(), 2);
}

#[test]
fn names_running_backwards_fail_at_assembly() {
    let steps = vec![
        MigrationStep::create_table("m_b", Table::User),
        MigrationStep::create_table("m_a", Table::Group),
    ];
    assert_eq!(Registry::new(steps).err(), Some(RegistryError::OutOfOrder(1)));
}

#[test]
fn names_compare_character_by_character() {
    assert!(name_precedes("m_a", "m_b"));
    assert!(!name_precedes("m_b", "m_a"));
    assert!(!name_precedes("m_a", "m_a"));
    assert!(name_precedes("m_a", "m_ab"));
    assert!(!name_precedes("m_ab", "m_a"));
    assert!(name_precedes("", "a"));
    assert!(name_precedes("m20240718_000009_x", "m20240718_000010_a"));
}

#[test]
fn table_names_in_database() {
    assert_eq!(Table::User.name(), "user");
    assert_eq!(Table::GroupPermission.name(), "grouppermission");
    assert_eq!(Table::OrganizationUser.name(), "organization_user");
    assert_eq!(Table::GroupUser.name(), "group_user");
}
