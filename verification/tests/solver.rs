use rattler::match_spec::MatchSpec;
use rattler::pool::{Intern, Pool, Verbosity};
use rattler::queue::Queue;
use rattler::record::PackageRecord;
use rattler::repo::Repo;
use rattler::solver::{
    SolveError, SolverState, SOLVER_INSTALL, SOLVER_SOLVABLE_PROVIDES, SOLVER_UPDATE,
};
use rattler::transaction::{InstallOperation, OperationKind};

fn record(name: &str, version: &str, build: &str, number: u64, depends: &[&str]) -> PackageRecord {
    PackageRecord {
        name: name.to_string(),
        version: version.to_string(),
        build: build.to_string(),
        build_number: number,
        subdir: "linux-64".to_string(),
        depends: depends.iter().map(|d| d.to_string()).collect(),
        constrains: Vec::new(),
    }
}

fn fill(pool: &mut Pool, name: &str, records: Vec<PackageRecord>) -> Repo {
    let repo = pool.create_repo(name);
    repo.add_records(pool, &records).unwrap();
    repo
}

fn job(pool: &mut Pool, queue: &mut Queue, spec: &str, verb: u32) {
    let id = MatchSpec::from_str(spec).unwrap().intern(pool);
    queue.push_id_with_flags(id, verb | SOLVER_SOLVABLE_PROVIDES);
}

fn describe(pool: &Pool, ops: &[InstallOperation]) -> Vec<(OperationKind, String, String)> {
    ops.iter()
        .map(|op| {
            let info = pool.solvable_info(op.solvable).unwrap();
            (op.operation, info.name, info.version)
        })
        .collect()
}

fn step(kind: OperationKind, name: &str, version: &str) -> (OperationKind, String, String) {
    (kind, name.to_string(), version.to_string())
}

#[test]
fn test_solve_python() {
    let mut pool = Pool::default();
    pool.set_debug_level(Verbosity::Low);
    let repo = pool.create_repo("conda-forge");
    repo.add_records(
        &mut pool,
        &vec![
            record("python", "3.8.10", "h1_0", 0, &["libffi >=3.3"]),
            record("python", "3.9.7", "h1_0", 0, &["libffi >=3.3"]),
            record("python", "3.9.9", "h1_0", 0, &["libffi >=3.3"]),
            record("python", "3.10.1", "h1_0", 0, &["libffi >=3.3"]),
            record("libffi", "3.4.2", "h2_5", 5, &[]),
        ],
    )
    .expect("cannot add repodata");
    pool.create_whatprovides();
    let matchspec = MatchSpec::from_str("python=3.9").expect("can't create matchspec");
    let mut queue = Queue::default();
    let id = matchspec.intern(&mut pool);
    queue.push_id_with_flags(id, SOLVER_INSTALL | SOLVER_SOLVABLE_PROVIDES);
    let mut solver = pool.create_solver();
    solver.solve(&mut queue).expect("unable to solve");
    let transaction = solver.create_transaction();
    let solvable_operations = transaction.get_solvable_operations();
    assert_eq!(
        describe(&pool, &solvable_operations),
        vec![
            step(OperationKind::Install, "libffi", "3.4.2"),
            step(OperationKind::Install, "python", "3.9.9"),
        ]
    );
}

#[test]
fn installing_numpy_brings_the_newest_python_first() {
    let mut pool = Pool::new();
    fill(
        &mut pool,
        "conda-forge",
        vec![
            record("python", "3.9", "0", 0, &[]),
            record("python", "3.10", "0", 0, &[]),
            record("numpy", "1.24", "0", 0, &["python >=3.9"]),
        ],
    );
    pool.create_whatprovides();
    let mut queue = Queue::new();
    job(&mut pool, &mut queue, "numpy", SOLVER_INSTALL);
    let mut solver = pool.create_solver();
    assert_eq!(solver.current_state(), SolverState::Fresh);
    solver.solve(&mut queue).unwrap();
    assert_eq!(solver.current_state(), SolverState::Solved);
    assert_eq!(solver.chosen(), &vec![2, 1]);
    assert_eq!(queue.len(), 1);
    let transaction = solver.create_transaction();
    let ops = transaction.get_solvable_operations();
    assert_eq!(
        describe(&pool, &ops),
        vec![
            step(OperationKind::Install, "python", "3.10"),
            step(OperationKind::Install, "numpy", "1.24"),
        ]
    );
    let stats = transaction.stats();
    assert_eq!(stats.install, 2);
    assert_eq!(stats.remove + stats.upgrade + stats.downgrade, 0);
    assert_eq!(stats.reinstall + stats.change + stats.ignore, 0);
    assert_eq!(transaction.prefix_operation_count(), 2);
    assert_eq!(transaction.len(), 2);
}

#[test]
fn updating_an_installed_package_is_an_upgrade() {
    let mut pool = Pool::new();
    let installed = fill(&mut pool, "installed", vec![record("foo", "1.0", "0", 0, &[])]);
    fill(&mut pool, "conda-forge", vec![record("foo", "2.0", "0", 0, &[])]);
    assert!(pool.set_installed(installed));
    pool.create_whatprovides();
    let mut queue = Queue::new();
    job(&mut pool, &mut queue, "foo", SOLVER_UPDATE);
    let mut solver = pool.create_solver();
    solver.solve(&mut queue).unwrap();
    let transaction = solver.create_transaction();
    let ops = transaction.get_solvable_operations();
    assert_eq!(
        ops,
        vec![InstallOperation { operation: OperationKind::Upgrade, solvable: 1, replaces: Some(0) }]
    );
    assert_eq!(describe(&pool, &ops), vec![step(OperationKind::Upgrade, "foo", "2.0")]);
    assert_eq!(transaction.stats().upgrade, 1);
}

#[test]
fn an_installed_package_that_nothing_asks_for_is_removed() {
    let mut pool = Pool::new();
    let installed = fill(&mut pool, "installed", vec![record("foo", "1.0", "0", 0, &[])]);
    fill(&mut pool, "conda-forge", vec![record("bar", "1.0", "0", 0, &[])]);
    pool.set_installed(installed);
    pool.create_whatprovides();
    let mut queue = Queue::new();
    let mut solver = pool.create_solver();
    solver.solve(&mut queue).unwrap();
    assert!(solver.chosen().is_empty());
    let transaction = solver.create_transaction();
    let ops = transaction.get_solvable_operations();
    assert_eq!(
        ops,
        vec![InstallOperation { operation: OperationKind::Remove, solvable: 0, replaces: None }]
    );
    assert_eq!(transaction.stats().remove, 1);
}

#[test]
fn two_versions_of_one_package_cannot_both_be_installed() {
    let mut pool = Pool::new();
    fill(
        &mut pool,
        "conda-forge",
        vec![record("python", "3.9", "0", 0, &[]), record("python", "3.10", "0", 0, &[])],
    );
    pool.create_whatprovides();
    let mut queue = Queue::new();
    job(&mut pool, &mut queue, "python=3.9", SOLVER_INSTALL);
    job(&mut pool, &mut queue, "python=3.10", SOLVER_INSTALL);
    let mut solver = pool.create_solver();
    match solver.solve(&mut queue) {
        Err(SolveError::Unsatisfiable { explanation }) => {
            assert_eq!(
                explanation,
                "the requested packages cannot be installed together:\n  python=3.9\n  python=3.10\n"
            );
        }
        other => panic!("unexpected result {:?}", other),
    }
    assert_eq!(solver.current_state(), SolverState::Failed);
}

#[test]
fn a_missing_package_cannot_be_installed() {
    let mut pool = Pool::new();
    fill(&mut pool, "conda-forge", vec![record("foo", "1.0", "0", 0, &["bar >=2"])]);
    pool.create_whatprovides();
    let mut queue = Queue::new();
    job(&mut pool, &mut queue, "foo", SOLVER_INSTALL);
    let mut solver = pool.create_solver();
    let err = solver.solve(&mut queue).unwrap_err();
    assert_eq!(
        err.message(),
        "the requested packages cannot be installed together:\n  foo\n"
    );
}

#[test]
fn the_search_goes_back_to_an_older_version() {
    let mut pool = Pool::new();
    fill(
        &mut pool,
        "conda-forge",
        vec![
            record("app", "2.0", "0", 0, &["lib >=2"]),
            record("app", "1.0", "0", 0, &["lib <2"]),
            record("lib", "1.5", "0", 0, &[]),
            record("tool", "1.0", "0", 0, &["lib 1.*"]),
        ],
    );
    pool.create_whatprovides();
    let mut queue = Queue::new();
    job(&mut pool, &mut queue, "app", SOLVER_INSTALL);
    job(&mut pool, &mut queue, "tool", SOLVER_INSTALL);
    let mut solver = pool.create_solver();
    solver.solve(&mut queue).unwrap();
    assert_eq!(solver.chosen(), &vec![1, 3, 2]);
    let transaction = solver.create_transaction();
    assert_eq!(
        describe(&pool, &transaction.get_solvable_operations()),
        vec![
            step(OperationKind::Install, "lib", "1.5"),
            step(OperationKind::Install, "app", "1.0"),
            step(OperationKind::Install, "tool", "1.0"),
        ]
    );
}

#[test]
fn constraints_of_chosen_packages_are_kept() {
    let mut pool = Pool::new();
    let mut strict = record("strict", "1.0", "0", 0, &[]);
    strict.constrains.push("lib <2".to_string());
    fill(
        &mut pool,
        "conda-forge",
        vec![strict, record("lib", "2.0", "0", 0, &[]), record("lib", "1.0", "0", 0, &[])],
    );
    pool.create_whatprovides();
    let mut queue = Queue::new();
    job(&mut pool, &mut queue, "strict", SOLVER_INSTALL);
    job(&mut pool, &mut queue, "lib", SOLVER_INSTALL);
    let mut solver = pool.create_solver();
    solver.solve(&mut queue).unwrap();
    assert_eq!(solver.chosen(), &vec![0, 2]);
}

#[test]
fn installing_keeps_what_is_installed_and_updating_does_not() {
    let mut pool = Pool::new();
    let installed = fill(&mut pool, "installed", vec![record("foo", "1.0", "0", 0, &[])]);
    fill(
        &mut pool,
        "conda-forge",
        vec![record("foo", "1.0", "0", 0, &[]), record("foo", "2.0", "0", 0, &[])],
    );
    pool.set_installed(installed);
    pool.create_whatprovides();

    let mut queue = Queue::new();
    job(&mut pool, &mut queue, "foo", SOLVER_INSTALL);
    let mut solver = pool.create_solver();
    solver.solve(&mut queue).unwrap();
    let ops = solver.create_transaction().get_solvable_operations();
    assert_eq!(
        ops,
        vec![InstallOperation { operation: OperationKind::Ignore, solvable: 0, replaces: None }]
    );

    let mut queue = Queue::new();
    job(&mut pool, &mut queue, "foo", SOLVER_UPDATE);
    let mut solver = pool.create_solver();
    solver.solve(&mut queue).unwrap();
    let transaction = solver.create_transaction();
    assert_eq!(
        transaction.get_solvable_operations(),
        vec![InstallOperation { operation: OperationKind::Upgrade, solvable: 2, replaces: Some(0) }]
    );
    assert_eq!(transaction.prefix_operation_count(), 1);
}

#[test]
fn every_kind_of_replacement_is_told_apart() {
    let mut pool = Pool::new();
    let installed = fill(
        &mut pool,
        "installed",
        vec![
            record("same", "1.0", "a_0", 0, &[]),
            record("newer", "1.0", "a_0", 0, &[]),
            record("older", "2.0", "a_0", 0, &[]),
            record("rebuilt", "1.0", "a_0", 0, &[]),
            record("build", "1.0", "a_0", 0, &[]),
            record("back", "1.0", "a_3", 3, &[]),
            record("kept", "1.0", "a_0", 0, &[]),
            record("gone", "1.0", "a_0", 0, &[]),
        ],
    );
    fill(
        &mut pool,
        "conda-forge",
        vec![
            record("same", "1.0.0", "a_0", 0, &[]),
            record("newer", "1.1", "a_0", 0, &[]),
            record("older", "1.9", "a_0", 0, &[]),
            record("rebuilt", "1.0", "a_1", 1, &[]),
            record("build", "1.0", "b_0", 0, &[]),
            record("back", "1.0", "a_2", 2, &[]),
            record("fresh", "1.0", "a_0", 0, &[]),
        ],
    );
    pool.set_installed(installed);
    pool.create_whatprovides();
    let mut queue = Queue::new();
    job(&mut pool, &mut queue, "same 1.0.0", SOLVER_UPDATE);
    job(&mut pool, &mut queue, "newer", SOLVER_UPDATE);
    job(&mut pool, &mut queue, "older <2", SOLVER_UPDATE);
    job(&mut pool, &mut queue, "rebuilt", SOLVER_UPDATE);
    job(&mut pool, &mut queue, "build 1.0 b_0", SOLVER_UPDATE);
    job(&mut pool, &mut queue, "back 1.0 a_2", SOLVER_UPDATE);
    job(&mut pool, &mut queue, "kept", SOLVER_INSTALL);
    job(&mut pool, &mut queue, "fresh", SOLVER_INSTALL);
    let mut solver = pool.create_solver();
    solver.solve(&mut queue).unwrap();
    let transaction = solver.create_transaction();
    let ops = transaction.get_solvable_operations();
    let kinds: Vec<(OperationKind, String)> =
        describe(&pool, &ops).into_iter().map(|(k, n, _)| (k, n)).collect();
    assert_eq!(
        kinds,
        vec![
            (OperationKind::Remove, "gone".to_string()),
            (OperationKind::Ignore, "same".to_string()),
            (OperationKind::Ignore, "kept".to_string()),
            (OperationKind::Upgrade, "newer".to_string()),
            (OperationKind::Downgrade, "older".to_string()),
            (OperationKind::Upgrade, "rebuilt".to_string()),
            (OperationKind::Change, "build".to_string()),
            (OperationKind::Downgrade, "back".to_string()),
            (OperationKind::Install, "fresh".to_string()),
        ]
    );
    let stats = transaction.stats();
    assert_eq!(
        (stats.install, stats.reinstall, stats.upgrade, stats.downgrade),
        (1, 0, 2, 2)
    );
    assert_eq!((stats.change, stats.remove, stats.ignore), (1, 1, 2));
    assert_eq!(transaction.prefix_operation_count(), 7);
}

#[test]
fn a_copy_from_a_channel_is_a_reinstallation() {
    let mut pool = Pool::new();
    fill(&mut pool, "conda-forge", vec![record("foo", "1.0", "a_0", 0, &[])]);
    let installed = fill(&mut pool, "installed", vec![record("foo", "1.0", "a_0", 0, &[])]);
    pool.set_installed(installed);
    pool.create_whatprovides();
    let mut queue = Queue::new();
    job(&mut pool, &mut queue, "foo", SOLVER_UPDATE);
    let mut solver = pool.create_solver();
    solver.solve(&mut queue).unwrap();
    let transaction = solver.create_transaction();
    assert_eq!(
        transaction.get_solvable_operations(),
        vec![InstallOperation {
            operation: OperationKind::Reinstall,
            solvable: 0,
            replaces: Some(1)
        }]
    );
    assert_eq!(transaction.stats().reinstall, 1);
}

#[test]
fn unsupported_jobs_are_refused() {
    let mut pool = Pool::new();
    fill(&mut pool, "conda-forge", vec![record("foo", "1.0", "0", 0, &[])]);
    pool.create_whatprovides();
    let id = MatchSpec::from_str("foo").unwrap().intern(&mut pool);
    let mut queue = Queue::new();
    queue.push_id_with_flags(id, SOLVER_INSTALL | SOLVER_SOLVABLE_PROVIDES);
    queue.push_id_with_flags(id, 0x0200 | SOLVER_SOLVABLE_PROVIDES);
    let mut solver = pool.create_solver();
    match solver.solve(&mut queue) {
        Err(SolveError::UnsupportedJob { index }) => assert_eq!(index, 1),
        other => panic!("unexpected result {:?}", other),
    }
    let mut queue = Queue::new();
    queue.push_id_with_flags(id + 1, SOLVER_INSTALL | SOLVER_SOLVABLE_PROVIDES);
    let mut solver = pool.create_solver();
    match solver.solve(&mut queue) {
        Err(err @ SolveError::UnsupportedJob { index: 0 }) => {
            assert_eq!(err.message(), "unsupported job in the queue")
        }
        other => panic!("unexpected result {:?}", other),
    }
    let mut queue = Queue::new();
    queue.push_id_with_flags(id, SOLVER_INSTALL | 0x01);
    let mut solver = pool.create_solver();
    assert!(solver.solve(&mut queue).is_err());
}

#[test]
fn solving_twice_gives_the_same_plan() {
    let build = || {
        let mut pool = Pool::new();
        fill(
            &mut pool,
            "conda-forge",
            vec![
                record("c", "1.0", "0", 0, &["a", "b"]),
                record("b", "1.0", "0", 0, &["a"]),
                record("a", "1.0", "0", 0, &[]),
                record("a", "1.0", "1", 1, &[]),
            ],
        );
        pool.create_whatprovides();
        pool
    };
    let run = |pool: &mut Pool| {
        let mut queue = Queue::new();
        job(pool, &mut queue, "c", SOLVER_INSTALL);
        let mut solver = pool.create_solver();
        solver.solve(&mut queue).unwrap();
        solver.create_transaction().get_solvable_operations()
    };
    let mut first = build();
    let mut second = build();
    second.set_debug_level(Verbosity::Extreme);
    let plan = run(&mut first);
    assert_eq!(plan, run(&mut second));
    assert_eq!(plan, run(&mut first));
    assert_eq!(
        describe(&first, &plan),
        vec![
            step(OperationKind::Install, "a", "1.0"),
            step(OperationKind::Install, "b", "1.0"),
            step(OperationKind::Install, "c", "1.0"),
        ]
    );
    assert_eq!(plan[0].solvable, 3);
}

#[test]
fn packages_that_require_each_other_are_all_placed() {
    let mut pool = Pool::new();
    fill(
        &mut pool,
        "conda-forge",
        vec![
            record("ping", "1.0", "0", 0, &["pong"]),
            record("pong", "1.0", "0", 0, &["ping"]),
            record("top", "1.0", "0", 0, &["ping"]),
        ],
    );
    pool.create_whatprovides();
    let mut queue = Queue::new();
    job(&mut pool, &mut queue, "top", SOLVER_INSTALL);
    let mut solver = pool.create_solver();
    solver.solve(&mut queue).unwrap();
    let ops = solver.create_transaction().get_solvable_operations();
    let order: Vec<usize> = ops.iter().map(|op| op.solvable).collect();
    assert_eq!(order, vec![0, 1, 2]);
}

#[test]
fn packages_of_a_deleted_repository_are_not_chosen() {
    let mut pool = Pool::new();
    let old = fill(&mut pool, "old", vec![record("foo", "3.0", "0", 0, &[])]);
    fill(&mut pool, "conda-forge", vec![record("foo", "2.0", "0", 0, &[])]);
    assert!(old.free(&mut pool));
    pool.create_whatprovides();
    let mut queue = Queue::new();
    job(&mut pool, &mut queue, "foo", SOLVER_INSTALL);
    let mut solver = pool.create_solver();
    solver.solve(&mut queue).unwrap();
    assert_eq!(solver.chosen(), &vec![1]);
}
