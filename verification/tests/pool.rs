use rattler::match_spec::{is_package_file, is_parser_safe, MatchSpec};
use rattler::pool::{Intern, Pool, Verbosity, VersionAndBuild};
use rattler::record::{PackageRecord, RecordProblem};
use rattler::repo::AddRecordError;

fn record(name: &str, version: &str, build: &str, depends: &[&str]) -> PackageRecord {
    PackageRecord {
        name: name.to_string(),
        version: version.to_string(),
        build: build.to_string(),
        build_number: 0,
        subdir: "linux-64".to_string(),
        depends: depends.iter().map(|d| d.to_string()).collect(),
        constrains: Vec::new(),
    }
}

#[test]
fn interning_a_string_twice_gives_one_identifier() {
    let mut pool = Pool::new();
    let a = pool.intern_str("python");
    let b = pool.intern_str("numpy");
    let c = pool.intern_str("python");
    assert_eq!(a, 0);
    assert_eq!(b, 1);
    assert_eq!(c, a);
    assert_eq!(pool.string_count(), 2);
    assert_eq!(pool.string(a), Some("python".to_string()));
    assert_eq!(pool.string(2), None);
}

#[test]
fn interning_through_the_trait() {
    let mut pool = Pool::new();
    let a = "python".intern(&mut pool);
    let b = "python".intern(&mut pool);
    assert_eq!(a, b);
    let pair = VersionAndBuild { version: "1.0".to_string(), build: "py_0".to_string() };
    let p = pair.intern(&mut pool);
    let q = pair.intern(&mut pool);
    assert_eq!(p, 0);
    assert_eq!(q, 0);
    let other = VersionAndBuild { version: "1.0".to_string(), build: "py_1".to_string() };
    assert_eq!(other.intern(&mut pool), 1);
    assert_eq!(pool.string_count(), 4);
}

#[test]
fn interning_a_match_spec_twice_gives_one_identifier() {
    let mut pool = Pool::new();
    let spec = MatchSpec::from_str("python >=3.9").unwrap();
    assert_eq!(spec.package_name(), "python");
    assert_eq!(spec.as_str(), "python >=3.9");
    let a = spec.intern(&mut pool);
    let b = spec.intern(&mut pool);
    assert_eq!(a, b);
    assert_eq!(pool.dep_count(), 1);
    assert_eq!(pool.dep_text(a), Some("python >=3.9".to_string()));
    let other = MatchSpec::from_str("python 3.10.*").unwrap();
    assert_eq!(other.intern(&mut pool), 1);
}

#[test]
fn match_spec_name_is_normalized() {
    let spec = MatchSpec::from_str("NumPy >=1.20,<2").unwrap();
    assert_eq!(spec.package_name(), "numpy");
}

#[test]
fn unparsable_match_spec_is_rejected_with_its_text() {
    let err = MatchSpec::from_str("python >=>3").unwrap_err();
    assert_eq!(err.text, "python >=>3");
    assert!(MatchSpec::from_str("").is_err());
}

#[test]
fn package_archives_are_no_match_specs() {
    assert!(is_package_file("foo-1.0-0.tar.bz2"));
    assert!(is_package_file("/pkgs/foo-1.0-0.conda"));
    assert!(is_package_file("foo-1.0-0.conda# a comment"));
    assert!(!is_package_file("foo 1.0"));
    assert!(!is_package_file("foo # x.conda"));
    assert!(!is_package_file("conda"));
    let err = MatchSpec::from_str("/pkgs/foo-1.0-0.conda").unwrap_err();
    assert_eq!(err.text, "/pkgs/foo-1.0-0.conda");
}

#[test]
fn records_are_registered_in_order() {
    let mut pool = Pool::new();
    let repo = pool.create_repo("conda-forge");
    assert_eq!(repo.id(), 0);
    let records = vec![
        record("python", "3.9", "h1_0", &[]),
        record("NumPy", "1.24", "py_0", &["python >=3.9"]),
    ];
    repo.add_records(&mut pool, &records).unwrap();
    assert_eq!(pool.solvable_count(), 2);
    let info = pool.solvable_info(1).unwrap();
    assert_eq!(info.name, "numpy");
    assert_eq!(info.version, "1.24");
    assert_eq!(info.build, "py_0");
    assert_eq!(info.subdir, "linux-64");
    assert_eq!(info.repo, 0);
    assert!(pool.solvable_info(2).is_none());
    assert_eq!(pool.dep_count(), 1);
}

#[test]
fn a_bad_dependency_is_reported_and_nothing_is_registered() {
    let mut pool = Pool::new();
    let repo = pool.create_repo("conda-forge");
    let records = vec![
        record("python", "3.9", "h1_0", &[]),
        record("numpy", "1.24", "py_0", &["python >=3.9", "libfoo >=>1"]),
    ];
    match repo.add_records(&mut pool, &records) {
        Err(AddRecordError::InvalidRecord { record, problem, text }) => {
            assert_eq!(record, 1);
            assert_eq!(problem, RecordProblem::InvalidDependency(1));
            assert_eq!(text, "libfoo >=>1");
        }
        other => panic!("unexpected result {:?}", other),
    }
    assert_eq!(pool.solvable_count(), 0);
    assert_eq!(pool.dep_count(), 0);
}

#[test]
fn a_bad_version_and_a_bad_name_are_reported() {
    let mut pool = Pool::new();
    let repo = pool.create_repo("conda-forge");
    match repo.add_records(&mut pool, &vec![record("python", "3..9", "0", &[])]) {
        Err(AddRecordError::InvalidRecord { record, problem, text }) => {
            assert_eq!(record, 0);
            assert_eq!(problem, RecordProblem::InvalidVersion);
            assert_eq!(text, "3..9");
        }
        other => panic!("unexpected result {:?}", other),
    }
    match repo.add_records(&mut pool, &vec![record("py thon", "3.9", "0", &[])]) {
        Err(AddRecordError::InvalidRecord { record, problem, text }) => {
            assert_eq!(record, 0);
            assert_eq!(problem, RecordProblem::InvalidName);
            assert_eq!(text, "py thon");
        }
        other => panic!("unexpected result {:?}", other),
    }
    let mut bad = record("python", "3.9", "0", &[]);
    bad.constrains.push("x.tar.bz2".to_string());
    match repo.add_records(&mut pool, &vec![bad]) {
        Err(AddRecordError::InvalidRecord { problem, text, .. }) => {
            assert_eq!(problem, RecordProblem::InvalidConstraint(0));
            assert_eq!(text, "x.tar.bz2");
        }
        other => panic!("unexpected result {:?}", other),
    }
}

#[test]
fn a_deleted_repository_takes_no_records() {
    let mut pool = Pool::new();
    let first = pool.create_repo("installed");
    let second = pool.create_repo("conda-forge");
    second.add_records(&mut pool, &vec![record("foo", "1.0", "0", &[])]).unwrap();
    assert!(pool.set_installed(first));
    assert!(first.free(&mut pool));
    assert!(pool.installed_repo().is_none());
    assert!(!pool.is_repo_alive(first));
    assert!(pool.is_repo_alive(second));
    assert!(!pool.set_installed(first));
    match first.add_records(&mut pool, &vec![record("foo", "1.0", "0", &[])]) {
        Err(AddRecordError::UnknownRepository) => {}
        other => panic!("unexpected result {:?}", other),
    }
    assert_eq!(pool.solvable_count(), 1);
}

#[test]
fn the_index_goes_out_of_date_when_records_are_added() {
    let mut pool = Pool::new();
    let repo = pool.create_repo("conda-forge");
    assert!(!pool.is_whatprovides_ready());
    pool.create_whatprovides();
    assert!(pool.is_whatprovides_ready());
    let spec = MatchSpec::from_str("foo").unwrap();
    spec.intern(&mut pool);
    assert!(pool.is_whatprovides_ready());
    repo.add_records(&mut pool, &vec![record("foo", "1.0", "0", &[])]).unwrap();
    assert!(!pool.is_whatprovides_ready());
}

#[test]
fn the_debug_level_is_kept() {
    let mut pool = Pool::default();
    assert_eq!(pool.debug_level(), Verbosity::Quiet);
    pool.set_debug_level(Verbosity::Low);
    assert_eq!(pool.debug_level(), Verbosity::Low);
    pool.set_debug_level(Verbosity::Extreme);
    assert_eq!(pool.debug_level(), Verbosity::Extreme);
}

#[test]
fn messages_above_the_debug_level_are_held_back() {
    let mut pool = Pool::new();
    assert!(!pool.reports(Verbosity::Low));
    assert!(!pool.reports(Verbosity::Quiet));
    pool.set_debug_level(Verbosity::Medium);
    assert!(pool.reports(Verbosity::Low));
    assert!(pool.reports(Verbosity::Medium));
    assert!(!pool.reports(Verbosity::Extreme));
    assert!(!pool.reports(Verbosity::Quiet));
    assert_eq!(Verbosity::Extreme.level(), 3);
}

#[test]
fn a_build_number_too_long_for_64_bits_is_rejected() {
    let text = "foo[build_number=99999999999999999999999]";
    assert!(!is_parser_safe(text));
    let err = MatchSpec::from_str(text).unwrap_err();
    assert_eq!(err.text, text);
    assert!(!is_parser_safe("foo 12345678901234567890"));
    assert!(is_parser_safe("foo 1234567890123456789"));
    assert!(is_parser_safe("foo 1234567890.1234567890"));
    assert!(MatchSpec::from_str("foo[build_number=1844674407370955161]").is_ok());
    let mut pool = Pool::new();
    let repo = pool.create_repo("conda-forge");
    match repo.add_records(&mut pool, &vec![record("bar", "1.0", "0", &[text])]) {
        Err(AddRecordError::InvalidRecord { record, problem, text: offending }) => {
            assert_eq!(record, 0);
            assert_eq!(problem, RecordProblem::InvalidDependency(0));
            assert_eq!(offending, text);
        }
        other => panic!("unexpected result {:?}", other),
    }
}

#[test]
fn deeply_grouped_versions_are_rejected() {
    let deep = format!("foo {}1.0{}", "(".repeat(17), ")".repeat(17));
    assert!(!is_parser_safe(&deep));
    assert_eq!(MatchSpec::from_str(&deep).unwrap_err().text, deep);
    let fine = format!("foo {}1.0{}", "(".repeat(16), ")".repeat(16));
    assert!(is_parser_safe(&fine));
    assert!(MatchSpec::from_str("foo (>=1.0,<2)|3.*").is_ok());
}

#[test]
fn names_are_normalized_letter_by_letter() {
    let mut pool = Pool::new();
    let repo = pool.create_repo("conda-forge");
    repo.add_records(&mut pool, &vec![record("Py_Thon-3.X", "1.0", "0", &[]), record("", "1.0", "0", &[])])
        .unwrap();
    assert_eq!(pool.solvable_info(0).unwrap().name, "py_thon-3.x");
    assert_eq!(pool.solvable_info(1).unwrap().name, "");
    for bad in ["py thon", "py+thon", "pyth\u{f6}n", "a/b"] {
        assert!(repo.add_records(&mut pool, &vec![record(bad, "1.0", "0", &[])]).is_err());
    }
}

#[test]
fn a_handle_of_another_pool_is_refused() {
    let mut first = Pool::with_tag(1);
    let mut second = Pool::with_tag(2);
    assert_eq!(first.tag(), 1);
    assert_eq!(Pool::new().tag(), 0);
    let handle = first.create_repo("conda-forge");
    let other = second.create_repo("conda-forge");
    assert_eq!(handle.id(), other.id());
    assert_eq!(handle.pool_tag(), 1);
    assert!(first.is_repo_alive(handle));
    assert!(!second.is_repo_alive(handle));
    assert!(!second.set_installed(handle));
    assert!(second.installed_repo().is_none());
    match handle.add_records(&mut second, &vec![record("foo", "1.0", "0", &[])]) {
        Err(AddRecordError::UnknownRepository) => {}
        other => panic!("unexpected result {:?}", other),
    }
    assert_eq!(second.solvable_count(), 0);
    assert!(!handle.free(&mut second));
    assert!(second.is_repo_alive(other));
    assert!(first.set_installed(handle));
    assert_eq!(first.installed_repo().unwrap().pool_tag(), 1);
    handle.add_records(&mut first, &vec![record("foo", "1.0", "0", &[])]).unwrap();
    assert!(handle.free(&mut first));
}
