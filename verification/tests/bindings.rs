use rattler::create_env::{
    check_request_method, check_subdir_url, skips_entry, InstalledScan, ScanAction, ScanEvent,
    ScanPhase,
};
use rattler::error::{PyExceptionKind, PyRattlerError};
use rattler::package_record::{topological_order, PyPackageName, PyPackageRecord};
use rattler::record::PackageRecord;
use rattler::paths_json::{
    PyFileMode, PyPathType, PyPathsEntry, PyPathsJson, PyPrefixPlaceholder,
};

#[test]
fn file_modes_and_path_types_answer_for_themselves() {
    assert!(PyFileMode::Binary.binary());
    assert!(!PyFileMode::Binary.text());
    assert!(PyFileMode::Text.text());
    assert!(!PyFileMode::Text.binary());
    assert!(PyPathType::HardLink.hardlink());
    assert!(!PyPathType::HardLink.softlink());
    assert!(PyPathType::SoftLink.softlink());
    assert!(!PyPathType::SoftLink.directory());
    assert!(PyPathType::Directory.directory());
    assert!(!PyPathType::Directory.hardlink());
}

#[test]
fn an_entry_gives_back_what_it_holds() {
    let entry = PyPathsEntry {
        relative_path: "bin/python".to_string(),
        no_link: true,
        path_type: PyPathType::SoftLink,
        prefix_placeholder: Some(PyPrefixPlaceholder {
            file_mode: PyFileMode::Text,
            placeholder: "/opt/build".to_string(),
        }),
        sha256: Some(vec![1, 2, 3]),
        size_in_bytes: Some(42),
    };
    assert_eq!(entry.relative_path(), "bin/python");
    assert!(entry.no_link());
    assert_eq!(entry.path_type(), PyPathType::SoftLink);
    let placeholder = entry.prefix_placeholder().unwrap();
    assert_eq!(placeholder.file_mode(), PyFileMode::Text);
    assert_eq!(placeholder.placeholder(), "/opt/build");
    assert_eq!(entry.sha256(), Some(vec![1, 2, 3]));
    assert_eq!(entry.size_in_bytes(), Some(42));
    let bare = PyPathsEntry {
        relative_path: "lib".to_string(),
        no_link: false,
        path_type: PyPathType::Directory,
        prefix_placeholder: None,
        sha256: None,
        size_in_bytes: None,
    };
    assert!(bare.prefix_placeholder().is_none());
    assert!(bare.sha256().is_none());
    assert!(bare.size_in_bytes().is_none());
    let json = PyPathsJson { paths: vec![entry, bare], paths_version: 1 };
    let paths = json.paths();
    assert_eq!(paths.len(), 2);
    assert_eq!(paths[0].relative_path(), "bin/python");
    assert_eq!(paths[1].relative_path(), "lib");
    assert_eq!(json.paths_version(), 1);
}

#[test]
fn a_record_is_written_with_or_without_its_build() {
    let record = PyPackageRecord::new(
        PyPackageName::new("numpy".to_string()),
        "1.24".to_string(),
        "py39_0".to_string(),
        "linux-64".to_string(),
    );
    assert_eq!(record.as_str(), "numpy=1.24=py39_0");
    assert_eq!(record.inner.build_number, 0);
    assert_eq!(record.inner.subdir, "linux-64");
    assert!(record.inner.depends.is_empty());
    assert!(record.inner.constrains.is_empty());
    let bare = PyPackageRecord::new(
        PyPackageName::new("numpy".to_string()),
        "1.24".to_string(),
        String::new(),
        "noarch".to_string(),
    );
    assert_eq!(bare.as_str(), "numpy 1.24");
}

#[test]
fn errors_are_raised_with_their_message() {
    let cases = vec![
        (PyRattlerError::InvalidVersion("v".to_string()), PyExceptionKind::InvalidVersion, "v"),
        (PyRattlerError::InvalidMatchSpec("m".to_string()), PyExceptionKind::InvalidMatchSpec, "m"),
        (
            PyRattlerError::InvalidPackageName("n".to_string()),
            PyExceptionKind::InvalidPackageName,
            "n",
        ),
        (PyRattlerError::IoError("i".to_string()), PyExceptionKind::Io, "i"),
        (
            PyRattlerError::FetchRepoDataError("f".to_string()),
            PyExceptionKind::FetchRepoData,
            "f",
        ),
        (
            PyRattlerError::ConvertSubdirError("c".to_string()),
            PyExceptionKind::ConvertSubdir,
            "c",
        ),
        (PyRattlerError::Unknown, PyExceptionKind::Unknown, "Unknown Error"),
    ];
    for (error, kind, message) in cases {
        assert_eq!(error.message(), message);
        assert_eq!(error.into_exception(), (kind, message.to_string()));
    }
}

#[test]
fn methods_and_addresses_are_checked() {
    assert!(check_request_method("GET").is_ok());
    assert!(check_request_method("PROPFIND").is_ok());
    assert!(check_request_method("a!*+-.^_`|~9").is_ok());
    assert!(check_request_method("G#T").is_err());
    assert!(check_request_method("G\u{e9}T").is_err());
    assert!(matches!(check_request_method(""), Err(PyRattlerError::Unknown)));
    assert!(matches!(check_request_method("GET IT"), Err(PyRattlerError::Unknown)));
    assert!(check_subdir_url("https://conda.anaconda.org/conda-forge/linux-64/").is_ok());
    assert!(matches!(check_subdir_url("conda-forge"), Err(PyRattlerError::Unknown)));
}

#[test]
fn only_the_bare_extension_is_skipped() {
    assert!(skips_entry(".json"));
    assert!(!skips_entry("numpy-1.24-py39_0.json"));
    assert!(!skips_entry("history"));
    assert!(!skips_entry(""));
}

#[test]
fn a_scan_runs_no_more_loads_than_its_limit() {
    assert!(InstalledScan::new(0).is_none());
    let mut scan = InstalledScan::new(2).unwrap();
    let entry = ScanEvent::Entry { skipped: false };
    assert_eq!(scan.step(ScanEvent::Entry { skipped: true }), Some(ScanAction::NextEntry));
    assert_eq!(scan.step(entry), Some(ScanAction::Load));
    assert_eq!(scan.step(entry), Some(ScanAction::Load));
    assert_eq!(scan.pending, 2);
    assert_eq!(scan.step(entry), Some(ScanAction::Wait));
    assert_eq!(scan.phase, ScanPhase::Holding);
    assert_eq!(scan.step(entry), None);
    assert_eq!(scan.step(ScanEvent::Loaded), Some(ScanAction::KeepAndLoad));
    assert_eq!(scan.pending, 2);
    assert_eq!(scan.step(ScanEvent::Loaded), None);
    assert_eq!(scan.step(ScanEvent::NoMoreEntries), Some(ScanAction::Wait));
    assert_eq!(scan.step(ScanEvent::Loaded), Some(ScanAction::KeepAndWait));
    assert_eq!(scan.step(ScanEvent::Loaded), Some(ScanAction::KeepAndReturn));
    assert_eq!(scan, InstalledScan { limit: 2, pending: 0, phase: ScanPhase::Finished });
    assert_eq!(scan.step(ScanEvent::Loaded), None);
    assert_eq!(scan.step(entry), None);
}

#[test]
fn a_scan_ends_on_failure_and_on_cancellation() {
    let entry = ScanEvent::Entry { skipped: false };
    let mut scan = InstalledScan::new(1).unwrap();
    assert_eq!(scan.step(ScanEvent::NoMoreEntries), Some(ScanAction::Return));
    let mut scan = InstalledScan::new(1).unwrap();
    assert_eq!(scan.step(ScanEvent::EntryFailed), Some(ScanAction::Fail));
    assert_eq!(scan.phase, ScanPhase::Finished);
    let mut scan = InstalledScan::new(1).unwrap();
    scan.step(entry);
    assert_eq!(scan.step(entry), Some(ScanAction::Wait));
    assert_eq!(scan.step(ScanEvent::LoadFailed), Some(ScanAction::Fail));
    let mut scan = InstalledScan::new(1).unwrap();
    scan.step(entry);
    scan.step(ScanEvent::NoMoreEntries);
    assert_eq!(scan.step(ScanEvent::Cancelled), Some(ScanAction::Return));
    assert_eq!(scan.phase, ScanPhase::Finished);
}

fn plain(name: &str, depends: &[&str]) -> PackageRecord {
    PackageRecord {
        name: name.to_string(),
        version: "1.0".to_string(),
        build: "0".to_string(),
        build_number: 0,
        subdir: "noarch".to_string(),
        depends: depends.iter().map(|d| d.to_string()).collect(),
        constrains: Vec::new(),
    }
}

#[test]
fn records_are_sorted_behind_what_they_require() {
    let records = vec![
        plain("app", &["lib >=1", "tool"]),
        plain("tool", &["lib"]),
        plain("other", &[]),
        plain("lib", &[]),
    ];
    assert_eq!(topological_order(&records), vec![2, 3, 1, 0]);
    let wrapped: Vec<PyPackageRecord> =
        records.into_iter().map(|inner| PyPackageRecord { inner }).collect();
    let sorted = PyPackageRecord::sort_topologically(wrapped);
    let names: Vec<&str> = sorted.iter().map(|r| r.inner.name.as_str()).collect();
    assert_eq!(names, vec!["other", "lib", "tool", "app"]);
    assert!(topological_order(&Vec::new()).is_empty());
}

#[test]
fn records_that_cannot_be_registered_keep_their_order() {
    let records = vec![plain("app", &["lib"]), plain("lib", &["what >=>1"])];
    assert_eq!(topological_order(&records), vec![0, 1]);
}

#[test]
fn records_in_a_circle_are_all_sorted() {
    let records = vec![
        plain("left", &["right"]),
        plain("right", &["left"]),
        plain("free", &[]),
        plain("top", &["free"]),
    ];
    assert_eq!(topological_order(&records), vec![2, 3, 0, 1]);
}
