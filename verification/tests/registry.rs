use deny_core::licenses::{LicenseField, LicenseInfo};
use deny_core::{
    get_all_crates, CrateDetails, DepKind, Dependency, Error, LintLevel, Node, Package, Resolve,
    Version,
};

fn pkg(name: &str, id: &str, version: (u64, u64, u64), manifest: &str) -> Package {
    Package {
        name: name.to_string(),
        id: id.to_string(),
        version: Version::new(version.0, version.1, version.2),
        authors: Vec::new(),
        repository: None,
        description: None,
        manifest_path: manifest.to_string(),
        license: None,
        license_file: None,
        dependencies: Vec::new(),
    }
}

fn empty_resolve() -> Option<Resolve> {
    Some(Resolve { nodes: Vec::new() })
}

#[test]
fn build_sorts_by_name_then_version() {
    let packages = vec![
        pkg("zlib", "id-z", (1, 0, 0), "/src/zlib/Cargo.toml"),
        pkg("alpha", "id-a2", (0, 10, 0), "/src/alpha2/Cargo.toml"),
        pkg("midl", "id-m", (2, 3, 4), "/src/midl/Cargo.toml"),
        pkg("alpha", "id-a1", (0, 2, 0), "/src/alpha1/Cargo.toml"),
    ];
    let crates = get_all_crates(packages, empty_resolve()).unwrap();
    let records = crates.iter();
    assert_eq!(records.len(), 4);
    assert_eq!(records[0].name, "alpha");
    assert_eq!(records[0].version, Version::new(0, 2, 0));
    assert_eq!(records[1].name, "alpha");
    assert_eq!(records[1].version, Version::new(0, 10, 0));
    assert_eq!(records[2].name, "midl");
    assert_eq!(records[3].name, "zlib");
}

#[test]
fn lookup_by_identifier() {
    let packages = vec![
        pkg("b", "id-b", (1, 0, 0), "/src/b/Cargo.toml"),
        pkg("a", "id-a", (1, 0, 0), "/src/a/Cargo.toml"),
    ];
    let crates = get_all_crates(packages, empty_resolve()).unwrap();
    let found = crates.crate_by_id(&"id-b".to_string()).unwrap();
    assert_eq!(found.name, "b");
    assert_eq!(found.id, "id-b");
    assert!(crates.crate_by_id(&"id-missing".to_string()).is_none());
}

#[test]
fn equal_name_version_both_retained() {
    let packages = vec![
        pkg("dup", "id-1", (1, 2, 3), "/src/dup1/Cargo.toml"),
        pkg("dup", "id-2", (1, 2, 3), "/src/dup2/Cargo.toml"),
    ];
    let crates = get_all_crates(packages, empty_resolve()).unwrap();
    let records = crates.iter();
    assert_eq!(records.len(), 2);
    // records compare equal by (name, version) though their ids differ
    assert!(records[0] == records[1]);
    assert!(records[0].id != records[1].id);
}

#[test]
fn missing_resolve_graph_is_error() {
    let packages = vec![pkg("a", "id-a", (1, 0, 0), "/src/a/Cargo.toml")];
    let r = get_all_crates(packages, None);
    match r {
        Err(e) => assert_eq!(e, Error::MissingResolveGraph),
        Ok(_) => panic!("expected a missing-resolve-graph error"),
    }
}

#[test]
fn evidence_order_and_dedup() {
    let mut package = pkg("licensed", "id-l", (1, 0, 0), "/src/licensed/Cargo.toml");
    package.license = Some("MIT OR Apache-2.0".to_string());
    package.license_file = Some("LICENSE-MIT".to_string());
    let record = CrateDetails::new(package);
    let dir_files = vec!["LICENSE-MIT".to_string(), "LICENSE-APACHE".to_string()];
    let evidence = record.licenses(&dir_files);
    assert_eq!(
        evidence,
        vec![
            LicenseInfo::Metadata("MIT".to_string()),
            LicenseInfo::Metadata("Apache-2.0".to_string()),
            LicenseInfo::InferredLicenseFile("/src/licensed/LICENSE-APACHE".to_string()),
            LicenseInfo::ExplicitLicenseFile("/src/licensed/LICENSE-MIT".to_string()),
        ]
    );
}

#[test]
fn no_root_only_declared() {
    let mut record = CrateDetails::default();
    record.license = LicenseField::new("MIT".to_string());
    record.license_file = Some("LICENSE".to_string());
    record.root = None;
    let dir_files = vec!["LICENSE".to_string(), "LICENSE-MIT".to_string()];
    let evidence = record.licenses(&dir_files);
    assert_eq!(evidence, vec![LicenseInfo::Metadata("MIT".to_string())]);
}

#[test]
fn non_license_files_ignored() {
    let mut package = pkg("plain", "id-p", (1, 0, 0), "/src/plain/Cargo.toml");
    package.license = Some("ISC".to_string());
    let record = CrateDetails::new(package);
    let dir_files = vec!["README.md".to_string(), "LICENSE.txt".to_string()];
    let evidence = record.licenses(&dir_files);
    assert_eq!(
        evidence,
        vec![
            LicenseInfo::Metadata("ISC".to_string()),
            LicenseInfo::InferredLicenseFile("/src/plain/LICENSE.txt".to_string()),
        ]
    );
}

fn node(id: &str, deps: &[&str]) -> Node {
    Node { id: id.to_string(), dependencies: deps.iter().map(|d| d.to_string()).collect() }
}

#[test]
fn graph_normalization_deterministic() {
    let mut g1 = Resolve {
        nodes: vec![node("b", &["x", "a"]), node("a", &["c", "b", "a"]), node("c", &[])],
    };
    let mut g2 = Resolve {
        nodes: vec![node("c", &[]), node("a", &["b", "a", "c"]), node("b", &["a", "x"])],
    };
    deny_core::normalize(&mut g1);
    deny_core::normalize(&mut g2);
    assert_eq!(g1, g2);
    assert_eq!(g1.nodes[0].id, "a");
    assert_eq!(g1.nodes[0].dependencies, vec!["a", "b", "c"]);
    assert_eq!(g1.nodes[1].id, "b");
    assert_eq!(g1.nodes[1].dependencies, vec!["a", "x"]);
    assert_eq!(g1.nodes[2].id, "c");
    assert!(g1.nodes[2].dependencies.is_empty());
}

#[test]
fn dependency_lists_sorted() {
    let mut package = pkg("hasdeps", "id-h", (1, 0, 0), "/src/hasdeps/Cargo.toml");
    package.dependencies = vec![
        Dependency { name: "zeta".to_string(), req: "1".to_string(), kind: DepKind::Normal },
        Dependency { name: "alpha".to_string(), req: "2".to_string(), kind: DepKind::Build },
        Dependency {
            name: "miota".to_string(),
            req: "3".to_string(),
            kind: DepKind::Development,
        },
    ];
    let record = CrateDetails::new(package);
    let names: Vec<&str> = record.deps.iter().map(|d| d.name.as_str()).collect();
    assert_eq!(names, vec!["alpha", "miota", "zeta"]);
}

#[test]
fn root_is_manifest_directory() {
    let package = pkg("rooted", "id-r", (1, 0, 0), "/work/space/rooted/Cargo.toml");
    let record = CrateDetails::new(package);
    assert_eq!(record.root.as_deref(), Some("/work/space/rooted"));
}

#[test]
fn license_field_decomposes_expressions() {
    assert_eq!(
        LicenseField::new("MIT OR Apache-2.0".to_string()),
        LicenseField::Ids(vec!["MIT".to_string(), "Apache-2.0".to_string()])
    );
    assert_eq!(
        LicenseField::new("MIT/Apache-2.0".to_string()),
        LicenseField::Ids(vec!["MIT".to_string(), "Apache-2.0".to_string()])
    );
    assert_eq!(
        LicenseField::new("BSD-3-Clause AND Zlib".to_string()),
        LicenseField::Ids(vec!["BSD-3-Clause".to_string(), "Zlib".to_string()])
    );
}

#[test]
fn license_field_keeps_unrecognized_opaque() {
    assert_eq!(
        LicenseField::new("(MIT OR Apache-2.0) AND ISC".to_string()),
        LicenseField::Unrecognized("(MIT OR Apache-2.0) AND ISC".to_string())
    );
    assert_eq!(
        LicenseField::new("".to_string()),
        LicenseField::Unrecognized("".to_string())
    );
    assert_eq!(
        LicenseField::new("OR AND".to_string()),
        LicenseField::Unrecognized("OR AND".to_string())
    );
    assert_eq!(LicenseField::default(), LicenseField::Absent);
}

#[test]
fn records_order_by_name_then_version() {
    let a = CrateDetails::new(pkg("alpha", "id-1", (0, 2, 0), "/s/a/Cargo.toml"));
    let b = CrateDetails::new(pkg("alpha", "id-2", (0, 10, 0), "/s/b/Cargo.toml"));
    let c = CrateDetails::new(pkg("beta", "id-3", (0, 1, 0), "/s/c/Cargo.toml"));
    assert!(a < b);
    assert!(b < c);
    assert!(a <= a);
}

#[test]
fn explicit_file_emitted_even_when_not_scanned() {
    let mut package = pkg("expl", "id-e", (1, 0, 0), "/src/expl/Cargo.toml");
    package.license_file = Some("COPYING".to_string());
    let record = CrateDetails::new(package);
    let evidence = record.licenses(&Vec::new());
    assert_eq!(
        evidence,
        vec![LicenseInfo::ExplicitLicenseFile("/src/expl/COPYING".to_string())]
    );
}

#[test]
fn lint_level_defaults_to_warn() {
    assert_eq!(LintLevel::default(), LintLevel::Warn);
}
