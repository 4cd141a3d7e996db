//! Dependency records and the registry built over them: one record per
//! resolved package, sorted by (name, version), indexed by identifier,
//! together with the normalized resolution graph.

use vstd::prelude::*;
use vstd::multiset::Multiset;
use vstd::string::StringExecFns;
use core::cmp::Ordering;
use crate::licenses::{
    declared_items, evidence_seq, explicit_path, inferred_items, info_views, license_prefix,
    parse_license_field, str_views, LicenseField, LicenseFieldView, LicenseInfo,
};
use crate::order::{binary_search, lemma_map_to_multiset, sort_by_key, sorted_keys, KeyProj,
    TotalOrd};
use crate::resolve::{node_content, normalize, normalized, Resolve};
use crate::text::{dir_of, join_path, lemma_lex_cmp_eq, parent_dir, path_join, str_cmp,
    str_has_prefix};
use crate::version::{crate_key_cmp, CrateKey, Version};

verus! {

/// What a dependency requirement is declared for.
#[derive(Clone, Copy, Debug, PartialEq, Eq, Structural)]
pub enum DepKind {
    Normal,
    Development,
    Build,
}

/// One dependency requirement of a package: the target name, the declared
/// version requirement, and the kind of dependency.
#[derive(Debug, Clone, PartialEq, Eq)]
pub struct Dependency {
    pub name: String,
    pub req: String,
    pub kind: DepKind,
}

impl KeyProj<String> for Dependency {
    open spec fn proj(&self) -> String {
        self.name
    }

    fn cmp_key(&self, q: &String) -> (r: Ordering) {
        str_cmp(self.name.as_str(), q.as_str())
    }

    fn cmp_elem(&self, other: &Self) -> (r: Ordering) {
        str_cmp(self.name.as_str(), other.name.as_str())
    }
}

/// A raw package descriptor as the external metadata source reports it,
/// before it is normalized into a record.
pub struct Package {
    pub name: String,
    pub id: String,
    pub version: Version,
    pub authors: Vec<String>,
    pub repository: Option<String>,
    pub description: Option<String>,
    pub manifest_path: String,
    pub license: Option<String>,
    pub license_file: Option<String>,
    pub dependencies: Vec<Dependency>,
}

/// One resolved package version: scalar metadata, the normalized declared
/// license, and its dependency requirements sorted by target name.
/// Immutable once built.
pub struct CrateDetails {
    pub name: String,
    pub id: String,
    pub version: Version,
    pub authors: Vec<String>,
    pub repository: Option<String>,
    pub description: Option<String>,
    pub root: Option<String>,
    pub license: LicenseField,
    pub license_file: Option<String>,
    pub deps: Vec<Dependency>,
}

/// The view of an optional string.
pub open spec fn opt_view(o: Option<String>) -> Option<Seq<char>> {
    match o {
        Some(s) => Some(s@),
        None => None,
    }
}

/// Everything a record carries, with the dependency list taken as a
/// multiset: the order of equal-named requirements is the one aspect a
/// record does not pin down.
#[verifier::ext_equal]
pub struct RecordView {
    pub name: String,
    pub id: String,
    pub version: Version,
    pub authors: Vec<String>,
    pub repository: Option<String>,
    pub description: Option<String>,
    pub root: Option<Seq<char>>,
    pub license: LicenseFieldView,
    pub license_file: Option<String>,
    pub deps: Multiset<Dependency>,
}

impl CrateDetails {
    /// The record's content, dependency order abstracted away.
    pub open spec fn essence(&self) -> RecordView {
        RecordView {
            name: self.name,
            id: self.id,
            version: self.version,
            authors: self.authors,
            repository: self.repository,
            description: self.description,
            root: opt_view(self.root),
            license: self.license@,
            license_file: self.license_file,
            deps: self.deps@.to_multiset(),
        }
    }

    /// The (name, version) key that orders and equates records.
    pub open spec fn key(&self) -> CrateKey {
        CrateKey { name: self.name, version: self.version }
    }
}

/// The record a raw package descriptor determines: scalar fields copied,
/// the declared license normalized, the root taken as the directory of
/// the manifest path, and the dependencies held as a multiset.
pub open spec fn package_record(p: Package) -> RecordView {
    RecordView {
        name: p.name,
        id: p.id,
        version: p.version,
        authors: p.authors,
        repository: p.repository,
        description: p.description,
        root: Some(dir_of(p.manifest_path@)),
        license: match p.license {
            Some(s) => parse_license_field(s@),
            None => LicenseFieldView::Absent,
        },
        license_file: p.license_file,
        deps: p.dependencies@.to_multiset(),
    }
}

impl KeyProj<CrateKey> for CrateDetails {
    open spec fn proj(&self) -> CrateKey {
        self.key()
    }

    fn cmp_key(&self, q: &CrateKey) -> (r: Ordering) {
        let byname = str_cmp(self.name.as_str(), q.name.as_str());
        if matches!(byname, Ordering::Equal) {
            self.version.cmp_exec(&q.version)
        } else {
            byname
        }
    }

    fn cmp_elem(&self, other: &Self) -> (r: Ordering) {
        let byname = str_cmp(self.name.as_str(), other.name.as_str());
        if matches!(byname, Ordering::Equal) {
            self.version.cmp_exec(&other.version)
        } else {
            byname
        }
    }
}

impl CrateDetails {
    /// Derive one record from a raw descriptor: copy the scalar fields,
    /// normalize the declared license, compute the root directory from the
    /// manifest path, and sort the dependency list by target name.
    pub fn new(package: Package) -> (r: Self)
        ensures
            r.essence() == package_record(package),
            sorted_keys::<Dependency, String>(r.deps@),
            r.root is Some,
    {
        let ghost p0 = package;
        let Package {
            name,
            id,
            version,
            authors,
            repository,
            description,
            manifest_path,
            license,
            license_file,
            dependencies,
        } = package;
        let root = parent_dir(manifest_path.as_str());
        let license = match license {
            Some(s) => LicenseField::new(s),
            None => LicenseField::default(),
        };
        let mut deps = dependencies;
        sort_by_key::<Dependency, String>(&mut deps);
        let r = CrateDetails {
            name,
            id,
            version,
            authors,
            repository,
            description,
            root: Some(root),
            license,
            license_file,
            deps,
        };
        proof {
            assert(r.essence() =~= package_record(p0));
        }
        r
    }

    /// The license evidence for this record, in reporting order: declared
    /// identifiers first, then license-named files from the given listing
    /// of the root directory (skipping the explicitly referenced file),
    /// then the explicitly referenced file itself. `dir_files` holds the
    /// names of the regular files found in the record's root directory;
    /// it is ignored when the record has no root.
    pub fn licenses(&self, dir_files: &Vec<String>) -> (r: Vec<LicenseInfo>)
        ensures
            info_views(r@) == evidence_seq(
                self.license@,
                opt_view(self.root),
                opt_view(self.license_file),
                str_views(dir_files@),
            ),
    {
        let mut out: Vec<LicenseInfo> = Vec::new();
        proof {
            assert(info_views(out@) =~= Seq::<crate::licenses::LicenseInfoView>::empty());
        }
        match &self.license {
            LicenseField::Absent => {
                proof {
                    assert(info_views(out@) =~= declared_items(self.license@));
                }
            },
            LicenseField::Ids(ids) => {
                let mut i: usize = 0;
                while i < ids.len()
                    invariant
                        i <= ids@.len(),
                        self.license@ matches LicenseFieldView::Ids(v) && v == str_views(ids@),
                        info_views(out@) == declared_items(
                            LicenseFieldView::Ids(str_views(ids@).take(i as int)),
                        ),
                    decreases ids@.len() - i,
                {
                    let t = ids[i].clone();
                    proof {
                        let vs = str_views(ids@);
                        assert(info_views(out@).len() == out@.len());
                        assert(declared_items(LicenseFieldView::Ids(vs.take(i as int))).len()
                            == i);
                        assert(out@.len() == i);
                        assert(vs.take(i + 1)[i as int] == ids@[i as int]@);
                        let lhs = info_views(out@.push(LicenseInfo::Metadata(t)));
                        let rhs = declared_items(LicenseFieldView::Ids(vs.take(i + 1)));
                        assert(lhs.len() == rhs.len());
                        assert forall|j: int| 0 <= j < lhs.len() implies lhs[j] == rhs[j] by {
                            assert(lhs[j] == out@.push(LicenseInfo::Metadata(t))[j]@);
                            assert(rhs[j] == crate::licenses::LicenseInfoView::Metadata(
                                vs.take(i + 1)[j]));
                            if j < i {
                                assert(out@.push(LicenseInfo::Metadata(t))[j] == out@[j]);
                                assert(info_views(out@)[j] == out@[j]@);
                                assert(info_views(out@)[j]
                                    == crate::licenses::LicenseInfoView::Metadata(
                                    vs.take(i as int)[j]));
                            }
                        }
                        assert(lhs =~= rhs);
                    }
                    out.push(LicenseInfo::Metadata(t));
                    i = i + 1;
                }
                proof {
                    assert(str_views(ids@).take(ids@.len() as int) =~= str_views(ids@));
                }
            },
            LicenseField::Unrecognized(s) => {
                out.push(LicenseInfo::Metadata(s.clone()));
                proof {
                    assert(info_views(out@) =~= declared_items(self.license@));
                }
            },
        }
        let ghost declared = declared_items(self.license@);
        let explicit: Option<String> = match (&self.root, &self.license_file) {
            (Some(rt), Some(f)) => Some(path_join(rt.as_str(), f.as_str())),
            _ => None,
        };
        let ghost ex = explicit_path(opt_view(self.root), opt_view(self.license_file));
        proof {
            assert(opt_view(explicit) == ex);
        }
        match &self.root {
            Some(rt) => {
                let mut i: usize = 0;
                proof {
                    assert(str_views(dir_files@).take(0) =~= Seq::<Seq<char>>::empty());
                    assert(inferred_items(str_views(dir_files@).take(0), rt@, ex)
                        =~= Seq::<crate::licenses::LicenseInfoView>::empty());
                    assert(info_views(out@) =~= declared + inferred_items(
                        str_views(dir_files@).take(0), rt@, ex));
                }
                while i < dir_files.len()
                    invariant
                        i <= dir_files@.len(),
                        self.root matches Some(rr) && rr == *rt,
                        opt_view(explicit) == ex,
                        info_views(out@) == declared + inferred_items(
                            str_views(dir_files@).take(i as int),
                            rt@,
                            ex,
                        ),
                    decreases dir_files@.len() - i,
                {
                    let f = &dir_files[i];
                    proof {
                        let fs = str_views(dir_files@);
                        assert(fs.take(i + 1).drop_last() =~= fs.take(i as int));
                        assert(fs.take(i + 1).last() == f@);
                        reveal_strlit("LICENSE");
                        assert("LICENSE"@ =~= license_prefix());
                    }
                    if str_has_prefix(f.as_str(), "LICENSE") {
                        let joined = path_join(rt.as_str(), f.as_str());
                        let dup = match &explicit {
                            Some(e) => *e == joined,
                            None => false,
                        };
                        if !dup {
                            proof {
                                let fs = str_views(dir_files@);
                                assert(info_views(out@).len() == out@.len());
                                assert(out@.len() == declared.len() + inferred_items(
                                    fs.take(i as int), rt@, ex).len());
                                assert(inferred_items(fs.take(i + 1), rt@, ex)
                                    =~= inferred_items(fs.take(i as int), rt@, ex).push(
                                    crate::licenses::LicenseInfoView::InferredLicenseFile(
                                        join_path(rt@, f@))));
                                let lhs = info_views(out@.push(
                                    LicenseInfo::InferredLicenseFile(joined)));
                                let rhs = declared + inferred_items(fs.take(i + 1), rt@, ex);
                                assert(lhs.len() == rhs.len());
                                assert forall|j: int| 0 <= j < lhs.len() implies lhs[j]
                                    == rhs[j] by {
                                    assert(lhs[j] == out@.push(
                                        LicenseInfo::InferredLicenseFile(joined))[j]@);
                                    if j < out@.len() {
                                        assert(out@.push(LicenseInfo::InferredLicenseFile(
                                            joined))[j] == out@[j]);
                                        assert(info_views(out@)[j] == out@[j]@);
                                        assert(rhs[j] == (declared + inferred_items(
                                            fs.take(i as int), rt@, ex))[j]);
                                    } else {
                                        assert(rhs[j] == inferred_items(fs.take(i + 1), rt@,
                                            ex).last());
                                    }
                                }
                                assert(lhs =~= rhs);
                            }
                            out.push(LicenseInfo::InferredLicenseFile(joined));
                        }
                    }
                    i = i + 1;
                }
                proof {
                    assert(str_views(dir_files@).take(dir_files@.len() as int)
                        =~= str_views(dir_files@));
                }
            },
            None => {},
        }
        match explicit {
            Some(e) => {
                proof {
                    assert(info_views(out@.push(LicenseInfo::ExplicitLicenseFile(e)))
                        =~= info_views(out@) + seq![
                        crate::licenses::LicenseInfoView::ExplicitLicenseFile(e@)]);
                }
                out.push(LicenseInfo::ExplicitLicenseFile(e));
            },
            None => {},
        }
        proof {
            assert(info_views(out@) =~= evidence_seq(
                self.license@,
                opt_view(self.root),
                opt_view(self.license_file),
                str_views(dir_files@),
            ));
        }
        out
    }
}

impl PartialEq for CrateDetails {
    /// Records compare by their logical identity alone: name and version.
    /// Two records with different identifiers but the same name and
    /// version are equal under this relation.
    fn eq(&self, other: &Self) -> (r: bool) {
        self.name == other.name && self.version == other.version
    }
}

impl vstd::std_specs::cmp::PartialEqSpecImpl for CrateDetails {
    open spec fn obeys_eq_spec() -> bool {
        true
    }

    open spec fn eq_spec(&self, other: &Self) -> bool {
        self.name@ == other.name@ && self.version == other.version
    }
}

impl PartialOrd for CrateDetails {
    /// Records order by logical identity: name first, then version.
    fn partial_cmp(&self, other: &Self) -> (r: Option<Ordering>) {
        Some(self.cmp_elem(other))
    }
}

impl vstd::std_specs::cmp::PartialOrdSpecImpl for CrateDetails {
    open spec fn obeys_partial_cmp_spec() -> bool {
        true
    }

    open spec fn partial_cmp_spec(&self, other: &Self) -> Option<Ordering> {
        Some(crate_key_cmp(self.key(), other.key()))
    }
}

impl Default for CrateDetails {
    /// An empty record: empty name and identifier, version 0.1.0, and no
    /// metadata at all.
    fn default() -> (r: Self)
        ensures
            r.name@ == Seq::<char>::empty(),
            r.id@ == Seq::<char>::empty(),
            r.version == (Version { major: 0, minor: 1, patch: 0 }),
            r.authors@ == Seq::<String>::empty(),
            r.repository is None,
            r.description is None,
            r.root is None,
            r.license@ is Absent,
            r.license_file is None,
            r.deps@ == Seq::<Dependency>::empty(),
    {
        let r = CrateDetails {
            name: String::new(),
            id: String::new(),
            version: Version::new(0, 1, 0),
            authors: Vec::new(),
            repository: None,
            description: None,
            root: None,
            license: LicenseField::default(),
            license_file: None,
            deps: Vec::new(),
        };
        proof {
            assert(r.authors@ =~= Seq::<String>::empty());
            assert(r.deps@ =~= Seq::<Dependency>::empty());
        }
        r
    }
}

/// Failure to build the registry.
#[derive(Clone, Copy, Debug, PartialEq, Eq, Structural)]
pub enum Error {
    /// The metadata response carried no resolution graph, so no registry
    /// can be built from it.
    MissingResolveGraph,
}

/// Position `i` appears as the target of some index entry.
pub open spec fn covers(m: Seq<IdEntry>, i: int) -> bool {
    exists|k: int| 0 <= k < m.len() && (#[trigger] m[k]).idx == i
}

/// One entry of the identifier index: an identifier and the position of
/// its record in the sorted record sequence.
pub struct IdEntry {
    pub id: String,
    pub idx: usize,
}

impl KeyProj<String> for IdEntry {
    open spec fn proj(&self) -> String {
        self.id
    }

    fn cmp_key(&self, q: &String) -> (r: Ordering) {
        str_cmp(self.id.as_str(), q.as_str())
    }

    fn cmp_elem(&self, other: &Self) -> (r: Ordering) {
        str_cmp(self.id.as_str(), other.id.as_str())
    }
}

/// The registry: the full record sequence in canonical (name, version)
/// order, an index from identifier to position, and the normalized
/// resolution graph. Built once; immutable afterwards.
pub struct Crates {
    pub crates: Vec<CrateDetails>,
    pub crate_map: Vec<IdEntry>,
    pub resolved: Resolve,
}

impl Crates {
    /// The registry invariant: records sorted by (name, version); the
    /// index sorted by identifier, with every entry naming a record that
    /// carries its identifier, and every record position present.
    pub open spec fn wf(&self) -> bool {
        &&& sorted_keys::<CrateDetails, CrateKey>(self.crates@)
        &&& sorted_keys::<IdEntry, String>(self.crate_map@)
        &&& self.crate_map@.len() == self.crates@.len()
        &&& forall|k: int|
            0 <= k < self.crate_map@.len() ==> (#[trigger] self.crate_map@[k]).idx
                < self.crates@.len() && self.crates@[self.crate_map@[k].idx as int].id
                == self.crate_map@[k].id
        &&& forall|i: int|
            0 <= i < self.crates@.len() ==> #[trigger] covers(self.crate_map@, i)
    }

    /// Look a record up by its identifier: the record carrying the
    /// identifier when there is one, absent otherwise.
    pub fn crate_by_id<'a>(&'a self, id: &String) -> (r: Option<&'a CrateDetails>)
        requires
            self.wf(),
        ensures
            match r {
                Some(c) => exists|i: int|
                    0 <= i < self.crates@.len() && *c == self.crates@[i] && c.id@ == id@,
                None => forall|i: int|
                    0 <= i < self.crates@.len() ==> (#[trigger] self.crates@[i]).id@ != id@,
            },
    {
        match binary_search::<IdEntry, String>(self.crate_map.as_slice(), id) {
            Ok(k) => {
                let e = &self.crate_map[k];
                proof {
                    lemma_lex_cmp_eq(e.id@, id@);
                    assert(self.crates@[e.idx as int].id@ == id@);
                }
                Some(&self.crates[e.idx])
            },
            Err(_) => {
                proof {
                    assert forall|i: int| 0 <= i < self.crates@.len() implies (
                    #[trigger] self.crates@[i]).id@ != id@ by {
                        assert(covers(self.crate_map@, i));
                        let k = choose|k: int|
                            0 <= k < self.crate_map@.len() && (#[trigger] self.crate_map@[
                                k]).idx == i;
                        assert(self.crate_map@[k].proj().cmp_spec(id) != Ordering::Equal);
                        lemma_lex_cmp_eq(self.crate_map@[k].id@, id@);
                    }
                }
                None
            },
        }
    }

    /// The records in canonical order, for direct indexed access and
    /// iteration.
    pub fn iter(&self) -> (r: &[CrateDetails])
        ensures
            r@ == self.crates@,
    {
        self.crates.as_slice()
    }
}

/// No two records carry the same identifier.
pub open spec fn distinct_ids(s: Seq<CrateDetails>) -> bool {
    forall|i: int, j: int| 0 <= i < j < s.len() ==> s[i].id@ != s[j].id@
}

/// Looking up an identifier is consistent with the record sequence: when
/// identifiers are distinct, any record carrying the identifier of the
/// record at position `i` is the record at position `i` itself.
pub proof fn lemma_lookup_consistent(c: &Crates, i: int, j: int)
    requires
        c.wf(),
        distinct_ids(c.crates@),
        0 <= i < c.crates@.len(),
        0 <= j < c.crates@.len(),
        c.crates@[j].id@ == c.crates@[i].id@,
    ensures
        c.crates@[j] == c.crates@[i],
{
    if i != j {
        assert(false);
    }
}

/// Two raw entries that share a name and version but not an identifier
/// are both retained by the build, and the two records compare equal
/// under the records' (name, version) ordering.
pub proof fn lemma_equal_collapse(c: &Crates, packages: Seq<Package>, i: int, j: int)
    requires
        c.crates@.map_values(|d: CrateDetails| d.essence()).to_multiset()
            == packages.map_values(|p: Package| package_record(p)).to_multiset(),
        0 <= i < packages.len(),
        0 <= j < packages.len(),
        i != j,
        packages[i].name@ == packages[j].name@,
        packages[i].version == packages[j].version,
        packages[i].id@ != packages[j].id@,
    ensures
        exists|ii: int, jj: int|
            {
                &&& 0 <= ii < c.crates@.len()
                &&& 0 <= jj < c.crates@.len()
                &&& ii != jj
                &&& (#[trigger] c.crates@[ii]).essence() == package_record(packages[i])
                &&& (#[trigger] c.crates@[jj]).essence() == package_record(packages[j])
                &&& crate_key_cmp(c.crates@[ii].key(), c.crates@[jj].key()) == Ordering::Equal
            },
{
    broadcast use vstd::seq_lib::group_to_multiset_ensures;

    let ess = |d: CrateDetails| d.essence();
    let pr = |p: Package| package_record(p);
    let mc = c.crates@.map_values(ess);
    let mp = packages.map_values(pr);
    let e1 = package_record(packages[i]);
    let e2 = package_record(packages[j]);
    assert(e1 != e2);
    assert(mp[i] == e1);
    assert(mp.contains(e1));
    assert(mp.to_multiset().count(e1) > 0);
    assert(mc.contains(e1));
    let ii = choose|ii: int| 0 <= ii < mc.len() && mc[ii] == e1;
    assert(mp[j] == e2);
    assert(mp.contains(e2));
    assert(mp.to_multiset().count(e2) > 0);
    assert(mc.contains(e2));
    let jj = choose|jj: int| 0 <= jj < mc.len() && mc[jj] == e2;
    assert(c.crates@[ii].essence() == e1);
    assert(c.crates@[jj].essence() == e2);
    assert(c.crates@[ii].name == packages[i].name);
    assert(c.crates@[jj].name == packages[j].name);
    assert(c.crates@[ii].version == packages[i].version);
    assert(c.crates@[jj].version == packages[j].version);
    lemma_lex_cmp_eq(c.crates@[ii].name@, c.crates@[jj].name@);
    assert(crate_key_cmp(c.crates@[ii].key(), c.crates@[jj].key()) == Ordering::Equal);
}

/// Build the registry from the raw metadata: derive one record per raw
/// package, sort records by (name, version), index them by identifier,
/// and normalize the resolution graph. Fails exactly when the metadata
/// carried no resolution graph.
pub fn get_all_crates(packages: Vec<Package>, resolve: Option<Resolve>) -> (r: Result<
    Crates,
    Error,
>)
    ensures
        r is Ok <==> resolve is Some,
        r is Err ==> r == Result::<Crates, Error>::Err(Error::MissingResolveGraph),
        r matches Ok(c) ==> {
            &&& c.wf()
            &&& c.crates@.len() == packages@.len()
            &&& c.crates@.map_values(|d: CrateDetails| d.essence()).to_multiset()
                == packages@.map_values(|p: Package| package_record(p)).to_multiset()
            &&& forall|i: int|
                0 <= i < c.crates@.len() ==> sorted_keys::<Dependency, String>(
                    (#[trigger] c.crates@[i]).deps@,
                )
            &&& normalized(c.resolved)
            &&& resolve matches Some(g) && c.resolved.nodes@.map_values(
                |n: crate::resolve::Node| node_content(n),
            ).to_multiset() == g.nodes@.map_values(
                |n: crate::resolve::Node| node_content(n),
            ).to_multiset()
        },
{
    broadcast use vstd::seq_lib::group_to_multiset_ensures;

    let mut resolved = match resolve {
        Some(g) => g,
        None => {
            return Err(Error::MissingResolveGraph);
        },
    };
    let ghost packages0 = packages@;
    let ess = Ghost(|d: CrateDetails| d.essence());
    let pr = Ghost(|p: Package| package_record(p));
    let mut rest = packages;
    let mut crates: Vec<CrateDetails> = Vec::new();
    proof {
        assert(crates@.map_values(ess@) =~= Seq::<RecordView>::empty());
        assert(crates@.map_values(ess@).to_multiset().add(
            rest@.map_values(pr@).to_multiset(),
        ) =~= packages0.map_values(pr@).to_multiset());
    }
    while rest.len() > 0
        invariant
            ess == Ghost(|d: CrateDetails| d.essence()),
            pr == Ghost(|p: Package| package_record(p)),
            crates@.len() + rest@.len() == packages0.len(),
            crates@.map_values(ess@).to_multiset().add(rest@.map_values(pr@).to_multiset())
                == packages0.map_values(pr@).to_multiset(),
            forall|k: int|
                0 <= k < crates@.len() ==> sorted_keys::<Dependency, String>(
                    (#[trigger] crates@[k]).deps@,
                ),
        decreases rest@.len(),
    {
        let ghost rest0 = rest@;
        let p = rest.pop().unwrap();
        let d = CrateDetails::new(p);
        proof {
            assert(rest0.drop_last() =~= rest@);
            assert(rest0.map_values(pr@).drop_last() =~= rest@.map_values(pr@));
            let mr0 = rest0.map_values(pr@);
            let x = package_record(rest0.last());
            assert(mr0.last() == x);
            to_multiset_remove_last(mr0);
            vstd::seq_lib::to_multiset_contains(mr0, x);
            assert(mr0.contains(x));
            assert(rest@.map_values(pr@).to_multiset().insert(x) =~= mr0.to_multiset());
            assert(crates@.map_values(ess@).push(d.essence()) =~= crates@.push(d).map_values(
                ess@,
            ));
            let mc = crates@.map_values(ess@);
            vstd::seq_lib::to_multiset_build(mc, d.essence());
            assert(d.essence() == x);
            assert(mc.push(d.essence()).to_multiset() == mc.to_multiset().insert(x));
            lemma_multiset_insert_add(
                mc.to_multiset(),
                rest@.map_values(pr@).to_multiset(),
                x,
                packages0.map_values(pr@).to_multiset(),
            );
        }
        crates.push(d);
    }
    proof {
        assert(rest@.map_values(pr@) =~= Seq::<RecordView>::empty());
        assert(rest@.map_values(pr@).to_multiset() =~= Multiset::<RecordView>::empty());
        assert(crates@.map_values(ess@).to_multiset().add(Multiset::<RecordView>::empty())
            =~= crates@.map_values(ess@).to_multiset());
    }
    let ghost unsorted = crates@;
    sort_by_key::<CrateDetails, CrateKey>(&mut crates);
    proof {
        lemma_map_to_multiset(unsorted, crates@, ess@);
        assert forall|k: int| 0 <= k < crates@.len() implies sorted_keys::<Dependency, String>(
            (#[trigger] crates@[k]).deps@,
        ) by {
            vstd::seq_lib::to_multiset_contains(crates@, crates@[k]);
            assert(crates@.contains(crates@[k]));
            vstd::seq_lib::to_multiset_contains(unsorted, crates@[k]);
            assert(unsorted.contains(crates@[k]));
        }
    }
    let mut map: Vec<IdEntry> = Vec::new();
    let mut k: usize = 0;
    while k < crates.len()
        invariant
            k <= crates@.len(),
            map@.len() == k,
            forall|m: int|
                0 <= m < k ==> (#[trigger] map@[m]).idx == m && map@[m].id == crates@[m].id,
        decreases crates@.len() - k,
    {
        let idstr = crates[k].id.clone();
        map.push(IdEntry { id: idstr, idx: k });
        k = k + 1;
    }
    let ghost map0 = map@;
    sort_by_key::<IdEntry, String>(&mut map);
    proof {
        assert forall|m: int| 0 <= m < map@.len() implies (#[trigger] map@[m]).idx
            < crates@.len() && crates@[map@[m].idx as int].id == map@[m].id by {
            vstd::seq_lib::to_multiset_contains(map@, map@[m]);
            assert(map@.contains(map@[m]));
            vstd::seq_lib::to_multiset_contains(map0, map@[m]);
            assert(map0.contains(map@[m]));
        }
        assert forall|i: int| 0 <= i < crates@.len() implies #[trigger] covers(map@, i) by {
            assert(map0[i].idx == i);
            vstd::seq_lib::to_multiset_contains(map0, map0[i]);
            assert(map0.contains(map0[i]));
            vstd::seq_lib::to_multiset_contains(map@, map0[i]);
            assert(map@.contains(map0[i]));
            let m = choose|m: int| 0 <= m < map@.len() && map@[m] == map0[i];
            assert(map@[m].idx == i);
        }
    }
    normalize(&mut resolved);
    proof {
        let essl = |d: CrateDetails| d.essence();
        let prl = |p: Package| package_record(p);
        assert(crates@.map_values(essl) =~= crates@.map_values(ess@));
        assert(packages0.map_values(prl) =~= packages0.map_values(pr@));
        assert(rest@.len() == 0);
    }
    let ghost gc = crates@;
    let ghost gm = map@;
    let result = Crates { crates, crate_map: map, resolved };
    proof {
        assert(result.crates@ == gc);
        assert(result.crate_map@ == gm);
        assert forall|i: int| 0 <= i < result.crates@.len() implies #[trigger] covers(
            result.crate_map@,
            i,
        ) by {
            assert(covers(gm, i));
            let m = choose|m: int| 0 <= m < gm.len() && (#[trigger] gm[m]).idx == i;
            assert(result.crate_map@[m].idx == i);
        }
    }
    Ok(result)
}

/// Removing the last element removes one occurrence of it from the
/// multiset.
proof fn to_multiset_remove_last<A>(s: Seq<A>)
    requires
        s.len() > 0,
    ensures
        s.drop_last().to_multiset() == s.to_multiset().remove(s.last()),
{
    vstd::seq_lib::to_multiset_remove(s, s.len() - 1);
    assert(s.remove(s.len() - 1) =~= s.drop_last());
}

/// Moving one occurrence between the two summands keeps the sum.
proof fn lemma_multiset_insert_add<A>(
    a: Multiset<A>,
    b: Multiset<A>,
    x: A,
    total: Multiset<A>,
)
    requires
        a.add(b.insert(x)) == total,
    ensures
        a.insert(x).add(b) == total,
{
    assert(a.insert(x).add(b) =~= a.add(b.insert(x)));
}

} // verus!
