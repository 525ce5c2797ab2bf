use core::convert::Infallible;
use core::fmt;
use core::ops::Bound;
use pubgrub::{
    DefaultStringReporter, Dependencies as PgDependencies, DependencyConstraints,
    DependencyProvider, PackageResolutionStatistics, PubGrubError, Range, Reporter,
};
use pubgrub_debian::debian_deps::{Dependencies as LibDependencies, Package};
use pubgrub_debian::debian_version::DebianVersion;
use pubgrub_debian::index::{Alternative, Dependency, HashedRange, Index};
use pubgrub_debian::range::{Interval, VersionBound, VersionRange};

/// A version as pubgrub orders it: the library's comparator behind `Ord`.
#[derive(Clone, Debug, PartialEq, Eq, Hash)]
struct TV(String);

impl Ord for TV {
    fn cmp(&self, other: &Self) -> core::cmp::Ordering {
        DebianVersion(self.0.clone()).compare(&DebianVersion(other.0.clone()))
    }
}

impl PartialOrd for TV {
    fn partial_cmp(&self, other: &Self) -> Option<core::cmp::Ordering> {
        Some(self.cmp(other))
    }
}

impl fmt::Display for TV {
    fn fmt(&self, f: &mut fmt::Formatter<'_>) -> fmt::Result {
        f.write_str(&self.0)
    }
}

/// A structural stand-in for one interval bound, hashable for proxy identity.
type BoundRep = (u8, String);

type AltRep = (String, Vec<(BoundRep, BoundRep)>);

#[derive(Clone, Debug, PartialEq, Eq, Hash)]
enum APkg {
    Root(Vec<(APkg, Range<TV>)>),
    Base(String),
    Proxy(Vec<AltRep>),
}

impl fmt::Display for APkg {
    fn fmt(&self, f: &mut fmt::Formatter<'_>) -> fmt::Result {
        match self {
            APkg::Root(_) => f.write_str("Root"),
            APkg::Base(name) => f.write_str(name),
            APkg::Proxy(alts) => {
                let names: Vec<String> = alts.iter().map(|a| a.0.clone()).collect();
                f.write_str(&names.join(" | "))
            },
        }
    }
}

fn bound_to_rep(b: &VersionBound) -> BoundRep {
    match b {
        VersionBound::Unbounded => (0, String::new()),
        VersionBound::Included(v) => (1, v.0.clone()),
        VersionBound::Excluded(v) => (2, v.0.clone()),
    }
}

fn rep_to_bound(r: &BoundRep) -> VersionBound {
    match r.0 {
        0 => VersionBound::Unbounded,
        1 => VersionBound::Included(DebianVersion(r.1.clone())),
        _ => VersionBound::Excluded(DebianVersion(r.1.clone())),
    }
}

fn range_to_reps(r: &VersionRange) -> Vec<(BoundRep, BoundRep)> {
    r.intervals
        .iter()
        .map(|iv| (bound_to_rep(&iv.lo), bound_to_rep(&iv.hi)))
        .collect()
}

fn reps_to_range(reps: &[(BoundRep, BoundRep)]) -> VersionRange {
    VersionRange {
        intervals: reps
            .iter()
            .map(|(lo, hi)| Interval { lo: rep_to_bound(lo), hi: rep_to_bound(hi) })
            .collect(),
    }
}

fn bound_to_pg(b: &VersionBound) -> Bound<TV> {
    match b {
        VersionBound::Unbounded => Bound::Unbounded,
        VersionBound::Included(v) => Bound::Included(TV(v.0.clone())),
        VersionBound::Excluded(v) => Bound::Excluded(TV(v.0.clone())),
    }
}

fn pg_bound_to_lib(b: Bound<&TV>) -> VersionBound {
    match b {
        Bound::Unbounded => VersionBound::Unbounded,
        Bound::Included(v) => VersionBound::Included(DebianVersion(v.0.clone())),
        Bound::Excluded(v) => VersionBound::Excluded(DebianVersion(v.0.clone())),
    }
}

fn lib_range_to_pg(r: &VersionRange) -> Range<TV> {
    let mut out = Range::empty();
    for iv in &r.intervals {
        out = out.union(&Range::from_range_bounds((
            bound_to_pg(&iv.lo),
            bound_to_pg(&iv.hi),
        )));
    }
    out
}

fn pg_range_to_lib(r: &Range<TV>) -> VersionRange {
    let intervals = r
        .iter()
        .map(|(lo, hi)| Interval {
            lo: pg_bound_to_lib(lo.as_ref()),
            hi: pg_bound_to_lib(hi.as_ref()),
        })
        .collect();
    VersionRange { intervals }
}

fn lib_pkg_to_apkg(p: &Package) -> APkg {
    match p {
        Package::Root(deps) => APkg::Root(
            deps.iter()
                .map(|(p, r)| (lib_pkg_to_apkg(p), lib_range_to_pg(r)))
                .collect(),
        ),
        Package::Base(name) => APkg::Base(name.clone()),
        Package::Proxy(dep) => APkg::Proxy(
            dep.alternatives
                .iter()
                .map(|a| (a.name.clone(), range_to_reps(&a.range.0)))
                .collect(),
        ),
    }
}

fn apkg_to_lib(p: &APkg) -> Package {
    match p {
        APkg::Root(deps) => Package::Root(
            deps.iter()
                .map(|(p, r)| (apkg_to_lib(p), pg_range_to_lib(r)))
                .collect(),
        ),
        APkg::Base(name) => Package::Base(name.clone()),
        APkg::Proxy(alts) => Package::Proxy(Dependency {
            alternatives: alts
                .iter()
                .map(|(name, reps)| Alternative {
                    name: name.clone(),
                    range: HashedRange(reps_to_range(reps)),
                })
                .collect(),
        }),
    }
}

struct Provider {
    ix: Index,
}

impl DependencyProvider for Provider {
    type P = APkg;
    type V = TV;
    type VS = Range<TV>;
    type M = String;
    type Err = Infallible;
    type Priority = u8;

    fn prioritize(
        &self,
        _package: &APkg,
        _range: &Range<TV>,
        _stats: &PackageResolutionStatistics,
    ) -> u8 {
        1
    }

    fn choose_version(&self, package: &APkg, range: &Range<TV>) -> Result<Option<TV>, Infallible> {
        let lp = apkg_to_lib(package);
        let lr = pg_range_to_lib(range);
        Ok(self.ix.choose_version(&lp, &lr).map(|v| TV(v.0)))
    }

    fn get_dependencies(
        &self,
        package: &APkg,
        version: &TV,
    ) -> Result<PgDependencies<APkg, Range<TV>, String>, Infallible> {
        let lp = apkg_to_lib(package);
        let lv = DebianVersion(version.0.clone());
        match self.ix.get_dependencies(&lp, &lv) {
            LibDependencies::Unavailable => Ok(PgDependencies::Unavailable(String::new())),
            LibDependencies::Available(cs) => {
                let map: DependencyConstraints<APkg, Range<TV>> = cs
                    .iter()
                    .map(|(p, r)| (lib_pkg_to_apkg(p), lib_range_to_pg(r)))
                    .collect();
                Ok(PgDependencies::Available(map))
            },
        }
    }
}

fn bare_alt(name: &str) -> Alternative {
    Alternative { name: name.to_string(), range: HashedRange(VersionRange::full()) }
}

fn ge_alt(name: &str, version: &str) -> Alternative {
    Alternative {
        name: name.to_string(),
        range: HashedRange(VersionRange::higher_or_equal(DebianVersion(version.to_string()))),
    }
}

fn eq_alt(name: &str, version: &str) -> Alternative {
    Alternative {
        name: name.to_string(),
        range: HashedRange(VersionRange::singleton(DebianVersion(version.to_string()))),
    }
}

fn dep(alts: Vec<Alternative>) -> Dependency {
    Dependency { alternatives: alts }
}

fn openssh_index() -> Index {
    let mut ix = Index::new();
    ix.add_deps(
        "openssh-server",
        DebianVersion("1:7.9p1-10+deb10u2".to_string()),
        vec![
            dep(vec![eq_alt("openssh-client", "1:7.9p1-10+deb10u2")]),
            dep(vec![ge_alt("debconf", "0.5"), bare_alt("debconf-2.0")]),
        ],
    );
    ix.add_deps(
        "openssh-client",
        DebianVersion("1:7.9p1-10+deb10u2".to_string()),
        vec![],
    );
    ix.add_deps("debconf-2.0", DebianVersion("1.5.11".to_string()), vec![]);
    ix
}

#[test]
fn test_universe_versions_newest_first() {
    let mut ix = Index::new();
    ix.add_deps("a", DebianVersion("1.0".to_string()), vec![]);
    ix.add_deps("a", DebianVersion("2.0".to_string()), vec![]);
    ix.add_deps("a", DebianVersion("0.5".to_string()), vec![]);
    let vs = ix.available_versions(&"a".to_string());
    let names: Vec<String> = vs.into_iter().map(|v| v.0).collect();
    assert_eq!(names, vec!["2.0".to_string(), "1.0".to_string(), "0.5".to_string()]);
}

#[test]
fn test_add_deps_replaces_compare_equal_version() {
    let mut ix = Index::new();
    ix.add_deps("a", DebianVersion("1.0".to_string()), vec![]);
    ix.add_deps(
        "a",
        DebianVersion("1.0-0".to_string()),
        vec![dep(vec![bare_alt("b")])],
    );
    // the first-stored version string is kept; the dependencies are replaced
    let vs = ix.available_versions(&"a".to_string());
    assert_eq!(vs.len(), 1);
    assert_eq!(vs[0].0, "1.0");
    match ix.get_dependencies(&Package::Base("a".to_string()), &DebianVersion("1.0".to_string()))
    {
        LibDependencies::Available(cs) => {
            assert_eq!(cs.len(), 1);
            match &cs[0].0 {
                Package::Base(name) => assert_eq!(name, "b"),
                _ => panic!("expected a base package"),
            }
        },
        LibDependencies::Unavailable => panic!("expected available dependencies"),
    }
}

#[test]
fn test_choose_version_prefers_newest_in_range() {
    let mut ix = Index::new();
    ix.add_deps("a", DebianVersion("1.0".to_string()), vec![]);
    ix.add_deps("a", DebianVersion("2.0".to_string()), vec![]);
    ix.add_deps("a", DebianVersion("3.0".to_string()), vec![]);
    let range = VersionRange::strictly_lower(DebianVersion("3.0".to_string()));
    let picked = ix.choose_version(&Package::Base("a".to_string()), &range).unwrap();
    assert_eq!(picked.0, "2.0");
    let none = ix.choose_version(
        &Package::Base("a".to_string()),
        &VersionRange::higher_or_equal(DebianVersion("4.0".to_string())),
    );
    assert!(none.is_none());
}

#[test]
fn test_proxy_versions_and_dependencies() {
    let d = dep(vec![ge_alt("debconf", "0.5"), bare_alt("debconf-2.0")]);
    let ix = Index::new();
    let proxy = Package::Proxy(d);
    let versions = ix.list_versions(&proxy);
    let names: Vec<String> = versions.into_iter().map(|v| v.0).collect();
    assert_eq!(names, vec!["debconf".to_string(), "debconf-2.0".to_string()]);
    match ix.get_dependencies(&proxy, &DebianVersion("debconf-2.0".to_string())) {
        LibDependencies::Available(cs) => {
            assert_eq!(cs.len(), 1);
            match &cs[0].0 {
                Package::Base(name) => assert_eq!(name, "debconf-2.0"),
                _ => panic!("expected a base package"),
            }
        },
        LibDependencies::Unavailable => panic!("expected available dependencies"),
    }
}

#[test]
fn test_unknown_package_has_no_versions() {
    let ix = Index::new();
    let vs = ix.available_versions(&"missing".to_string());
    assert!(vs.is_empty());
    match ix.get_dependencies(
        &Package::Base("missing".to_string()),
        &DebianVersion("1.0".to_string()),
    ) {
        LibDependencies::Unavailable => {},
        LibDependencies::Available(_) => panic!("expected unavailable"),
    }
}

#[test]
fn test_end_to_end_openssh_scenario() {
    let provider = Provider { ix: openssh_index() };
    let root = APkg::Base("openssh-server".to_string());
    let sol = pubgrub::resolve(&provider, root, TV("1:7.9p1-10+deb10u2".to_string()))
        .expect("expected a solution");
    assert_eq!(
        sol.get(&APkg::Base("openssh-client".to_string())),
        Some(&TV("1:7.9p1-10+deb10u2".to_string()))
    );
    assert!(sol.get(&APkg::Base("debconf-2.0".to_string())).is_some());
    assert!(sol.get(&APkg::Base("debconf".to_string())).is_none());
}

#[test]
fn test_resolution_deterministic() {
    let provider = Provider { ix: openssh_index() };
    let root = APkg::Base("openssh-server".to_string());
    let a = pubgrub::resolve(&provider, root.clone(), TV("1:7.9p1-10+deb10u2".to_string()))
        .expect("expected a solution");
    let b = pubgrub::resolve(&provider, root, TV("1:7.9p1-10+deb10u2".to_string()))
        .expect("expected a solution");
    let collect = |sol: &pubgrub::SelectedDependencies<APkg, TV>| {
        let mut v: Vec<(String, String)> = sol
            .iter()
            .filter_map(|(p, ver)| match p {
                APkg::Base(n) => Some((n.clone(), ver.0.clone())),
                _ => None,
            })
            .collect();
        v.sort();
        v
    };
    assert_eq!(collect(&a), collect(&b));
}

#[test]
fn test_no_solution_scenario() {
    let mut ix = Index::new();
    ix.add_deps("foo", DebianVersion("1.0".to_string()), vec![]);
    let provider = Provider { ix };
    let root = APkg::Root(vec![(
        APkg::Base("foo".to_string()),
        lib_range_to_pg(&VersionRange::higher_or_equal(DebianVersion("2.0".to_string()))),
    )]);
    match pubgrub::resolve(&provider, root, TV(String::new())) {
        Err(PubGrubError::NoSolution(mut tree)) => {
            tree.collapse_no_versions();
            let report = DefaultStringReporter::report(&tree);
            assert!(report.contains("foo"));
        },
        other => panic!("expected no solution, got {:?}", other.is_ok()),
    }
}

#[test]
fn test_alternative_encoding_picks_available_target() {
    // top depends on "a (>= 1) | b"; only a@0.5 and b@0.7 exist, so the
    // resolver must take the b alternative, never neither.
    let mut ix = Index::new();
    ix.add_deps(
        "top",
        DebianVersion("1".to_string()),
        vec![dep(vec![ge_alt("a", "1"), bare_alt("b")])],
    );
    ix.add_deps("a", DebianVersion("0.5".to_string()), vec![]);
    ix.add_deps("b", DebianVersion("0.7".to_string()), vec![]);
    let provider = Provider { ix };
    let sol = pubgrub::resolve(
        &provider,
        APkg::Base("top".to_string()),
        TV("1".to_string()),
    )
    .expect("expected a solution");
    assert_eq!(sol.get(&APkg::Base("b".to_string())), Some(&TV("0.7".to_string())));
    assert!(sol.get(&APkg::Base("a".to_string())).is_none());
}

#[test]
fn test_alternative_encoding_respects_range() {
    // With a@1.5 available the first alternative is usable, and the chosen
    // version must satisfy its own range.
    let mut ix = Index::new();
    ix.add_deps(
        "top",
        DebianVersion("1".to_string()),
        vec![dep(vec![ge_alt("a", "1"), bare_alt("b")])],
    );
    ix.add_deps("a", DebianVersion("1.5".to_string()), vec![]);
    ix.add_deps("b", DebianVersion("0.7".to_string()), vec![]);
    let provider = Provider { ix };
    let sol = pubgrub::resolve(
        &provider,
        APkg::Base("top".to_string()),
        TV("1".to_string()),
    )
    .expect("expected a solution");
    let picked = sol.get(&APkg::Base("a".to_string())).expect("a must be chosen");
    assert!(*picked >= TV("1".to_string()));
}

#[test]
fn test_create_index_registers_provides() {
    let content = "Package: openssh-server\nVersion: 1:7.9p1\nProvides: ssh-server\n";
    let pkgs = pubgrub_debian::parse::parse_debian_control(content).unwrap();
    let ix = pubgrub_debian::parse::create_index(&pkgs);
    let vs = ix.available_versions(&"ssh-server".to_string());
    assert_eq!(vs.len(), 1);
    // the provided name maps to the providing package as its version
    assert_eq!(vs[0].0, "openssh-server");
}
