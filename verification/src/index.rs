//! The catalog of known packages: for every base package name, its known
//! versions in ascending version order together with the dependencies each
//! version declares. Built once, then read-only during resolution.

use vstd::prelude::*;
use core::cmp::Ordering;
use crate::debian_version::{version_cmp, DebianVersion};
use crate::range::{IntervalModel, VersionRange};
use crate::version_order::{lemma_compare_antisymmetric, lemma_compare_transitive};

verus! {

pub type PackageName = String;

/// A version range that can also serve as a hash key, as dependency
/// constraints must.
#[derive(Debug)]
pub struct HashedRange(pub VersionRange);

impl View for HashedRange {
    type V = Seq<IntervalModel>;

    open spec fn view(&self) -> Seq<IntervalModel> {
        self.0@
    }
}

impl Clone for HashedRange {
    fn clone(&self) -> (r: Self)
        ensures
            r@ == self@,
    {
        HashedRange(self.0.clone())
    }
}

/// One disjunct of a dependency: a target package name and the range of
/// its versions that satisfy the disjunct.
#[derive(Debug)]
pub struct Alternative {
    pub name: PackageName,
    pub range: HashedRange,
}

pub struct AltModel {
    pub name: Seq<char>,
    pub range: Seq<IntervalModel>,
}

impl View for Alternative {
    type V = AltModel;

    open spec fn view(&self) -> AltModel {
        AltModel { name: self.name@, range: self.range@ }
    }
}

impl Clone for Alternative {
    fn clone(&self) -> (r: Self)
        ensures
            r@ == self@,
    {
        Alternative { name: self.name.clone(), range: self.range.clone() }
    }
}

pub open spec fn alts_view(v: Seq<Alternative>) -> Seq<AltModel> {
    v.map_values(|a: Alternative| a@)
}

/// A dependency: an ordered, non-empty list of alternatives
/// ("alt 0 OR alt 1 OR ..."); a single alternative is a mandatory edge.
#[derive(Debug)]
pub struct Dependency {
    pub alternatives: Vec<Alternative>,
}

impl View for Dependency {
    type V = Seq<AltModel>;

    open spec fn view(&self) -> Seq<AltModel> {
        alts_view(self.alternatives@)
    }
}

impl Clone for Dependency {
    fn clone(&self) -> (r: Self)
        ensures
            r@ == self@,
    {
        let mut alternatives: Vec<Alternative> = Vec::new();
        let mut k: usize = 0;
        while k < self.alternatives.len()
            invariant
                k <= self.alternatives@.len(),
                alternatives@.len() == k,
                forall|j: int| 0 <= j < k ==> alternatives@[j]@ == self.alternatives@[j]@,
            decreases self.alternatives.len() - k,
        {
            alternatives.push(self.alternatives[k].clone());
            k = k + 1;
        }
        let r = Dependency { alternatives };
        proof {
            assert(r@ =~= self@);
        }
        r
    }
}

pub open spec fn deps_view(v: Seq<Dependency>) -> Seq<Seq<AltModel>> {
    v.map_values(|d: Dependency| d@)
}

/// Clone a dependency list, preserving its model.
pub fn clone_dependencies(deps: &Vec<Dependency>) -> (r: Vec<Dependency>)
    ensures
        deps_view(r@) == deps_view(deps@),
{
    let mut out: Vec<Dependency> = Vec::new();
    let mut k: usize = 0;
    while k < deps.len()
        invariant
            k <= deps@.len(),
            out@.len() == k,
            forall|j: int| 0 <= j < k ==> out@[j]@ == deps@[j]@,
        decreases deps.len() - k,
    {
        out.push(deps[k].clone());
        k = k + 1;
    }
    proof {
        assert(deps_view(out@) =~= deps_view(deps@));
    }
    out
}

/// One known version of a package and the dependencies it declares.
#[derive(Debug)]
pub struct VersionEntry {
    pub version: DebianVersion,
    pub dependencies: Vec<Dependency>,
}

pub struct VersionEntryModel {
    pub version: Seq<char>,
    pub dependencies: Seq<Seq<AltModel>>,
}

impl View for VersionEntry {
    type V = VersionEntryModel;

    open spec fn view(&self) -> VersionEntryModel {
        VersionEntryModel { version: self.version@, dependencies: deps_view(self.dependencies@) }
    }
}

pub open spec fn vents_view(v: Seq<VersionEntry>) -> Seq<VersionEntryModel> {
    v.map_values(|e: VersionEntry| e@)
}

/// All knowledge the catalog has of one package name.
#[derive(Debug)]
pub struct PackageEntry {
    pub name: PackageName,
    pub versions: Vec<VersionEntry>,
}

pub struct PackageEntryModel {
    pub name: Seq<char>,
    pub versions: Seq<VersionEntryModel>,
}

impl View for PackageEntry {
    type V = PackageEntryModel;

    open spec fn view(&self) -> PackageEntryModel {
        PackageEntryModel { name: self.name@, versions: vents_view(self.versions@) }
    }
}

/// The read-only store of known package versions and their declared
/// dependencies. `debug` and `version_debug` are presentation toggles for
/// a host that traces resolution; they never change what is computed.
#[derive(Debug)]
pub struct Index {
    pub packages: Vec<PackageEntry>,
    pub debug: bool,
    pub version_debug: bool,
}

impl View for Index {
    type V = Seq<PackageEntryModel>;

    open spec fn view(&self) -> Seq<PackageEntryModel> {
        self.packages@.map_values(|e: PackageEntry| e@)
    }
}

/// Is `name` a known package?
pub open spec fn has_pkg(m: Seq<PackageEntryModel>, name: Seq<char>) -> bool {
    exists|i: int| 0 <= i < m.len() && m[i].name == name
}

/// The position of `name` in the catalog (meaningful under `has_pkg`).
pub open spec fn pkg_index(m: Seq<PackageEntryModel>, name: Seq<char>) -> int {
    choose|i: int| 0 <= i < m.len() && m[i].name == name
}

/// The entry of `name` (meaningful under `has_pkg`).
pub open spec fn entry_of(m: Seq<PackageEntryModel>, name: Seq<char>) -> PackageEntryModel {
    m[pkg_index(m, name)]
}

/// The stored versions of `name`, in ascending order; empty when unknown.
pub open spec fn versions_of(m: Seq<PackageEntryModel>, name: Seq<char>) -> Seq<Seq<char>> {
    if has_pkg(m, name) {
        entry_of(m, name).versions.map_values(|e: VersionEntryModel| e.version)
    } else {
        Seq::empty()
    }
}

pub open spec fn vs_view(v: Seq<DebianVersion>) -> Seq<Seq<char>> {
    v.map_values(|x: DebianVersion| x@)
}

/// No two entries share a package name.
pub open spec fn names_unique(m: Seq<PackageEntryModel>) -> bool {
    forall|i: int, j: int| 0 <= i < j < m.len() ==> m[i].name != m[j].name
}

/// Every entry's version list is strictly ascending under the version
/// order.
pub open spec fn versions_sorted(m: Seq<PackageEntryModel>) -> bool {
    forall|p: int, i: int, j: int|
        0 <= p < m.len() && 0 <= i < j < m[p].versions.len() ==> version_cmp(
            m[p].versions[i].version,
            m[p].versions[j].version,
        ) == Ordering::Less
}

impl Index {
    /// Package names are unique and each version list is strictly
    /// ascending under the version order (so versions are unique per name).
    pub open spec fn wf(&self) -> bool {
        names_unique(self@) && versions_sorted(self@)
    }

    /// Empty new index.
    pub fn new() -> (r: Self)
        ensures
            r@.len() == 0,
            r.wf(),
            !r.debug,
            !r.version_debug,
    {
        Index { packages: Vec::new(), debug: false, version_debug: false }
    }

    pub fn set_debug(&mut self, flag: bool)
        ensures
            final(self)@ == old(self)@,
            final(self).debug == flag,
            final(self).version_debug == old(self).version_debug,
    {
        self.debug = flag;
    }

    pub fn set_version_debug(&mut self, flag: bool)
        ensures
            final(self)@ == old(self)@,
            final(self).version_debug == flag,
            final(self).debug == old(self).debug,
    {
        self.version_debug = flag;
    }

    /// Position of the entry for `name`, scanning in order.
    pub(crate) fn find_entry(&self, name: &str) -> (r: Option<usize>)
        ensures
            match r {
                Some(p) => p < self@.len() && self@[p as int].name == name@,
                None => !has_pkg(self@, name@),
            },
    {
        let mut p: usize = 0;
        while p < self.packages.len()
            invariant
                p <= self.packages@.len(),
                forall|j: int| 0 <= j < p ==> self@[j].name != name@,
            decreases self.packages.len() - p,
        {
            if str_eq(self.packages[p].name.as_str(), name) {
                proof {
                    assert(self@[p as int].name == name@);
                }
                return Some(p);
            }
            p = p + 1;
        }
        proof {
            assert forall|i: int| 0 <= i < self@.len() implies self@[i].name != name@ by {}
        }
        None
    }

    /// List existing versions for a given package with newest versions first.
    pub fn available_versions(&self, package: &PackageName) -> (r: Vec<DebianVersion>)
        requires
            self.wf(),
        ensures
            vs_view(r@) == versions_of(self@, package@).reverse(),
    {
        match self.find_entry(package.as_str()) {
            None => {
                let r: Vec<DebianVersion> = Vec::new();
                proof {
                    assert(vs_view(r@) =~= versions_of(self@, package@).reverse());
                }
                r
            },
            Some(p) => {
                let ghost vs = versions_of(self@, package@);
                let entry = &self.packages[p];
                proof {
                    assert(has_pkg(self@, package@));
                    let q = pkg_index(self@, package@);
                    assert(0 <= q < self@.len() && self@[q].name == package@);
                    // names are unique, so the found index is the entry
                    assert(q == p);
                    assert(self@[p as int] == self.packages@[p as int]@);
                    assert(vs == entry@.versions.map_values(|e: VersionEntryModel| e.version));
                }
                let n = entry.versions.len();
                let mut r: Vec<DebianVersion> = Vec::new();
                let mut k: usize = 0;
                while k < n
                    invariant
                        k <= n,
                        n == entry.versions@.len(),
                        r@.len() == k,
                        forall|j: int|
                            0 <= j < k ==> r@[j]@ == entry.versions@[n - 1 - j]@.version,
                    decreases n - k,
                {
                    r.push(entry.versions[n - 1 - k].version.clone());
                    k = k + 1;
                }
                proof {
                    assert(vs_view(r@) =~= entry@.versions.map_values(
                        |e: VersionEntryModel| e.version,
                    ).reverse());
                }
                r
            },
        }
    }
}

impl Index {
    /// Register a package and its mandatory dependencies in the index.
    /// Against a stored version that compares equal, the new dependencies
    /// replace the stored ones and the stored version string is kept, as
    /// in a map ordered by the comparator; otherwise the version enters
    /// at its sorted place.
    #[verifier::rlimit(100)]
    pub fn add_deps(&mut self, name: &str, version: DebianVersion, dependencies: Vec<Dependency>)
        requires
            old(self).wf(),
        ensures
            final(self).wf(),
            final(self).debug == old(self).debug,
            final(self).version_debug == old(self).version_debug,
            ({
                let m0 = old(self)@;
                let m1 = final(self)@;
                let nv = VersionEntryModel {
                    version: version@,
                    dependencies: deps_view(dependencies@),
                };
                if !has_pkg(m0, name@) {
                    m1 == m0.push(PackageEntryModel { name: name@, versions: seq![nv] })
                } else {
                    let p = pkg_index(m0, name@);
                    let vs = m0[p].versions;
                    (exists|q: int|
                        0 <= q < vs.len() && version_cmp(vs[q].version, version@)
                            == Ordering::Equal && m1 == m0.update(
                            p,
                            PackageEntryModel {
                                name: m0[p].name,
                                versions: vs.update(
                                    q,
                                    VersionEntryModel {
                                        version: vs[q].version,
                                        dependencies: deps_view(dependencies@),
                                    },
                                ),
                            },
                        )) || (exists|q: int|
                        0 <= q <= vs.len() && (forall|j: int|
                            0 <= j < q ==> version_cmp(#[trigger] vs[j].version, version@)
                                == Ordering::Less) && (q == vs.len() || version_cmp(
                            vs[q].version,
                            version@,
                        ) == Ordering::Greater) && m1 == m0.update(
                            p,
                            PackageEntryModel {
                                name: m0[p].name,
                                versions: vs.take(q) + seq![nv] + vs.skip(q),
                            },
                        ))
                }
            }),
    {
        let ghost m0 = self@;
        let ghost gv = version@;
        let ghost gd = deps_view(dependencies@);
        let ghost nvm = VersionEntryModel { version: gv, dependencies: gd };
        let found = self.find_entry(name);
        let nv = VersionEntry { version, dependencies };
        proof {
            assert(nv@ == nvm);
        }
        match found {
            None => {
                let mut versions: Vec<VersionEntry> = Vec::new();
                versions.push(nv);
                let e = PackageEntry { name: String::from_str(name), versions };
                proof {
                    assert(e@ == (PackageEntryModel { name: name@, versions: seq![nvm] })) by {
                        assert(vents_view(e.versions@) =~= seq![nvm]);
                    }
                }
                self.packages.push(e);
                proof {
                    assert(self@ =~= m0.push(
                        PackageEntryModel { name: name@, versions: seq![nvm] },
                    ));
                    assert forall|i: int, j: int|
                        0 <= i < j < self@.len() implies self@[i].name != self@[j].name by {
                        if j == self@.len() - 1 {
                            assert(self@[i] == m0[i]);
                        }
                    }
                    assert forall|pp: int, i: int, j: int|
                        0 <= pp < self@.len() && 0 <= i < j
                            < self@[pp].versions.len() implies version_cmp(
                        self@[pp].versions[i].version,
                        self@[pp].versions[j].version,
                    ) == Ordering::Less by {
                        if pp < m0.len() {
                            assert(self@[pp] == m0[pp]);
                        } else {
                            assert(self@[pp].versions.len() == 1);
                        }
                    }
                }
            },
            Some(p) => {
                proof {
                    assert(has_pkg(m0, name@));
                    let q = pkg_index(m0, name@);
                    assert(0 <= q < m0.len() && m0[q].name == name@);
                    assert(q == p);
                }
                let mut entry = self.packages.remove(p);
                let ghost vs = vents_view(entry.versions@);
                proof {
                    assert(entry@ == m0[p as int]);
                    assert(vs == m0[p as int].versions);
                }
                let n = entry.versions.len();
                let mut q: usize = 0;
                while q < n && cmp_is_less(&entry.versions[q].version, &nv.version)
                    invariant
                        q <= n,
                        n == entry.versions@.len(),
                        vs == vents_view(entry.versions@),
                        nv.version@ == gv,
                        forall|j: int|
                            0 <= j < q ==> version_cmp(#[trigger] vs[j].version, gv)
                                == Ordering::Less,
                    decreases n - q,
                {
                    q = q + 1;
                }
                let replaced: bool;
                if q < n && cmp_is_equal(&entry.versions[q].version, &nv.version) {
                    let old_ve = entry.versions.remove(q);
                    let VersionEntry { version: _, dependencies: new_deps } = nv;
                    entry.versions.insert(
                        q,
                        VersionEntry { version: old_ve.version, dependencies: new_deps },
                    );
                    replaced = true;
                    proof {
                        assert(vents_view(entry.versions@) =~= vs.update(
                            q as int,
                            VersionEntryModel { version: vs[q as int].version, dependencies: gd },
                        ));
                    }
                } else {
                    entry.versions.insert(q, nv);
                    replaced = false;
                    proof {
                        assert(vents_view(entry.versions@) =~= vs.take(q as int) + seq![nvm]
                            + vs.skip(q as int));
                        if q < n {
                            lemma_compare_antisymmetric(vs[q as int].version, gv);
                        }
                    }
                }
                let ghost em = entry@;
                proof {
                    assert(em.name == m0[p as int].name);
                    // the rebuilt version list is still strictly ascending
                    assert forall|i: int, j: int|
                        0 <= i < j < em.versions.len() implies version_cmp(
                        em.versions[i].version,
                        em.versions[j].version,
                    ) == Ordering::Less by {
                        if replaced {
                            assert(em.versions[i].version == vs[i].version);
                            assert(em.versions[j].version == vs[j].version);
                        } else {
                            if j == q && i < q {
                            } else if i == q {
                                // everything at or past the insertion point is greater
                                let j0 = j - 1;
                                lemma_compare_antisymmetric(vs[q as int].version, gv);
                                if j0 > q {
                                    lemma_compare_transitive(
                                        gv,
                                        vs[q as int].version,
                                        vs[j0].version,
                                    );
                                }
                            }
                        }
                    }
                }
                self.packages.insert(p, entry);
                proof {
                    assert(self@ =~= m0.update(p as int, em));
                    assert forall|i: int, j: int|
                        0 <= i < j < self@.len() implies self@[i].name != self@[j].name by {
                        assert(m0[i].name != m0[j].name);
                    }
                    assert forall|pp: int, i: int, j: int|
                        0 <= pp < self@.len() && 0 <= i < j
                            < self@[pp].versions.len() implies version_cmp(
                        self@[pp].versions[i].version,
                        self@[pp].versions[j].version,
                    ) == Ordering::Less by {
                        if pp != p {
                            assert(self@[pp] == m0[pp]);
                        } else {
                            assert(self@[pp] == em);
                        }
                    }
                    if replaced {
                        let rvm = VersionEntryModel {
                            version: vs[q as int].version,
                            dependencies: gd,
                        };
                        let target = PackageEntryModel {
                            name: m0[p as int].name,
                            versions: vs.update(q as int, rvm),
                        };
                        assert(em.versions =~= vs.update(q as int, rvm));
                        assert(em == target);
                        assert(self@ == m0.update(p as int, target));
                        assert(version_cmp(vs[q as int].version, gv) == Ordering::Equal);
                    } else {
                        let target = PackageEntryModel {
                            name: m0[p as int].name,
                            versions: vs.take(q as int) + seq![nvm] + vs.skip(q as int),
                        };
                        assert(em.versions =~= vs.take(q as int) + seq![nvm] + vs.skip(q as int));
                        assert(em == target);
                        assert(self@ == m0.update(p as int, target));
                        assert(q as int == vs.len() || version_cmp(vs[q as int].version, gv)
                            == Ordering::Greater);
                    }
                }
            },
        }
    }
}

/// Is `a` strictly below `b` in the version order?
fn cmp_is_less(a: &DebianVersion, b: &DebianVersion) -> (r: bool)
    ensures
        r == (version_cmp(a@, b@) == Ordering::Less),
{
    matches!(a.compare(b), Ordering::Less)
}

/// Do `a` and `b` compare equal in the version order?
fn cmp_is_equal(a: &DebianVersion, b: &DebianVersion) -> (r: bool)
    ensures
        r == (version_cmp(a@, b@) == Ordering::Equal),
{
    matches!(a.compare(b), Ordering::Equal)
}

/// String equality by contents.
fn str_eq(a: &str, b: &str) -> (r: bool)
    ensures
        r == (a@ == b@),
{
    let x = String::from_str(a);
    let y = String::from_str(b);
    x == y
}

} // verus!
