//! The package universe the resolver searches: real base packages, one
//! synthetic root, and proxy packages that encode a disjunctive dependency
//! ("one of several alternatives") as an ordinary choice of one synthetic
//! version, whose sole dependency is the chosen alternative.

use vstd::prelude::*;
use vstd::string::StringExecFns;
use core::cmp::Ordering;
use crate::debian_version::{find_char, version_cmp, DebianVersion};
use crate::index::{
    has_pkg, pkg_index, versions_of, vs_view, AltModel, Dependency, Index, PackageEntryModel,
    VersionEntryModel,
};
use crate::range::{iv_contains, range_contains, IntervalModel, VersionRange};
use crate::version_order::{lemma_compare_antisymmetric, lemma_compare_transitive};

verus! {

broadcast use vstd::std_specs::vec::group_vec_axioms;

/// A package as the resolver sees it.
#[derive(Debug)]
pub enum Package {
    /// The synthetic root: an ordered list of top-level requirements.
    Root(Vec<(Package, VersionRange)>),
    /// A real package, named in the catalog.
    Base(String),
    /// A synthetic package standing for one disjunctive dependency.
    Proxy(Dependency),
}

pub enum PackageModel {
    Root(Seq<(PackageModel, Seq<IntervalModel>)>),
    Base(Seq<char>),
    Proxy(Seq<AltModel>),
}

/// The model of a package.
pub open spec fn pkg_view(p: Package) -> PackageModel
    decreases p,
{
    match p {
        Package::Root(deps) => PackageModel::Root(root_deps_view(deps@)),
        Package::Base(name) => PackageModel::Base(name@),
        Package::Proxy(dep) => PackageModel::Proxy(dep@),
    }
}

/// The models of a root's requirement list.
pub open spec fn root_deps_view(s: Seq<(Package, VersionRange)>) -> Seq<
    (PackageModel, Seq<IntervalModel>),
>
    decreases s,
{
    if s.len() == 0 {
        Seq::empty()
    } else {
        seq![(pkg_view(s[0].0), s[0].1@)] + root_deps_view(s.subrange(1, s.len() as int))
    }
}

impl View for Package {
    type V = PackageModel;

    open spec fn view(&self) -> PackageModel {
        pkg_view(*self)
    }
}

proof fn lemma_root_deps_view_index(s: Seq<(Package, VersionRange)>)
    ensures
        root_deps_view(s).len() == s.len(),
        forall|i: int|
            0 <= i < s.len() ==> #[trigger] root_deps_view(s)[i] == (pkg_view(s[i].0), s[i].1@),
    decreases s,
{
    if s.len() > 0 {
        let t = s.subrange(1, s.len() as int);
        lemma_root_deps_view_index(t);
        assert forall|i: int|
            0 <= i < s.len() implies #[trigger] root_deps_view(s)[i] == (
            pkg_view(s[i].0),
            s[i].1@,
        ) by {
            if i > 0 {
                assert(t[i - 1] == s[i]);
                assert(root_deps_view(s)[i] == root_deps_view(t)[i - 1]);
            }
        }
    }
}

impl Clone for Package {
    #[verifier::loop_isolation(false)]
    fn clone(&self) -> (r: Self)
        ensures
            r@ == self@,
        decreases *self,
    {
        match self {
            Package::Base(name) => Package::Base(name.clone()),
            Package::Proxy(dep) => Package::Proxy(dep.clone()),
            Package::Root(deps) => {
                let mut out: Vec<(Package, VersionRange)> = Vec::new();
                let mut k: usize = 0;
                while k < deps.len()
                    invariant
                        k <= deps@.len(),
                        out@.len() == k,
                        forall|j: int|
                            0 <= j < k ==> pkg_view(#[trigger] out@[j].0) == pkg_view(deps@[j].0)
                                && out@[j].1@ == deps@[j].1@,
                    decreases deps@.len() - k,
                {
                    let pr = &deps[k];
                    out.push((pr.0.clone(), pr.1.clone()));
                    k = k + 1;
                }
                let r = Package::Root(out);
                proof {
                    lemma_root_deps_view_index(out@);
                    lemma_root_deps_view_index(deps@);
                    assert(root_deps_view(out@) =~= root_deps_view(deps@));
                }
                r
            },
        }
    }
}

/// The versions the resolver may pick for a package: the root has one
/// synthetic empty version, a base package the catalog's versions newest
/// first, a proxy one synthetic version per alternative, in declared order.
pub open spec fn list_versions_model(m: Seq<PackageEntryModel>, p: PackageModel) -> Seq<
    Seq<char>,
> {
    match p {
        PackageModel::Root(_) => seq![Seq::<char>::empty()],
        PackageModel::Base(name) => versions_of(m, name).reverse(),
        PackageModel::Proxy(alts) => alts.map_values(|a: AltModel| a.name),
    }
}

/// A package/range constraint pair handed to the resolver.
pub open spec fn cs_view(s: Seq<(Package, VersionRange)>) -> Seq<
    (PackageModel, Seq<IntervalModel>),
> {
    s.map_values(|pr: (Package, VersionRange)| (pr.0@, pr.1@))
}

/// How one dependency is encoded as a single constraint: a lone
/// alternative becomes a direct edge to its target over its range; a list
/// of alternatives becomes a proxy package over the full range.
pub open spec fn constraint_matches(
    c: (PackageModel, Seq<IntervalModel>),
    d: Seq<AltModel>,
) -> bool {
    if d.len() == 1 {
        c.0 == PackageModel::Base(d[0].name) && c.1 == d[0].range
    } else {
        c.0 == PackageModel::Proxy(d) && (forall|w: Seq<char>| range_contains(c.1, w))
    }
}

pub open spec fn constraints_match(
    cs: Seq<(PackageModel, Seq<IntervalModel>)>,
    deps: Seq<Seq<AltModel>>,
) -> bool {
    cs.len() == deps.len() && (forall|i: int|
        0 <= i < deps.len() ==> constraint_matches(#[trigger] cs[i], deps[i]))
}

/// The constraints a chosen proxy version implies: one edge for each
/// alternative whose target name equals the synthetic version.
pub open spec fn matching_constraints(alts: Seq<AltModel>, ver: Seq<char>) -> Seq<
    (PackageModel, Seq<IntervalModel>),
>
    decreases alts.len(),
{
    if alts.len() == 0 {
        Seq::empty()
    } else {
        let head: Seq<(PackageModel, Seq<IntervalModel>)> = if alts[0].name == ver {
            seq![(PackageModel::Base(alts[0].name), alts[0].range)]
        } else {
            Seq::empty()
        };
        head + matching_constraints(alts.skip(1), ver)
    }
}

/// What the universe answers when asked for the dependencies of a chosen
/// package version.
#[derive(Debug)]
pub enum Dependencies {
    /// The constraints implied by the choice, in order.
    Available(Vec<(Package, VersionRange)>),
    /// The package or the version is not known to the catalog.
    Unavailable,
}

/// Translate a declared dependency list into per-package constraints.
pub fn from_dependencies(dependencies: &Vec<Dependency>) -> (r: Vec<(Package, VersionRange)>)
    ensures
        constraints_match(cs_view(r@), crate::index::deps_view(dependencies@)),
{
    let mut r: Vec<(Package, VersionRange)> = Vec::new();
    let mut k: usize = 0;
    while k < dependencies.len()
        invariant
            k <= dependencies@.len(),
            r@.len() == k,
            forall|i: int|
                0 <= i < k ==> constraint_matches(
                    #[trigger] cs_view(r@)[i],
                    dependencies@[i]@,
                ),
        decreases dependencies.len() - k,
    {
        let dep = &dependencies[k];
        let ghost prev = r@;
        if dep.alternatives.len() == 1 {
            let alt = &dep.alternatives[0];
            r.push((Package::Base(alt.name.clone()), alt.range.0.clone()));
            proof {
                assert(dep@[0] == dep.alternatives@[0]@);
                assert(dependencies@[k as int]@ == dep@);
                assert(r@[k as int].0@ == PackageModel::Base(dep@[0].name));
                assert(r@[k as int].1@ == dep@[0].range);
                assert(constraint_matches((r@[k as int].0@, r@[k as int].1@), dependencies@[k as int]@));
            }
        } else {
            r.push((Package::Proxy(dep.clone()), VersionRange::full()));
            proof {
                assert(dependencies@[k as int]@ == dep@);
                assert(r@[k as int].0@ == PackageModel::Proxy(dep@));
                assert forall|w: Seq<char>| range_contains(r@[k as int].1@, w) by {
                    assert(iv_contains(r@[k as int].1@[0], w));
                }
                assert(constraint_matches((r@[k as int].0@, r@[k as int].1@), dependencies@[k as int]@));
            }
        }
        proof {
            assert forall|i: int|
                0 <= i < k + 1 implies constraint_matches(
                #[trigger] cs_view(r@)[i],
                dependencies@[i]@,
            ) by {
                if i < k {
                    assert(r@[i] == prev[i]);
                    assert(cs_view(r@)[i] == cs_view(prev)[i]);
                } else {
                    assert(cs_view(r@)[i] == (r@[i].0@, r@[i].1@));
                }
            }
        }
        k = k + 1;
    }
    proof {
        assert(crate::index::deps_view(dependencies@).len() == dependencies@.len());
    }
    r
}

/// The single constraint implied by choosing one synthetic version of a
/// proxy package: the alternative whose target name equals the version.
pub fn from_proxy(dependency: &Dependency, version: &DebianVersion) -> (r: Vec<
    (Package, VersionRange),
>)
    ensures
        cs_view(r@) == matching_constraints(dependency@, version@),
{
    let alts = &dependency.alternatives;
    let mut r: Vec<(Package, VersionRange)> = Vec::new();
    let mut k: usize = 0;
    proof {
        assert(dependency@.skip(0) =~= dependency@);
    }
    while k < alts.len()
        invariant
            k <= alts@.len(),
            dependency@ == crate::index::alts_view(alts@),
            cs_view(r@) + matching_constraints(dependency@.skip(k as int), version@)
                =~= matching_constraints(dependency@, version@),
        decreases alts.len() - k,
    {
        let ghost tail = dependency@.skip(k as int);
        proof {
            assert(tail[0] == dependency@[k as int]);
            assert(tail.skip(1) =~= dependency@.skip(k as int + 1));
        }
        let alt = &alts[k];
        let ghost before = cs_view(r@);
        if alt.name == version.0 {
            r.push((Package::Base(alt.name.clone()), alt.range.0.clone()));
            proof {
                assert(cs_view(r@) =~= before + seq![
                    (PackageModel::Base(tail[0].name), tail[0].range),
                ]);
                assert(cs_view(r@) + matching_constraints(dependency@.skip(k as int + 1), version@)
                    =~= matching_constraints(dependency@, version@));
            }
        } else {
            proof {
                assert(tail[0].name != version@);
                assert(cs_view(r@) + matching_constraints(dependency@.skip(k as int + 1), version@)
                    =~= matching_constraints(dependency@, version@));
            }
        }
        k = k + 1;
    }
    proof {
        assert(dependency@.skip(dependency@.len() as int) =~= Seq::<AltModel>::empty());
        assert(cs_view(r@) =~= matching_constraints(dependency@, version@));
    }
    r
}

/// Position `i` holds the first version, in preference order, that the
/// range admits.
pub open spec fn first_admitted(lvs: Seq<Seq<char>>, rm: Seq<IntervalModel>, i: int) -> bool {
    0 <= i < lvs.len() && range_contains(rm, lvs[i]) && (forall|j: int|
        0 <= j < i ==> !range_contains(rm, #[trigger] lvs[j]))
}

impl Index {
    /// The versions the resolver may pick for `package`, in preference
    /// order: the catalog's versions newest first for a base package, the
    /// alternatives in declared order for a proxy, one synthetic empty
    /// version for the root.
    pub fn list_versions(&self, package: &Package) -> (r: Vec<DebianVersion>)
        requires
            self.wf(),
        ensures
            vs_view(r@) == list_versions_model(self@, package@),
    {
        match package {
            Package::Root(_) => {
                let mut r: Vec<DebianVersion> = Vec::new();
                r.push(DebianVersion(String::new()));
                proof {
                    assert(vs_view(r@) =~= seq![Seq::<char>::empty()]);
                }
                r
            },
            Package::Base(pkg) => self.available_versions(pkg),
            Package::Proxy(dep) => {
                let alts = &dep.alternatives;
                let mut r: Vec<DebianVersion> = Vec::new();
                let mut k: usize = 0;
                while k < alts.len()
                    invariant
                        k <= alts@.len(),
                        r@.len() == k,
                        forall|j: int| 0 <= j < k ==> r@[j]@ == alts@[j]@.name,
                    decreases alts.len() - k,
                {
                    r.push(DebianVersion(alts[k].name.clone()));
                    k = k + 1;
                }
                proof {
                    assert(vs_view(r@) =~= dep@.map_values(|a: AltModel| a.name));
                }
                r
            },
        }
    }

    /// The first version, in preference order, that the current range
    /// admits; `None` when the range admits none of them.
    pub fn choose_version(&self, package: &Package, range: &VersionRange) -> (r: Option<
        DebianVersion,
    >)
        requires
            self.wf(),
        ensures
            r matches Some(v) ==> exists|i: int|
                #[trigger] first_admitted(list_versions_model(self@, package@), range@, i)
                    && list_versions_model(self@, package@)[i] == v@,
            r matches None ==> forall|i: int|
                0 <= i < list_versions_model(self@, package@).len() ==> !range_contains(
                    range@,
                    #[trigger] list_versions_model(self@, package@)[i],
                ),
    {
        let versions = self.list_versions(package);
        let ghost lvs = list_versions_model(self@, package@);
        let mut k: usize = 0;
        while k < versions.len()
            invariant
                k <= versions@.len(),
                lvs == list_versions_model(self@, package@),
                lvs == vs_view(versions@),
                forall|j: int| 0 <= j < k ==> !range_contains(range@, #[trigger] lvs[j]),
            decreases versions.len() - k,
        {
            if range.contains(&versions[k]) {
                let v = versions[k].clone();
                proof {
                    assert(lvs[k as int] == versions@[k as int]@);
                    assert(lvs[k as int] == v@);
                    assert(exists|i: int|
                        #[trigger] first_admitted(list_versions_model(self@, package@), range@, i)
                            && list_versions_model(self@, package@)[i] == v@) by {
                        assert(first_admitted(list_versions_model(self@, package@), range@, k as int));
                        assert(list_versions_model(self@, package@)[k as int] == v@);
                    }
                }
                return Some(v);
            }
            proof {
                assert(lvs[k as int] == versions@[k as int]@);
            }
            k = k + 1;
        }
        None
    }

    /// The dependencies that choosing `version` of `package` implies.
    pub fn get_dependencies(&self, package: &Package, version: &DebianVersion) -> (r:
        Dependencies)
        requires
            self.wf(),
        ensures
            (package@ matches PackageModel::Root(rdeps) ==> r matches Dependencies::Available(cs)
                && cs_view(cs@) == rdeps),
            (package@ matches PackageModel::Proxy(alts) ==> r matches Dependencies::Available(cs)
                && cs_view(cs@) == matching_constraints(alts, version@)),
            (package@ matches PackageModel::Base(name) ==> {
                let m = self@;
                if has_pkg(m, name) && has_version(m[pkg_index(m, name)].versions, version@) {
                    r matches Dependencies::Available(cs) && constraints_match(
                        cs_view(cs@),
                        m[pkg_index(m, name)].versions[version_slot(
                            m[pkg_index(m, name)].versions,
                            version@,
                        )].dependencies,
                    )
                } else {
                    r matches Dependencies::Unavailable
                }
            }),
    {
        match package {
            Package::Root(deps) => {
                let mut out: Vec<(Package, VersionRange)> = Vec::new();
                let mut k: usize = 0;
                while k < deps.len()
                    invariant
                        k <= deps@.len(),
                        out@.len() == k,
                        forall|j: int|
                            0 <= j < k ==> pkg_view(#[trigger] out@[j].0) == pkg_view(deps@[j].0)
                                && out@[j].1@ == deps@[j].1@,
                    decreases deps.len() - k,
                {
                    let pr = &deps[k];
                    out.push((pr.0.clone(), pr.1.clone()));
                    k = k + 1;
                }
                proof {
                    lemma_root_deps_view_index(deps@);
                    assert(cs_view(out@) =~= root_deps_view(deps@));
                }
                Dependencies::Available(out)
            },
            Package::Proxy(dep) => Dependencies::Available(from_proxy(dep, version)),
            Package::Base(pkg) => {
                match self.find_entry(pkg.as_str()) {
                    None => Dependencies::Unavailable,
                    Some(p) => {
                        proof {
                            assert(has_pkg(self@, pkg@));
                            let q = pkg_index(self@, pkg@);
                            assert(0 <= q < self@.len() && self@[q].name == pkg@);
                            assert(q == p);
                        }
                        let entry = &self.packages[p];
                        let ghost vs = self@[p as int].versions;
                        proof {
                            assert(entry@ == self@[p as int]);
                        }
                        let n = entry.versions.len();
                        let mut q: usize = 0;
                        while q < n && !cmp_eq(&entry.versions[q].version, version)
                            invariant
                                q <= n,
                                n == entry.versions@.len(),
                                vs == crate::index::vents_view(entry.versions@),
                                forall|j: int|
                                    0 <= j < q ==> version_cmp(
                                        #[trigger] vs[j].version,
                                        version@,
                                    ) != Ordering::Equal,
                            decreases n - q,
                        {
                            q = q + 1;
                        }
                        if q == n {
                            proof {
                                assert(!has_version(vs, version@));
                            }
                            Dependencies::Unavailable
                        } else {
                            proof {
                                assert(version_cmp(vs[q as int].version, version@)
                                    == Ordering::Equal);
                                assert(has_version(vs, version@));
                                lemma_version_slot_unique(vs, version@, q as int, self, p as int);
                            }
                            Dependencies::Available(
                                from_dependencies(&entry.versions[q].dependencies),
                            )
                        }
                    },
                }
            },
        }
    }
}

/// Does the stored version list hold a version comparing equal to `v`?
pub open spec fn has_version(vs: Seq<VersionEntryModel>, v: Seq<char>) -> bool {
    exists|q: int| 0 <= q < vs.len() && version_cmp(vs[q].version, v) == Ordering::Equal
}

/// The position of the stored version comparing equal to `v`.
pub open spec fn version_slot(vs: Seq<VersionEntryModel>, v: Seq<char>) -> int {
    choose|q: int| 0 <= q < vs.len() && version_cmp(vs[q].version, v) == Ordering::Equal
}

proof fn lemma_version_slot_unique(
    vs: Seq<VersionEntryModel>,
    v: Seq<char>,
    q: int,
    ix: &Index,
    p: int,
)
    requires
        ix.wf(),
        0 <= p < ix@.len(),
        vs == ix@[p].versions,
        0 <= q < vs.len(),
        version_cmp(vs[q].version, v) == Ordering::Equal,
    ensures
        version_slot(vs, v) == q,
{
    let q2 = version_slot(vs, v);
    assert(0 <= q2 < vs.len() && version_cmp(vs[q2].version, v) == Ordering::Equal);
    if q2 != q {
        lemma_compare_antisymmetric(vs[q2].version, v);
        lemma_compare_antisymmetric(vs[q].version, v);
        lemma_compare_transitive(vs[q].version, v, vs[q2].version);
        lemma_compare_transitive(vs[q2].version, v, vs[q].version);
        if q < q2 {
            assert(version_cmp(ix@[p].versions[q].version, ix@[p].versions[q2].version)
                == Ordering::Less);
            assert(version_cmp(vs[q].version, vs[q2].version) == Ordering::Equal);
        } else {
            assert(version_cmp(ix@[p].versions[q2].version, ix@[p].versions[q].version)
                == Ordering::Less);
            assert(version_cmp(vs[q2].version, vs[q].version) == Ordering::Equal);
        }
        assert(false);
    }
}

fn cmp_eq(a: &DebianVersion, b: &DebianVersion) -> (r: bool)
    ensures
        r == (version_cmp(a@, b@) == Ordering::Equal),
{
    matches!(a.compare(b), Ordering::Equal)
}

impl Package {
    /// Read a package from a plain name; a name holding `/` is refused
    /// with a message naming it.
    pub fn from_str(pkg: &str) -> (r: Result<Self, String>)
        ensures
            match r {
                Ok(p) => find_char(pkg@, '/') == -1 && p@ == PackageModel::Base(pkg@),
                Err(m) => find_char(pkg@, '/') != -1 && m@ == pkg@
                    + " is not a valid package name"@,
            },
    {
        if crate::debian_version::find_slash(pkg) {
            let mut m = String::from_str(pkg);
            m.append(" is not a valid package name");
            Err(m)
        } else {
            Ok(Package::Base(String::from_str(pkg)))
        }
    }
}

/// Every constraint a proxy decision emits names an alternative of the
/// dependency whose target equals the chosen synthetic version, and
/// carries exactly that alternative's range: a proxy choice can only
/// stand for one of the declared alternatives.
pub proof fn lemma_proxy_encoding_sound(
    alts: Seq<AltModel>,
    ver: Seq<char>,
    c: (PackageModel, Seq<IntervalModel>),
)
    requires
        matching_constraints(alts, ver).contains(c),
    ensures
        exists|i: int|
            0 <= i < alts.len() && alts[i].name == ver && c == (
                PackageModel::Base(alts[i].name),
                alts[i].range,
            ),
    decreases alts.len(),
{
    if alts.len() > 0 {
        let rest = matching_constraints(alts.skip(1), ver);
        if alts[0].name == ver && c == (PackageModel::Base(alts[0].name), alts[0].range) {
            assert(alts[0].name == ver);
        } else {
            assert(rest.contains(c));
            lemma_proxy_encoding_sound(alts.skip(1), ver, c);
            let i = choose|i: int|
                0 <= i < alts.skip(1).len() && alts.skip(1)[i].name == ver && c == (
                    PackageModel::Base(alts.skip(1)[i].name),
                    alts.skip(1)[i].range,
                );
            assert(alts[i + 1] == alts.skip(1)[i]);
        }
    }
}

/// Conversely, when the chosen synthetic version is the target name of
/// some alternative, the proxy decision emits at least one constraint:
/// a proxy can never be satisfied by choosing none of its alternatives.
pub proof fn lemma_proxy_version_covered(alts: Seq<AltModel>, ver: Seq<char>)
    requires
        exists|i: int| 0 <= i < alts.len() && alts[i].name == ver,
    ensures
        matching_constraints(alts, ver).len() >= 1,
    decreases alts.len(),
{
    if alts.len() > 0 {
        if alts[0].name == ver {
        } else {
            let i = choose|i: int| 0 <= i < alts.len() && alts[i].name == ver;
            assert(alts.skip(1)[i - 1] == alts[i]);
            lemma_proxy_version_covered(alts.skip(1), ver);
        }
    }
}

} // verus!
