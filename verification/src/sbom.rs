//! Assembly of the software-bill-of-materials precursor records for one
//! unit: its packages, profiles, targets and toolchain description, with
//! the transitive dependency walk over the unit graph.
//!
//! The planning stage hands units over with stable numeric ids; writing
//! the assembled record out is the embedding program's job.

use vstd::prelude::*;
use vstd::set_lib::lemma_len_subset;
use crate::target_info::flag_views;

verus! {

/// Typed version of the record format version number.
pub struct SbomFormatVersion<const V: u32>;

impl<const V: u32> SbomFormatVersion<V> {
    /// The version this type encodes.
    pub fn value(&self) -> (r: u32)
        ensures
            r == V,
    {
        V
    }
}

/// Why a package appears in the record.
#[derive(Clone, Copy, PartialEq, Eq, Debug, Structural)]
pub enum SbomBuildType {
    /// A package dependency.
    Normal,
    /// A build script dependency.
    Build,
}

/// A package identity: name, version and source.
pub struct PackageIdSpec {
    pub name: String,
    pub version: Option<String>,
    pub source: String,
}

/// The profile fields the record reports.
pub struct Profile {
    pub name: String,
    pub opt_level: String,
    pub lto: String,
    pub codegen_backend: Option<String>,
    pub codegen_units: Option<u32>,
    pub debuginfo: String,
    pub split_debuginfo: Option<String>,
    pub debug_assertions: bool,
    pub overflow_checks: bool,
    pub rpath: bool,
    pub incremental: bool,
    pub panic: String,
    pub rustflags: Vec<String>,
}

/// One dependency edge of the unit graph, as the planner describes it:
/// a stable id, the package behind it, its features, its profile, its
/// extern crate name, and whether it runs a build script.
pub struct UnitDep {
    pub id: u64,
    pub package_id: PackageIdSpec,
    pub features: Vec<String>,
    pub profile: Profile,
    pub extern_crate_name: String,
    pub is_run_custom_build: bool,
}

/// A package dependency entry of the record.
pub struct SbomDependency {
    pub name: String,
    pub package_id: PackageIdSpec,
    pub version: Option<String>,
    pub features: Vec<String>,
}

impl SbomDependency {
    /// Builds the entry from a unit dependency: the identity carries the
    /// name and version, the features come along unchanged.
    pub fn from_unit_dep(dep: &UnitDep) -> (r: SbomDependency)
        ensures
            r.name@ == dep.package_id.name@,
            r.package_id.name@ == dep.package_id.name@,
            r.package_id.source@ == dep.package_id.source@,
            opt_view(r.package_id.version) == opt_view(dep.package_id.version),
            opt_view(r.version) == opt_view(dep.package_id.version),
            flag_views(r.features@) == flag_views(dep.features@),
    {
        SbomDependency {
            name: dep.package_id.name.clone(),
            package_id: clone_package_id(&dep.package_id),
            version: clone_opt_string(&dep.package_id.version),
            features: clone_strings(&dep.features),
        }
    }
}

/// The view of an optional string.
pub open spec fn opt_view(o: Option<String>) -> Option<Seq<char>> {
    match o {
        Some(s) => Some(s@),
        None => None,
    }
}

fn clone_opt_string(o: &Option<String>) -> (r: Option<String>)
    ensures
        opt_view(r) == opt_view(*o),
{
    match o {
        Some(s) => Some(s.clone()),
        None => None,
    }
}

#[verifier::loop_isolation(false)]
fn clone_strings(v: &Vec<String>) -> (r: Vec<String>)
    ensures
        flag_views(r@) == flag_views(v@),
{
    let mut out: Vec<String> = Vec::new();
    let mut i: usize = 0;
    while i < v.len()
        invariant
            i <= v@.len(),
            flag_views(out@) =~= flag_views(v@).take(i as int),
        decreases v@.len() - i,
    {
        let ghost pre = out@;
        out.push(v[i].clone());
        proof {
            assert forall|j: int|
                0 <= j < i + 1 implies #[trigger] flag_views(out@)[j] == flag_views(v@).take(
                i + 1int,
            )[j] by {
                if j < i {
                    assert(out@[j] == pre[j]);
                }
            }
            assert(flag_views(out@) =~= flag_views(v@).take(i + 1int));
        }
        i = i + 1;
    }
    proof {
        assert(flag_views(v@).take(v@.len() as int) == flag_views(v@));
    }
    out
}

fn clone_package_id(p: &PackageIdSpec) -> (r: PackageIdSpec)
    ensures
        r.name@ == p.name@,
        r.source@ == p.source@,
        opt_view(r.version) == opt_view(p.version),
{
    PackageIdSpec {
        name: p.name.clone(),
        version: clone_opt_string(&p.version),
        source: p.source.clone(),
    }
}

/// The profile entry of the record.
pub struct SbomProfile {
    pub name: String,
    pub opt_level: String,
    pub lto: String,
    pub codegen_backend: Option<String>,
    pub codegen_units: Option<u32>,
    pub debuginfo: String,
    pub split_debuginfo: Option<String>,
    pub debug_assertions: bool,
    pub overflow_checks: bool,
    pub rpath: bool,
    pub incremental: bool,
    pub panic: String,
    pub rustflags: Vec<String>,
}

impl SbomProfile {
    /// Copies every reported field of a profile into the record shape.
    pub fn from_profile(p: &Profile) -> (r: SbomProfile)
        ensures
            r.name@ == p.name@,
            r.opt_level@ == p.opt_level@,
            r.lto@ == p.lto@,
            opt_view(r.codegen_backend) == opt_view(p.codegen_backend),
            r.codegen_units == p.codegen_units,
            r.debuginfo@ == p.debuginfo@,
            opt_view(r.split_debuginfo) == opt_view(p.split_debuginfo),
            r.debug_assertions == p.debug_assertions,
            r.overflow_checks == p.overflow_checks,
            r.rpath == p.rpath,
            r.incremental == p.incremental,
            r.panic@ == p.panic@,
            flag_views(r.rustflags@) == flag_views(p.rustflags@),
    {
        SbomProfile {
            name: p.name.clone(),
            opt_level: p.opt_level.clone(),
            lto: p.lto.clone(),
            codegen_backend: clone_opt_string(&p.codegen_backend),
            codegen_units: p.codegen_units,
            debuginfo: p.debuginfo.clone(),
            split_debuginfo: clone_opt_string(&p.split_debuginfo),
            debug_assertions: p.debug_assertions,
            overflow_checks: p.overflow_checks,
            rpath: p.rpath,
            incremental: p.incremental,
            panic: p.panic.clone(),
            rustflags: clone_strings(&p.rustflags),
        }
    }
}

/// Whether two profiles report the same values.
pub open spec fn profile_eq(a: Profile, b: Profile) -> bool {
    &&& a.name@ == b.name@
    &&& a.opt_level@ == b.opt_level@
    &&& a.lto@ == b.lto@
    &&& opt_view(a.codegen_backend) == opt_view(b.codegen_backend)
    &&& a.codegen_units == b.codegen_units
    &&& a.debuginfo@ == b.debuginfo@
    &&& opt_view(a.split_debuginfo) == opt_view(b.split_debuginfo)
    &&& a.debug_assertions == b.debug_assertions
    &&& a.overflow_checks == b.overflow_checks
    &&& a.rpath == b.rpath
    &&& a.incremental == b.incremental
    &&& a.panic@ == b.panic@
    &&& flag_views(a.rustflags@) == flag_views(b.rustflags@)
}

fn profiles_equal(a: &Profile, b: &Profile) -> (r: bool)
    ensures
        r == profile_eq(*a, *b),
{
    let mut ok = crate::strutil::str_eq(a.name.as_str(), b.name.as_str());
    ok = ok && crate::strutil::str_eq(a.opt_level.as_str(), b.opt_level.as_str());
    ok = ok && crate::strutil::str_eq(a.lto.as_str(), b.lto.as_str());
    ok = ok && opt_strings_equal(&a.codegen_backend, &b.codegen_backend);
    ok = ok && a.codegen_units == b.codegen_units;
    ok = ok && crate::strutil::str_eq(a.debuginfo.as_str(), b.debuginfo.as_str());
    ok = ok && opt_strings_equal(&a.split_debuginfo, &b.split_debuginfo);
    ok = ok && a.debug_assertions == b.debug_assertions;
    ok = ok && a.overflow_checks == b.overflow_checks;
    ok = ok && a.rpath == b.rpath;
    ok = ok && a.incremental == b.incremental;
    ok = ok && crate::strutil::str_eq(a.panic.as_str(), b.panic.as_str());
    ok = ok && string_lists_equal(&a.rustflags, &b.rustflags);
    ok
}

fn opt_strings_equal(a: &Option<String>, b: &Option<String>) -> (r: bool)
    ensures
        r == (opt_view(*a) == opt_view(*b)),
{
    match (a, b) {
        (Some(x), Some(y)) => {
            let eq = crate::strutil::str_eq(x.as_str(), y.as_str());
            proof {
                if eq {
                    assert(opt_view(*a) == opt_view(*b));
                } else {
                    assert(opt_view(*a) != opt_view(*b));
                }
            }
            eq
        },
        (None, None) => true,
        _ => false,
    }
}

#[verifier::loop_isolation(false)]
fn string_lists_equal(a: &Vec<String>, b: &Vec<String>) -> (r: bool)
    ensures
        r == (flag_views(a@) == flag_views(b@)),
{
    if a.len() != b.len() {
        proof {
            assert(flag_views(a@).len() != flag_views(b@).len());
        }
        return false;
    }
    let mut i: usize = 0;
    while i < a.len()
        invariant
            i <= a@.len(),
            a@.len() == b@.len(),
            forall|j: int| 0 <= j < i ==> #[trigger] flag_views(a@)[j] == flag_views(b@)[j],
        decreases a@.len() - i,
    {
        if !crate::strutil::str_eq(a[i].as_str(), b[i].as_str()) {
            proof {
                assert(flag_views(a@)[i as int] != flag_views(b@)[i as int]);
            }
            return false;
        }
        proof {
            assert(flag_views(a@)[i as int] == flag_views(b@)[i as int]);
        }
        i = i + 1;
    }
    proof {
        assert(flag_views(a@) =~= flag_views(b@));
    }
    true
}

/// One package of the record.
pub struct SbomPackage {
    pub package_id: PackageIdSpec,
    pub package: String,
    /// Given only when the package's profile differs from the root one.
    pub profile: Option<SbomProfile>,
    pub version: Option<String>,
    pub features: Vec<String>,
    pub build_type: SbomBuildType,
    pub extern_crate_name: String,
    pub dependencies: Vec<SbomDependency>,
}

impl SbomPackage {
    /// Builds one package entry: the identity carries name and version;
    /// the package's own profile is reported only when it differs from
    /// the root profile.
    pub fn new(
        dep: &UnitDep,
        dependencies: Vec<SbomDependency>,
        build_type: SbomBuildType,
        root_profile: &Profile,
    ) -> (r: SbomPackage)
        ensures
            r.package_id.name@ == dep.package_id.name@,
            r.package@ == dep.package_id.name@,
            opt_view(r.version) == opt_view(dep.package_id.version),
            flag_views(r.features@) == flag_views(dep.features@),
            r.build_type == build_type,
            r.extern_crate_name@ == dep.extern_crate_name@,
            r.dependencies == dependencies,
            profile_eq(dep.profile, *root_profile) <==> r.profile is None,
    {
        let profile: Option<SbomProfile> = if !profiles_equal(&dep.profile, root_profile) {
            Some(SbomProfile::from_profile(&dep.profile))
        } else {
            None
        };
        SbomPackage {
            package_id: clone_package_id(&dep.package_id),
            package: dep.package_id.name.clone(),
            profile,
            version: clone_opt_string(&dep.package_id.version),
            features: clone_strings(&dep.features),
            build_type,
            extern_crate_name: dep.extern_crate_name.clone(),
            dependencies,
        }
    }
}

} // verus!

verus! {

/// The target entry of the record.
pub struct SbomTarget {
    pub kind: String,
    pub crate_types: Vec<String>,
    pub name: String,
    pub edition: String,
}

/// The toolchain entry of the record.
pub struct SbomRustc {
    pub version: String,
    pub wrapper: Option<String>,
    pub workspace_wrapper: Option<String>,
    pub commit_hash: Option<String>,
    pub host: String,
    pub verbose_version: String,
}

/// What the root unit itself contributes to the record.
pub struct SbomUnit {
    pub package_id: PackageIdSpec,
    pub name: String,
    pub version: String,
    pub source: String,
    pub target: SbomTarget,
    pub profile: Profile,
    pub features: Vec<String>,
}

/// The whole record for one produced artifact.
pub struct Sbom {
    pub format_version: SbomFormatVersion<1>,
    pub package_id: PackageIdSpec,
    pub name: String,
    pub version: String,
    pub source: String,
    pub target: SbomTarget,
    pub profile: SbomProfile,
    pub packages: Vec<SbomPackage>,
    pub features: Vec<String>,
    pub rustc: SbomRustc,
}

impl Sbom {
    /// Assembles the record for one unit from its own description, the
    /// collected packages and the toolchain description.
    pub fn new(unit: SbomUnit, packages: Vec<SbomPackage>, rustc: SbomRustc) -> (r: Sbom)
        ensures
            r.package_id.name@ == unit.package_id.name@,
            opt_view(r.package_id.version) == opt_view(unit.package_id.version),
            r.name@ == unit.name@,
            r.version@ == unit.version@,
            r.source@ == unit.source@,
            r.target == unit.target,
            r.profile.name@ == unit.profile.name@,
            r.profile.opt_level@ == unit.profile.opt_level@,
            r.packages == packages,
            flag_views(r.features@) == flag_views(unit.features@),
            r.rustc == rustc,
    {
        let profile = SbomProfile::from_profile(&unit.profile);
        let features = clone_strings(&unit.features);
        Sbom {
            format_version: SbomFormatVersion,
            package_id: unit.package_id,
            name: unit.name,
            version: unit.version,
            source: unit.source,
            target: unit.target,
            profile,
            packages,
            features,
            rustc,
        }
    }
}

/// The node ids of a unit graph.
pub open spec fn graph_ids(graph: Seq<(UnitDep, Vec<u64>)>) -> Seq<u64> {
    graph.map_values(|e: (UnitDep, Vec<u64>)| e.0.id)
}

/// The graph entry of a node id, scanning newest first.
pub open spec fn graph_lookup(graph: Seq<(UnitDep, Vec<u64>)>, id: u64) -> Option<
    (UnitDep, Vec<u64>),
>
    decreases graph.len(),
{
    if graph.len() == 0 {
        None
    } else if graph.last().0.id == id {
        Some(graph.last())
    } else {
        graph_lookup(graph.drop_last(), id)
    }
}

/// There is a dependency edge from `a`'s unit to `b`.
pub open spec fn dep_edge(graph: Seq<(UnitDep, Vec<u64>)>, a: u64, b: u64) -> bool {
    match graph_lookup(graph, a) {
        Some(e) => e.1@.contains(b),
        None => false,
    }
}

/// A walk from some root along dependency edges.
pub open spec fn is_walk(roots: Seq<u64>, graph: Seq<(UnitDep, Vec<u64>)>, p: Seq<u64>) -> bool {
    &&& p.len() > 0
    &&& roots.contains(p[0])
    &&& (forall|i: int| 0 <= i < p.len() - 1 ==> dep_edge(graph, #[trigger] p[i], p[i + 1]))
}

/// A node is reachable from the roots along dependency edges.
pub open spec fn reaches(roots: Seq<u64>, graph: Seq<(UnitDep, Vec<u64>)>, id: u64) -> bool {
    exists|p: Seq<u64>| #[trigger] is_walk(roots, graph, p) && p.last() == id
}

/// A root is reachable by the one-step walk that starts and ends at it.
proof fn lemma_reach_root(roots: Seq<u64>, graph: Seq<(UnitDep, Vec<u64>)>, r: u64)
    requires
        roots.contains(r),
    ensures
        reaches(roots, graph, r),
{
    let p = seq![r];
    assert(is_walk(roots, graph, p));
    assert(p.last() == r);
}

/// Reaching a node also reaches everything it points at.
proof fn lemma_reach_step(roots: Seq<u64>, graph: Seq<(UnitDep, Vec<u64>)>, a: u64, b: u64)
    requires
        reaches(roots, graph, a),
        dep_edge(graph, a, b),
    ensures
        reaches(roots, graph, b),
{
    let p = choose|p: Seq<u64>| #[trigger] is_walk(roots, graph, p) && p.last() == a;
    let q = p.push(b);
    assert(is_walk(roots, graph, q)) by {
        assert(q[0] == p[0]);
        assert forall|i: int| 0 <= i < q.len() - 1 implies dep_edge(
            graph,
            #[trigger] q[i],
            q[i + 1],
        ) by {
            if i < p.len() - 1 {
                assert(q[i] == p[i] && q[i + 1] == p[i + 1]);
            } else {
                assert(q[i] == p.last() && q[i + 1] == b);
            }
        }
    }
    assert(q.last() == b);
}

/// One dependency entry reports exactly its unit's identity.
pub open spec fn dep_matches(sd: SbomDependency, u: UnitDep) -> bool {
    &&& sd.name@ == u.package_id.name@
    &&& opt_view(sd.version) == opt_view(u.package_id.version)
    &&& flag_views(sd.features@) == flag_views(u.features@)
}

/// One collected package reports exactly its unit's identity, build type,
/// profile presence and dependency entries.
pub open spec fn package_matches(
    p: SbomPackage,
    e: (UnitDep, Vec<u64>),
    graph: Seq<(UnitDep, Vec<u64>)>,
    root_profile: Profile,
) -> bool {
    &&& p.package@ == e.0.package_id.name@
    &&& p.package_id.name@ == e.0.package_id.name@
    &&& opt_view(p.version) == opt_view(e.0.package_id.version)
    &&& flag_views(p.features@) == flag_views(e.0.features@)
    &&& p.build_type == (if e.0.is_run_custom_build {
        SbomBuildType::Build
    } else {
        SbomBuildType::Normal
    })
    &&& p.extern_crate_name@ == e.0.extern_crate_name@
    &&& (profile_eq(e.0.profile, root_profile) <==> p.profile is None)
    &&& p.dependencies@.len() == e.1@.len()
    &&& (forall|j: int|
        0 <= j < e.1@.len() ==> (graph_lookup(graph, #[trigger] e.1@[j]) matches Some(d)
            && dep_matches(p.dependencies@[j], d.0)))
}

/// Finds a node's graph entry.
#[verifier::loop_isolation(false)]
fn graph_find<'a>(graph: &'a Vec<(UnitDep, Vec<u64>)>, id: u64) -> (r: Option<
    &'a (UnitDep, Vec<u64>),
>)
    ensures
        match r {
            Some(e) => graph_lookup(graph@, id) == Some(*e) && e.0.id == id,
            None => graph_lookup(graph@, id) is None,
        },
{
    let mut i: usize = graph.len();
    proof {
        assert(graph@.take(graph@.len() as int) == graph@);
    }
    while i > 0
        invariant
            i <= graph@.len(),
            graph_lookup(graph@, id) == graph_lookup(graph@.take(i as int), id),
        decreases i,
    {
        proof {
            assert(graph@.take(i as int).last() == graph@[i - 1]);
            assert(graph@.take(i as int).drop_last() == graph@.take(i - 1int));
        }
        if graph[i - 1].0.id == id {
            return Some(&graph[i - 1]);
        }
        i = i - 1;
    }
    None
}

/// Membership in a sequence survives removing a different element, and
/// every member of the shorter sequence was a member before.
proof fn lemma_remove_membership(s: Seq<u64>, m: int)
    requires
        0 <= m < s.len(),
    ensures
        forall|x: u64| s.remove(m).contains(x) ==> s.contains(x),
        forall|x: u64| x != s[m] && s.contains(x) ==> s.remove(m).contains(x),
{
    s.remove_ensures(m);
    assert forall|x: u64| s.remove(m).contains(x) implies s.contains(x) by {
        let w = choose|w: int| 0 <= w < s.remove(m).len() && s.remove(m)[w] == x;
        if w < m {
            assert(s[w] == x);
        } else {
            assert(s[w + 1] == x);
        }
    }
    assert forall|x: u64| x != s[m] && s.contains(x) implies s.remove(m).contains(x) by {
        let w = choose|w: int| 0 <= w < s.len() && s[w] == x;
        if w < m {
            assert(s.remove(m)[w] == x);
        } else {
            assert(s.remove(m)[w - 1] == x);
        }
    }
}

/// Whether an id is in the list.
fn contains_id(v: &Vec<u64>, x: u64) -> (r: bool)
    ensures
        r == v@.contains(x),
{
    let mut i: usize = 0;
    while i < v.len()
        invariant
            i <= v@.len(),
            forall|j: int| 0 <= j < i ==> v@[j] != x,
        decreases v@.len() - i,
    {
        if v[i] == x {
            return true;
        }
        i = i + 1;
    }
    false
}

/// Fetches all dependencies of the roots, including transitive ones: one
/// package entry per unit reached, walking smaller unit ids first as the
/// ordered queue of the planner does. The graph must be closed (every id
/// named by a root or an edge has an entry) and name each unit once.
#[verifier::loop_isolation(false)]
#[verifier::rlimit(100)]
pub fn collect_packages(
    root_deps: &Vec<u64>,
    graph: &Vec<(UnitDep, Vec<u64>)>,
    root_profile: &Profile,
) -> (result: Vec<SbomPackage>)
    requires
        graph_ids(graph@).no_duplicates(),
        forall|j: int| 0 <= j < root_deps@.len() ==> graph_lookup(graph@, #[trigger] root_deps@[j]) is Some,
        forall|g: int, j: int|
            0 <= g < graph@.len() && 0 <= j < graph@[g].1@.len() ==> graph_lookup(
                graph@,
                #[trigger] graph@[g].1@[j],
            ) is Some,
    ensures
        exists|ids: Seq<u64>|
            {
                &&& ids.no_duplicates()
                &&& ids.len() == result@.len()
                // each entry is built from its unit, exactly
                &&& (forall|i: int|
                    0 <= i < ids.len() ==> (graph_lookup(graph@, #[trigger] ids[i]) matches Some(e)
                        && package_matches(result@[i], e, graph@, *root_profile)))
                // every direct dependency of a root is collected
                &&& (forall|j: int| 0 <= j < root_deps@.len() ==> ids.contains(#[trigger] root_deps@[j]))
                // the collection is closed under dependency edges
                &&& (forall|i: int, j: int|
                    0 <= i < ids.len() && (graph_lookup(graph@, ids[i]) matches Some(e) && 0 <= j
                        < e.1@.len()) ==> ids.contains(#[trigger] graph_lookup(
                        graph@,
                        ids[i],
                    )->Some_0.1@[j]))
                // and nothing unreachable is collected
                &&& (forall|i: int|
                    0 <= i < ids.len() ==> reaches(root_deps@, graph@, #[trigger] ids[i]))
            },
{
    let mut queue: Vec<u64> = Vec::new();
    let mut i: usize = 0;
    while i < root_deps.len()
        invariant
            i <= root_deps@.len(),
            queue@ =~= root_deps@.take(i as int),
        decreases root_deps@.len() - i,
    {
        queue.push(root_deps[i]);
        i = i + 1;
    }
    proof {
        assert(root_deps@.take(root_deps@.len() as int) == root_deps@);
    }
    let mut visited: Vec<u64> = Vec::new();
    let mut result: Vec<SbomPackage> = Vec::new();
    let ghost gids = graph_ids(graph@);
    proof {
        assert forall|j: int| 0 <= j < queue@.len() implies reaches(root_deps@, graph@, #[trigger] queue@[j]) by {
            assert(queue@[j] == root_deps@[j]);
            assert(root_deps@.contains(queue@[j]));
            lemma_reach_root(root_deps@, graph@, queue@[j]);
        }
    }
    while queue.len() > 0
        invariant
            visited@.no_duplicates(),
            result@.len() == visited@.len(),
            forall|j: int| 0 <= j < queue@.len() ==> graph_lookup(graph@, #[trigger] queue@[j]) is Some,
            forall|j: int| 0 <= j < visited@.len() ==> graph_lookup(graph@, #[trigger] visited@[j]) is Some,
            forall|i2: int|
                0 <= i2 < visited@.len() ==> (graph_lookup(graph@, #[trigger] visited@[i2])
                    matches Some(e) && package_matches(result@[i2], e, graph@, *root_profile)),
            forall|j: int|
                0 <= j < root_deps@.len() ==> visited@.contains(#[trigger] root_deps@[j])
                    || queue@.contains(root_deps@[j]),
            forall|i2: int, j: int|
                0 <= i2 < visited@.len() && (graph_lookup(graph@, visited@[i2]) matches Some(e)
                    && 0 <= j < e.1@.len()) ==> visited@.contains(#[trigger] graph_lookup(
                    graph@,
                    visited@[i2],
                )->Some_0.1@[j]) || queue@.contains(graph_lookup(graph@, visited@[i2])->Some_0.1@[j]),
            forall|j: int|
                0 <= j < queue@.len() ==> reaches(root_deps@, graph@, #[trigger] queue@[j]),
            forall|j: int|
                0 <= j < visited@.len() ==> reaches(root_deps@, graph@, #[trigger] visited@[j]),
            visited@.len() <= graph@.len(),
        decreases graph@.len() - visited@.len(), queue@.len(),
    {
        // take the smallest id out of the queue, as an ordered set would
        let mut m: usize = 0;
        let mut k: usize = 1;
        while k < queue.len()
            invariant
                queue@.len() > 0,
                m < queue@.len(),
                k <= queue@.len(),
            decreases queue@.len() - k,
        {
            if queue[k] < queue[m] {
                m = k;
            }
            k = k + 1;
        }
        let ghost queue_pre = queue@;
        let id = queue.remove(m);
        proof {
            lemma_remove_membership(queue_pre, m as int);
            assert(queue_pre[m as int] == id);
            assert(queue_pre.contains(id)) by {
                assert(queue_pre[m as int] == id);
            }
            queue_pre.remove_ensures(m as int);
            assert forall|j: int| 0 <= j < queue@.len() implies graph_lookup(
                graph@,
                #[trigger] queue@[j],
            ) is Some by {
                if j < m {
                    assert(queue@[j] == queue_pre[j]);
                } else {
                    assert(queue@[j] == queue_pre[j + 1]);
                }
            }
            assert forall|j: int| 0 <= j < queue@.len() implies reaches(root_deps@, graph@, #[trigger] queue@[j]) by {
                if j < m {
                    assert(queue@[j] == queue_pre[j]);
                } else {
                    assert(queue@[j] == queue_pre[j + 1]);
                }
            }
        }
        if contains_id(&visited, id) {
            proof {
                assert forall|j: int|
                    0 <= j < root_deps@.len() implies visited@.contains(#[trigger] root_deps@[j])
                    || queue@.contains(root_deps@[j]) by {
                    if !visited@.contains(root_deps@[j]) && root_deps@[j] != id {
                        assert(queue_pre.contains(root_deps@[j]));
                    }
                }
                assert forall|i2: int, j: int|
                    0 <= i2 < visited@.len() && (graph_lookup(graph@, visited@[i2]) matches Some(
                        e,
                    ) && 0 <= j < e.1@.len()) implies visited@.contains(
                    #[trigger] graph_lookup(graph@, visited@[i2])->Some_0.1@[j]) || queue@.contains(
                    graph_lookup(graph@, visited@[i2])->Some_0.1@[j]) by {
                    let dd = graph_lookup(graph@, visited@[i2])->Some_0.1@[j];
                    if !visited@.contains(dd) && dd != id {
                        assert(queue_pre.contains(dd));
                    }
                }
            }
            continue ;
        }
        let entry = match graph_find(graph, id) {
            Some(e) => e,
            None => {
                proof {
                    assert(false);
                }
                continue ;
            },
        };
        // build the dependency entries of this unit
        let mut deps: Vec<SbomDependency> = Vec::new();
        let mut d: usize = 0;
        while d < entry.1.len()
            invariant
                d <= entry.1@.len(),
                deps@.len() == d,
                forall|j: int|
                    0 <= j < d ==> (graph_lookup(graph@, #[trigger] entry.1@[j]) matches Some(u)
                        && dep_matches(deps@[j], u.0)),
            decreases entry.1@.len() - d,
        {
            let did = entry.1[d];
            proof {
                lemma_graph_lookup_index(graph@, id);
                let g = choose|g: int|
                    0 <= g < graph@.len() && #[trigger] graph@[g] == graph_lookup(
                        graph@,
                        id,
                    )->Some_0;
                assert(graph@[g].1@[d as int] == did);
            }
            let du = match graph_find(graph, did) {
                Some(u) => u,
                None => {
                    proof {
                        assert(false);
                    }
                    break ;
                },
            };
            deps.push(SbomDependency::from_unit_dep(&du.0));
            d = d + 1;
        }
        let build_type = if entry.0.is_run_custom_build {
            SbomBuildType::Build
        } else {
            SbomBuildType::Normal
        };
        result.push(SbomPackage::new(&entry.0, deps, build_type, root_profile));
        let ghost visited_pre = visited@;
        visited.push(id);
        proof {
            assert(visited@.no_duplicates()) by {
                assert forall|a: int, b: int|
                    0 <= a < visited@.len() && 0 <= b < visited@.len() && a != b implies visited@[a]
                    != visited@[b] by {
                    if a < visited_pre.len() && b < visited_pre.len() {
                    } else if a < visited_pre.len() {
                        if visited@[a] == id {
                            assert(visited_pre.contains(id)) by {
                                assert(visited_pre[a] == id);
                            }
                        }
                    } else if b < visited_pre.len() {
                        if visited@[b] == id {
                            assert(visited_pre.contains(id)) by {
                                assert(visited_pre[b] == id);
                            }
                        }
                    }
                }
            }
            // the visited set stays within the graph's ids
            visited@.unique_seq_to_set();
            gids.unique_seq_to_set();
            assert(visited@.to_set().subset_of(gids.to_set())) by {
                assert forall|x: u64| visited@.to_set().contains(x) implies gids.to_set().contains(
                    x,
                ) by {
                    assert(visited@.contains(x));
                    let w = choose|w: int| 0 <= w < visited@.len() && visited@[w] == x;
                    if w < visited_pre.len() {
                        assert(graph_lookup(graph@, x) is Some) by {
                            assert(visited_pre[w] == x);
                        }
                    } else {
                        assert(x == id);
                    }
                    lemma_graph_lookup_in_ids(graph@, x);
                }
            }
            lemma_len_subset(visited@.to_set(), gids.to_set());
        }
        // queue this unit's dependencies
        proof {
            assert(reaches(root_deps@, graph@, id)) by {
                assert(queue_pre[m as int] == id);
            }
        }
        let mut d2: usize = 0;
        while d2 < entry.1.len()
            invariant
                d2 <= entry.1@.len(),
                forall|j: int| 0 <= j < queue@.len() ==> graph_lookup(graph@, #[trigger] queue@[j]) is Some,
                forall|j: int|
                    0 <= j < queue@.len() ==> reaches(root_deps@, graph@, #[trigger] queue@[j]),
                forall|j: int| 0 <= j < d2 ==> queue@.contains(#[trigger] entry.1@[j]),
                forall|x: u64| queue_pre.remove(m as int).contains(x) ==> queue@.contains(x),
            decreases entry.1@.len() - d2,
        {
            let ghost qp = queue@;
            queue.push(entry.1[d2]);
            proof {
                let ghost dd = entry.1@[d2 as int];
                assert(queue@.last() == dd);
                assert(graph_lookup(graph@, dd) is Some) by {
                    lemma_graph_lookup_index(graph@, id);
                    let g = choose|g: int|
                        0 <= g < graph@.len() && #[trigger] graph@[g] == graph_lookup(
                            graph@,
                            id,
                        )->Some_0;
                    assert(graph@[g].1@[d2 as int] == dd);
                }
                assert(reaches(root_deps@, graph@, dd)) by {
                    assert(dep_edge(graph@, id, dd)) by {
                        assert(entry.1@[d2 as int] == dd);
                    }
                    lemma_reach_step(root_deps@, graph@, id, dd);
                }
                assert forall|j: int| 0 <= j < queue@.len() implies reaches(root_deps@, graph@, #[trigger] queue@[j]) by {
                    if j < qp.len() {
                        assert(queue@[j] == qp[j]);
                    } else {
                        assert(queue@[j] == dd);
                    }
                }
                assert forall|j: int| 0 <= j < d2 + 1 implies queue@.contains(
                    #[trigger] entry.1@[j]) by {
                    if j < d2 {
                        assert(qp.contains(entry.1@[j]));
                        let w = choose|w: int| 0 <= w < qp.len() && qp[w] == entry.1@[j];
                        assert(queue@[w] == entry.1@[j]);
                    } else {
                        assert(queue@.last() == entry.1@[j]);
                    }
                }
                assert forall|x: u64| queue_pre.remove(m as int).contains(x) implies queue@.contains(
                    x,
                ) by {
                    assert(qp.contains(x));
                    let w = choose|w: int| 0 <= w < qp.len() && qp[w] == x;
                    assert(queue@[w] == x);
                }
            }
            d2 = d2 + 1;
        }
        proof {
            lemma_remove_membership(queue_pre, m as int);
            assert forall|j: int|
                0 <= j < root_deps@.len() implies visited@.contains(#[trigger] root_deps@[j])
                || queue@.contains(root_deps@[j]) by {
                let rd = root_deps@[j];
                if !visited@.contains(rd)  {
                    assert(!visited_pre.contains(rd)) by {
                        if visited_pre.contains(rd) {
                            let w = choose|w: int|
                                0 <= w < visited_pre.len() && visited_pre[w] == rd;
                            assert(visited@[w] == rd);
                        }
                    }
                    assert(rd != id) by {
                        assert(visited@.last() == id);
                    }
                    assert(queue_pre.contains(rd));
                    assert(queue_pre.remove(m as int).contains(rd));
                }
            }
            assert forall|i2: int, j: int|
                0 <= i2 < visited@.len() && (graph_lookup(graph@, visited@[i2]) matches Some(e)
                    && 0 <= j < e.1@.len()) implies visited@.contains(#[trigger] graph_lookup(
                graph@,
                visited@[i2],
            )->Some_0.1@[j]) || queue@.contains(graph_lookup(graph@, visited@[i2])->Some_0.1@[j]) by {
                let e = graph_lookup(graph@, visited@[i2])->Some_0;
                let dd = e.1@[j];
                if i2 < visited_pre.len() {
                    assert(visited_pre[i2] == visited@[i2]);
                    if !visited_pre.contains(dd) && !queue_pre.contains(dd) {
                        assert(false);
                    }
                    if visited_pre.contains(dd) {
                        let w = choose|w: int|
                            0 <= w < visited_pre.len() && visited_pre[w] == dd;
                        assert(visited@[w] == dd);
                    } else {
                        if dd == id {
                            assert(visited@.last() == id);
                        } else {
                            assert(queue_pre.remove(m as int).contains(dd));
                        }
                    }
                } else {
                    // the new node: its dependencies were all queued
                    assert(visited@[i2] == id);
                    assert(graph_lookup(graph@, id) == Some(*entry));
                    assert(queue@.contains(entry.1@[j]));
                }
            }
            assert forall|i2: int|
                0 <= i2 < visited@.len() implies (graph_lookup(graph@, #[trigger] visited@[i2])
                matches Some(e) && package_matches(result@[i2], e, graph@, *root_profile)) by {
                if i2 < visited_pre.len() {
                    assert(visited@[i2] == visited_pre[i2]);
                    assert(result@[i2] == result@.drop_last()[i2]);
                } else {
                    assert(visited@[i2] == id);
                    assert(result@[i2] == result@.last());
                }
            }
            assert forall|j: int| 0 <= j < visited@.len() implies reaches(root_deps@, graph@, #[trigger] visited@[j]) by {
                if j < visited_pre.len() {
                    assert(visited@[j] == visited_pre[j]);
                } else {
                    assert(visited@[j] == id);
                }
            }
        }
    }
    proof {
        assert forall|j: int| 0 <= j < root_deps@.len() implies visited@.contains(
            #[trigger] root_deps@[j]) by {}
        assert({
            let ids = visited@;
            &&& ids.no_duplicates()
            &&& ids.len() == result@.len()
            &&& (forall|i2: int|
                0 <= i2 < ids.len() ==> (graph_lookup(graph@, #[trigger] ids[i2]) matches Some(e)
                    && package_matches(result@[i2], e, graph@, *root_profile)))
            &&& (forall|j: int| 0 <= j < root_deps@.len() ==> ids.contains(#[trigger] root_deps@[j]))
            &&& (forall|i2: int, j: int|
                0 <= i2 < ids.len() && (graph_lookup(graph@, ids[i2]) matches Some(e) && 0 <= j
                    < e.1@.len()) ==> ids.contains(#[trigger] graph_lookup(
                    graph@,
                    ids[i2],
                )->Some_0.1@[j]))
            &&& (forall|i2: int|
                0 <= i2 < ids.len() ==> reaches(root_deps@, graph@, #[trigger] ids[i2]))
        });
    }
    result
}

/// A successful lookup names an actual graph entry.
proof fn lemma_graph_lookup_index(graph: Seq<(UnitDep, Vec<u64>)>, id: u64)
    requires
        graph_lookup(graph, id) is Some,
    ensures
        exists|g: int|
            0 <= g < graph.len() && #[trigger] graph[g] == graph_lookup(graph, id)->Some_0,
    decreases graph.len(),
{
    if graph.len() > 0 {
        if graph.last().0.id == id {
            assert(graph[graph.len() - 1] == graph_lookup(graph, id)->Some_0);
        } else {
            lemma_graph_lookup_index(graph.drop_last(), id);
            let g = choose|g: int|
                0 <= g < graph.drop_last().len() && #[trigger] graph.drop_last()[g]
                    == graph_lookup(graph.drop_last(), id)->Some_0;
            assert(graph[g] == graph_lookup(graph, id)->Some_0);
        }
    }
}

/// A looked-up id is among the graph's ids.
proof fn lemma_graph_lookup_in_ids(graph: Seq<(UnitDep, Vec<u64>)>, id: u64)
    requires
        graph_lookup(graph, id) is Some,
    ensures
        graph_ids(graph).contains(id),
    decreases graph.len(),
{
    if graph.len() > 0 {
        if graph.last().0.id == id {
            assert(graph_ids(graph)[graph.len() - 1] == id);
        } else {
            lemma_graph_lookup_in_ids(graph.drop_last(), id);
            let w = choose|w: int|
                0 <= w < graph.drop_last().len() && graph_ids(graph.drop_last())[w] == id;
            assert(graph_ids(graph)[w] == id);
        }
    }
}

} // verus!
