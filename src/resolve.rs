//! Finds the optional dependencies that enabled features pull in by name
//! (`dep:x`) and classifies where each one comes from.
use vstd::prelude::*;
use crate::mapper::{FeatureMap, FeatureTable, table_specs, find_specs};
use crate::text::{
    split_once, split_once_char, str_eq, strip_prefix, strip_prefix_str, underscore_name,
    underscored, views, copy_strings,
};

verus! {

/// One dependency of a package in the dependency graph.
pub struct MetadataDep {
    pub name: String,
    pub source: Option<String>,
    pub optional: bool,
    pub path: Option<String>,
    /// Version requirement, such as `^1.0`.
    pub req: Option<String>,
    /// Features enabled on this dependency.
    pub features: Vec<String>,
    /// Whether default features are used.
    pub uses_default_features: bool,
}

/// The value `uses_default_features` has when the graph omits it.
pub fn default_true() -> (r: bool)
    ensures
        r,
{
    true
}

/// A package of the dependency graph.
pub struct MetadataPackage {
    pub name: String,
    pub manifest_path: String,
    pub dependencies: Vec<MetadataDep>,
}

/// A snapshot of the dependency graph.
pub struct CargoMetadata {
    pub packages: Vec<MetadataPackage>,
}

/// The feature table of a package manifest: feature to what it activates.
pub struct DepCargoToml {
    pub features: Option<Vec<(String, Vec<String>)>>,
}

/// Where an optional dependency comes from.
pub enum DepSource {
    Git(String),
    Path(String),
    Registry { version: String, features: Vec<String>, default_features: bool },
}

/// The plain form of a `DepSource`.
pub enum SourceView {
    Git(Seq<char>),
    Path(Seq<char>),
    Registry(Seq<char>, Seq<Seq<char>>, bool),
}

impl View for DepSource {
    type V = SourceView;

    open spec fn view(&self) -> SourceView {
        match self {
            DepSource::Git(u) => SourceView::Git(u@),
            DepSource::Path(p) => SourceView::Path(p@),
            DepSource::Registry { version, features, default_features } => SourceView::Registry(
                version@,
                views(features@),
                *default_features,
            ),
        }
    }
}

/// An optional dependency that needs an explicit extern binding.
pub struct ExternDep {
    /// Name the compiler knows it by (`-` replaced by `_`).
    pub crate_name: String,
    /// Package name as the graph spells it.
    pub pkg_name: String,
    pub source: DepSource,
}

/// The plain form of an `ExternDep`: compiler name, package name, source.
pub type ExternView = (Seq<char>, Seq<char>, SourceView);

impl View for ExternDep {
    type V = ExternView;

    open spec fn view(&self) -> ExternView {
        (self.crate_name@, self.pkg_name@, self.source@)
    }
}

/// The plain form of extern bindings.
pub open spec fn extern_views(v: Seq<ExternDep>) -> Seq<ExternView> {
    v.map_values(|x: ExternDep| x@)
}

/// Package name to the extern bindings it needs. Each package appears
/// once, and only with at least one binding.
pub struct ExternMap {
    pub entries: Vec<(String, Vec<ExternDep>)>,
}

pub type ExternTable = Seq<(Seq<char>, Seq<ExternView>)>;

impl View for ExternMap {
    type V = ExternTable;

    open spec fn view(&self) -> ExternTable {
        extern_table(self.entries@)
    }
}

/// The plain form of extern-map entries.
pub open spec fn extern_table(v: Seq<(String, Vec<ExternDep>)>) -> ExternTable {
    v.map_values(|e: (String, Vec<ExternDep>)| (e.0@, extern_views(e.1@)))
}

/// Failures of the resolver.
pub enum ResolveError {
    /// A package manifest that could not be read or parsed.
    ManifestError(String),
    /// Both dependency-graph queries failed; carries the tool's output.
    GraphQueryError(String),
}

/// A URL without its `#` fragment.
pub open spec fn before_hash(url: Seq<char>) -> Seq<char> {
    match split_once(url, '#') {
        Some((a, _)) => a,
        None => url,
    }
}

/// A registry source with the dependency's version requirement (`*` when
/// none is given), features and default-features flag.
pub open spec fn registry_of(d: MetadataDep) -> SourceView {
    SourceView::Registry(
        match d.req {
            Some(r) => r@,
            None => "*"@,
        },
        views(d.features@),
        d.uses_default_features,
    )
}

/// The source class of a dependency: a `git+` source, a path, or a registry.
pub open spec fn source_of(d: MetadataDep) -> SourceView {
    match d.source {
        Some(src) => match strip_prefix(src@, "git+"@) {
            Some(url) => SourceView::Git(before_hash(url)),
            None => registry_of(d),
        },
        None => match d.path {
            Some(p) => SourceView::Path(p@),
            None => registry_of(d),
        },
    }
}

/// The optional dependency named `name` (the last one so named).
pub open spec fn optional_dep(deps: Seq<MetadataDep>, name: Seq<char>) -> Option<MetadataDep>
    decreases deps.len(),
{
    if deps.len() == 0 {
        None
    } else if deps.last().optional && deps.last().name@ == name {
        Some(deps.last())
    } else {
        optional_dep(deps.drop_last(), name)
    }
}

/// The graph package named `name` (the last one so named).
pub open spec fn package_named(pkgs: Seq<MetadataPackage>, name: Seq<char>) -> Option<MetadataPackage>
    decreases pkgs.len(),
{
    if pkgs.len() == 0 {
        None
    } else if pkgs.last().name@ == name {
        Some(pkgs.last())
    } else {
        package_named(pkgs.drop_last(), name)
    }
}

/// The parsed manifest handed in for `path` (the first one so keyed).
pub open spec fn manifest_for(ms: Seq<(String, DepCargoToml)>, path: Seq<char>) -> Option<DepCargoToml>
    decreases ms.len(),
{
    if ms.len() == 0 {
        None
    } else {
        match manifest_for(ms.drop_last(), path) {
            Some(m) => Some(m),
            None => if ms.last().0@ == path {
                Some(ms.last().1)
            } else {
                None
            },
        }
    }
}

/// The binding one activation entry asks for: `dep:x` where `x` is an
/// optional dependency of the package. Anything else binds nothing.
pub open spec fn entry_extern(pkg: MetadataPackage, entry: Seq<char>) -> Seq<ExternView> {
    match strip_prefix(entry, "dep:"@) {
        Some(n) => match optional_dep(pkg.dependencies@, n) {
            Some(d) => seq![(underscored(n), n, source_of(d))],
            None => Seq::empty(),
        },
        None => Seq::empty(),
    }
}

/// The bindings a list of activation entries asks for, in order.
pub open spec fn entries_externs(pkg: MetadataPackage, entries: Seq<Seq<char>>) -> Seq<ExternView>
    decreases entries.len(),
{
    if entries.len() == 0 {
        Seq::empty()
    } else {
        entries_externs(pkg, entries.drop_last()) + entry_extern(pkg, entries.last())
    }
}

/// The bindings the enabled features of a package ask for, in order.
pub open spec fn feature_externs(
    pkg: MetadataPackage,
    table: Seq<(String, Vec<String>)>,
    feats: Seq<Seq<char>>,
) -> Seq<ExternView>
    decreases feats.len(),
{
    if feats.len() == 0 {
        Seq::empty()
    } else {
        feature_externs(pkg, table, feats.drop_last()) + match table_specs(table, feats.last()) {
            Some(entries) => entries_externs(pkg, entries),
            None => Seq::empty(),
        }
    }
}

/// The bindings in order, each dependency once: a later binding for a
/// package name already bound is dropped.
pub open spec fn first_bindings(s: Seq<ExternView>) -> Seq<ExternView>
    decreases s.len(),
{
    if s.len() == 0 {
        Seq::empty()
    } else {
        let prev = first_bindings(s.drop_last());
        if exists|k: int| 0 <= k < prev.len() && (#[trigger] prev[k]).1 == s.last().1 {
            prev
        } else {
            prev.push(s.last())
        }
    }
}

/// No two bindings name the same dependency.
pub open spec fn distinct_deps(s: Seq<ExternView>) -> bool {
    forall|a: int, b: int| 0 <= a < s.len() && 0 <= b < s.len() && a != b ==> s[a].1 != s[b].1
}

pub proof fn lemma_first_bindings_distinct(s: Seq<ExternView>)
    ensures
        distinct_deps(first_bindings(s)),
    decreases s.len(),
{
    if s.len() > 0 {
        lemma_first_bindings_distinct(s.drop_last());
    }
}

/// The extern map for a feature map, or the path of the first manifest
/// that is needed and was not handed in.
pub open spec fn resolve(
    meta: CargoMetadata,
    fm: FeatureTable,
    ms: Seq<(String, DepCargoToml)>,
) -> Result<ExternTable, Seq<char>>
    decreases fm.len(),
{
    if fm.len() == 0 {
        Ok(Seq::empty())
    } else {
        match resolve(meta, fm.drop_last(), ms) {
            Err(e) => Err(e),
            Ok(prev) => match package_named(meta.packages@, fm.last().0) {
                None => Ok(prev),
                Some(pkg) => match manifest_for(ms, pkg.manifest_path@) {
                    None => Err(pkg.manifest_path@),
                    Some(dt) => match dt.features {
                        None => Ok(prev),
                        Some(t) => {
                            let x = first_bindings(feature_externs(pkg, t@, fm.last().1));
                            if x.len() > 0 {
                                Ok(prev.push((fm.last().0, x)))
                            } else {
                                Ok(prev)
                            }
                        },
                    },
                },
            },
        }
    }
}

/// Each package of a resolved extern map binds each dependency once.
pub proof fn lemma_resolve_distinct(meta: CargoMetadata, fm: FeatureTable, ms: Seq<(String, DepCargoToml)>)
    ensures
        resolve(meta, fm, ms) matches Ok(t) ==> forall|k: int|
            0 <= k < t.len() ==> distinct_deps(#[trigger] t[k].1),
    decreases fm.len(),
{
    if fm.len() > 0 {
        lemma_resolve_distinct(meta, fm.drop_last(), ms);
        match package_named(meta.packages@, fm.last().0) {
            Some(pkg) => match manifest_for(ms, pkg.manifest_path@) {
                Some(dt) => match dt.features {
                    Some(t) => lemma_first_bindings_distinct(
                        feature_externs(pkg, t@, fm.last().1),
                    ),
                    None => {},
                },
                None => {},
            },
            None => {},
        }
    }
}

/// The manifests the resolver reads, in the order of the feature map.
pub open spec fn needed_manifests(meta: CargoMetadata, fm: FeatureTable) -> Seq<Seq<char>>
    decreases fm.len(),
{
    if fm.len() == 0 {
        Seq::empty()
    } else {
        let prev = needed_manifests(meta, fm.drop_last());
        match package_named(meta.packages@, fm.last().0) {
            Some(p) => prev.push(p.manifest_path@),
            None => prev,
        }
    }
}

/// Every package of the feature map is in the graph snapshot.
pub open spec fn covers(meta: CargoMetadata, fm: FeatureTable) -> bool {
    forall|i: int| 0 <= i < fm.len() ==> has_package(meta, #[trigger] fm[i].0)
}

/// The graph snapshot holds a package named `name`.
pub open spec fn has_package(meta: CargoMetadata, name: Seq<char>) -> bool {
    exists|j: int| 0 <= j < meta.packages@.len() && (#[trigger] meta.packages@[j]).name@ == name
}

fn clone_source(s: &Option<String>) -> (r: Option<String>)
    ensures
        r == *s,
{
    match s {
        Some(x) => Some(x.clone()),
        None => None,
    }
}

/// Classifies where a dependency comes from: a version-controlled URL
/// without its revision fragment, a path, or a registry version with its
/// features.
pub fn classify_source(d: &MetadataDep) -> (r: DepSource)
    ensures
        r@ == source_of(*d),
{
    let registry = DepSource::Registry {
        version: match &d.req {
            Some(r) => r.clone(),
            None => String::from_str("*"),
        },
        features: copy_strings(&d.features),
        default_features: d.uses_default_features,
    };
    match &d.source {
        Some(src) => match strip_prefix_str(src.as_str(), "git+") {
            Some(url) => match split_once_char(url.as_str(), '#') {
                Some((head, _)) => DepSource::Git(head),
                None => DepSource::Git(url),
            },
            None => registry,
        },
        None => match &d.path {
            Some(p) => DepSource::Path(p.clone()),
            None => registry,
        },
    }
}

fn find_optional_dep(deps: &Vec<MetadataDep>, name: &str) -> (r: Option<usize>)
    ensures
        match r {
            Some(i) => i < deps@.len() && optional_dep(deps@, name@) == Some(deps@[i as int]),
            None => optional_dep(deps@, name@) is None,
        },
{
    let mut found: Option<usize> = None;
    let mut i: usize = 0;
    while i < deps.len()
        invariant
            i <= deps.len(),
            match found {
                Some(k) => k < i && optional_dep(deps@.subrange(0, i as int), name@) == Some(
                    deps@[k as int],
                ),
                None => optional_dep(deps@.subrange(0, i as int), name@) is None,
            },
        decreases deps.len() - i,
    {
        assert(deps@.subrange(0, i + 1).drop_last() =~= deps@.subrange(0, i as int));
        if deps[i].optional && str_eq(deps[i].name.as_str(), name) {
            found = Some(i);
        }
        i = i + 1;
    }
    assert(deps@.subrange(0, i as int) =~= deps@);
    found
}

fn find_package(pkgs: &Vec<MetadataPackage>, name: &str) -> (r: Option<usize>)
    ensures
        match r {
            Some(i) => i < pkgs@.len() && package_named(pkgs@, name@) == Some(pkgs@[i as int]),
            None => package_named(pkgs@, name@) is None,
        },
{
    let mut found: Option<usize> = None;
    let mut i: usize = 0;
    while i < pkgs.len()
        invariant
            i <= pkgs.len(),
            match found {
                Some(k) => k < i && package_named(pkgs@.subrange(0, i as int), name@) == Some(
                    pkgs@[k as int],
                ),
                None => package_named(pkgs@.subrange(0, i as int), name@) is None,
            },
        decreases pkgs.len() - i,
    {
        assert(pkgs@.subrange(0, i + 1).drop_last() =~= pkgs@.subrange(0, i as int));
        if str_eq(pkgs[i].name.as_str(), name) {
            found = Some(i);
        }
        i = i + 1;
    }
    assert(pkgs@.subrange(0, i as int) =~= pkgs@);
    found
}

pub proof fn lemma_manifest_for_prefix(ms: Seq<(String, DepCargoToml)>, p: Seq<char>, n: int)
    requires
        0 <= n <= ms.len(),
        manifest_for(ms.subrange(0, n), p) is Some,
    ensures
        manifest_for(ms, p) == manifest_for(ms.subrange(0, n), p),
    decreases ms.len() - n,
{
    if n < ms.len() {
        assert(ms.subrange(0, n + 1).drop_last() =~= ms.subrange(0, n));
        lemma_manifest_for_prefix(ms, p, n + 1);
    } else {
        assert(ms.subrange(0, n) =~= ms);
    }
}

fn find_manifest(ms: &Vec<(String, DepCargoToml)>, path: &str) -> (r: Option<usize>)
    ensures
        match r {
            Some(i) => i < ms@.len() && manifest_for(ms@, path@) == Some(ms@[i as int].1),
            None => manifest_for(ms@, path@) is None,
        },
{
    let mut i: usize = 0;
    while i < ms.len()
        invariant
            i <= ms.len(),
            manifest_for(ms@.subrange(0, i as int), path@) is None,
        decreases ms.len() - i,
    {
        assert(ms@.subrange(0, i + 1).drop_last() =~= ms@.subrange(0, i as int));
        if str_eq(ms[i].0.as_str(), path) {
            proof {
                lemma_manifest_for_prefix(ms@, path@, i as int + 1);
            }
            return Some(i);
        }
        i = i + 1;
    }
    assert(ms@.subrange(0, i as int) =~= ms@);
    None
}

/// The bindings that the enabled features of one package ask for.
fn package_externs(
    pkg: &MetadataPackage,
    table: &Vec<(String, Vec<String>)>,
    feats: &Vec<String>,
) -> (r: Vec<ExternDep>)
    ensures
        extern_views(r@) == feature_externs(*pkg, table@, views(feats@)),
{
    let ghost fv = views(feats@);
    let mut out: Vec<ExternDep> = Vec::new();
    let mut i: usize = 0;
    while i < feats.len()
        invariant
            i <= feats.len(),
            fv == views(feats@),
            extern_views(out@) == feature_externs(*pkg, table@, fv.subrange(0, i as int)),
        decreases feats.len() - i,
    {
        assert(fv.subrange(0, i + 1).drop_last() =~= fv.subrange(0, i as int));
        let ghost before = extern_views(out@);
        match find_specs(table, feats[i].as_str()) {
            Some(t) => {
                let entries = &table[t].1;
                let ghost ev = views(entries@);
                let mut j: usize = 0;
                while j < entries.len()
                    invariant
                        j <= entries.len(),
                        ev == views(entries@),
                        extern_views(out@) == before + entries_externs(*pkg, ev.subrange(0, j as int)),
                    decreases entries.len() - j,
                {
                    assert(ev.subrange(0, j + 1).drop_last() =~= ev.subrange(0, j as int));
                    let ghost mid = out@;
                    match strip_prefix_str(entries[j].as_str(), "dep:") {
                        Some(n) => match find_optional_dep(&pkg.dependencies, n.as_str()) {
                            Some(k) => {
                                let source = classify_source(&pkg.dependencies[k]);
                                let crate_name = underscore_name(n.as_str());
                                let dep = ExternDep { crate_name, pkg_name: n, source };
                                out.push(dep);
                                assert(extern_views(out@) =~= extern_views(mid).push(dep@));
                            },
                            None => {},
                        },
                        None => {},
                    }
                    assert(extern_views(out@) =~= before + entries_externs(
                        *pkg,
                        ev.subrange(0, j + 1),
                    ));
                    j = j + 1;
                }
                assert(ev.subrange(0, j as int) =~= ev);
            },
            None => {},
        }
        assert(extern_views(out@) =~= feature_externs(*pkg, table@, fv.subrange(0, i + 1)));
        i = i + 1;
    }
    assert(fv.subrange(0, i as int) =~= fv);
    out
}

/// The bindings in order, each dependency once.
fn keep_first_bindings(raw: Vec<ExternDep>) -> (r: Vec<ExternDep>)
    ensures
        extern_views(r@) == first_bindings(extern_views(raw@)),
{
    let ghost rv = extern_views(raw@);
    let mut out: Vec<ExternDep> = Vec::new();
    let mut raw = raw;
    let n = raw.len();
    assert(extern_views(out@) =~= first_bindings(rv.subrange(0, 0)));
    assert(rv.subrange(0, n as int) =~= rv);
    let mut i: usize = 0;
    while i < n
        invariant
            n == rv.len(),
            i <= n,
            raw@.len() == n - i,
            extern_views(raw@) == rv.subrange(i as int, n as int),
            extern_views(out@) == first_bindings(rv.subrange(0, i as int)),
        decreases n - i,
    {
        assert(extern_views(raw@)[0] == raw@[0]@);
        let ghost before = raw@;
        let d = raw.remove(0);
        assert(raw@ =~= before.subrange(1, before.len() as int));
        assert forall|k: int| 0 <= k < raw@.len() implies extern_views(raw@)[k] == rv.subrange(i + 1, n as int)[k] by {
            assert(raw@[k] == before[k + 1]);
            assert(extern_views(before)[k + 1] == before[k + 1]@);
        }
        assert(d@ == rv[i as int]);
        assert(extern_views(raw@) =~= rv.subrange(i + 1, n as int));
        assert(rv.subrange(0, i + 1).drop_last() =~= rv.subrange(0, i as int));
        let ghost prev = extern_views(out@);
        let mut j: usize = 0;
        let mut seen = false;
        while j < out.len()
            invariant
                j <= out.len(),
                prev == extern_views(out@),
                seen == exists|k: int| 0 <= k < j && (#[trigger] prev[k]).1 == d@.1,
            decreases out.len() - j,
        {
            if str_eq(out[j].pkg_name.as_str(), d.pkg_name.as_str()) {
                assert(prev[j as int].1 == d@.1);
                seen = true;
            }
            j = j + 1;
        }
        if !seen {
            out.push(d);
            assert(extern_views(out@) =~= prev.push(d@));
        }
        i = i + 1;
    }
    assert(rv.subrange(0, n as int) =~= rv);
    out
}

/// Resolves, for each package of the feature map, the optional
/// dependencies that its enabled features activate by name, and the
/// source of each. `manifests` holds each package manifest the resolver
/// reads, keyed by its path (see `manifests_needed`). A package absent
/// from the graph, a manifest without a feature table, and a `dep:` entry
/// that names no optional dependency of the package bind nothing; a
/// needed manifest that was not handed in is a `ManifestError`.
pub fn resolve_extern_map_from_metadata(
    meta: &CargoMetadata,
    feature_map: &FeatureMap,
    manifests: &Vec<(String, DepCargoToml)>,
) -> (r: Result<ExternMap, ResolveError>)
    ensures
        match resolve(*meta, feature_map@, manifests@) {
            Ok(t) => r matches Ok(m) && m@ == t && forall|k: int|
                0 <= k < t.len() ==> distinct_deps(#[trigger] t[k].1),
            Err(p) => r matches Err(ResolveError::ManifestError(q)) && q@ == p,
        },
{
    let ghost fm = feature_map@;
    proof {
        lemma_resolve_distinct(*meta, fm, manifests@);
    }
    let mut out: Vec<(String, Vec<ExternDep>)> = Vec::new();
    let mut i: usize = 0;
    assert(extern_table(out@) =~= Seq::<(Seq<char>, Seq<ExternView>)>::empty());
    assert(fm.subrange(0, 0) =~= Seq::<(Seq<char>, Seq<Seq<char>>)>::empty());
    while i < feature_map.entries.len()
        invariant
            i <= feature_map.entries.len(),
            fm == feature_map@,
            resolve(*meta, fm.subrange(0, i as int), manifests@) == Ok::<ExternTable, Seq<char>>(
                extern_table(out@),
            ),
        decreases feature_map.entries.len() - i,
    {
        assert(fm.subrange(0, i + 1).drop_last() =~= fm.subrange(0, i as int));
        let ghost before = out@;
        let name = &feature_map.entries[i].0;
        match find_package(&meta.packages, name.as_str()) {
            None => {},
            Some(p) => {
                let pkg = &meta.packages[p];
                match find_manifest(manifests, pkg.manifest_path.as_str()) {
                    None => {
                        proof {
                            lemma_resolve_err_stays(*meta, fm, manifests@, i as int + 1);
                        }
                        return Err(ResolveError::ManifestError(pkg.manifest_path.clone()));
                    },
                    Some(k) => match &manifests[k].1.features {
                        None => {},
                        Some(table) => {
                            let raw = package_externs(pkg, table, &feature_map.entries[i].1);
                            let deps = keep_first_bindings(raw);
                            if deps.len() > 0 {
                                let ghost d = extern_views(deps@);
                                out.push((name.clone(), deps));
                                assert(extern_table(out@) =~= extern_table(before).push(
                                    (fm[i as int].0, d),
                                ));
                            }
                        },
                    },
                }
            },
        }
        i = i + 1;
    }
    assert(fm.subrange(0, i as int) =~= fm);
    Ok(ExternMap { entries: out })
}

/// Once resolution fails on a prefix of the feature map, it fails on the
/// whole map with the same manifest.
pub proof fn lemma_resolve_err_stays(
    meta: CargoMetadata,
    fm: FeatureTable,
    ms: Seq<(String, DepCargoToml)>,
    n: int,
)
    requires
        0 <= n <= fm.len(),
        resolve(meta, fm.subrange(0, n), ms) is Err,
    ensures
        resolve(meta, fm, ms) == resolve(meta, fm.subrange(0, n), ms),
    decreases fm.len() - n,
{
    if n < fm.len() {
        assert(fm.subrange(0, n + 1).drop_last() =~= fm.subrange(0, n));
        lemma_resolve_err_stays(meta, fm, ms, n + 1);
    } else {
        assert(fm.subrange(0, n) =~= fm);
    }
}

/// The manifest paths the resolver needs for this feature map: one for
/// each of its packages that the graph holds, in feature-map order.
pub fn manifests_needed(meta: &CargoMetadata, feature_map: &FeatureMap) -> (r: Vec<String>)
    ensures
        views(r@) == needed_manifests(*meta, feature_map@),
{
    let ghost fm = feature_map@;
    let mut out: Vec<String> = Vec::new();
    let mut i: usize = 0;
    while i < feature_map.entries.len()
        invariant
            i <= feature_map.entries.len(),
            fm == feature_map@,
            views(out@) == needed_manifests(*meta, fm.subrange(0, i as int)),
        decreases feature_map.entries.len() - i,
    {
        assert(fm.subrange(0, i + 1).drop_last() =~= fm.subrange(0, i as int));
        match find_package(&meta.packages, feature_map.entries[i].0.as_str()) {
            Some(p) => {
                let ghost before = out@;
                out.push(meta.packages[p].manifest_path.clone());
                assert(views(out@) =~= views(before).push(meta.packages@[p as int].manifest_path@));
            },
            None => {},
        }
        i = i + 1;
    }
    assert(fm.subrange(0, i as int) =~= fm);
    out
}

/// Whether every package of the feature map is in the graph snapshot.
pub fn metadata_covers(meta: &CargoMetadata, feature_map: &FeatureMap) -> (r: bool)
    ensures
        r == covers(*meta, feature_map@),
{
    let mut i: usize = 0;
    while i < feature_map.entries.len()
        invariant
            i <= feature_map.entries.len(),
            forall|k: int| 0 <= k < i ==> has_package(*meta, #[trigger] feature_map@[k].0),
        decreases feature_map.entries.len() - i,
    {
        match find_package(&meta.packages, feature_map.entries[i].0.as_str()) {
            Some(p) => {
                proof {
                    lemma_package_named_in(meta.packages@, feature_map@[i as int].0);
                }
            },
            None => {
                proof {
                    lemma_package_named_none(meta.packages@, feature_map@[i as int].0);
                }
                return false;
            },
        }
        i = i + 1;
    }
    true
}

pub proof fn lemma_package_named_in(pkgs: Seq<MetadataPackage>, name: Seq<char>)
    requires
        package_named(pkgs, name) is Some,
    ensures
        exists|j: int| 0 <= j < pkgs.len() && (#[trigger] pkgs[j]).name@ == name,
    decreases pkgs.len(),
{
    if pkgs.last().name@ == name {
        assert(pkgs[pkgs.len() - 1].name@ == name);
    } else {
        lemma_package_named_in(pkgs.drop_last(), name);
        let j = choose|j: int| 0 <= j < pkgs.len() - 1 && (#[trigger] pkgs.drop_last()[j]).name@ == name;
        assert(pkgs[j] == pkgs.drop_last()[j]);
    }
}

pub proof fn lemma_package_named_none(pkgs: Seq<MetadataPackage>, name: Seq<char>)
    requires
        package_named(pkgs, name) is None,
    ensures
        forall|j: int| 0 <= j < pkgs.len() ==> (#[trigger] pkgs[j]).name@ != name,
    decreases pkgs.len(),
{
    if pkgs.len() > 0 {
        lemma_package_named_none(pkgs.drop_last(), name);
        assert forall|j: int| 0 <= j < pkgs.len() implies (#[trigger] pkgs[j]).name@ != name by {
            if j < pkgs.len() - 1 {
                assert(pkgs[j] == pkgs.drop_last()[j]);
            }
        }
    }
}

/// What to do with the dependency graph once the lightweight query (no
/// transitive dependencies) has been tried.
pub enum GraphPlan {
    /// The feature map is empty: nothing to resolve.
    NothingToResolve,
    /// The lightweight snapshot holds every package: resolve against it.
    UseShallow,
    /// The lightweight query failed or missed a package: run the full one.
    QueryFull,
}

/// The two-tier graph query: `shallow` is the result of the lightweight
/// query, `None` when it failed.
pub fn resolve_extern_map(feature_map: &FeatureMap, shallow: Option<&CargoMetadata>) -> (r: GraphPlan)
    ensures
        feature_map@.len() == 0 ==> r is NothingToResolve,
        feature_map@.len() > 0 ==> match shallow {
            Some(m) => if covers(*m, feature_map@) {
                r is UseShallow
            } else {
                r is QueryFull
            },
            None => r is QueryFull,
        },
{
    if feature_map.entries.len() == 0 {
        return GraphPlan::NothingToResolve;
    }
    match shallow {
        Some(m) => if metadata_covers(m, feature_map) {
            GraphPlan::UseShallow
        } else {
            GraphPlan::QueryFull
        },
        None => GraphPlan::QueryFull,
    }
}

/// The target of a build-tool message.
pub struct CargoTarget {
    pub name: String,
}

/// One line of the build tool's machine-readable output.
pub struct CargoMessage {
    pub reason: String,
    pub target: Option<CargoTarget>,
    pub filenames: Option<Vec<String>>,
}

/// The first of the files that is a library archive (`.rlib`).
pub open spec fn first_rlib(files: Seq<Seq<char>>) -> Option<Seq<char>>
    decreases files.len(),
{
    if files.len() == 0 {
        None
    } else if crate::text::ends_with(files[0], ".rlib"@) {
        Some(files[0])
    } else {
        first_rlib(files.drop_first())
    }
}

/// The library archive a build message reports for the unit `name`: the
/// first `.rlib` of a `compiler-artifact` message whose target is `name`.
pub open spec fn artifact_lib(msg: CargoMessage, name: Seq<char>) -> Option<Seq<char>> {
    if msg.reason@ == "compiler-artifact"@ && (match msg.target {
        Some(t) => t.name@ == name,
        None => false,
    }) {
        match msg.filenames {
            Some(f) => first_rlib(views(f@)),
            None => None,
        }
    } else {
        None
    }
}

/// The library archive that a build message reports for unit `name`.
pub fn artifact_rlib(msg: &CargoMessage, name: &str) -> (r: Option<String>)
    ensures
        match r {
            Some(p) => artifact_lib(*msg, name@) == Some(p@),
            None => artifact_lib(*msg, name@) is None,
        },
{
    if !str_eq(msg.reason.as_str(), "compiler-artifact") {
        return None;
    }
    let named = match &msg.target {
        Some(t) => str_eq(t.name.as_str(), name),
        None => false,
    };
    if !named {
        return None;
    }
    match &msg.filenames {
        None => None,
        Some(files) => {
            let ghost fv = views(files@);
            let n = files.len();
            let mut i: usize = 0;
            assert(fv.subrange(0, n as int) =~= fv);
            assert(artifact_lib(*msg, name@) == first_rlib(fv));
            while i < n
                invariant
                    artifact_lib(*msg, name@) == first_rlib(fv),
                    n == files@.len(),
                    fv == views(files@),
                    i <= n,
                    first_rlib(fv) == first_rlib(fv.subrange(i as int, n as int)),
                decreases n - i,
            {
                assert(fv.subrange(i as int, n as int).drop_first() =~= fv.subrange(i + 1, n as int));
                if crate::text::ends_with_str(files[i].as_str(), ".rlib") {
                    assert(fv.subrange(i as int, n as int)[0] == files@[i as int]@);
                    return Some(files[i].clone());
                }
                i = i + 1;
            }
            None
        },
    }
}

/// The library path built for unit `name` (the first one so named).
pub open spec fn lib_for(libs: Seq<(Seq<char>, Seq<char>)>, name: Seq<char>) -> Option<Seq<char>>
    decreases libs.len(),
{
    if libs.len() == 0 {
        None
    } else if libs[0].0 == name {
        Some(libs[0].1)
    } else {
        lib_for(libs.drop_first(), name)
    }
}

/// `unit:name=path` for each binding of the unit whose library was built.
pub open spec fn unit_extern_entries(
    unit: Seq<char>,
    deps: Seq<ExternView>,
    libs: Seq<(Seq<char>, Seq<char>)>,
) -> Seq<Seq<char>>
    decreases deps.len(),
{
    if deps.len() == 0 {
        Seq::empty()
    } else {
        unit_extern_entries(unit, deps.drop_last(), libs) + match lib_for(libs, deps.last().0) {
            Some(path) => seq![unit + ":"@ + deps.last().0 + "="@ + path],
            None => Seq::empty(),
        }
    }
}

/// `unit:name=path` entries for every unit of the extern map, in order.
pub open spec fn extern_entries(m: ExternTable, libs: Seq<(Seq<char>, Seq<char>)>) -> Seq<Seq<char>>
    decreases m.len(),
{
    if m.len() == 0 {
        Seq::empty()
    } else {
        extern_entries(m.drop_last(), libs) + unit_extern_entries(m.last().0, m.last().1, libs)
    }
}

/// The plain form of (compiler name, library path) pairs.
pub open spec fn lib_pairs(libs: Seq<(String, String)>) -> Seq<(Seq<char>, Seq<char>)> {
    libs.map_values(|e: (String, String)| (e.0@, e.1@))
}

pub(crate) fn find_lib(libs: &Vec<(String, String)>, name: &str) -> (r: Option<usize>)
    ensures
        match r {
            Some(i) => i < libs@.len() && lib_for(lib_pairs(libs@), name@) == Some(libs@[i as int].1@),
            None => lib_for(lib_pairs(libs@), name@) is None,
        },
{
    let ghost lv = lib_pairs(libs@);
    let n = libs.len();
    let mut i: usize = 0;
    assert(lv.subrange(0, n as int) =~= lv);
    while i < n
        invariant
            n == libs@.len(),
            lv == lib_pairs(libs@),
            i <= n,
            lib_for(lv, name@) == lib_for(lv.subrange(i as int, n as int), name@),
        decreases n - i,
    {
        assert(lv.subrange(i as int, n as int).drop_first() =~= lv.subrange(i + 1, n as int));
        if str_eq(libs[i].0.as_str(), name) {
            return Some(i);
        }
        i = i + 1;
    }
    None
}

/// The extern table for the compiler stand-in: `unit:name=path` for each
/// binding whose library was built (`libs` holds compiler name and
/// library path), joined by `;`.
pub fn encode_externs_env(externs: &ExternMap, libs: &Vec<(String, String)>) -> (r: String)
    ensures
        r@ == crate::text::join(extern_entries(externs@, lib_pairs(libs@)), ";"@),
{
    let ghost m = externs@;
    let ghost lv = lib_pairs(libs@);
    let mut parts: Vec<String> = Vec::new();
    let mut i: usize = 0;
    while i < externs.entries.len()
        invariant
            i <= externs.entries.len(),
            m == externs@,
            lv == lib_pairs(libs@),
            views(parts@) == extern_entries(m.subrange(0, i as int), lv),
        decreases externs.entries.len() - i,
    {
        assert(m.subrange(0, i + 1).drop_last() =~= m.subrange(0, i as int));
        let unit = &externs.entries[i].0;
        let deps = &externs.entries[i].1;
        let ghost dv = extern_views(deps@);
        let ghost before = views(parts@);
        let mut j: usize = 0;
        while j < deps.len()
            invariant
                j <= deps.len(),
                dv == extern_views(deps@),
                lv == lib_pairs(libs@),
                views(parts@) == before + unit_extern_entries(unit@, dv.subrange(0, j as int), lv),
            decreases deps.len() - j,
        {
            assert(dv.subrange(0, j + 1).drop_last() =~= dv.subrange(0, j as int));
            let ghost prev = parts@;
            match find_lib(libs, deps[j].crate_name.as_str()) {
                Some(k) => {
                    let mut e = unit.clone();
                    e.append(":");
                    e.append(deps[j].crate_name.as_str());
                    e.append("=");
                    e.append(libs[k].1.as_str());
                    parts.push(e);
                    assert(views(parts@) =~= views(prev).push(e@));
                },
                None => {},
            }
            assert(views(parts@) =~= before + unit_extern_entries(unit@, dv.subrange(0, j + 1), lv));
            j = j + 1;
        }
        assert(dv.subrange(0, j as int) =~= dv);
        assert(m[i as int] == (unit@, dv));
        assert(views(parts@) =~= extern_entries(m.subrange(0, i + 1), lv));
        i = i + 1;
    }
    assert(m.subrange(0, i as int) =~= m);
    crate::text::join_strings(&parts, ";")
}

} // verus!
