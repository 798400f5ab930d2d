//! Reduces the active switches through each package's mapping table into
//! the features to enable, per package.
use vstd::prelude::*;
use crate::text::{
    split_once, split_once_char, str_eq, views, strictly_sorted, sorted_insert,
    lemma_sorted_insert_set, lemma_sorted_insert_sorted, lemma_sorted_same_set_equal, sorted_names,
};

verus! {

/// The `[package.metadata]` section of a manifest: switch name to the
/// feature specs it enables.
pub struct Metadata {
    pub xconfig: Option<Vec<(String, Vec<String>)>>,
}

/// The `[package]` section of a manifest.
pub struct Package {
    pub name: Option<String>,
    pub metadata: Option<Metadata>,
}

/// The parts of a package manifest the mapper reads.
pub struct CargoToml {
    pub package: Option<Package>,
}

/// Package name to the features to enable on it. Package names are
/// unique and so are the features of each package; packages and features
/// keep the order in which they were first added.
pub struct FeatureMap {
    pub entries: Vec<(String, Vec<String>)>,
}

/// The plain form of a feature map.
pub type FeatureTable = Seq<(Seq<char>, Seq<Seq<char>>)>;

impl View for FeatureMap {
    type V = FeatureTable;

    open spec fn view(&self) -> FeatureTable {
        self.entries@.map_values(|e: (String, Vec<String>)| (e.0@, views(e.1@)))
    }
}

/// Each package appears once, and its features form a sorted set
/// (strictly increasing, so each once).
pub open spec fn wf_table(m: FeatureTable) -> bool {
    &&& forall|a: int, b: int| 0 <= a < m.len() && 0 <= b < m.len() && a != b ==> m[a].0 != m[b].0
    &&& forall|k: int| 0 <= k < m.len() ==> strictly_sorted(#[trigger] m[k].1)
}

/// The position of package `p` in the table, or -1.
pub open spec fn package_index(m: FeatureTable, p: Seq<char>) -> int
    decreases m.len(),
{
    if m.len() == 0 {
        -1
    } else {
        let i = package_index(m.drop_last(), p);
        if i >= 0 {
            i
        } else if m.last().0 == p {
            m.len() - 1
        } else {
            -1
        }
    }
}

/// The table with feature `f` added to package `p` at its sorted place;
/// a feature already there is not added again.
pub open spec fn add_feature(m: FeatureTable, p: Seq<char>, f: Seq<char>) -> FeatureTable {
    let i = package_index(m, p);
    if i >= 0 {
        if m[i].1.contains(f) {
            m
        } else {
            m.update(i, (p, sorted_insert(m[i].1, f)))
        }
    } else {
        m.push((p, seq![f]))
    }
}

/// The table with each (package, feature) pair added in turn.
pub open spec fn add_all(m: FeatureTable, pairs: Seq<(Seq<char>, Seq<char>)>) -> FeatureTable
    decreases pairs.len(),
{
    if pairs.len() == 0 {
        m
    } else {
        let prev = add_all(m, pairs.drop_last());
        add_feature(prev, pairs.last().0, pairs.last().1)
    }
}

/// The package and feature a spec names: `pkg/feature` names another
/// package; a bare `feature` names the declaring package, if it has a name.
pub open spec fn spec_target(self_name: Option<Seq<char>>, spec: Seq<char>) -> Option<
    (Seq<char>, Seq<char>),
> {
    match split_once(spec, '/') {
        Some((pkg, feat)) => Some((pkg, feat)),
        None => match self_name {
            Some(n) => Some((n, spec)),
            None => None,
        },
    }
}

/// The pairs that a list of specs names, in order.
pub open spec fn spec_pairs(self_name: Option<Seq<char>>, specs: Seq<Seq<char>>) -> Seq<
    (Seq<char>, Seq<char>),
>
    decreases specs.len(),
{
    if specs.len() == 0 {
        Seq::empty()
    } else {
        let prev = spec_pairs(self_name, specs.drop_last());
        match spec_target(self_name, specs.last()) {
            Some(pair) => prev.push(pair),
            None => prev,
        }
    }
}

/// The specs the table lists under `key` (the first entry named so).
pub open spec fn table_specs(table: Seq<(String, Vec<String>)>, key: Seq<char>) -> Option<
    Seq<Seq<char>>,
>
    decreases table.len(),
{
    if table.len() == 0 {
        None
    } else {
        match table_specs(table.drop_last(), key) {
            Some(s) => Some(s),
            None => if table.last().0@ == key {
                Some(views(table.last().1@))
            } else {
                None
            },
        }
    }
}

/// The name of the package a manifest declares.
pub open spec fn manifest_name(m: CargoToml) -> Option<Seq<char>> {
    match m.package {
        Some(p) => match p.name {
            Some(n) => Some(n@),
            None => None,
        },
        None => None,
    }
}

/// The mapping table of a manifest, if it has one.
pub open spec fn manifest_table(m: CargoToml) -> Option<Seq<(String, Vec<String>)>> {
    match m.package {
        Some(p) => match p.metadata {
            Some(md) => match md.xconfig {
                Some(t) => Some(t@),
                None => None,
            },
            None => None,
        },
        None => None,
    }
}

/// The (package, feature) pairs one manifest contributes for the active
/// switches, in the order of the switches and then of the specs.
pub open spec fn manifest_pairs(m: CargoToml, active: Seq<Seq<char>>) -> Seq<(Seq<char>, Seq<char>)>
    decreases active.len(),
{
    if active.len() == 0 {
        Seq::empty()
    } else {
        let prev = manifest_pairs(m, active.drop_last());
        match manifest_table(m) {
            Some(t) => match table_specs(t, active.last()) {
                Some(specs) => prev + spec_pairs(manifest_name(m), specs),
                None => prev,
            },
            None => prev,
        }
    }
}

/// The pairs all manifests contribute, manifest by manifest.
pub open spec fn all_pairs(ms: Seq<CargoToml>, active: Seq<Seq<char>>) -> Seq<(Seq<char>, Seq<char>)>
    decreases ms.len(),
{
    if ms.len() == 0 {
        Seq::empty()
    } else {
        all_pairs(ms.drop_last(), active) + manifest_pairs(ms.last(), active)
    }
}

/// The feature map the mapper produces from the manifests.
pub open spec fn reduce(ms: Seq<CargoToml>, active: Seq<Seq<char>>) -> FeatureTable {
    add_all(Seq::empty(), all_pairs(ms, active))
}

pub proof fn lemma_add_all_append(
    m: FeatureTable,
    a: Seq<(Seq<char>, Seq<char>)>,
    b: Seq<(Seq<char>, Seq<char>)>,
)
    ensures
        add_all(m, a + b) == add_all(add_all(m, a), b),
    decreases b.len(),
{
    if b.len() == 0 {
        assert(a + b =~= a);
    } else {
        assert((a + b).drop_last() =~= a + b.drop_last());
        lemma_add_all_append(m, a, b.drop_last());
    }
}

impl FeatureMap {
    /// An empty map.
    pub fn new() -> (r: FeatureMap)
        ensures
            r@ == Seq::<(Seq<char>, Seq<Seq<char>>)>::empty(),
            r.wf(),
    {
        let r = FeatureMap { entries: Vec::new() };
        assert(r@ =~= Seq::<(Seq<char>, Seq<Seq<char>>)>::empty());
        r
    }

    /// The position of package `p`.
    fn find_package(&self, p: &str) -> (r: Option<usize>)
        ensures
            match r {
                Some(i) => i < self@.len() && package_index(self@, p@) == i && self@[i as int].0 == p@,
                None => package_index(self@, p@) == -1,
            },
    {
        let ghost m = self@;
        let mut i: usize = 0;
        while i < self.entries.len()
            invariant
                i <= self.entries.len(),
                m == self@,
                m.len() == self.entries@.len(),
                package_index(m.subrange(0, i as int), p@) == -1,
            decreases self.entries.len() - i,
        {
            assert(m.subrange(0, i + 1).drop_last() =~= m.subrange(0, i as int));
            if str_eq(self.entries[i].0.as_str(), p) {
                proof {
                    lemma_package_index_prefix(m, p@, i as int + 1);
                }
                return Some(i);
            }
            i = i + 1;
        }
        assert(m.subrange(0, i as int) =~= m);
        None
    }

    /// Whether the map keeps its invariant.
    pub open spec fn wf(&self) -> bool {
        wf_table(self@)
    }

    /// Adds feature `f` to package `p`, once, keeping its features sorted.
    pub fn add(&mut self, p: String, f: String)
        requires
            old(self).wf(),
        ensures
            final(self)@ == add_feature(old(self)@, p@, f@),
            final(self).wf(),
    {
        proof {
            lemma_add_feature_wf(self@, p@, f@);
        }
        match self.find_package(p.as_str()) {
            Some(i) => {
                let ghost m = self@;
                if crate::text::contains_str(&self.entries[i].1, f.as_str()) {
                } else {
                    let mut feats = crate::text::copy_strings(&self.entries[i].1);
                    let ghost old_feats = views(feats@);
                    assert(old_feats == m[i as int].1);
                    assert(strictly_sorted(m[i as int].1));
                    let ghost fv = f@;
                    crate::text::insert_sorted(&mut feats, f);
                    proof {
                        lemma_sorted_insert_sorted(old_feats, fv);
                        lemma_sorted_insert_set(old_feats, fv);
                        lemma_sorted_same_set_equal(views(feats@), sorted_insert(old_feats, fv));
                    }
                    self.entries.set(i, (p, feats));
                    assert(self@ =~= m.update(i as int, (p@, sorted_insert(m[i as int].1, fv))));
                }
            },
            None => {
                let ghost m = self@;
                let mut feats: Vec<String> = Vec::new();
                feats.push(f);
                let ghost fv = f@;
                assert(views(feats@) =~= seq![fv]);
                self.entries.push((p, feats));
                assert(self@ =~= m.push((p@, seq![fv])));
            },
        }
    }
}

pub proof fn lemma_package_index_prefix(m: FeatureTable, p: Seq<char>, n: int)
    requires
        0 <= n <= m.len(),
        package_index(m.subrange(0, n), p) >= 0,
    ensures
        package_index(m, p) == package_index(m.subrange(0, n), p),
    decreases m.len() - n,
{
    if n < m.len() {
        assert(m.subrange(0, n + 1).drop_last() =~= m.subrange(0, n));
        lemma_package_index_prefix(m, p, n + 1);
    } else {
        assert(m.subrange(0, n) =~= m);
    }
}

/// The specs listed under `key` in a mapping table.
pub(crate) fn find_specs(table: &Vec<(String, Vec<String>)>, key: &str) -> (r: Option<usize>)
    ensures
        match r {
            Some(i) => i < table@.len() && table_specs(table@, key@) == Some(views(table@[i as int].1@)),
            None => table_specs(table@, key@) is None,
        },
{
    let mut i: usize = 0;
    while i < table.len()
        invariant
            i <= table.len(),
            table_specs(table@.subrange(0, i as int), key@) is None,
        decreases table.len() - i,
    {
        assert(table@.subrange(0, i + 1).drop_last() =~= table@.subrange(0, i as int));
        if str_eq(table[i].0.as_str(), key) {
            proof {
                lemma_table_specs_prefix(table@, key@, i as int + 1);
            }
            return Some(i);
        }
        i = i + 1;
    }
    assert(table@.subrange(0, i as int) =~= table@);
    None
}

pub proof fn lemma_table_specs_prefix(t: Seq<(String, Vec<String>)>, k: Seq<char>, n: int)
    requires
        0 <= n <= t.len(),
        table_specs(t.subrange(0, n), k) is Some,
    ensures
        table_specs(t, k) == table_specs(t.subrange(0, n), k),
    decreases t.len() - n,
{
    if n < t.len() {
        assert(t.subrange(0, n + 1).drop_last() =~= t.subrange(0, n));
        lemma_table_specs_prefix(t, k, n + 1);
    } else {
        assert(t.subrange(0, n) =~= t);
    }
}

/// Adds to `feature_map` the features that one manifest's mapping table
/// names for the active switches: `pkg/feature` enables `feature` on
/// `pkg`, a bare `feature` enables it on the declaring package. A
/// manifest without a mapping table adds nothing.
pub fn collect_xconfig_metadata(
    cargo_toml: &CargoToml,
    active: &Vec<String>,
    feature_map: &mut FeatureMap,
)
    requires
        old(feature_map).wf(),
    ensures
        final(feature_map)@ == add_all(old(feature_map)@, manifest_pairs(*cargo_toml, views(active@))),
        final(feature_map).wf(),
{
    let ghost start = feature_map@;
    let ghost act = views(active@);
    let pkg = match &cargo_toml.package {
        Some(p) => p,
        None => {
            proof {
                lemma_no_table_no_pairs(*cargo_toml, act);
            }
            return;
        },
    };
    let table = match &pkg.metadata {
        Some(md) => match &md.xconfig {
            Some(t) => t,
            None => {
                proof {
                    lemma_no_table_no_pairs(*cargo_toml, act);
                }
                return;
            },
        },
        None => {
            proof {
                lemma_no_table_no_pairs(*cargo_toml, act);
            }
            return;
        },
    };
    let mut i: usize = 0;
    while i < active.len()
        invariant
            i <= active.len(),
            act == views(active@),
            manifest_table(*cargo_toml) == Some(table@),
            manifest_name(*cargo_toml) == match pkg.name {
                Some(n) => Some(n@),
                None => None::<Seq<char>>,
            },
            feature_map@ == add_all(start, manifest_pairs(*cargo_toml, act.subrange(0, i as int))),
            feature_map.wf(),
        decreases active.len() - i,
    {
        assert(act.subrange(0, i + 1).drop_last() =~= act.subrange(0, i as int));
        let ghost before = feature_map@;
        let ghost prefix_pairs = manifest_pairs(*cargo_toml, act.subrange(0, i as int));
        match find_specs(table, active[i].as_str()) {
            Some(t) => {
                let specs = &table[t].1;
                let ghost sv = views(specs@);
                let mut j: usize = 0;
                while j < specs.len()
                    invariant
                        j <= specs.len(),
                        sv == views(specs@),
                        manifest_name(*cargo_toml) == match pkg.name {
                            Some(n) => Some(n@),
                            None => None::<Seq<char>>,
                        },
                        feature_map.wf(),
                        feature_map@ == add_all(before, spec_pairs(
                            manifest_name(*cargo_toml),
                            sv.subrange(0, j as int),
                        )),
                    decreases specs.len() - j,
                {
                    assert(sv.subrange(0, j + 1).drop_last() =~= sv.subrange(0, j as int));
                    let ghost pairs_before = spec_pairs(
                        manifest_name(*cargo_toml),
                        sv.subrange(0, j as int),
                    );
                    match split_once_char(specs[j].as_str(), '/') {
                        Some((c, f)) => {
                            feature_map.add(c, f);
                            assert(spec_pairs(manifest_name(*cargo_toml), sv.subrange(0, j + 1))
                                == pairs_before.push((c@, f@)));
                            assert(pairs_before.push((c@, f@)).drop_last() =~= pairs_before);
                        },
                        None => {
                            match &pkg.name {
                                Some(n) => {
                                    let ghost sj = specs@[j as int]@;
                                    feature_map.add(n.clone(), specs[j].clone());
                                    assert(spec_pairs(
                                        manifest_name(*cargo_toml),
                                        sv.subrange(0, j + 1),
                                    ) == pairs_before.push((n@, sj)));
                                    assert(pairs_before.push((n@, sj)).drop_last()
                                        =~= pairs_before);
                                },
                                None => {},
                            }
                        },
                    }
                    j = j + 1;
                }
                assert(sv.subrange(0, j as int) =~= sv);
                proof {
                    lemma_add_all_append(start, prefix_pairs, spec_pairs(manifest_name(*cargo_toml), sv));
                }
            },
            None => {},
        }
        i = i + 1;
    }
    assert(act.subrange(0, i as int) =~= act);
}

pub proof fn lemma_no_table_no_pairs(m: CargoToml, active: Seq<Seq<char>>)
    requires
        manifest_table(m) is None,
    ensures
        manifest_pairs(m, active) == Seq::<(Seq<char>, Seq<char>)>::empty(),
    decreases active.len(),
{
    if active.len() > 0 {
        lemma_no_table_no_pairs(m, active.drop_last());
    }
}

/// The feature map of a workspace: every manifest's contribution for the
/// active switches, taken in sorted order (each once), manifest by
/// manifest. The result depends on the set of active switches alone.
pub fn collect_all_metadata(manifests: &Vec<CargoToml>, active: &Vec<String>) -> (r: FeatureMap)
    ensures
        r@ == reduce(manifests@, sorted_names(views(active@).to_set())),
        r.wf(),
{
    let keys = crate::text::sorted_unique(active);
    let ghost kv = views(keys@);
    let mut feature_map = FeatureMap::new();
    let mut i: usize = 0;
    while i < manifests.len()
        invariant
            i <= manifests.len(),
            kv == views(keys@),
            feature_map@ == reduce(manifests@.subrange(0, i as int), kv),
            feature_map.wf(),
        decreases manifests.len() - i,
    {
        assert(manifests@.subrange(0, i + 1).drop_last() =~= manifests@.subrange(0, i as int));
        proof {
            lemma_add_all_append(
                Seq::empty(),
                all_pairs(manifests@.subrange(0, i as int), kv),
                manifest_pairs(manifests@[i as int], kv),
            );
        }
        collect_xconfig_metadata(&manifests[i], &keys, &mut feature_map);
        i = i + 1;
    }
    assert(manifests@.subrange(0, i as int) =~= manifests@);
    feature_map
}

/// The table lists feature `f` under package `p`.
pub open spec fn has_pair(m: FeatureTable, p: Seq<char>, f: Seq<char>) -> bool {
    package_index(m, p) >= 0 && m[package_index(m, p)].1.contains(f)
}

pub proof fn lemma_package_index_bounds(m: FeatureTable, p: Seq<char>)
    ensures
        -1 <= package_index(m, p) < m.len(),
        package_index(m, p) >= 0 ==> m[package_index(m, p)].0 == p,
    decreases m.len(),
{
    if m.len() > 0 {
        lemma_package_index_bounds(m.drop_last(), p);
    }
}

pub proof fn lemma_package_index_update(m: FeatureTable, i: int, e: (Seq<char>, Seq<Seq<char>>), q: Seq<char>)
    requires
        0 <= i < m.len(),
        e.0 == m[i].0,
    ensures
        package_index(m.update(i, e), q) == package_index(m, q),
    decreases m.len(),
{
    let u = m.update(i, e);
    if i < m.len() - 1 {
        assert(u.drop_last() =~= m.drop_last().update(i, e));
        lemma_package_index_update(m.drop_last(), i, e, q);
    } else {
        assert(u.drop_last() =~= m.drop_last());
    }
}

pub proof fn lemma_add_feature_keeps(m: FeatureTable, p: Seq<char>, f: Seq<char>, q: Seq<char>, g: Seq<char>)
    requires
        has_pair(m, q, g),
    ensures
        has_pair(add_feature(m, p, f), q, g),
{
    let i = package_index(m, p);
    lemma_package_index_bounds(m, p);
    lemma_package_index_bounds(m, q);
    if i >= 0 {
        if !m[i].1.contains(f) {
            let e = (p, sorted_insert(m[i].1, f));
            lemma_package_index_update(m, i, e, q);
            let u = m.update(i, e);
            if package_index(m, q) == i {
                lemma_sorted_insert_set(m[i].1, f);
                assert(m[i].1.to_set().contains(g));
                assert(u[i].1.to_set().contains(g));
            }
        }
    } else {
        let u = m.push((p, seq![f]));
        assert(u.drop_last() =~= m);
        assert(u[m.len() as int].1[0] == f);
        assert(package_index(u, q) == package_index(m, q));
        let k = choose|k: int| 0 <= k < m[package_index(m, q)].1.len() && m[package_index(m, q)].1[k] == g;
        assert(u[package_index(m, q)].1[k] == g);
    }
}

pub proof fn lemma_add_feature_new(m: FeatureTable, p: Seq<char>, f: Seq<char>)
    ensures
        has_pair(add_feature(m, p, f), p, f),
{
    let i = package_index(m, p);
    lemma_package_index_bounds(m, p);
    if i >= 0 {
        if !m[i].1.contains(f) {
            let e = (p, sorted_insert(m[i].1, f));
            lemma_package_index_update(m, i, e, p);
            let u = m.update(i, e);
            lemma_sorted_insert_set(m[i].1, f);
            assert(u[i].1.to_set().contains(f));
        }
    } else {
        let u = m.push((p, seq![f]));
        assert(u.drop_last() =~= m);
        assert(u[m.len() as int].1[0] == f);
    }
}

/// Every pair added is listed afterwards, and what was listed stays.
pub proof fn lemma_add_all_holds(m: FeatureTable, pairs: Seq<(Seq<char>, Seq<char>)>)
    ensures
        forall|k: int| 0 <= k < pairs.len() ==> has_pair(add_all(m, pairs), #[trigger] pairs[k].0, pairs[k].1),
    decreases pairs.len(),
{
    if pairs.len() > 0 {
        let prev = pairs.drop_last();
        lemma_add_all_holds(m, prev);
        let last = pairs.last();
        lemma_add_feature_new(add_all(m, prev), last.0, last.1);
        assert forall|k: int| 0 <= k < pairs.len() implies has_pair(add_all(m, pairs), #[trigger] pairs[k].0, pairs[k].1) by {
            if k < pairs.len() - 1 {
                assert(prev[k] == pairs[k]);
                lemma_add_feature_keeps(add_all(m, prev), last.0, last.1, pairs[k].0, pairs[k].1);
            }
        }
    }
}

/// Adding pairs that a table already lists leaves it as it is.
pub proof fn lemma_add_all_listed(m: FeatureTable, pairs: Seq<(Seq<char>, Seq<char>)>)
    requires
        forall|k: int| 0 <= k < pairs.len() ==> has_pair(m, #[trigger] pairs[k].0, pairs[k].1),
    ensures
        add_all(m, pairs) == m,
    decreases pairs.len(),
{
    if pairs.len() > 0 {
        let prev = pairs.drop_last();
        assert forall|k: int| 0 <= k < prev.len() implies has_pair(m, #[trigger] prev[k].0, prev[k].1) by {
            assert(prev[k] == pairs[k]);
        }
        lemma_add_all_listed(m, prev);
        assert(has_pair(m, pairs[pairs.len() - 1].0, pairs[pairs.len() - 1].1));
    }
}

/// Running the mapper again, with the same active switches and manifests,
/// over the map it produced leaves that map unchanged: features collapse
/// as a set, so nothing accumulates from one run to the next.
pub proof fn lemma_reduce_idempotent(ms: Seq<CargoToml>, active: Seq<Seq<char>>)
    ensures
        add_all(reduce(ms, active), all_pairs(ms, active)) == reduce(ms, active),
{
    lemma_add_all_holds(Seq::empty(), all_pairs(ms, active));
    lemma_add_all_listed(reduce(ms, active), all_pairs(ms, active));
}

pub proof fn lemma_package_index_absent(m: FeatureTable, p: Seq<char>)
    ensures
        package_index(m, p) == -1 ==> forall|k: int| 0 <= k < m.len() ==> (#[trigger] m[k]).0 != p,
    decreases m.len(),
{
    if m.len() > 0 {
        lemma_package_index_absent(m.drop_last(), p);
        if package_index(m, p) == -1 {
            assert forall|k: int| 0 <= k < m.len() implies (#[trigger] m[k]).0 != p by {
                if k < m.len() - 1 {
                    assert(m.drop_last()[k] == m[k]);
                }
            }
        }
    }
}

pub proof fn lemma_add_feature_wf(m: FeatureTable, p: Seq<char>, f: Seq<char>)
    requires
        wf_table(m),
    ensures
        wf_table(add_feature(m, p, f)),
{
    let i = package_index(m, p);
    lemma_package_index_bounds(m, p);
    lemma_package_index_absent(m, p);
    let r = add_feature(m, p, f);
    if i >= 0 && !m[i].1.contains(f) {
        assert forall|k: int| 0 <= k < r.len() implies strictly_sorted(#[trigger] r[k].1) by {
            if k == i {
                lemma_sorted_insert_sorted(m[i].1, f);
            }
        }
    } else if i < 0 {
        assert forall|k: int| 0 <= k < r.len() implies strictly_sorted(#[trigger] r[k].1) by {
            if k < m.len() {
                assert(r[k] == m[k]);
            } else {
                assert(r[k].1 =~= seq![f]);
            }
        }
    }
}

pub proof fn lemma_add_all_wf(m: FeatureTable, pairs: Seq<(Seq<char>, Seq<char>)>)
    requires
        wf_table(m),
    ensures
        wf_table(add_all(m, pairs)),
    decreases pairs.len(),
{
    if pairs.len() > 0 {
        lemma_add_all_wf(m, pairs.drop_last());
        lemma_add_feature_wf(add_all(m, pairs.drop_last()), pairs.last().0, pairs.last().1);
    }
}

/// Active switch lists that hold the same switches, in any order or
/// repeated, give the workspace the same feature map.
pub proof fn lemma_reduce_set_determined(ms: Seq<CargoToml>, a1: Seq<Seq<char>>, a2: Seq<Seq<char>>)
    requires
        a1.to_set() == a2.to_set(),
    ensures
        reduce(ms, sorted_names(a1.to_set())) == reduce(ms, sorted_names(a2.to_set())),
{
}

} // verus!
