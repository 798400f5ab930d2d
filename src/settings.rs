//! The files written from resolved state: the default config file, the
//! build-tool config with the switch flags, and the editor settings. Each
//! is a pure function of its inputs, so writing it again changes nothing.
use vstd::prelude::*;
use crate::encode::{encode_flags, cfg_flag_list, uppers, uppercase_all, sorted_uppers, lemma_sorted_uppers_set};
use crate::text::sorted_names;
use crate::resolve::{lib_for, lib_pairs};
use crate::mapper::{FeatureMap, FeatureTable};
use crate::schema::{
    DefConfig, defs_of, XConfigDef, def_keys, ConfigEntry, ValueKind, violations, unknown_violations,
    schema_violations, def_violations, active_keys, config_keys, unique_names, lookup_value,
    lemma_lookup_unique,
};
use crate::text::{
    views, join, join_strings, strictly_sorted, sorted_unique, str_eq, seq_lt,
    lemma_seq_lt_irreflexive,
};

verus! {

/// The first schema entry named `k`.
pub open spec fn def_of(defs: Seq<(String, XConfigDef)>, k: Seq<char>) -> Option<XConfigDef>
    decreases defs.len(),
{
    if defs.len() == 0 {
        None
    } else {
        match def_of(defs.drop_last(), k) {
            Some(d) => Some(d),
            None => if defs.last().0@ == k {
                Some(defs.last().1)
            } else {
                None
            },
        }
    }
}

/// How a boolean is written in the config file.
pub open spec fn bool_text(b: bool) -> Seq<char> {
    if b {
        "true"@
    } else {
        "false"@
    }
}

/// The lines for one switch: its description as a comment, then `name = default`.
pub open spec fn switch_lines(k: Seq<char>, d: XConfigDef) -> Seq<char> {
    (match d.description {
        Some(x) => "# "@ + x@ + "\n"@,
        None => Seq::empty(),
    }) + k + " = "@ + bool_text(d.default) + "\n"@
}

/// The lines for each of `keys` in turn.
pub open spec fn config_lines(keys: Seq<Seq<char>>, defs: Seq<(String, XConfigDef)>) -> Seq<char>
    decreases keys.len(),
{
    if keys.len() == 0 {
        Seq::empty()
    } else {
        config_lines(keys.drop_last(), defs) + match def_of(defs, keys.last()) {
            Some(d) => switch_lines(keys.last(), d),
            None => Seq::empty(),
        }
    }
}

/// A config file listing the switches `keys` in that order, with defaults.
pub open spec fn config_file_text(keys: Seq<Seq<char>>, defs: Seq<(String, XConfigDef)>) -> Seq<
    char,
> {
    "# Auto-generated from defconfig.toml — edit as needed.\n[xconfig]\n"@ + config_lines(keys, defs)
}

fn find_def(defs: &Vec<(String, XConfigDef)>, k: &str) -> (r: Option<usize>)
    ensures
        match r {
            Some(i) => i < defs@.len() && def_of(defs@, k@) == Some(defs@[i as int].1),
            None => def_of(defs@, k@) is None,
        },
{
    let mut i: usize = 0;
    while i < defs.len()
        invariant
            i <= defs.len(),
            def_of(defs@.subrange(0, i as int), k@) is None,
        decreases defs.len() - i,
    {
        assert(defs@.subrange(0, i + 1).drop_last() =~= defs@.subrange(0, i as int));
        if str_eq(defs[i].0.as_str(), k) {
            proof {
                lemma_def_of_prefix(defs@, k@, i as int + 1);
            }
            return Some(i);
        }
        i = i + 1;
    }
    assert(defs@.subrange(0, i as int) =~= defs@);
    None
}

pub proof fn lemma_def_of_prefix(defs: Seq<(String, XConfigDef)>, k: Seq<char>, n: int)
    requires
        0 <= n <= defs.len(),
        def_of(defs.subrange(0, n), k) is Some,
    ensures
        def_of(defs, k) == def_of(defs.subrange(0, n), k),
    decreases defs.len() - n,
{
    if n < defs.len() {
        assert(defs.subrange(0, n + 1).drop_last() =~= defs.subrange(0, n));
        lemma_def_of_prefix(defs, k, n + 1);
    } else {
        assert(defs.subrange(0, n) =~= defs);
    }
}

/// The config file written when a checkout has none: every switch of the
/// schema, sorted by name, with its description as a comment and its
/// default as value.
pub fn default_config_text(defs: &Vec<(String, XConfigDef)>) -> (r: String)
    ensures
        r@ == config_file_text(sorted_names(def_keys(defs@).to_set()), defs@),
{
    let names = crate::schema::schema_names(defs);
    let keys = sorted_unique(&names);
    let ghost kv = views(keys@);
    let mut out = String::from_str("# Auto-generated from defconfig.toml — edit as needed.\n[xconfig]\n");
    let ghost head = out@;
    let mut i: usize = 0;
    while i < keys.len()
        invariant
            i <= keys.len(),
            kv == views(keys@),
            out@ == head + config_lines(kv.subrange(0, i as int), defs@),
        decreases keys.len() - i,
    {
        assert(kv.subrange(0, i + 1).drop_last() =~= kv.subrange(0, i as int));
        let ghost before = out@;
        match find_def(defs, keys[i].as_str()) {
            Some(d) => {
                let def = &defs[d].1;
                match &def.description {
                    Some(x) => {
                        out.append("# ");
                        out.append(x.as_str());
                        out.append("\n");
                    },
                    None => {},
                }
                out.append(keys[i].as_str());
                out.append(" = ");
                if def.default {
                    out.append("true");
                } else {
                    out.append("false");
                }
                out.append("\n");
                assert(out@ =~= before + switch_lines(kv[i as int], defs@[d as int].1));
            },
            None => {},
        }
        assert(out@ =~= head + config_lines(kv.subrange(0, i + 1), defs@));
        i = i + 1;
    }
    assert(kv.subrange(0, i as int) =~= kv);
    out
}

/// `"flag"` for each flag.
pub open spec fn quoted(flags: Seq<Seq<char>>) -> Seq<Seq<char>> {
    flags.map_values(|f: Seq<char>| "\""@ + f + "\""@)
}

/// `--extern=name=path` for each prebuilt library.
pub open spec fn extern_args(libs: Seq<(Seq<char>, Seq<char>)>) -> Seq<Seq<char>> {
    libs.map_values(|e: (Seq<char>, Seq<char>)| "--extern="@ + e.0 + "="@ + e.1)
}

/// The libraries by compiler name in sorted order, each name once with
/// the path first given for it.
pub open spec fn sorted_libs(libs: Seq<(Seq<char>, Seq<char>)>) -> Seq<(Seq<char>, Seq<char>)> {
    sorted_names(libs.map_values(|e: (Seq<char>, Seq<char>)| e.0).to_set()).map_values(
        |n: Seq<char>|
            (
                n,
                match lib_for(libs, n) {
                    Some(p) => p,
                    None => Seq::empty(),
                },
            ),
    )
}

/// The libraries sorted by compiler name, each name once.
pub fn sorted_libraries(libraries: &Vec<(String, String)>) -> (r: Vec<(String, String)>)
    ensures
        lib_pairs(r@) == sorted_libs(lib_pairs(libraries@)),
{
    let ghost lv = lib_pairs(libraries@);
    let mut names: Vec<String> = Vec::new();
    let mut i: usize = 0;
    while i < libraries.len()
        invariant
            i <= libraries.len(),
            lv == lib_pairs(libraries@),
            views(names@) == lv.subrange(0, i as int).map_values(|e: (Seq<char>, Seq<char>)| e.0),
        decreases libraries.len() - i,
    {
        let ghost before = names@;
        names.push(libraries[i].0.clone());
        assert(views(names@) =~= views(before).push(libraries@[i as int].0@));
        assert(views(names@) =~= lv.subrange(0, i + 1).map_values(|e: (Seq<char>, Seq<char>)| e.0));
        i = i + 1;
    }
    assert(lv.subrange(0, i as int) =~= lv);
    let keys = sorted_unique(&names);
    let ghost kv = views(keys@);
    let mut out: Vec<(String, String)> = Vec::new();
    let mut j: usize = 0;
    while j < keys.len()
        invariant
            j <= keys.len(),
            kv == views(keys@),
            lv == lib_pairs(libraries@),
            lib_pairs(out@) == kv.subrange(0, j as int).map_values(
                |n: Seq<char>|
                    (
                        n,
                        match lib_for(lv, n) {
                            Some(p) => p,
                            None => Seq::<char>::empty(),
                        },
                    ),
            ),
        decreases keys.len() - j,
    {
        let path = match crate::resolve::find_lib(libraries, keys[j].as_str()) {
            Some(k) => libraries[k].1.clone(),
            None => String::new(),
        };
        let ghost before = out@;
        let name = keys[j].clone();
        assert(path@ == match lib_for(lv, kv[j as int]) {
            Some(p) => p,
            None => Seq::<char>::empty(),
        });
        out.push((name, path));
        assert(lib_pairs(out@) =~= lib_pairs(before).push((kv[j as int], path@)));
        assert(lib_pairs(out@) =~= kv.subrange(0, j + 1).map_values(
            |n: Seq<char>|
                (
                    n,
                    match lib_for(lv, n) {
                        Some(p) => p,
                        None => Seq::<char>::empty(),
                    },
                ),
        ));
        j = j + 1;
    }
    assert(kv.subrange(0, j as int) =~= kv);
    out
}

/// What `Path::parent` gives for a path, as text.
pub uninterp spec fn parent_of(p: Seq<char>) -> Option<Seq<char>>;

/// Relies on `std::path::Path::parent`: the path without its last component,
/// or `None` for a root or an empty path.
#[verifier::external_body]
fn parent_dir(p: &str) -> (r: Option<String>)
    ensures
        match r {
            Some(d) => parent_of(p@) == Some(d@),
            None => parent_of(p@) is None,
        },
{
    match std::path::Path::new(p).parent() {
        Some(d) => Some(d.to_string_lossy().into_owned()),
        None => None,
    }
}

/// `-Ldependency=dir` for the directory of the first prebuilt library.
pub open spec fn search_dir_arg(libs: Seq<(Seq<char>, Seq<char>)>) -> Seq<Seq<char>> {
    if libs.len() == 0 {
        Seq::empty()
    } else {
        match parent_of(libs[0].1) {
            Some(d) => seq!["-Ldependency="@ + d],
            None => Seq::empty(),
        }
    }
}

/// The build-tool config holding `flags`, each quoted.
pub open spec fn cargo_config_text(flags: Seq<Seq<char>>) -> Seq<char> {
    "# Auto-generated by cargo-xbuild — do not edit manually.\n# Run `cargo xbuild` to regenerate after changing .config.toml.\n"@
        + "\n[build]\nrustflags = [\n    "@ + join(quoted(flags), ", \n    "@) + "\n]\n"@
}

/// The build-tool config that carries the switch flags to editor tooling:
/// one activation per active switch, one declaration per known switch,
/// an extern binding per prebuilt optional dependency (name, library
/// path) and the library search directory of the first of them.
pub fn cargo_config_content(
    active: &Vec<String>,
    all_keys: &Vec<String>,
    libraries: &Vec<(String, String)>,
) -> (r: String)
    ensures
        r@ == cargo_config_text(
            cfg_flag_list(sorted_uppers(views(active@)), sorted_uppers(views(all_keys@))) + extern_args(
                sorted_libs(lib_pairs(libraries@)),
            ) + search_dir_arg(sorted_libs(lib_pairs(libraries@))),
        ),
{
    let sorted = sorted_libraries(libraries);
    let rlib_paths = &sorted;
    let ghost libs = rlib_paths@.map_values(|e: (String, String)| (e.0@, e.1@));
    let mut flags = encode_flags(active, all_keys);
    let ghost first = views(flags@);
    let mut i: usize = 0;
    while i < rlib_paths.len()
        invariant
            i <= rlib_paths.len(),
            libs == rlib_paths@.map_values(|e: (String, String)| (e.0@, e.1@)),
            views(flags@) == first + extern_args(libs.subrange(0, i as int)),
        decreases rlib_paths.len() - i,
    {
        let mut f = String::from_str("--extern=");
        f.append(rlib_paths[i].0.as_str());
        f.append("=");
        f.append(rlib_paths[i].1.as_str());
        let ghost before = flags@;
        flags.push(f);
        assert(views(flags@) =~= views(before).push(f@));
        assert(extern_args(libs.subrange(0, i + 1)) =~= extern_args(libs.subrange(0, i as int)).push(
            "--extern="@ + libs[i as int].0 + "="@ + libs[i as int].1,
        ));
        i = i + 1;
    }
    assert(libs.subrange(0, i as int) =~= libs);
    let ghost second = views(flags@);
    if rlib_paths.len() > 0 {
        match parent_dir(rlib_paths[0].1.as_str()) {
            Some(d) => {
                let mut f = String::from_str("-Ldependency=");
                f.append(d.as_str());
                flags.push(f);
                assert(views(flags@) =~= second + seq![f@]);
            },
            None => {
                assert(views(flags@) =~= second + Seq::<Seq<char>>::empty());
            },
        }
    } else {
        assert(views(flags@) =~= second + Seq::<Seq<char>>::empty());
    }
    let ghost fv = views(flags@);
    let mut quoted_flags: Vec<String> = Vec::new();
    let mut j: usize = 0;
    while j < flags.len()
        invariant
            j <= flags.len(),
            fv == views(flags@),
            views(quoted_flags@) == quoted(fv.subrange(0, j as int)),
        decreases flags.len() - j,
    {
        let mut q = String::from_str("\"");
        q.append(flags[j].as_str());
        q.append("\"");
        let ghost before = quoted_flags@;
        quoted_flags.push(q);
        assert(views(quoted_flags@) =~= views(before).push(q@));
        assert(quoted(fv.subrange(0, j + 1)) =~= quoted(fv.subrange(0, j as int)).push(
            "\""@ + fv[j as int] + "\""@,
        ));
        j = j + 1;
    }
    assert(fv.subrange(0, j as int) =~= fv);
    let mut content = String::from_str(
        "# Auto-generated by cargo-xbuild — do not edit manually.\n# Run `cargo xbuild` to regenerate after changing .config.toml.\n",
    );
    content.append("\n[build]\nrustflags = [\n    ");
    let body = join_strings(&quoted_flags, ", \n    ");
    content.append(body.as_str());
    content.append("\n]\n");
    content
}

/// What serde_json's pretty printer writes for an object holding two
/// string lists under two keys.
pub uninterp spec fn json_two_lists(
    k1: Seq<char>,
    v1: Seq<Seq<char>>,
    k2: Seq<char>,
    v2: Seq<Seq<char>>,
) -> Seq<char>;

/// Relies on serde_json: a `Value::Object` with two string arrays,
/// rendered by `Display` with the alternate flag (its pretty printer).
#[verifier::external_body]
fn render_json_lists(k1: &str, v1: &Vec<String>, k2: &str, v2: &Vec<String>) -> (r: String)
    ensures
        r@ == json_two_lists(k1@, views(v1@), k2@, views(v2@)),
{
    let mut m = serde_json::Map::new();
    m.insert(k1.to_string(), serde_json::Value::from(v1.clone()));
    m.insert(k2.to_string(), serde_json::Value::from(v2.clone()));
    format!("{:#}", serde_json::Value::Object(m))
}

/// `package/feature` for each feature of each package.
pub open spec fn qualified_features(m: FeatureTable) -> Seq<Seq<char>>
    decreases m.len(),
{
    if m.len() == 0 {
        Seq::empty()
    } else {
        qualified_features(m.drop_last()) + m.last().1.map_values(
            |f: Seq<char>| m.last().0 + "/"@ + f,
        )
    }
}

/// The fully qualified features of a feature map, sorted, each once.
pub fn feature_list(feature_map: &FeatureMap) -> (r: Vec<String>)
    ensures
        strictly_sorted(views(r@)),
        views(r@).to_set() == qualified_features(feature_map@).to_set(),
{
    let ghost m = feature_map@;
    let mut all: Vec<String> = Vec::new();
    let mut i: usize = 0;
    while i < feature_map.entries.len()
        invariant
            i <= feature_map.entries.len(),
            m == feature_map@,
            views(all@) == qualified_features(m.subrange(0, i as int)),
        decreases feature_map.entries.len() - i,
    {
        assert(m.subrange(0, i + 1).drop_last() =~= m.subrange(0, i as int));
        let name = &feature_map.entries[i].0;
        let feats = &feature_map.entries[i].1;
        let ghost before = views(all@);
        let mut j: usize = 0;
        while j < feats.len()
            invariant
                j <= feats.len(),
                m == feature_map@,
                i < feature_map.entries.len(),
                name == feature_map.entries@[i as int].0,
                feats == feature_map.entries@[i as int].1,
                views(all@) == before + views(feats@).subrange(0, j as int).map_values(
                    |f: Seq<char>| name@ + "/"@ + f,
                ),
            decreases feats.len() - j,
        {
            let mut q = name.clone();
            q.append("/");
            q.append(feats[j].as_str());
            let ghost prev = all@;
            all.push(q);
            assert(views(all@) =~= views(prev).push(q@));
            assert(views(feats@).subrange(0, j + 1).map_values(|f: Seq<char>| name@ + "/"@ + f)
                =~= views(feats@).subrange(0, j as int).map_values(
                |f: Seq<char>| name@ + "/"@ + f,
            ).push(name@ + "/"@ + feats@[j as int]@));
            j = j + 1;
        }
        assert(views(feats@).subrange(0, j as int) =~= views(feats@));
        assert(m[i as int] == (name@, views(feats@)));
        assert(views(all@) =~= qualified_features(m.subrange(0, i + 1)));
        i = i + 1;
    }
    assert(m.subrange(0, i as int) =~= m);
    sorted_unique(&all)
}

/// The editor settings: the qualified features to enable and the active
/// switches upper-cased, each list sorted with each entry once, as pretty-printed JSON
/// followed by a newline.
pub fn vscode_settings_content(active: &Vec<String>, feature_map: &FeatureMap) -> (r: String)
    ensures
        r@ == json_two_lists(
            "rust-analyzer.cargo.features"@,
            sorted_names(qualified_features(feature_map@).to_set()),
            "rust-analyzer.cargo.cfgs"@,
            sorted_uppers(views(active@)),
        ) + "\n"@,
{
    let features = feature_list(feature_map);
    let cfgs = crate::text::sorted_unique(&uppercase_all(active));
    proof {
        crate::text::lemma_sorted_names(views(features@));
    }
    let mut s = render_json_lists(
        "rust-analyzer.cargo.features",
        &features,
        "rust-analyzer.cargo.cfgs",
        &cfgs,
    );
    s.append("\n");
    s
}

/// The entries that a config file written by `default_config_text` for
/// the switches `keys` records: each switch with its default, a boolean.
pub open spec fn default_entries(keys: Seq<Seq<char>>, defs: Seq<(String, XConfigDef)>) -> Seq<
    ConfigEntry,
> {
    keys.map_values(
        |k: Seq<char>|
            {
                let b = match def_of(defs, k) {
                    Some(d) => d.default,
                    None => false,
                };
                (k, ValueKind::Boolean(b), bool_text(b))
            },
    )
}

/// The switches whose default is on.
pub open spec fn default_on(defs: Seq<(String, XConfigDef)>) -> Set<Seq<char>> {
    Set::new(|k: Seq<char>| exists|j: int| 0 <= j < defs.len() && (#[trigger] defs[j]).0@ == k && defs[j].1.default)
}

pub proof fn lemma_def_of_unique(defs: Seq<(String, XConfigDef)>)
    requires
        unique_names(def_keys(defs)),
    ensures
        forall|j: int| 0 <= j < defs.len() ==> def_of(defs, (#[trigger] defs[j]).0@) == Some(defs[j].1),
    decreases defs.len(),
{
    if defs.len() > 0 {
        let prev = defs.drop_last();
        let n = defs.len() - 1;
        assert(unique_names(def_keys(prev))) by {
            assert forall|i: int, j: int| 0 <= i < prev.len() && 0 <= j < prev.len() && i != j implies def_keys(prev)[i] != def_keys(prev)[j] by {
                assert(def_keys(defs)[i] != def_keys(defs)[j]);
            }
        }
        lemma_def_of_unique(prev);
        assert forall|j: int| 0 <= j < defs.len() implies def_of(defs, (#[trigger] defs[j]).0@) == Some(defs[j].1) by {
            if j < n {
                assert(prev[j] == defs[j]);
            } else {
                lemma_def_of_absent(prev, defs[n].0@);
                assert forall|i: int| 0 <= i < prev.len() implies (#[trigger] prev[i]).0@ != defs[n].0@ by {
                    assert(def_keys(defs)[i] != def_keys(defs)[n]);
                }
            }
        }
    }
}

pub proof fn lemma_def_of_absent(defs: Seq<(String, XConfigDef)>, k: Seq<char>)
    ensures
        (forall|i: int| 0 <= i < defs.len() ==> (#[trigger] defs[i]).0@ != k) ==> def_of(defs, k) is None,
    decreases defs.len(),
{
    if defs.len() > 0 {
        lemma_def_of_absent(defs.drop_last(), k);
        if forall|i: int| 0 <= i < defs.len() ==> (#[trigger] defs[i]).0@ != k {
            assert forall|i: int| 0 <= i < defs.len() - 1 implies (#[trigger] defs.drop_last()[i]).0@ != k by {
                assert(defs[i] == defs.drop_last()[i]);
            }
            assert(defs[defs.len() - 1].0@ != k);
        }
    }
}

pub proof fn lemma_unknown_none(c: Seq<ConfigEntry>, defs: Seq<(String, XConfigDef)>)
    requires
        forall|i: int| 0 <= i < c.len() ==> def_keys(defs).contains((#[trigger] c[i]).0),
    ensures
        unknown_violations(c, defs).len() == 0,
    decreases c.len(),
{
    if c.len() > 0 {
        assert forall|i: int| 0 <= i < c.len() - 1 implies def_keys(defs).contains((#[trigger] c.drop_last()[i]).0) by {
            assert(c.drop_last()[i] == c[i]);
        }
        lemma_unknown_none(c.drop_last(), defs);
        assert(def_keys(defs).contains(c[c.len() - 1].0));
    }
}

pub proof fn lemma_schema_none(c: Seq<ConfigEntry>, defs: Seq<(String, XConfigDef)>)
    requires
        forall|j: int| 0 <= j < defs.len() ==> def_violations(c, (#[trigger] defs[j]).0@, defs[j].1).len() == 0,
    ensures
        schema_violations(c, defs).len() == 0,
    decreases defs.len(),
{
    if defs.len() > 0 {
        assert forall|j: int| 0 <= j < defs.len() - 1 implies def_violations(c, (#[trigger] defs.drop_last()[j]).0@, defs.drop_last()[j].1).len() == 0 by {
            assert(defs.drop_last()[j] == defs[j]);
        }
        lemma_schema_none(c, defs.drop_last());
        assert(def_violations(c, defs[defs.len() - 1].0@, defs[defs.len() - 1].1).len() == 0);
    }
}

pub proof fn lemma_active_iff(c: Seq<ConfigEntry>, k: Seq<char>)
    ensures
        active_keys(c).contains(k) <==> exists|i: int|
            0 <= i < c.len() && (#[trigger] c[i]).0 == k && c[i].1 == ValueKind::Boolean(true),
    decreases c.len(),
{
    if c.len() > 0 {
        let prev = c.drop_last();
        let n = c.len() - 1;
        lemma_active_iff(prev, k);
        let pa = active_keys(prev);
        let ca = active_keys(c);
        if ca.contains(k) {
            let m = choose|m: int| 0 <= m < ca.len() && ca[m] == k;
            if c[n].1 == ValueKind::Boolean(true) {
                assert(ca == pa.push(c[n].0));
                if m < pa.len() {
                    assert(pa[m] == k);
                } else {
                    assert(c[n].0 == k);
                }
            } else {
                assert(ca == pa);
            }
            if pa.contains(k) {
                let i = choose|i: int|
                    0 <= i < prev.len() && (#[trigger] prev[i]).0 == k && prev[i].1 == ValueKind::Boolean(true);
                assert(c[i] == prev[i]);
            }
        }
        if exists|i: int| 0 <= i < c.len() && (#[trigger] c[i]).0 == k && c[i].1 == ValueKind::Boolean(true) {
            let i = choose|i: int|
                0 <= i < c.len() && (#[trigger] c[i]).0 == k && c[i].1 == ValueKind::Boolean(true);
            if i < n {
                assert(prev[i] == c[i]);
                let m = choose|m: int| 0 <= m < pa.len() && pa[m] == k;
                if c[n].1 == ValueKind::Boolean(true) {
                    assert(ca == pa.push(c[n].0));
                    assert(ca[m] == k);
                } else {
                    assert(ca == pa);
                }
            } else {
                assert(ca == pa.push(k));
                assert(ca[pa.len() as int] == k);
            }
        }
    }
}

/// Writing the default config file and then loading it back: when every
/// switch of the schema is boolean, the config that the file records
/// passes validation with no error, and its active switches are exactly
/// those whose default is on.
pub proof fn lemma_default_config_round_trip(keys: Seq<Seq<char>>, defs: Seq<(String, XConfigDef)>)
    requires
        strictly_sorted(keys),
        keys.to_set() == def_keys(defs).to_set(),
        unique_names(def_keys(defs)),
        forall|j: int| 0 <= j < defs.len() ==> (#[trigger] defs[j]).1.typ@ == "bool"@,
    ensures
        violations(default_entries(keys, defs), defs).len() == 0,
        active_keys(default_entries(keys, defs)).to_set() == default_on(defs),
{
    let c = default_entries(keys, defs);
    lemma_def_of_unique(defs);
    assert(unique_names(config_keys(c))) by {
        assert forall|i: int, j: int| 0 <= i < c.len() && 0 <= j < c.len() && i != j implies config_keys(c)[i] != config_keys(c)[j] by {
            if keys[i] == keys[j] {
                lemma_seq_lt_irreflexive(keys[i]);
                if i < j {
                    assert(seq_lt(keys[i], keys[j]));
                } else {
                    assert(seq_lt(keys[j], keys[i]));
                }
            }
        }
    }
    assert forall|i: int| 0 <= i < c.len() implies def_keys(defs).contains((#[trigger] c[i]).0) by {
        assert(keys.to_set().contains(keys[i]));
    }
    lemma_unknown_none(c, defs);
    assert forall|j: int| 0 <= j < defs.len() implies def_violations(c, (#[trigger] defs[j]).0@, defs[j].1).len() == 0 by {
        let k = defs[j].0@;
        assert(def_keys(defs)[j] == k);
        assert(def_keys(defs).to_set().contains(k));
        assert(keys.to_set().contains(k));
        let i = choose|i: int| 0 <= i < keys.len() && keys[i] == k;
        assert(c[i].0 == k);
        lemma_lookup_unique(c, k);
        assert(lookup_value(c, k) == Some((c[i].1, c[i].2)));
    }
    lemma_schema_none(c, defs);
    assert forall|k: Seq<char>| #[trigger] active_keys(c).to_set().contains(k) <==> default_on(defs).contains(k) by {
        lemma_active_iff(c, k);
        if active_keys(c).contains(k) {
            let i = choose|i: int| 0 <= i < c.len() && (#[trigger] c[i]).0 == k && c[i].1 == ValueKind::Boolean(true);
            assert(keys.to_set().contains(keys[i]));
            let j = choose|j: int| 0 <= j < def_keys(defs).len() && def_keys(defs)[j] == k;
            assert(defs[j].0@ == k);
        }
        if default_on(defs).contains(k) {
            let j = choose|j: int| 0 <= j < defs.len() && (#[trigger] defs[j]).0@ == k && defs[j].1.default;
            assert(def_keys(defs)[j] == k);
            assert(def_keys(defs).to_set().contains(k));
            let i = choose|i: int| 0 <= i < keys.len() && keys[i] == k;
            assert(c[i].0 == k && c[i].1 == ValueKind::Boolean(true));
        }
    }
    assert(active_keys(c).to_set() =~= default_on(defs));
}

/// The generated files depend on their inputs alone, and only on them as
/// sets: the default config file on the set of schema names (its
/// contract); the build-tool config on the libraries as a map from name to
/// path, and its flags on
/// the sets of active and known switches; the editor settings on the set
/// of active switches and the set of qualified features. Presenting the
/// same switches or features in another order, or repeated, changes no
/// byte. (The mapper's result, too, depends on the set of active
/// switches only: see `collect_all_metadata`.)
pub proof fn lemma_generated_files_deterministic(
    a1: Seq<Seq<char>>,
    a2: Seq<Seq<char>>,
    k1: Seq<Seq<char>>,
    k2: Seq<Seq<char>>,
    fm1: FeatureTable,
    fm2: FeatureTable,
    l1: Seq<(Seq<char>, Seq<char>)>,
    l2: Seq<(Seq<char>, Seq<char>)>,
)
    requires
        a1.to_set() == a2.to_set(),
        k1.to_set() == k2.to_set(),
        qualified_features(fm1).to_set() == qualified_features(fm2).to_set(),
        l1.map_values(|e: (Seq<char>, Seq<char>)| e.0).to_set() == l2.map_values(
            |e: (Seq<char>, Seq<char>)| e.0,
        ).to_set(),
        forall|n: Seq<char>| lib_for(l1, n) == lib_for(l2, n),
    ensures
        sorted_libs(l1) == sorted_libs(l2),
        cfg_flag_list(sorted_uppers(a1), sorted_uppers(k1)) == cfg_flag_list(
            sorted_uppers(a2),
            sorted_uppers(k2),
        ),
        json_two_lists(
            "rust-analyzer.cargo.features"@,
            sorted_names(qualified_features(fm1).to_set()),
            "rust-analyzer.cargo.cfgs"@,
            sorted_uppers(a1),
        ) == json_two_lists(
            "rust-analyzer.cargo.features"@,
            sorted_names(qualified_features(fm2).to_set()),
            "rust-analyzer.cargo.cfgs"@,
            sorted_uppers(a2),
        ),
{
    lemma_sorted_uppers_set(a1, a2);
    lemma_sorted_uppers_set(k1, k2);
    assert(sorted_libs(l1) =~= sorted_libs(l2));
}

/// Writing the default config file for a schema and loading it back: when
/// every switch is boolean, the config that the written file records (its
/// switches in the order `default_config_text` writes them) passes
/// validation with no error, and its active switches are exactly those
/// whose default is on.
pub proof fn lemma_written_config_round_trip(d: DefConfig)
    requires
        d.wf(),
        forall|j: int| 0 <= j < defs_of(d).len() ==> (#[trigger] defs_of(d)[j]).1.typ@ == "bool"@,
    ensures
        violations(
            default_entries(sorted_names(def_keys(defs_of(d)).to_set()), defs_of(d)),
            defs_of(d),
        ).len() == 0,
        active_keys(
            default_entries(sorted_names(def_keys(defs_of(d)).to_set()), defs_of(d)),
        ).to_set() == default_on(defs_of(d)),
{
    crate::text::lemma_sorted_names_exist(def_keys(defs_of(d)));
    lemma_default_config_round_trip(sorted_names(def_keys(defs_of(d)).to_set()), defs_of(d));
}

} // verus!
