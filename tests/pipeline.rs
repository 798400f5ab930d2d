use xconfig::encode::{
    build_command_args, build_rustflags, encode_features_env, encode_flags, fingerprint_cfg,
    fingerprint_flag, hex_fixed,
};
use xconfig::intercept::{crate_name_arg, externs_for_unit, features_for_unit, wrapped_args};
use xconfig::mapper::{collect_all_metadata, collect_xconfig_metadata, CargoToml, FeatureMap, Metadata, Package};
use xconfig::resolve::{
    artifact_rlib, classify_source, default_true, encode_externs_env, CargoMessage, CargoTarget, ExternDep, ExternMap, manifests_needed, metadata_covers, resolve_extern_map,
    resolve_extern_map_from_metadata, CargoMetadata, DepCargoToml, DepSource, GraphPlan,
    MetadataDep, MetadataPackage, ResolveError,
};
use xconfig::schema::{
    default_type, load_active_xconfigs, project_root, validate_config, ConfigValue, DefConfig,
    ProjectConfig, ValidationError, ValueKind, XConfigDef,
};
use xconfig::settings::{cargo_config_content, default_config_text, feature_list, vscode_settings_content};
use xconfig::text::{split_fields, str_lt, underscore_name};

fn s(x: &str) -> String {
    x.to_string()
}

fn def(typ: &str, default: bool, description: Option<&str>) -> XConfigDef {
    XConfigDef { description: description.map(s), typ: s(typ), default }
}

fn boolean(b: bool) -> ConfigValue {
    ConfigValue { kind: ValueKind::Boolean(b), text: s(if b { "true" } else { "false" }) }
}

fn schema_ab() -> DefConfig {
    DefConfig {
        xconfig: Some(vec![(s("a"), def("bool", false, None)), (s("b"), def("bool", true, None))]),
    }
}

fn manifest(name: &str, table: Vec<(&str, Vec<&str>)>) -> CargoToml {
    CargoToml {
        package: Some(Package {
            name: Some(s(name)),
            metadata: Some(Metadata {
                xconfig: Some(
                    table
                        .into_iter()
                        .map(|(k, v)| (s(k), v.into_iter().map(s).collect()))
                        .collect(),
                ),
            }),
        }),
    }
}

fn strings(v: &[&str]) -> Vec<String> {
    v.iter().map(|x| s(x)).collect()
}

fn messages(r: &Result<(), Vec<ValidationError>>) -> Vec<String> {
    match r {
        Ok(()) => vec![],
        Err(e) => {
            let mut m: Vec<String> = e.iter().map(|x| x.message()).collect();
            m.sort();
            m
        }
    }
}

#[test]
fn two_true_switches_are_both_active() {
    let config = ProjectConfig { xconfig: Some(vec![(s("a"), boolean(true)), (s("b"), boolean(true))]) };
    let (active, all) = match load_active_xconfigs(&schema_ab(), &config) {
        Ok(r) => r,
        Err(_) => panic!("validation failed"),
    };
    assert_eq!(active, strings(&["a", "b"]));
    assert_eq!(all, strings(&["a", "b"]));
}

#[test]
fn missing_key_gives_exactly_one_error() {
    let config = ProjectConfig { xconfig: Some(vec![(s("a"), boolean(true))]) };
    match load_active_xconfigs(&schema_ab(), &config) {
        Ok(_) => panic!("expected a validation failure"),
        Err(e) => {
            assert_eq!(e.len(), 1);
            assert!(matches!(&e[0], ValidationError::MissingKey { key, typ } if key == "b" && typ == "bool"));
            assert_eq!(
                e[0].message(),
                "missing xconfig key `b` (defined in defconfig.toml as type=\"bool\")"
            );
        }
    }
}

#[test]
fn active_set_lies_within_schema() {
    let config = ProjectConfig { xconfig: Some(vec![(s("b"), boolean(true)), (s("a"), boolean(false))]) };
    let (active, all) = match load_active_xconfigs(&schema_ab(), &config) {
        Ok(r) => r,
        Err(_) => panic!("validation failed"),
    };
    assert_eq!(active, strings(&["b"]));
    for k in &active {
        assert!(all.contains(k));
    }
}

#[test]
fn absent_tables_are_empty() {
    let r = load_active_xconfigs(&DefConfig { xconfig: None }, &ProjectConfig { xconfig: None });
    match r {
        Ok((active, all)) => {
            assert!(active.is_empty());
            assert!(all.is_empty());
        }
        Err(_) => panic!("empty schema and config must validate"),
    }
}

#[test]
fn every_violation_is_reported_at_once() {
    let defs = vec![
        (s("a"), def("bool", false, None)),
        (s("n"), def("int", false, None)),
        (s("t"), def("string", false, None)),
        (s("f"), def("float", false, None)),
        (s("m"), def("bool", false, None)),
    ];
    let config = vec![
        (s("a"), ConfigValue { kind: ValueKind::Integer, text: s("42") }),
        (s("n"), ConfigValue { kind: ValueKind::Integer, text: s("7") }),
        (s("t"), boolean(true)),
        (s("f"), ConfigValue { kind: ValueKind::Float, text: s("1.5") }),
        (s("zz"), boolean(true)),
    ];
    let r = validate_config(&config, &defs);
    assert_eq!(
        messages(&r),
        vec![
            s("missing xconfig key `m` (defined in defconfig.toml as type=\"bool\")"),
            s("unknown xconfig key `zz` (not defined in defconfig.toml)"),
            s("xconfig key `a`: expected type `bool`, got `42`"),
            s("xconfig key `f`: unsupported type `float` in defconfig.toml"),
            s("xconfig key `t`: expected type `string`, got `true`"),
        ]
    );
    match r {
        Err(e) => {
            assert!(matches!(&e[0], ValidationError::UnknownKey(k) if k == "zz"));
            assert!(matches!(&e[1], ValidationError::TypeMismatch { key, .. } if key == "a"));
            assert!(matches!(&e[2], ValidationError::TypeMismatch { key, .. } if key == "t"));
            assert!(matches!(&e[3], ValidationError::UnsupportedType { key, typ } if key == "f" && typ == "float"));
            assert!(matches!(&e[4], ValidationError::MissingKey { key, .. } if key == "m"));
        }
        Ok(()) => panic!("expected errors"),
    }
}

#[test]
fn error_set_ignores_key_order() {
    let defs1 = vec![(s("a"), def("bool", false, None)), (s("b"), def("int", false, None)), (s("c"), def("bool", false, None))];
    let defs2 = vec![(s("c"), def("bool", false, None)), (s("a"), def("bool", false, None)), (s("b"), def("int", false, None))];
    let c1 = vec![(s("x"), boolean(true)), (s("a"), ConfigValue { kind: ValueKind::Str, text: s("\"on\"") }), (s("b"), boolean(false))];
    let c2 = vec![(s("b"), boolean(false)), (s("x"), boolean(true)), (s("a"), ConfigValue { kind: ValueKind::Str, text: s("\"on\"") })];
    let m1 = messages(&validate_config(&c1, &defs1));
    let m2 = messages(&validate_config(&c2, &defs2));
    assert_eq!(m1.len(), 4);
    assert_eq!(m1, m2);
}

#[test]
fn default_type_is_bool() {
    assert_eq!(default_type(), "bool");
    assert!(default_true());
}

#[test]
fn mapper_enables_cross_and_self_features() {
    let p = manifest("P", vec![("a", vec!["P2/x", "y"])]);
    let mut fm = FeatureMap::new();
    collect_xconfig_metadata(&p, &strings(&["a"]), &mut fm);
    assert_eq!(fm.entries, vec![(s("P2"), strings(&["x"])), (s("P"), strings(&["y"]))]);
}

#[test]
fn mapper_skips_inactive_and_unmapped() {
    let p = manifest("P", vec![("a", vec!["x"]), ("b", vec!["Q/z"])]);
    let bare = CargoToml { package: Some(Package { name: Some(s("R")), metadata: None }) };
    let fm = collect_all_metadata(&vec![p, bare], &strings(&["b", "c"]));
    assert_eq!(fm.entries, vec![(s("Q"), strings(&["z"]))]);
}

#[test]
fn mapper_without_name_skips_bare_specs() {
    let mut p = manifest("P", vec![("a", vec!["x", "Q/y"])]);
    if let Some(pkg) = p.package.as_mut() {
        pkg.name = None;
    }
    let fm = collect_all_metadata(&vec![p], &strings(&["a"]));
    assert_eq!(fm.entries, vec![(s("Q"), strings(&["y"]))]);
}

#[test]
fn mapper_rerun_adds_nothing() {
    let ms = vec![
        manifest("P", vec![("a", vec!["Q/x", "y", "Q/x"])]),
        manifest("Q", vec![("a", vec!["x"]), ("b", vec!["P/y"])]),
    ];
    let active = strings(&["a", "b"]);
    let mut fm = collect_all_metadata(&ms, &active);
    let first = fm.entries.clone();
    assert_eq!(first, vec![(s("Q"), strings(&["x"])), (s("P"), strings(&["y"]))]);
    for m in &ms {
        collect_xconfig_metadata(m, &active, &mut fm);
    }
    assert_eq!(fm.entries, first);
    assert_eq!(collect_all_metadata(&ms, &active).entries, first);
}

#[test]
fn mapping_change_changes_fingerprint() {
    let active = strings(&["a"]);
    let before = collect_all_metadata(&vec![manifest("P", vec![("a", vec!["Q/x"])])], &active);
    let after = collect_all_metadata(&vec![manifest("P", vec![("a", vec!["Q/z"])])], &active);
    let env1 = encode_features_env(&before);
    let env2 = encode_features_env(&after);
    assert_eq!(env1, "Q:x");
    assert_eq!(env2, "Q:z");
    let f1 = build_rustflags("", &active, &env1, "");
    let f2 = build_rustflags("", &active, &env2, "");
    assert_ne!(f1, f2);
    assert!(f1.starts_with("--cfg=xconfig=\"a\" --cfg=__xfp=\""));
}

#[test]
fn fingerprint_is_sixteen_hex_digits() {
    assert_eq!(fingerprint_cfg(0x1234), "--cfg=__xfp=\"0000000000001234\"");
    assert_eq!(fingerprint_cfg(u64::MAX), "--cfg=__xfp=\"ffffffffffffffff\"");
    assert_eq!(hex_fixed(255, 2), "ff");
    assert!(fingerprint_flag("", "").is_none());
    let a = fingerprint_flag("P:x", "").unwrap_or_default();
    let b = fingerprint_flag("P:x", "").unwrap_or_default();
    let c = fingerprint_flag("P:x", "P:dep_x=/t/libdep_x.rlib").unwrap_or_default();
    assert_eq!(a, b);
    assert_ne!(a, c);
    assert_eq!(a.len(), "--cfg=__xfp=\"\"".len() + 16);
}

#[test]
fn rustflags_keep_base_and_trim() {
    assert_eq!(build_rustflags("  -O ", &strings(&["smp", "net"]), "", ""), "-O  --cfg=xconfig=\"smp\" --cfg=xconfig=\"net\"");
    assert_eq!(build_rustflags("  -O  ", &vec![], "", ""), "-O");
}

#[test]
fn features_env_encodes_each_package() {
    let mut fm = FeatureMap::new();
    fm.add(s("crate_b"), s("smp"));
    fm.add(s("crate_b"), s("feat2"));
    fm.add(s("crate_c"), s("other"));
    fm.add(s("crate_b"), s("smp"));
    assert_eq!(encode_features_env(&fm), "crate_b:feat2,smp;crate_c:other");
    assert_eq!(encode_features_env(&FeatureMap::new()), "");
}

#[test]
fn switch_flags_are_upper_cased() {
    let flags = encode_flags(&strings(&["smp"]), &strings(&["smp", "net"]));
    assert_eq!(
        flags,
        strings(&["--cfg=SMP", "--check-cfg=cfg(NET)", "--check-cfg=cfg(SMP)", "--check-cfg=cfg(__xfp,values(any()))"])
    );
}

#[test]
fn build_args_default_to_entry() {
    assert_eq!(build_command_args(&vec![]), strings(&["build", "-p", "entry"]));
    assert_eq!(build_command_args(&strings(&["check"])), strings(&["check"]));
}

#[test]
fn stand_in_finds_unit_name() {
    assert_eq!(crate_name_arg(&strings(&["--edition", "2021", "--crate-name", "crate_b", "src/lib.rs"])), Some(s("crate_b")));
    assert_eq!(crate_name_arg(&strings(&["x", "--crate-name"])), None);
    assert_eq!(crate_name_arg(&vec![]), None);
}

#[test]
fn stand_in_decodes_tables() {
    assert_eq!(features_for_unit("crate_b:smp,,feat2;;crate_c:other;crate_b:more", "crate_b"), strings(&["smp", "feat2", "more"]));
    assert_eq!(features_for_unit("nocolon;crate_c:x", "crate_b"), Vec::<String>::new());
    assert_eq!(
        externs_for_unit("crate_a:dep_x=/t/libdep_x.rlib;crate_b:y=/p;crate_a:bad", "crate_a"),
        vec![(s("dep_x"), s("/t/libdep_x.rlib"))]
    );
}

#[test]
fn stand_in_adds_flags_ahead_of_arguments() {
    let args = strings(&["--crate-name", "crate_a", "src/lib.rs"]);
    let out = wrapped_args(&args, &Some(s("crate_a:smp;crate_b:net")), &Some(s("crate_a:bitflags=/t/libbitflags.rlib")));
    assert_eq!(
        out,
        strings(&[
            "--cfg",
            "feature=\"smp\"",
            "--extern",
            "bitflags=/t/libbitflags.rlib",
            "--crate-name",
            "crate_a",
            "src/lib.rs"
        ])
    );
    assert_eq!(wrapped_args(&args, &None, &None), args);
    let other = strings(&["--crate-name", "crate_z"]);
    assert_eq!(wrapped_args(&other, &Some(s("crate_a:smp")), &None), other);
}

fn dep(name: &str, source: Option<&str>, path: Option<&str>, optional: bool) -> MetadataDep {
    MetadataDep {
        name: s(name),
        source: source.map(s),
        optional,
        path: path.map(s),
        req: Some(s("^1.0")),
        features: strings(&["std"]),
        uses_default_features: false,
    }
}

#[test]
fn sources_are_classified() {
    match classify_source(&dep("a", Some("git+https://example.com/r.git#abc123"), None, true)) {
        DepSource::Git(u) => assert_eq!(u, "https://example.com/r.git"),
        _ => panic!("expected a git source"),
    }
    match classify_source(&dep("a", None, Some("/w/crates/a"), true)) {
        DepSource::Path(p) => assert_eq!(p, "/w/crates/a"),
        _ => panic!("expected a path source"),
    }
    match classify_source(&dep("a", Some("registry+https://index"), Some("/x"), true)) {
        DepSource::Registry { version, features, default_features } => {
            assert_eq!(version, "^1.0");
            assert_eq!(features, strings(&["std"]));
            assert!(!default_features);
        }
        _ => panic!("expected a registry source"),
    }
    let mut bare = dep("a", None, None, true);
    bare.req = None;
    match classify_source(&bare) {
        DepSource::Registry { version, .. } => assert_eq!(version, "*"),
        _ => panic!("expected a registry source"),
    }
}

fn graph() -> CargoMetadata {
    CargoMetadata {
        packages: vec![MetadataPackage {
            name: s("crate_a"),
            manifest_path: s("/w/crates/crate_a/Cargo.toml"),
            dependencies: vec![
                dep("bit-flags", None, Some("/w/vendor/bitflags"), true),
                dep("crate_net", Some("git+https://example.com/net#rev"), None, true),
                dep("plain", None, None, false),
            ],
        }],
    }
}

fn features_table() -> DepCargoToml {
    DepCargoToml {
        features: Some(vec![
            (s("smp"), strings(&["dep:bit-flags", "crate_b/smp"])),
            (s("net"), strings(&["dep:crate_net", "dep:missing", "dep:plain"])),
        ]),
    }
}

#[test]
fn resolver_binds_optional_dependencies() {
    let mut fm = FeatureMap::new();
    fm.add(s("crate_a"), s("smp"));
    fm.add(s("crate_a"), s("net"));
    fm.add(s("elsewhere"), s("x"));
    let meta = graph();
    assert_eq!(manifests_needed(&meta, &fm), strings(&["/w/crates/crate_a/Cargo.toml"]));
    let manifests = vec![(s("/w/crates/crate_a/Cargo.toml"), features_table())];
    let map = match resolve_extern_map_from_metadata(&meta, &fm, &manifests) {
        Ok(m) => m,
        Err(_) => panic!("resolution failed"),
    };
    assert_eq!(map.entries.len(), 1);
    assert_eq!(map.entries[0].0, "crate_a");
    let deps = &map.entries[0].1;
    assert_eq!(deps.len(), 2);
    assert_eq!(deps[0].crate_name, "crate_net");
    assert!(matches!(&deps[0].source, DepSource::Git(u) if u == "https://example.com/net"));
    assert_eq!(deps[1].crate_name, "bit_flags");
    assert_eq!(deps[1].pkg_name, "bit-flags");
    assert!(matches!(&deps[1].source, DepSource::Path(p) if p == "/w/vendor/bitflags"));
}

#[test]
fn resolver_reports_missing_manifest() {
    let mut fm = FeatureMap::new();
    fm.add(s("crate_a"), s("smp"));
    match resolve_extern_map_from_metadata(&graph(), &fm, &vec![]) {
        Err(ResolveError::ManifestError(p)) => assert_eq!(p, "/w/crates/crate_a/Cargo.toml"),
        _ => panic!("expected a manifest error"),
    }
}

#[test]
fn resolver_without_feature_table_binds_nothing() {
    let mut fm = FeatureMap::new();
    fm.add(s("crate_a"), s("smp"));
    let manifests = vec![(s("/w/crates/crate_a/Cargo.toml"), DepCargoToml { features: None })];
    match resolve_extern_map_from_metadata(&graph(), &fm, &manifests) {
        Ok(m) => assert!(m.entries.is_empty()),
        Err(_) => panic!("resolution failed"),
    }
}

#[test]
fn graph_query_falls_back_when_a_package_is_missing() {
    let mut fm = FeatureMap::new();
    assert!(matches!(resolve_extern_map(&fm, None), GraphPlan::NothingToResolve));
    fm.add(s("crate_a"), s("smp"));
    let meta = graph();
    assert!(metadata_covers(&meta, &fm));
    assert!(matches!(resolve_extern_map(&fm, Some(&meta)), GraphPlan::UseShallow));
    assert!(matches!(resolve_extern_map(&fm, None), GraphPlan::QueryFull));
    fm.add(s("crate_git"), s("x"));
    assert!(!metadata_covers(&meta, &fm));
    assert!(matches!(resolve_extern_map(&fm, Some(&meta)), GraphPlan::QueryFull));
}

#[test]
fn default_config_lists_sorted_switches() {
    let defs = vec![
        (s("smp"), def("bool", true, Some("Symmetric multiprocessing"))),
        (s("net"), def("bool", false, None)),
    ];
    let text = default_config_text(&defs);
    assert_eq!(
        text,
        "# Auto-generated from defconfig.toml — edit as needed.\n[xconfig]\nnet = false\n# Symmetric multiprocessing\nsmp = true\n"
    );
}

#[test]
fn default_config_round_trips() {
    let defs = vec![(s("b"), def("bool", true, None)), (s("a"), def("bool", false, None)), (s("c"), def("bool", true, None))];
    let text = default_config_text(&defs);
    let config: Vec<(String, ConfigValue)> = text
        .lines()
        .filter(|l| l.contains(" = "))
        .map(|l| {
            let (k, v) = l.split_once(" = ").unwrap_or(("", ""));
            (s(k), boolean(v == "true"))
        })
        .collect();
    let r = load_active_xconfigs(&DefConfig { xconfig: Some(defs) }, &ProjectConfig { xconfig: Some(config) });
    match r {
        Ok((active, _)) => assert_eq!(active, strings(&["b", "c"])),
        Err(_) => panic!("a default config must validate"),
    }
}

#[test]
fn generated_files_are_identical_across_runs() {
    let ms = vec![manifest("P", vec![("a", vec!["Q/x", "y"])])];
    let active = strings(&["a"]);
    let defs = vec![(s("a"), def("bool", true, Some("A"))), (s("b"), def("bool", false, None))];
    let libs = vec![(s("dep_x"), s("/t/deps/libdep_x.rlib"))];
    let run = || {
        let fm = collect_all_metadata(&ms, &active);
        (
            default_config_text(&defs),
            cargo_config_content(&active, &strings(&["a", "b"]), &libs),
            vscode_settings_content(&active, &fm),
            build_rustflags("", &active, &encode_features_env(&fm), ""),
        )
    };
    assert_eq!(run(), run());
}

#[test]
fn build_config_lists_flags() {
    let text = cargo_config_content(&strings(&["smp"]), &strings(&["smp"]), &vec![(s("dep_x"), s("/t/deps/libdep_x.rlib"))]);
    assert_eq!(
        text,
        "# Auto-generated by cargo-xbuild — do not edit manually.\n# Run `cargo xbuild` to regenerate after changing .config.toml.\n\n[build]\nrustflags = [\n    \"--cfg=SMP\", \n    \"--check-cfg=cfg(SMP)\", \n    \"--check-cfg=cfg(__xfp,values(any()))\", \n    \"--extern=dep_x=/t/deps/libdep_x.rlib\", \n    \"-Ldependency=/t/deps\"\n]\n"
    );
}

#[test]
fn editor_settings_list_sorted_features() {
    let mut fm = FeatureMap::new();
    fm.add(s("q"), s("z"));
    fm.add(s("p"), s("y"));
    fm.add(s("q"), s("a"));
    assert_eq!(feature_list(&fm), strings(&["p/y", "q/a", "q/z"]));
    let text = vscode_settings_content(&strings(&["smp"]), &fm);
    assert_eq!(
        text,
        "{\n  \"rust-analyzer.cargo.cfgs\": [\n    \"SMP\"\n  ],\n  \"rust-analyzer.cargo.features\": [\n    \"p/y\",\n    \"q/a\",\n    \"q/z\"\n  ]\n}\n"
    );
}

#[test]
fn root_is_first_marked_directory() {
    let c = vec![(s("/w/a/b"), false), (s("/w/a"), true), (s("/w"), true)];
    assert_eq!(project_root(&c), Some(s("/w/a")));
    assert_eq!(project_root(&vec![(s("/x"), false)]), None);
}

#[test]
fn text_helpers_behave() {
    assert_eq!(split_fields(";a;;b;", ';'), strings(&["a", "b"]));
    assert_eq!(underscore_name("my-dep-x"), "my_dep_x");
    assert!(str_lt("ab", "b"));
    assert!(str_lt("a", "ab"));
    assert!(!str_lt("b", "b"));
}

#[test]
fn build_message_yields_library_of_unit() {
    let msg = CargoMessage {
        reason: s("compiler-artifact"),
        target: Some(CargoTarget { name: s("dep_x") }),
        filenames: Some(strings(&["/t/deps/libdep_x.rmeta", "/t/deps/libdep_x.rlib"])),
    };
    assert_eq!(artifact_rlib(&msg, "dep_x"), Some(s("/t/deps/libdep_x.rlib")));
    assert_eq!(artifact_rlib(&msg, "dep_y"), None);
    let other = CargoMessage { reason: s("build-script-executed"), target: None, filenames: None };
    assert_eq!(artifact_rlib(&other, "dep_x"), None);
}

#[test]
fn extern_table_round_trips_through_stand_in() {
    let externs = ExternMap {
        entries: vec![(
            s("crate_a"),
            vec![
                ExternDep { crate_name: s("dep_x"), pkg_name: s("dep-x"), source: DepSource::Path(s("/v/x")) },
                ExternDep { crate_name: s("dep_y"), pkg_name: s("dep_y"), source: DepSource::Git(s("https://e/y")) },
            ],
        )],
    };
    let libs = vec![(s("dep_x"), s("/t/deps/libdep_x.rlib"))];
    let env = encode_externs_env(&externs, &libs);
    assert_eq!(env, "crate_a:dep_x=/t/deps/libdep_x.rlib");
    assert_eq!(externs_for_unit(&env, "crate_a"), vec![(s("dep_x"), s("/t/deps/libdep_x.rlib"))]);
}

#[test]
fn feature_table_round_trips_through_stand_in() {
    let ms = vec![manifest("P", vec![("a", vec!["Q/x", "Q/y", "z"])])];
    let fm = collect_all_metadata(&ms, &strings(&["a"]));
    let env = encode_features_env(&fm);
    for (unit, feats) in &fm.entries {
        assert_eq!(&features_for_unit(&env, unit), feats);
    }
    assert_eq!(features_for_unit(&env, "R"), Vec::<String>::new());
}

#[test]
fn dependency_bound_once_per_package() {
    let mut fm = FeatureMap::new();
    fm.add(s("crate_a"), s("smp"));
    fm.add(s("crate_a"), s("smp2"));
    let manifests = vec![(
        s("/w/crates/crate_a/Cargo.toml"),
        DepCargoToml {
            features: Some(vec![
                (s("smp"), strings(&["dep:bit-flags", "dep:bit-flags"])),
                (s("smp2"), strings(&["dep:bit-flags"])),
            ]),
        },
    )];
    match resolve_extern_map_from_metadata(&graph(), &fm, &manifests) {
        Ok(m) => {
            assert_eq!(m.entries.len(), 1);
            assert_eq!(m.entries[0].1.len(), 1);
            assert_eq!(m.entries[0].1[0].pkg_name, "bit-flags");
        }
        Err(_) => panic!("resolution failed"),
    }
}

#[test]
fn package_features_are_a_sorted_set() {
    let p = manifest("P", vec![("a", vec!["P/z", "P/a", "P/z"])]);
    let fm = collect_all_metadata(&vec![p], &strings(&["a"]));
    assert_eq!(fm.entries, vec![(s("P"), strings(&["a", "z"]))]);
}

#[test]
fn active_order_does_not_matter() {
    let ms = vec![manifest("P", vec![("a", vec!["Q/x"]), ("b", vec!["R/y", "Q/w"])])];
    let one = collect_all_metadata(&ms, &strings(&["b", "a", "b"]));
    let two = collect_all_metadata(&ms, &strings(&["a", "b"]));
    assert_eq!(one.entries, two.entries);
    assert_eq!(one.entries, vec![(s("Q"), strings(&["w", "x"])), (s("R"), strings(&["y"]))]);
    assert_eq!(
        vscode_settings_content(&strings(&["net", "smp"]), &one),
        vscode_settings_content(&strings(&["smp", "net", "smp"]), &two)
    );
    assert_eq!(
        cargo_config_content(&strings(&["smp", "net"]), &strings(&["b", "a"]), &vec![]),
        cargo_config_content(&strings(&["net", "smp"]), &strings(&["a", "b", "a"]), &vec![])
    );
}

#[test]
fn library_order_does_not_matter() {
    let l1 = vec![(s("b"), s("/t/deps/libb.rlib")), (s("a"), s("/u/liba.rlib"))];
    let l2 = vec![(s("a"), s("/u/liba.rlib")), (s("b"), s("/t/deps/libb.rlib"))];
    let c1 = cargo_config_content(&vec![], &vec![], &l1);
    assert_eq!(c1, cargo_config_content(&vec![], &vec![], &l2));
    assert!(c1.contains("\"--extern=a=/u/liba.rlib\", \n    \"--extern=b=/t/deps/libb.rlib\", \n    \"-Ldependency=/u\""));
}
