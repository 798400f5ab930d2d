//! The switch schema, the checkout's config file, and their validation.
use vstd::prelude::*;
use crate::text::str_eq;

verus! {

/// A single switch definition of the schema file.
pub struct XConfigDef {
    /// Human-readable description of this switch.
    pub description: Option<String>,
    /// Value type: `bool`, `int` or `string`.
    pub typ: String,
    /// Default value written into a generated config file.
    pub default: bool,
}

/// The schema file: every switch the workspace knows, keyed by name.
/// Names are unique, as in the table the file holds.
pub struct DefConfig {
    pub xconfig: Option<Vec<(String, XConfigDef)>>,
}

/// The kind of a value found in the config file.
#[derive(Clone, Copy, PartialEq, Eq, Debug)]
pub enum ValueKind {
    Boolean(bool),
    Integer,
    Str,
    Float,
    Datetime,
    Array,
    Table,
}

/// A config-file value: its kind, and its text as the file format renders it.
pub struct ConfigValue {
    pub kind: ValueKind,
    pub text: String,
}

/// The per-checkout config file: switch name to value.
pub struct ProjectConfig {
    pub xconfig: Option<Vec<(String, ConfigValue)>>,
}

/// One violation of the schema by a config file.
pub enum ValidationError {
    UnknownKey(String),
    MissingKey { key: String, typ: String },
    UnsupportedType { key: String, typ: String },
    TypeMismatch { key: String, expected: String, got: String },
}

/// The mathematical form of a `ValidationError`.
pub enum Violation {
    UnknownKey(Seq<char>),
    MissingKey(Seq<char>, Seq<char>),
    UnsupportedType(Seq<char>, Seq<char>),
    TypeMismatch(Seq<char>, Seq<char>, Seq<char>),
}

impl View for ValidationError {
    type V = Violation;

    open spec fn view(&self) -> Violation {
        match self {
            ValidationError::UnknownKey(k) => Violation::UnknownKey(k@),
            ValidationError::MissingKey { key, typ } => Violation::MissingKey(key@, typ@),
            ValidationError::UnsupportedType { key, typ } => Violation::UnsupportedType(key@, typ@),
            ValidationError::TypeMismatch { key, expected, got } => Violation::TypeMismatch(
                key@,
                expected@,
                got@,
            ),
        }
    }
}

impl Violation {
    /// The diagnostic line reported for this violation.
    pub open spec fn message(self) -> Seq<char> {
        match self {
            Violation::UnknownKey(k) => "unknown xconfig key `"@ + k
                + "` (not defined in defconfig.toml)"@,
            Violation::MissingKey(k, t) => "missing xconfig key `"@ + k
                + "` (defined in defconfig.toml as type=\""@ + t + "\")"@,
            Violation::UnsupportedType(k, t) => "xconfig key `"@ + k + "`: unsupported type `"@ + t
                + "` in defconfig.toml"@,
            Violation::TypeMismatch(k, t, v) => "xconfig key `"@ + k + "`: expected type `"@ + t
                + "`, got `"@ + v + "`"@,
        }
    }
}

/// A config entry as plain values: name, kind and rendered text.
pub type ConfigEntry = (Seq<char>, ValueKind, Seq<char>);

/// The plain form of config entries.
pub open spec fn config_view(c: Seq<(String, ConfigValue)>) -> Seq<ConfigEntry> {
    c.map_values(|e: (String, ConfigValue)| (e.0@, e.1.kind, e.1.text@))
}

/// The names of schema entries, in order.
pub open spec fn def_keys(defs: Seq<(String, XConfigDef)>) -> Seq<Seq<char>> {
    defs.map_values(|e: (String, XConfigDef)| e.0@)
}

/// The plain form of validation errors.
pub open spec fn violation_views(e: Seq<ValidationError>) -> Seq<Violation> {
    e.map_values(|x: ValidationError| x@)
}

/// The schema table of a schema file (absent means empty).
pub open spec fn defs_of(d: DefConfig) -> Seq<(String, XConfigDef)> {
    match d.xconfig {
        Some(v) => v@,
        None => Seq::empty(),
    }
}

/// The entries of a config file (absent means empty).
pub open spec fn entries_of(c: ProjectConfig) -> Seq<ConfigEntry> {
    match c.xconfig {
        Some(v) => config_view(v@),
        None => Seq::empty(),
    }
}

/// No name occurs twice.
pub open spec fn unique_names(keys: Seq<Seq<char>>) -> bool {
    forall|i: int, j: int| 0 <= i < keys.len() && 0 <= j < keys.len() && i != j ==> keys[i] != keys[j]
}

/// The names of config entries, in order.
pub open spec fn config_keys(c: Seq<ConfigEntry>) -> Seq<Seq<char>> {
    c.map_values(|e: ConfigEntry| e.0)
}

/// The value that the config gives `k`: the first entry named `k`.
pub open spec fn lookup_value(c: Seq<ConfigEntry>, k: Seq<char>) -> Option<(ValueKind, Seq<char>)>
    decreases c.len(),
{
    if c.len() == 0 {
        None
    } else {
        match lookup_value(c.drop_last(), k) {
            Some(v) => Some(v),
            None => if c.last().0 == k {
                Some((c.last().1, c.last().2))
            } else {
                None
            },
        }
    }
}

/// Whether a value of `kind` fits the declared type, or `None` for a type
/// that the schema does not support.
pub open spec fn type_fits(typ: Seq<char>, kind: ValueKind) -> Option<bool> {
    if typ == "bool"@ {
        Some(kind is Boolean)
    } else if typ == "int"@ {
        Some(kind is Integer)
    } else if typ == "string"@ {
        Some(kind is Str)
    } else {
        None
    }
}

/// The violations that one schema entry finds in the config.
pub open spec fn def_violations(c: Seq<ConfigEntry>, key: Seq<char>, def: XConfigDef) -> Seq<
    Violation,
> {
    match lookup_value(c, key) {
        None => seq![Violation::MissingKey(key, def.typ@)],
        Some((kind, text)) => match type_fits(def.typ@, kind) {
            None => seq![Violation::UnsupportedType(key, def.typ@)],
            Some(true) => Seq::empty(),
            Some(false) => seq![Violation::TypeMismatch(key, def.typ@, text)],
        },
    }
}

/// Config keys that the schema does not define, in config order.
pub open spec fn unknown_violations(c: Seq<ConfigEntry>, defs: Seq<(String, XConfigDef)>) -> Seq<
    Violation,
>
    decreases c.len(),
{
    if c.len() == 0 {
        Seq::empty()
    } else {
        let prev = unknown_violations(c.drop_last(), defs);
        if def_keys(defs).contains(c.last().0) {
            prev
        } else {
            prev.push(Violation::UnknownKey(c.last().0))
        }
    }
}

/// Missing keys, unsupported types and mismatched values, in schema order.
pub open spec fn schema_violations(c: Seq<ConfigEntry>, defs: Seq<(String, XConfigDef)>) -> Seq<
    Violation,
>
    decreases defs.len(),
{
    if defs.len() == 0 {
        Seq::empty()
    } else {
        schema_violations(c, defs.drop_last()) + def_violations(c, defs.last().0@, defs.last().1)
    }
}

/// Every violation of the schema by the config, all of them at once.
pub open spec fn violations(c: Seq<ConfigEntry>, defs: Seq<(String, XConfigDef)>) -> Seq<
    Violation,
> {
    unknown_violations(c, defs) + schema_violations(c, defs)
}

/// The names whose value is boolean true, in config order.
pub open spec fn active_keys(c: Seq<ConfigEntry>) -> Seq<Seq<char>>
    decreases c.len(),
{
    if c.len() == 0 {
        Seq::empty()
    } else {
        let prev = active_keys(c.drop_last());
        if c.last().1 == ValueKind::Boolean(true) {
            prev.push(c.last().0)
        } else {
            prev
        }
    }
}

/// The type a switch has when the schema names none.
pub fn default_type() -> (r: String)
    ensures
        r@ == "bool"@,
{
    String::from_str("bool")
}

impl ValidationError {
    /// The diagnostic line for this error.
    pub fn message(&self) -> (r: String)
        ensures
            r@ == self@.message(),
    {
        match self {
            ValidationError::UnknownKey(k) => {
                let mut s = String::from_str("unknown xconfig key `");
                s.append(k.as_str());
                s.append("` (not defined in defconfig.toml)");
                s
            },
            ValidationError::MissingKey { key, typ } => {
                let mut s = String::from_str("missing xconfig key `");
                s.append(key.as_str());
                s.append("` (defined in defconfig.toml as type=\"");
                s.append(typ.as_str());
                s.append("\")");
                s
            },
            ValidationError::UnsupportedType { key, typ } => {
                let mut s = String::from_str("xconfig key `");
                s.append(key.as_str());
                s.append("`: unsupported type `");
                s.append(typ.as_str());
                s.append("` in defconfig.toml");
                s
            },
            ValidationError::TypeMismatch { key, expected, got } => {
                let mut s = String::from_str("xconfig key `");
                s.append(key.as_str());
                s.append("`: expected type `");
                s.append(expected.as_str());
                s.append("`, got `");
                s.append(got.as_str());
                s.append("`");
                s
            },
        }
    }
}

/// Whether the schema defines `key`.
fn defines_key(defs: &Vec<(String, XConfigDef)>, key: &str) -> (r: bool)
    ensures
        r == def_keys(defs@).contains(key@),
{
    let mut i: usize = 0;
    while i < defs.len()
        invariant
            i <= defs.len(),
            forall|j: int| 0 <= j < i ==> defs@[j].0@ != key@,
        decreases defs.len() - i,
    {
        if str_eq(defs[i].0.as_str(), key) {
            assert(def_keys(defs@)[i as int] == key@);
            return true;
        }
        i = i + 1;
    }
    assert(!def_keys(defs@).contains(key@)) by {
        if def_keys(defs@).contains(key@) {
            let j = choose|j: int| 0 <= j < def_keys(defs@).len() && def_keys(defs@)[j] == key@;
            assert(defs@[j].0@ == key@);
        }
    }
    false
}

/// The position of the first config entry named `key`.
fn find_entry(config: &Vec<(String, ConfigValue)>, key: &str) -> (r: Option<usize>)
    ensures
        match r {
            Some(i) => i < config@.len() && lookup_value(config_view(config@), key@) == Some(
                (config@[i as int].1.kind, config@[i as int].1.text@),
            ),
            None => lookup_value(config_view(config@), key@) is None,
        },
{
    let ghost cv = config_view(config@);
    let mut i: usize = 0;
    while i < config.len()
        invariant
            i <= config.len(),
            cv == config_view(config@),
            lookup_value(cv.subrange(0, i as int), key@) is None,
        decreases config.len() - i,
    {
        assert(cv.subrange(0, i + 1).drop_last() =~= cv.subrange(0, i as int));
        if str_eq(config[i].0.as_str(), key) {
            proof {
                lemma_lookup_prefix(cv, key@, i as int + 1);
            }
            return Some(i);
        }
        i = i + 1;
    }
    assert(cv.subrange(0, i as int) =~= cv);
    None
}

/// A lookup that succeeds on a prefix gives the same value on the whole.
pub proof fn lemma_lookup_prefix(c: Seq<ConfigEntry>, k: Seq<char>, n: int)
    requires
        0 <= n <= c.len(),
        lookup_value(c.subrange(0, n), k) is Some,
    ensures
        lookup_value(c, k) == lookup_value(c.subrange(0, n), k),
    decreases c.len() - n,
{
    if n < c.len() {
        assert(c.subrange(0, n + 1).drop_last() =~= c.subrange(0, n));
        lemma_lookup_prefix(c, k, n + 1);
    } else {
        assert(c.subrange(0, n) =~= c);
    }
}

/// The first of the candidate directories (the start directory, then each
/// parent in turn) that holds the schema file, or `None` when none does.
pub open spec fn first_marked(candidates: Seq<(String, bool)>) -> Option<Seq<char>>
    decreases candidates.len(),
{
    if candidates.len() == 0 {
        None
    } else if candidates[0].1 {
        Some(candidates[0].0@)
    } else {
        first_marked(candidates.drop_first())
    }
}

/// Locates the workspace root: the first of `candidates` (directories from
/// the start directory upward, each with whether it holds the schema
/// file) that holds it.
pub fn project_root(candidates: &Vec<(String, bool)>) -> (r: Option<String>)
    ensures
        match r {
            Some(d) => first_marked(candidates@) == Some(d@),
            None => first_marked(candidates@) is None,
        },
{
    let n = candidates.len();
    let mut i: usize = 0;
    assert(candidates@.subrange(0, n as int) =~= candidates@);
    while i < n
        invariant
            n == candidates@.len(),
            i <= n,
            first_marked(candidates@) == first_marked(candidates@.subrange(i as int, n as int)),
        decreases n - i,
    {
        assert(candidates@.subrange(i as int, n as int).drop_first() =~= candidates@.subrange(
            i + 1,
            n as int,
        ));
        if candidates[i].1 {
            return Some(candidates[i].0.clone());
        }
        i = i + 1;
    }
    None
}

/// Checks a config file against the schema and reports every violation:
/// keys the schema does not define, schema keys the config lacks, and
/// values whose kind does not match the declared type.
pub fn validate_config(config_map: &Vec<(String, ConfigValue)>, defs: &Vec<(String, XConfigDef)>) -> (r:
    Result<(), Vec<ValidationError>>)
    ensures
        match r {
            Ok(()) => violations(config_view(config_map@), defs@).len() == 0,
            Err(e) => violation_views(e@) == violations(config_view(config_map@), defs@)
                && e@.len() > 0,
        },
{
    let ghost cv = config_view(config_map@);
    let mut errors: Vec<ValidationError> = Vec::new();
    let mut i: usize = 0;
    while i < config_map.len()
        invariant
            i <= config_map.len(),
            cv == config_view(config_map@),
            violation_views(errors@) == unknown_violations(cv.subrange(0, i as int), defs@),
        decreases config_map.len() - i,
    {
        assert(cv.subrange(0, i + 1).drop_last() =~= cv.subrange(0, i as int));
        if !defines_key(defs, config_map[i].0.as_str()) {
            let ghost before = errors@;
            errors.push(ValidationError::UnknownKey(config_map[i].0.clone()));
            assert(violation_views(errors@) =~= violation_views(before).push(
                errors@.last()@,
            ));
        }
        i = i + 1;
    }
    assert(cv.subrange(0, i as int) =~= cv);
    let ghost unknown = violation_views(errors@);
    let mut j: usize = 0;
    while j < defs.len()
        invariant
            j <= defs.len(),
            cv == config_view(config_map@),
            unknown == unknown_violations(cv, defs@),
            violation_views(errors@) == unknown + schema_violations(cv, defs@.subrange(0, j as int)),
        decreases defs.len() - j,
    {
        assert(defs@.subrange(0, j + 1).drop_last() =~= defs@.subrange(0, j as int));
        let key = &defs[j].0;
        let typ = &defs[j].1.typ;
        let ghost before = errors@;
        match find_entry(config_map, key.as_str()) {
            None => {
                errors.push(ValidationError::MissingKey { key: key.clone(), typ: typ.clone() });
            },
            Some(k) => {
                let kind = config_map[k].1.kind;
                let is_bool = str_eq(typ.as_str(), "bool");
                let is_int = str_eq(typ.as_str(), "int");
                let is_str = str_eq(typ.as_str(), "string");
                if is_bool || is_int || is_str {
                    let fits = if is_bool {
                        match kind {
                            ValueKind::Boolean(_) => true,
                            _ => false,
                        }
                    } else if is_int {
                        match kind {
                            ValueKind::Integer => true,
                            _ => false,
                        }
                    } else {
                        match kind {
                            ValueKind::Str => true,
                            _ => false,
                        }
                    };
                    if !fits {
                        errors.push(
                            ValidationError::TypeMismatch {
                                key: key.clone(),
                                expected: typ.clone(),
                                got: config_map[k].1.text.clone(),
                            },
                        );
                    }
                } else {
                    errors.push(
                        ValidationError::UnsupportedType { key: key.clone(), typ: typ.clone() },
                    );
                }
            },
        }
        assert(violation_views(errors@) =~= violation_views(before) + def_violations(
            cv,
            defs@[j as int].0@,
            defs@[j as int].1,
        ));
        j = j + 1;
    }
    assert(defs@.subrange(0, j as int) =~= defs@);
    if errors.len() == 0 {
        Ok(())
    } else {
        Err(errors)
    }
}

/// The names whose value is boolean true, in config order.
fn active_names(config: &Vec<(String, ConfigValue)>) -> (r: Vec<String>)
    ensures
        crate::text::views(r@) == active_keys(config_view(config@)),
{
    let ghost cv = config_view(config@);
    let mut out: Vec<String> = Vec::new();
    let mut i: usize = 0;
    while i < config.len()
        invariant
            i <= config.len(),
            cv == config_view(config@),
            crate::text::views(out@) == active_keys(cv.subrange(0, i as int)),
        decreases config.len() - i,
    {
        assert(cv.subrange(0, i + 1).drop_last() =~= cv.subrange(0, i as int));
        match config[i].1.kind {
            ValueKind::Boolean(true) => {
                let ghost before = out@;
                out.push(config[i].0.clone());
                assert(crate::text::views(out@) =~= crate::text::views(before).push(
                    config@[i as int].0@,
                ));
            },
            _ => {},
        }
        i = i + 1;
    }
    assert(cv.subrange(0, i as int) =~= cv);
    out
}

/// The names the schema defines, in schema order.
pub fn schema_names(defs: &Vec<(String, XConfigDef)>) -> (r: Vec<String>)
    ensures
        crate::text::views(r@) == def_keys(defs@),
{
    let mut out: Vec<String> = Vec::new();
    let mut i: usize = 0;
    while i < defs.len()
        invariant
            i <= defs.len(),
            crate::text::views(out@) == def_keys(defs@.subrange(0, i as int)),
        decreases defs.len() - i,
    {
        let ghost before = out@;
        out.push(defs[i].0.clone());
        assert(out@ == before.push(defs@[i as int].0));
        assert(crate::text::views(out@) =~= crate::text::views(before).push(defs@[i as int].0@));
        assert(def_keys(defs@.subrange(0, i + 1)) =~= def_keys(defs@.subrange(0, i as int)).push(
            defs@[i as int].0@,
        ));
        i = i + 1;
    }
    assert(defs@.subrange(0, i as int) =~= defs@);
    out
}

/// Validates the config file against the schema and returns the active
/// switch names (boolean true, in config order) together with every
/// name the schema defines. The schema is the authority on which names
/// exist, so a name the config lacks is an error, never silently off.
pub fn load_active_xconfigs(defconfig: &DefConfig, config: &ProjectConfig) -> (r: Result<
    (Vec<String>, Vec<String>),
    Vec<ValidationError>,
>)
    ensures
        match r {
            Ok((active, all)) => violations(entries_of(*config), defs_of(*defconfig)).len() == 0
                && crate::text::views(active@) == active_keys(entries_of(*config))
                && crate::text::views(all@) == def_keys(defs_of(*defconfig))
                && forall|k: Seq<char>|
                #[trigger] crate::text::views(active@).contains(k) ==> crate::text::views(
                    all@,
                ).contains(k),
            Err(e) => violations(entries_of(*config), defs_of(*defconfig)).len() > 0
                && violation_views(e@) == violations(entries_of(*config), defs_of(*defconfig)),
        },
{
    let no_defs: Vec<(String, XConfigDef)> = Vec::new();
    let no_entries: Vec<(String, ConfigValue)> = Vec::new();
    let defs = match &defconfig.xconfig {
        Some(v) => v,
        None => &no_defs,
    };
    let entries = match &config.xconfig {
        Some(v) => v,
        None => &no_entries,
    };
    assert(config_view(no_entries@) =~= Seq::<ConfigEntry>::empty());
    let all_keys = schema_names(defs);
    match validate_config(entries, defs) {
        Ok(()) => {
            proof {
                lemma_active_within_schema(entries_of(*config), defs_of(*defconfig));
            }
            Ok((active_names(entries), all_keys))
        },
        Err(e) => Err(e),
    }
}

/// The names of a config's active switches all occur among its keys.
pub proof fn lemma_active_members(c: Seq<ConfigEntry>, k: Seq<char>)
    ensures
        active_keys(c).contains(k) ==> exists|i: int| 0 <= i < c.len() && (#[trigger] c[i]).0 == k,
    decreases c.len(),
{
    if c.len() > 0 {
        let prev = c.drop_last();
        lemma_active_members(prev, k);
        if active_keys(c).contains(k) && !active_keys(prev).contains(k) {
            assert(c[c.len() - 1].0 == k);
        } else if active_keys(prev).contains(k) {
            let i = choose|i: int| 0 <= i < prev.len() && (#[trigger] prev[i]).0 == k;
            assert(c[i] == prev[i]);
        }
    }
}

/// A violation is unknown-key exactly for the config keys the schema lacks.
pub proof fn lemma_unknown_members(c: Seq<ConfigEntry>, defs: Seq<(String, XConfigDef)>, v: Violation)
    ensures
        unknown_violations(c, defs).contains(v) <==> exists|i: int|
            0 <= i < c.len() && !def_keys(defs).contains((#[trigger] c[i]).0) && v
                == Violation::UnknownKey(c[i].0),
    decreases c.len(),
{
    if c.len() > 0 {
        let prev = c.drop_last();
        lemma_unknown_members(prev, defs, v);
        let n = c.len() - 1;
        let pu = unknown_violations(prev, defs);
        let cu = unknown_violations(c, defs);
        if cu.contains(v) {
            let k = choose|k: int| 0 <= k < cu.len() && cu[k] == v;
            if def_keys(defs).contains(c[n].0) {
                assert(cu == pu);
            } else {
                assert(cu == pu.push(Violation::UnknownKey(c[n].0)));
                if k < pu.len() {
                    assert(pu[k] == v);
                } else {
                    assert(v == Violation::UnknownKey(c[n].0));
                }
            }
            if pu.contains(v) {
                let i = choose|i: int|
                    0 <= i < prev.len() && !def_keys(defs).contains((#[trigger] prev[i]).0) && v
                        == Violation::UnknownKey(prev[i].0);
                assert(c[i] == prev[i]);
            }
        }
        if exists|i: int|
            0 <= i < c.len() && !def_keys(defs).contains((#[trigger] c[i]).0) && v
                == Violation::UnknownKey(c[i].0) {
            let i = choose|i: int|
                0 <= i < c.len() && !def_keys(defs).contains((#[trigger] c[i]).0) && v
                    == Violation::UnknownKey(c[i].0);
            if i < n {
                assert(prev[i] == c[i]);
                let k = choose|k: int| 0 <= k < pu.len() && pu[k] == v;
                if def_keys(defs).contains(c[n].0) {
                    assert(cu == pu);
                } else {
                    assert(cu == pu.push(Violation::UnknownKey(c[n].0)));
                    assert(cu[k] == v);
                }
            } else {
                assert(cu == pu.push(v));
                assert(cu[pu.len() as int] == v);
            }
        }
    }
}

/// A violation comes from the schema entries exactly when one of them finds it.
pub proof fn lemma_schema_members(c: Seq<ConfigEntry>, defs: Seq<(String, XConfigDef)>, v: Violation)
    ensures
        schema_violations(c, defs).contains(v) <==> exists|j: int|
            0 <= j < defs.len() && def_violations(c, (#[trigger] defs[j]).0@, defs[j].1).contains(v),
    decreases defs.len(),
{
    if defs.len() > 0 {
        let prev = defs.drop_last();
        let n = defs.len() - 1;
        lemma_schema_members(c, prev, v);
        let a = schema_violations(c, prev);
        let b = def_violations(c, defs[n].0@, defs[n].1);
        assert(schema_violations(c, defs) == a + b);
        if (a + b).contains(v) {
            let k = choose|k: int| 0 <= k < (a + b).len() && (a + b)[k] == v;
            if k < a.len() {
                assert(a[k] == v);
                let j = choose|j: int|
                    0 <= j < prev.len() && def_violations(c, (#[trigger] prev[j]).0@, prev[j].1).contains(v);
                assert(defs[j] == prev[j]);
            } else {
                assert(b[k - a.len()] == v);
            }
        }
        if exists|j: int|
            0 <= j < defs.len() && def_violations(c, (#[trigger] defs[j]).0@, defs[j].1).contains(v) {
            let j = choose|j: int|
                0 <= j < defs.len() && def_violations(c, (#[trigger] defs[j]).0@, defs[j].1).contains(v);
            if j < n {
                assert(prev[j] == defs[j]);
                let k = choose|k: int| 0 <= k < a.len() && a[k] == v;
                assert((a + b)[k] == v);
            } else {
                let k = choose|k: int| 0 <= k < b.len() && b[k] == v;
                assert((a + b)[a.len() + k] == v);
            }
        }
    }
}

/// With unique keys, the value a config gives a key is that of the entry
/// so named.
pub proof fn lemma_lookup_unique(c: Seq<ConfigEntry>, k: Seq<char>)
    requires
        unique_names(config_keys(c)),
    ensures
        forall|i: int| 0 <= i < c.len() && (#[trigger] c[i]).0 == k ==> lookup_value(c, k) == Some((c[i].1, c[i].2)),
        (forall|i: int| 0 <= i < c.len() ==> (#[trigger] c[i]).0 != k) ==> lookup_value(c, k) is None,
    decreases c.len(),
{
    if c.len() > 0 {
        let prev = c.drop_last();
        let n = c.len() - 1;
        assert(unique_names(config_keys(prev))) by {
            assert forall|i: int, j: int| 0 <= i < prev.len() && 0 <= j < prev.len() && i != j implies config_keys(prev)[i] != config_keys(prev)[j] by {
                assert(config_keys(c)[i] != config_keys(c)[j]);
            }
        }
        lemma_lookup_unique(prev, k);
        if c[n].0 == k {
            assert forall|i: int| 0 <= i < prev.len() implies (#[trigger] prev[i]).0 != k by {
                assert(config_keys(c)[i] != config_keys(c)[n]);
            }
        }
        assert forall|i: int| 0 <= i < c.len() && (#[trigger] c[i]).0 == k implies lookup_value(c, k) == Some((c[i].1, c[i].2)) by {
            if i < n {
                assert(prev[i] == c[i]);
                assert(config_keys(c)[i] != config_keys(c)[n]);
            }
        }
        if forall|i: int| 0 <= i < c.len() ==> (#[trigger] c[i]).0 != k {
            assert forall|i: int| 0 <= i < prev.len() implies (#[trigger] prev[i]).0 != k by {
                assert(c[i] == prev[i]);
            }
            assert(c[n].0 != k);
        }
    }
}

/// Two configs holding the same entries, each key once, give every key the
/// same value.
pub proof fn lemma_lookup_same(c1: Seq<ConfigEntry>, c2: Seq<ConfigEntry>, k: Seq<char>)
    requires
        unique_names(config_keys(c1)),
        unique_names(config_keys(c2)),
        c1.to_set() == c2.to_set(),
    ensures
        lookup_value(c1, k) == lookup_value(c2, k),
{
    lemma_lookup_unique(c1, k);
    lemma_lookup_unique(c2, k);
    if exists|i: int| 0 <= i < c1.len() && (#[trigger] c1[i]).0 == k {
        let i = choose|i: int| 0 <= i < c1.len() && (#[trigger] c1[i]).0 == k;
        assert(c1.to_set().contains(c1[i]));
        assert(c2.to_set().contains(c1[i]));
        let j = choose|j: int| 0 <= j < c2.len() && c2[j] == c1[i];
        assert(c2[j].0 == k);
    } else if exists|j: int| 0 <= j < c2.len() && (#[trigger] c2[j]).0 == k {
        let j = choose|j: int| 0 <= j < c2.len() && (#[trigger] c2[j]).0 == k;
        assert(c2.to_set().contains(c2[j]));
        assert(c1.to_set().contains(c2[j]));
        let i = choose|i: int| 0 <= i < c1.len() && c1[i] == c2[j];
        assert(c1[i].0 == k);
    }
}

pub proof fn lemma_def_keys_same(d1: Seq<(String, XConfigDef)>, d2: Seq<(String, XConfigDef)>, k: Seq<char>)
    requires
        d1.to_set() == d2.to_set(),
    ensures
        def_keys(d1).contains(k) == def_keys(d2).contains(k),
{
    if def_keys(d1).contains(k) {
        let i = choose|i: int| 0 <= i < def_keys(d1).len() && def_keys(d1)[i] == k;
        assert(d1.to_set().contains(d1[i]));
        let j = choose|j: int| 0 <= j < d2.len() && d2[j] == d1[i];
        assert(def_keys(d2)[j] == k);
    }
    if def_keys(d2).contains(k) {
        let j = choose|j: int| 0 <= j < def_keys(d2).len() && def_keys(d2)[j] == k;
        assert(d2.to_set().contains(d2[j]));
        let i = choose|i: int| 0 <= i < d1.len() && d1[i] == d2[j];
        assert(def_keys(d1)[i] == k);
    }
}

/// Validation reports the same violations, and so the same messages, as
/// a set, whatever order the config file and the schema present their
/// keys in.
pub proof fn lemma_violations_order_free(
    c1: Seq<ConfigEntry>,
    c2: Seq<ConfigEntry>,
    d1: Seq<(String, XConfigDef)>,
    d2: Seq<(String, XConfigDef)>,
)
    requires
        unique_names(config_keys(c1)),
        unique_names(config_keys(c2)),
        c1.to_set() == c2.to_set(),
        d1.to_set() == d2.to_set(),
    ensures
        violations(c1, d1).to_set() == violations(c2, d2).to_set(),
        violations(c1, d1).map_values(|v: Violation| v.message()).to_set() == violations(
            c2,
            d2,
        ).map_values(|v: Violation| v.message()).to_set(),
{
    assert forall|v: Violation| #[trigger] violations(c1, d1).contains(v) implies violations(c2, d2).contains(v) by {
        lemma_violation_moves(c1, c2, d1, d2, v);
    }
    assert forall|v: Violation| #[trigger] violations(c2, d2).contains(v) implies violations(c1, d1).contains(v) by {
        lemma_violation_moves(c2, c1, d2, d1, v);
    }
    assert(violations(c1, d1).to_set() =~= violations(c2, d2).to_set());
    violations(c1, d1).lemma_to_set_map_commutes(|v: Violation| v.message());
    violations(c2, d2).lemma_to_set_map_commutes(|v: Violation| v.message());
}

pub proof fn lemma_seq_add_contains(a: Seq<Violation>, b: Seq<Violation>, v: Violation)
    ensures
        (a + b).contains(v) <==> (a.contains(v) || b.contains(v)),
{
    if (a + b).contains(v) {
        let k = choose|k: int| 0 <= k < (a + b).len() && (a + b)[k] == v;
        if k < a.len() {
            assert(a[k] == v);
        } else {
            assert(b[k - a.len()] == v);
        }
    }
    if a.contains(v) {
        let k = choose|k: int| 0 <= k < a.len() && a[k] == v;
        assert((a + b)[k] == v);
    }
    if b.contains(v) {
        let k = choose|k: int| 0 <= k < b.len() && b[k] == v;
        assert((a + b)[a.len() + k] == v);
    }
}

pub proof fn lemma_violation_moves(
    c1: Seq<ConfigEntry>,
    c2: Seq<ConfigEntry>,
    d1: Seq<(String, XConfigDef)>,
    d2: Seq<(String, XConfigDef)>,
    v: Violation,
)
    requires
        unique_names(config_keys(c1)),
        unique_names(config_keys(c2)),
        c1.to_set() == c2.to_set(),
        d1.to_set() == d2.to_set(),
        violations(c1, d1).contains(v),
    ensures
        violations(c2, d2).contains(v),
{
    lemma_seq_add_contains(unknown_violations(c1, d1), schema_violations(c1, d1), v);
    lemma_seq_add_contains(unknown_violations(c2, d2), schema_violations(c2, d2), v);
    lemma_unknown_members(c1, d1, v);
    lemma_unknown_members(c2, d2, v);
    lemma_schema_members(c1, d1, v);
    lemma_schema_members(c2, d2, v);
    if unknown_violations(c1, d1).contains(v) {
        let i = choose|i: int|
            0 <= i < c1.len() && !def_keys(d1).contains((#[trigger] c1[i]).0) && v
                == Violation::UnknownKey(c1[i].0);
        assert(c1.to_set().contains(c1[i]));
        let j = choose|j: int| 0 <= j < c2.len() && c2[j] == c1[i];
        lemma_def_keys_same(d1, d2, c1[i].0);
        assert(!def_keys(d2).contains((c2[j]).0) && v == Violation::UnknownKey(c2[j].0));
    } else {
        let j = choose|j: int|
            0 <= j < d1.len() && def_violations(c1, (#[trigger] d1[j]).0@, d1[j].1).contains(v);
        assert(d1.to_set().contains(d1[j]));
        let k = choose|k: int| 0 <= k < d2.len() && d2[k] == d1[j];
        lemma_lookup_same(c1, c2, d1[j].0@);
        assert(def_violations(c2, (d2[k]).0@, d2[k].1) == def_violations(c1, d1[j].0@, d1[j].1));
    }
}

/// A config that passes validation activates only switches that the
/// schema defines.
pub proof fn lemma_active_within_schema(c: Seq<ConfigEntry>, defs: Seq<(String, XConfigDef)>)
    requires
        violations(c, defs).len() == 0,
    ensures
        forall|k: Seq<char>| #[trigger] active_keys(c).contains(k) ==> def_keys(defs).contains(k),
{
    assert forall|k: Seq<char>| #[trigger] active_keys(c).contains(k) implies def_keys(defs).contains(k) by {
        lemma_active_members(c, k);
        let i = choose|i: int| 0 <= i < c.len() && (#[trigger] c[i]).0 == k;
        if !def_keys(defs).contains(k) {
            lemma_unknown_members(c, defs, Violation::UnknownKey(k));
            lemma_seq_add_contains(unknown_violations(c, defs), schema_violations(c, defs), Violation::UnknownKey(k));
        }
    }
}

impl DefConfig {
    /// Switch names are unique, as keys of the table the file holds.
    pub open spec fn wf(&self) -> bool {
        unique_names(def_keys(defs_of(*self)))
    }
}

impl ProjectConfig {
    /// Keys are unique, as keys of the table the file holds.
    pub open spec fn wf(&self) -> bool {
        unique_names(config_keys(entries_of(*self)))
    }
}

/// The switch a violation is about.
pub open spec fn violation_key(v: Violation) -> Seq<char> {
    match v {
        Violation::UnknownKey(k) => k,
        Violation::MissingKey(k, _) => k,
        Violation::UnsupportedType(k, _) => k,
        Violation::TypeMismatch(k, _, _) => k,
    }
}

pub proof fn lemma_unknown_no_dup(c: Seq<ConfigEntry>, defs: Seq<(String, XConfigDef)>)
    requires
        unique_names(config_keys(c)),
    ensures
        unknown_violations(c, defs).no_duplicates(),
        forall|k: int| 0 <= k < unknown_violations(c, defs).len() ==> (#[trigger] unknown_violations(c, defs)[k]) is UnknownKey,
    decreases c.len(),
{
    if c.len() > 0 {
        let prev = c.drop_last();
        let n = c.len() - 1;
        assert(unique_names(config_keys(prev))) by {
            assert forall|i: int, j: int| 0 <= i < prev.len() && 0 <= j < prev.len() && i != j implies config_keys(prev)[i] != config_keys(prev)[j] by {
                assert(config_keys(c)[i] != config_keys(c)[j]);
            }
        }
        lemma_unknown_no_dup(prev, defs);
        let pu = unknown_violations(prev, defs);
        let v = Violation::UnknownKey(c[n].0);
        if pu.contains(v) {
            lemma_unknown_members(prev, defs, v);
            let i = choose|i: int|
                0 <= i < prev.len() && !def_keys(defs).contains((#[trigger] prev[i]).0) && v
                    == Violation::UnknownKey(prev[i].0);
            assert(config_keys(c)[i] != config_keys(c)[n]);
        }
    }
}

pub proof fn lemma_def_violations_shape(c: Seq<ConfigEntry>, key: Seq<char>, def: XConfigDef)
    ensures
        def_violations(c, key, def).len() <= 1,
        forall|k: int| 0 <= k < def_violations(c, key, def).len() ==> violation_key(#[trigger] def_violations(c, key, def)[k]) == key
            && !(def_violations(c, key, def)[k] is UnknownKey),
{
}

pub proof fn lemma_schema_no_dup(c: Seq<ConfigEntry>, defs: Seq<(String, XConfigDef)>)
    requires
        unique_names(def_keys(defs)),
    ensures
        schema_violations(c, defs).no_duplicates(),
        forall|k: int| 0 <= k < schema_violations(c, defs).len() ==> !((#[trigger] schema_violations(c, defs)[k]) is UnknownKey),
        forall|k: int| 0 <= k < schema_violations(c, defs).len() ==> def_keys(defs).contains(violation_key(#[trigger] schema_violations(c, defs)[k])),
    decreases defs.len(),
{
    if defs.len() > 0 {
        let prev = defs.drop_last();
        let n = defs.len() - 1;
        assert(unique_names(def_keys(prev))) by {
            assert forall|i: int, j: int| 0 <= i < prev.len() && 0 <= j < prev.len() && i != j implies def_keys(prev)[i] != def_keys(prev)[j] by {
                assert(def_keys(defs)[i] != def_keys(defs)[j]);
            }
        }
        lemma_schema_no_dup(c, prev);
        let a = schema_violations(c, prev);
        let b = def_violations(c, defs[n].0@, defs[n].1);
        lemma_def_violations_shape(c, defs[n].0@, defs[n].1);
        let t = a + b;
        assert(schema_violations(c, defs) == t);
        assert forall|k: int| 0 <= k < t.len() implies def_keys(defs).contains(violation_key(#[trigger] t[k])) by {
            if k < a.len() {
                let key = violation_key(a[k]);
                let j = choose|j: int| 0 <= j < def_keys(prev).len() && def_keys(prev)[j] == key;
                assert(def_keys(defs)[j] == key);
            } else {
                assert(def_keys(defs)[n] == defs[n].0@);
            }
        }
        assert forall|x: int, y: int| 0 <= x < t.len() && 0 <= y < t.len() && x != y implies t[x] != t[y] by {
            if x >= a.len() && y >= a.len() {
            } else if x < a.len() && y < a.len() {
            } else {
                let ia = if x < a.len() { x } else { y };
                let key = violation_key(a[ia]);
                let j = choose|j: int| 0 <= j < def_keys(prev).len() && def_keys(prev)[j] == key;
                assert(def_keys(defs)[j] != def_keys(defs)[n]);
            }
        }
    }
}

/// Validation is order-free: two config files holding the same entries
/// and two schemas holding the same switch definitions, each in any
/// order, give the same outcome, the same set of violations (so the same
/// sorted messages) and the same number of errors.
pub proof fn lemma_validation_order_free(c1: ProjectConfig, c2: ProjectConfig, d1: DefConfig, d2: DefConfig)
    requires
        c1.wf(),
        c2.wf(),
        d1.wf(),
        d2.wf(),
        entries_of(c1).to_set() == entries_of(c2).to_set(),
        defs_of(d1).to_set() == defs_of(d2).to_set(),
    ensures
        violations(entries_of(c1), defs_of(d1)).to_set() == violations(entries_of(c2), defs_of(d2)).to_set(),
        violations(entries_of(c1), defs_of(d1)).len() == violations(entries_of(c2), defs_of(d2)).len(),
        violations(entries_of(c1), defs_of(d1)).map_values(|v: Violation| v.message()).to_set()
            == violations(entries_of(c2), defs_of(d2)).map_values(|v: Violation| v.message()).to_set(),
{
    let (e1, e2, f1, f2) = (entries_of(c1), entries_of(c2), defs_of(d1), defs_of(d2));
    lemma_violations_order_free(e1, e2, f1, f2);
    lemma_violations_no_dup(e1, f1);
    lemma_violations_no_dup(e2, f2);
    violations(e1, f1).unique_seq_to_set();
    violations(e2, f2).unique_seq_to_set();
}

pub proof fn lemma_violations_no_dup(c: Seq<ConfigEntry>, defs: Seq<(String, XConfigDef)>)
    requires
        unique_names(config_keys(c)),
        unique_names(def_keys(defs)),
    ensures
        violations(c, defs).no_duplicates(),
{
    lemma_unknown_no_dup(c, defs);
    lemma_schema_no_dup(c, defs);
    let a = unknown_violations(c, defs);
    let b = schema_violations(c, defs);
    let t = a + b;
    assert forall|x: int, y: int| 0 <= x < t.len() && 0 <= y < t.len() && x != y implies t[x] != t[y] by {
        if x < a.len() && y >= a.len() {
            assert(t[x] is UnknownKey);
            assert(!(b[y - a.len()] is UnknownKey));
        } else if y < a.len() && x >= a.len() {
            assert(t[y] is UnknownKey);
            assert(!(b[x - a.len()] is UnknownKey));
        }
    }
}

} // verus!
