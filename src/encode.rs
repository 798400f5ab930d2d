//! Folds the resolved state into what the build tool fingerprints: the
//! feature table handed to the compiler stand-in, the switch flags, and a
//! content hash of the table.
use vstd::prelude::*;
use crate::mapper::{FeatureMap, FeatureTable};
use crate::intercept::unit_features;
use crate::text::{
    join, join_strings, copy_strings, views, fields, split_once, is_first, lemma_split_once_at,
    lemma_fields_of_join, lemma_join_avoids,
};

verus! {

/// What `str::to_uppercase` returns for a string.
pub uninterp spec fn upper_of(s: Seq<char>) -> Seq<char>;

/// Relies on `str::to_uppercase`: the result depends on the characters alone.
#[verifier::external_body]
pub(crate) fn uppercase(s: &str) -> (r: String)
    ensures
        r@ == upper_of(s@),
{
    s.to_uppercase()
}

/// What the standard library's `DefaultHasher` (as built by `new`/`default`,
/// which are fixed keys, not seeded per process) gives for a string.
pub uninterp spec fn text_fingerprint(s: Seq<char>) -> u64;

/// Relies on `BuildHasher::hash_one` over `BuildHasherDefault<DefaultHasher>`:
/// hashing the same string gives the same number.
#[verifier::external_body]
fn fingerprint(s: &str) -> (r: u64)
    ensures
        r == text_fingerprint(s@),
{
    std::hash::BuildHasher::hash_one(
        &std::hash::BuildHasherDefault::<std::collections::hash_map::DefaultHasher>::default(),
        s,
    )
}

/// A character of Unicode's White_Space property.
pub open spec fn is_white_space(c: char) -> bool {
    let n = c as int;
    (0x9 <= n <= 0xd) || n == 0x20 || n == 0x85 || n == 0xa0 || n == 0x1680 || (0x2000 <= n
        <= 0x200a) || n == 0x2028 || n == 0x2029 || n == 0x202f || n == 0x205f || n == 0x3000
}

/// `s` without its leading and trailing White_Space characters.
pub open spec fn trimmed(s: Seq<char>) -> Seq<char>
    decreases s.len(),
{
    if s.len() == 0 {
        s
    } else if is_white_space(s[0]) {
        trimmed(s.drop_first())
    } else if is_white_space(s.last()) {
        trimmed(s.drop_last())
    } else {
        s
    }
}

/// Trimming keeps a tail that begins and ends with non-white-space.
pub proof fn lemma_trim_keeps_tail(x: Seq<char>, t: Seq<char>)
    requires
        t.len() > 0,
        !is_white_space(t[0]),
        !is_white_space(t.last()),
    ensures
        crate::text::ends_with(trimmed(x + t), t),
    decreases x.len(),
{
    let s = x + t;
    assert(s.last() == t.last());
    if x.len() == 0 {
        assert(s =~= t);
        assert(t.subrange(0, t.len() as int) =~= t);
    } else if is_white_space(x[0]) {
        assert(s.drop_first() =~= x.drop_first() + t);
        lemma_trim_keeps_tail(x.drop_first(), t);
    } else {
        assert(s.subrange(s.len() - t.len(), s.len() as int) =~= t);
    }
}

/// Relies on `str::trim`, which its documentation defines as removing
/// leading and trailing characters of the Unicode White_Space property.
#[verifier::external_body]
fn trim_text(s: &str) -> (r: String)
    ensures
        r@ == trimmed(s@),
{
    s.trim().to_string()
}

/// The `k` lowest hexadecimal digits of `h`, most significant first.
pub open spec fn hex_digits(h: nat, k: nat) -> Seq<char>
    decreases k,
{
    if k == 0 {
        Seq::empty()
    } else {
        hex_digits(h / 16, (k - 1) as nat).push("0123456789abcdef"@[(h % 16) as int])
    }
}

/// The `k` lowest hexadecimal digits of `h`, zero-padded.
pub fn hex_fixed(h: u64, k: usize) -> (r: String)
    ensures
        r@ == hex_digits(h as nat, k as nat),
    decreases k,
{
    if k == 0 {
        String::new()
    } else {
        let mut s = hex_fixed(h / 16, k - 1);
        let d = (h % 16) as usize;
        proof {
            reveal_strlit("0123456789abcdef");
        }
        let digit = "0123456789abcdef".substring_char(d, d + 1);
        assert(digit@ =~= seq!["0123456789abcdef"@[d as int]]);
        s.append(digit);
        s
    }
}

/// The flag that carries a fingerprint.
pub open spec fn fingerprint_text(h: u64) -> Seq<char> {
    "--cfg=__xfp=\""@ + hex_digits(h as nat, 16) + "\""@
}

/// The compiler flag carrying fingerprint `h` as 16 hexadecimal digits.
pub fn fingerprint_cfg(h: u64) -> (r: String)
    ensures
        r@ == fingerprint_text(h),
{
    let mut s = String::from_str("--cfg=__xfp=\"");
    let digits = hex_fixed(h, 16);
    s.append(digits.as_str());
    s.append("\"");
    s
}

/// What the fingerprint covers: both encoded tables, one per line.
pub open spec fn mapping_text(features_env: Seq<char>, externs_env: Seq<char>) -> Seq<char> {
    features_env + "\n"@ + externs_env
}

/// The fingerprint flag for the encoded feature and extern tables; none
/// when the feature table is empty (then nothing is bound either).
pub fn fingerprint_flag(features_env: &str, externs_env: &str) -> (r: Option<String>)
    ensures
        features_env@.len() == 0 ==> r is None,
        features_env@.len() > 0 ==> (r matches Some(f) && f@ == fingerprint_text(
            text_fingerprint(mapping_text(features_env@, externs_env@)),
        )),
{
    if features_env.unicode_len() == 0 {
        None
    } else {
        let mut text = String::from_str(features_env);
        text.append("\n");
        text.append(externs_env);
        Some(fingerprint_cfg(fingerprint(text.as_str())))
    }
}

/// One feature-table entry: `package:f1,f2`.
pub open spec fn table_entry(e: (Seq<char>, Seq<Seq<char>>)) -> Seq<char> {
    e.0 + ":"@ + join(e.1, ","@)
}

/// The encoded entry of each package, in order.
pub open spec fn table_entries(m: FeatureTable) -> Seq<Seq<char>> {
    m.map_values(|e: (Seq<char>, Seq<Seq<char>>)| table_entry(e))
}

/// The feature table as the compiler stand-in reads it:
/// `pkg:f1,f2;pkg2:f3`.
pub open spec fn features_env_text(m: FeatureTable) -> Seq<char> {
    join(table_entries(m), ";"@)
}

/// Encodes the feature map for the compiler stand-in.
pub fn encode_features_env(feature_map: &FeatureMap) -> (r: String)
    ensures
        r@ == features_env_text(feature_map@),
{
    let ghost m = feature_map@;
    let mut parts: Vec<String> = Vec::new();
    let mut i: usize = 0;
    while i < feature_map.entries.len()
        invariant
            i <= feature_map.entries.len(),
            m == feature_map@,
            views(parts@) == table_entries(m.subrange(0, i as int)),
        decreases feature_map.entries.len() - i,
    {
        let mut s = feature_map.entries[i].0.clone();
        s.append(":");
        let feats = join_strings(&feature_map.entries[i].1, ",");
        s.append(feats.as_str());
        let ghost before = parts@;
        parts.push(s);
        assert(views(parts@) =~= views(before).push(s@));
        assert(table_entries(m.subrange(0, i + 1)) =~= table_entries(m.subrange(0, i as int)).push(
            table_entry(m[i as int]),
        ));
        assert(views(parts@) =~= table_entries(m.subrange(0, i + 1)));
        i = i + 1;
    }
    assert(m.subrange(0, i as int) =~= m);
    join_strings(&parts, ";")
}

/// ` --cfg=xconfig="name"` for each active switch.
pub open spec fn xconfig_cfgs(active: Seq<Seq<char>>) -> Seq<char>
    decreases active.len(),
{
    if active.len() == 0 {
        Seq::empty()
    } else {
        xconfig_cfgs(active.drop_last()) + " --cfg=xconfig=\""@ + active.last() + "\""@
    }
}

/// The compiler flags for a build: the flags already set, one
/// `--cfg=xconfig="name"` per active switch, and the fingerprint of the
/// encoded feature and extern tables when the feature table is not empty,
/// trimmed of surrounding whitespace. The build tool tracks these flags,
/// so a change of the switches or of the mapping forces recompilation.
pub fn build_rustflags(base: &str, active: &Vec<String>, features_env: &str, externs_env: &str) -> (r:
    String)
    ensures
        r@ == trimmed(
            base@ + xconfig_cfgs(views(active@)) + if features_env@.len() > 0 {
                " "@ + fingerprint_text(text_fingerprint(mapping_text(features_env@, externs_env@)))
            } else {
                Seq::<char>::empty()
            },
        ),
        features_env@.len() > 0 ==> crate::text::ends_with(
            r@,
            fingerprint_text(text_fingerprint(mapping_text(features_env@, externs_env@))),
        ),
{
    let ghost av = views(active@);
    let mut s = String::from_str(base);
    let mut i: usize = 0;
    while i < active.len()
        invariant
            i <= active.len(),
            av == views(active@),
            s@ == base@ + xconfig_cfgs(av.subrange(0, i as int)),
        decreases active.len() - i,
    {
        assert(av.subrange(0, i + 1).drop_last() =~= av.subrange(0, i as int));
        s.append(" --cfg=xconfig=\"");
        s.append(active[i].as_str());
        s.append("\"");
        assert(s@ =~= base@ + xconfig_cfgs(av.subrange(0, i + 1)));
        i = i + 1;
    }
    assert(av.subrange(0, i as int) =~= av);
    match fingerprint_flag(features_env, externs_env) {
        Some(f) => {
            let ghost pre = s@;
            s.append(" ");
            s.append(f.as_str());
            assert(s@ =~= pre + (" "@ + f@));
            proof {
                reveal_strlit("--cfg=__xfp=\"");
                reveal_strlit("\"");
                reveal_strlit(" ");
                assert(f@[0] == '-');
                assert(f@.last() == '"');
                assert(s@ =~= (pre + " "@) + f@);
                lemma_trim_keeps_tail(pre + " "@, f@);
            }
        },
        None => {
            assert(s@ =~= s@ + Seq::<char>::empty());
        },
    }
    trim_text(s.as_str())
}

/// The arguments for the build tool: those given, or `build -p entry`.
pub fn build_command_args(given: &Vec<String>) -> (r: Vec<String>)
    ensures
        given@.len() > 0 ==> r@ == given@,
        given@.len() == 0 ==> views(r@) == seq!["build"@, "-p"@, "entry"@],
{
    if given.len() > 0 {
        copy_strings(given)
    } else {
        let mut r: Vec<String> = Vec::new();
        r.push(String::from_str("build"));
        r.push(String::from_str("-p"));
        r.push(String::from_str("entry"));
        assert(views(r@) =~= seq!["build"@, "-p"@, "entry"@]);
        r
    }
}

/// `--cfg=NAME` for each active switch, `--check-cfg=cfg(NAME)` for each
/// known switch, then the declaration of the fingerprint cfg; names are
/// given upper-cased.
pub open spec fn cfg_flag_list(active_upper: Seq<Seq<char>>, all_upper: Seq<Seq<char>>) -> Seq<
    Seq<char>,
> {
    active_upper.map_values(|c: Seq<char>| "--cfg="@ + c) + all_upper.map_values(
        |c: Seq<char>| "--check-cfg=cfg("@ + c + ")"@,
    ) + seq!["--check-cfg=cfg(__xfp,values(any()))"@]
}

/// The switch flags, from names that are already upper-cased.
pub fn cfg_flags_for(active_upper: &Vec<String>, all_upper: &Vec<String>) -> (r: Vec<String>)
    ensures
        views(r@) == cfg_flag_list(views(active_upper@), views(all_upper@)),
{
    let ghost a = views(active_upper@);
    let ghost k = views(all_upper@);
    let mut out: Vec<String> = Vec::new();
    let mut i: usize = 0;
    while i < active_upper.len()
        invariant
            i <= active_upper.len(),
            a == views(active_upper@),
            views(out@) == a.subrange(0, i as int).map_values(|c: Seq<char>| "--cfg="@ + c),
        decreases active_upper.len() - i,
    {
        let mut f = String::from_str("--cfg=");
        f.append(active_upper[i].as_str());
        let ghost before = out@;
        out.push(f);
        assert(views(out@) =~= views(before).push(f@));
        assert(a.subrange(0, i + 1).map_values(|c: Seq<char>| "--cfg="@ + c) =~= a.subrange(
            0,
            i as int,
        ).map_values(|c: Seq<char>| "--cfg="@ + c).push("--cfg="@ + a[i as int]));
        assert(views(out@) =~= a.subrange(0, i + 1).map_values(|c: Seq<char>| "--cfg="@ + c));
        i = i + 1;
    }
    assert(a.subrange(0, i as int) =~= a);
    let ghost first = views(out@);
    let mut j: usize = 0;
    while j < all_upper.len()
        invariant
            j <= all_upper.len(),
            k == views(all_upper@),
            views(out@) == first + k.subrange(0, j as int).map_values(
                |c: Seq<char>| "--check-cfg=cfg("@ + c + ")"@,
            ),
        decreases all_upper.len() - j,
    {
        let mut f = String::from_str("--check-cfg=cfg(");
        f.append(all_upper[j].as_str());
        f.append(")");
        let ghost before = out@;
        out.push(f);
        assert(views(out@) =~= views(before).push(f@));
        assert(k.subrange(0, j + 1).map_values(|c: Seq<char>| "--check-cfg=cfg("@ + c + ")"@)
            =~= k.subrange(0, j as int).map_values(
            |c: Seq<char>| "--check-cfg=cfg("@ + c + ")"@,
        ).push("--check-cfg=cfg("@ + k[j as int] + ")"@));
        assert(views(out@) =~= first + k.subrange(0, j + 1).map_values(
            |c: Seq<char>| "--check-cfg=cfg("@ + c + ")"@,
        ));
        j = j + 1;
    }
    assert(k.subrange(0, j as int) =~= k);
    let ghost second = views(out@);
    out.push(String::from_str("--check-cfg=cfg(__xfp,values(any()))"));
    assert(views(out@) =~= second.push("--check-cfg=cfg(__xfp,values(any()))"@));
    out
}

/// Each name upper-cased.
pub open spec fn uppers(v: Seq<Seq<char>>) -> Seq<Seq<char>> {
    v.map_values(|c: Seq<char>| upper_of(c))
}

/// Each name upper-cased.
pub fn uppercase_all(v: &Vec<String>) -> (r: Vec<String>)
    ensures
        views(r@) == uppers(views(v@)),
{
    let mut out: Vec<String> = Vec::new();
    let mut i: usize = 0;
    while i < v.len()
        invariant
            i <= v.len(),
            views(out@) == uppers(views(v@.subrange(0, i as int))),
        decreases v.len() - i,
    {
        let u = uppercase(v[i].as_str());
        let ghost before = out@;
        out.push(u);
        assert(views(out@) =~= views(before).push(u@));
        assert(views(v@.subrange(0, i + 1)) =~= views(v@.subrange(0, i as int)).push(v@[i as int]@));
        assert(uppers(views(v@.subrange(0, i + 1))) =~= uppers(views(v@.subrange(0, i as int))).push(
            upper_of(v@[i as int]@),
        ));
        assert(views(out@) =~= uppers(views(v@.subrange(0, i + 1))));
        i = i + 1;
    }
    assert(v@.subrange(0, i as int) =~= v@);
    out
}

/// The switch flags for a build: one activation flag per active switch
/// and one declaration per known switch (so no conditional is reported
/// as unknown), with switch names upper-cased and sorted, each once.
pub fn encode_flags(active: &Vec<String>, all_keys: &Vec<String>) -> (r: Vec<String>)
    ensures
        views(r@) == cfg_flag_list(sorted_uppers(views(active@)), sorted_uppers(views(all_keys@))),
{
    let a = crate::text::sorted_unique(&uppercase_all(active));
    let k = crate::text::sorted_unique(&uppercase_all(all_keys));
    cfg_flags_for(&a, &k)
}

/// The names upper-cased, in sorted order, each once.
pub open spec fn sorted_uppers(v: Seq<Seq<char>>) -> Seq<Seq<char>> {
    crate::text::sorted_names(uppers(v).to_set())
}

/// Upper-cased names in sorted order depend only on the set of names.
pub proof fn lemma_sorted_uppers_set(a: Seq<Seq<char>>, b: Seq<Seq<char>>)
    requires
        a.to_set() == b.to_set(),
    ensures
        sorted_uppers(a) == sorted_uppers(b),
{
    a.lemma_to_set_map_commutes(|c: Seq<char>| upper_of(c));
    b.lemma_to_set_map_commutes(|c: Seq<char>| upper_of(c));
}

/// The features that the table lists under package `u`, entry by entry.
pub open spec fn listed_features(m: FeatureTable, u: Seq<char>) -> Seq<Seq<char>>
    decreases m.len(),
{
    if m.len() == 0 {
        Seq::empty()
    } else {
        listed_features(m.drop_last(), u) + if m.last().0 == u {
            m.last().1
        } else {
            Seq::empty()
        }
    }
}

/// A package name that holds neither table separator.
pub open spec fn plain_name(s: Seq<char>) -> bool {
    forall|j: int| 0 <= j < s.len() ==> s[j] != ';' && s[j] != ':'
}

/// A non-empty feature name that holds neither list separator.
pub open spec fn plain_feature(s: Seq<char>) -> bool {
    s.len() > 0 && forall|j: int| 0 <= j < s.len() ==> s[j] != ';' && s[j] != ','
}

/// Every name of the table can be written in the encoded form unambiguously.
pub open spec fn encodable(m: FeatureTable) -> bool {
    forall|k: int|
        0 <= k < m.len() ==> plain_name((#[trigger] m[k]).0) && forall|f: int|
            0 <= f < m[k].1.len() ==> plain_feature(#[trigger] m[k].1[f])
}

pub proof fn lemma_entry_decodes(e: (Seq<char>, Seq<Seq<char>>))
    requires
        plain_name(e.0),
        forall|f: int| 0 <= f < e.1.len() ==> plain_feature(#[trigger] e.1[f]),
    ensures
        split_once(table_entry(e), ':') == Some((e.0, join(e.1, ","@))),
        fields(join(e.1, ","@), ',') == e.1,
        table_entry(e).len() > 0,
        forall|j: int| 0 <= j < table_entry(e).len() ==> table_entry(e)[j] != ';',
{
    reveal_strlit(":");
    reveal_strlit(",");
    let t = table_entry(e);
    let n = e.0.len() as int;
    let rest = join(e.1, ","@);
    assert(t =~= e.0 + seq![':'] + rest);
    assert(t[n] == ':');
    assert forall|j: int| 0 <= j < n implies t[j] != ':' by {
        assert(t[j] == e.0[j]);
    }
    assert(is_first(t, ':', n));
    lemma_split_once_at(t, ':', n);
    assert(t.subrange(0, n) =~= e.0);
    assert(t.subrange(n + 1, t.len() as int) =~= rest);
    assert(","@ =~= seq![',']);
    assert forall|k: int|
        0 <= k < e.1.len() implies (#[trigger] e.1[k]).len() > 0 && forall|j: int|
            0 <= j < e.1[k].len() ==> e.1[k][j] != ',' by {
        assert(plain_feature(e.1[k]));
    }
    lemma_fields_of_join(e.1, ',');
    assert forall|k: int, j: int| 0 <= k < e.1.len() && 0 <= j < e.1[k].len() implies e.1[k][j] != ';' by {
        assert(plain_feature(e.1[k]));
    }
    lemma_join_avoids(e.1, ","@, ';');
    assert forall|j: int| 0 <= j < t.len() implies t[j] != ';' by {
        if j < n {
            assert(t[j] == e.0[j]);
        } else if j > n {
            assert(t[j] == rest[j - n - 1]);
        }
    }
}

pub proof fn lemma_decode_entries(m: FeatureTable, u: Seq<char>)
    requires
        encodable(m),
    ensures
        unit_features(table_entries(m), u) == listed_features(m, u),
    decreases m.len(),
{
    if m.len() > 0 {
        let dl = m.drop_last();
        assert(table_entries(m).drop_last() =~= table_entries(dl));
        assert(encodable(dl)) by {
            assert forall|k: int| 0 <= k < dl.len() implies plain_name((#[trigger] dl[k]).0) && forall|f: int|
                0 <= f < dl[k].1.len() ==> plain_feature(#[trigger] dl[k].1[f]) by {
                assert(dl[k] == m[k]);
            }
        }
        lemma_decode_entries(dl, u);
        let e = m[m.len() - 1];
        assert(plain_name(e.0));
        lemma_entry_decodes(e);
        assert(table_entries(m).last() == table_entry(e));
    }
}

pub proof fn lemma_listed_absent(m: FeatureTable, u: Seq<char>)
    requires
        forall|k: int| 0 <= k < m.len() ==> (#[trigger] m[k]).0 != u,
    ensures
        listed_features(m, u) == Seq::<Seq<char>>::empty(),
    decreases m.len(),
{
    if m.len() > 0 {
        assert forall|k: int| 0 <= k < m.len() - 1 implies (#[trigger] m.drop_last()[k]).0 != u by {
            assert(m.drop_last()[k] == m[k]);
        }
        lemma_listed_absent(m.drop_last(), u);
        assert(m[m.len() - 1].0 != u);
        assert(Seq::<Seq<char>>::empty() + Seq::<Seq<char>>::empty() =~= Seq::<Seq<char>>::empty());
    }
}

pub proof fn lemma_listed_unique(m: FeatureTable, i: int)
    requires
        0 <= i < m.len(),
        forall|a: int, b: int| 0 <= a < m.len() && 0 <= b < m.len() && a != b ==> m[a].0 != m[b].0,
    ensures
        listed_features(m, m[i].0) == m[i].1,
    decreases m.len(),
{
    let dl = m.drop_last();
    let u = m[i].0;
    if i == m.len() - 1 {
        assert forall|k: int| 0 <= k < dl.len() implies (#[trigger] dl[k]).0 != u by {
            assert(dl[k] == m[k]);
        }
        lemma_listed_absent(dl, u);
        assert(Seq::<Seq<char>>::empty() + m[i].1 =~= m[i].1);
    } else {
        assert(dl[i] == m[i]);
        lemma_listed_unique(dl, i);
        assert(m[m.len() - 1].0 != u);
        assert(dl[i].1 + Seq::<Seq<char>>::empty() =~= dl[i].1);
    }
}

/// The feature table round-trips through its encoding: decoding what
/// `encode_features_env` writes gives each package exactly its features,
/// provided package names hold no `;` or `:`, features are non-empty and
/// hold no `;` or `,`, and each package appears once.
pub proof fn lemma_feature_table_round_trip(m: FeatureTable, i: int)
    requires
        0 <= i < m.len(),
        encodable(m),
        forall|a: int, b: int| 0 <= a < m.len() && 0 <= b < m.len() && a != b ==> m[a].0 != m[b].0,
    ensures
        unit_features(fields(features_env_text(m), ';'), m[i].0) == m[i].1,
{
    reveal_strlit(";");
    assert(";"@ =~= seq![';']);
    let es = table_entries(m);
    assert forall|k: int|
        0 <= k < es.len() implies (#[trigger] es[k]).len() > 0 && forall|j: int|
            0 <= j < es[k].len() ==> es[k][j] != ';' by {
        assert(plain_name(m[k].0));
        lemma_entry_decodes(m[k]);
    }
    lemma_fields_of_join(es, ';');
    lemma_decode_entries(m, m[i].0);
    lemma_listed_unique(m, i);
}

} // verus!
