//! The compiler stand-in: finds the unit being compiled and adds the
//! feature and extern flags that the environment tables assign to it.
use vstd::prelude::*;
use crate::text::{fields, split_fields, split_once, split_once_char, str_eq, views};

verus! {

/// The unit a compiler command line compiles: the argument after the
/// first `--crate-name`.
pub open spec fn unit_name(args: Seq<Seq<char>>) -> Option<Seq<char>>
    decreases args.len(),
{
    if args.len() < 2 {
        None
    } else if args[0] == "--crate-name"@ {
        Some(args[1])
    } else {
        unit_name(args.drop_first())
    }
}

/// The features that the table entries (`unit:f1,f2`) give `unit`.
pub open spec fn unit_features(entries: Seq<Seq<char>>, unit: Seq<char>) -> Seq<Seq<char>>
    decreases entries.len(),
{
    if entries.len() == 0 {
        Seq::empty()
    } else {
        unit_features(entries.drop_last(), unit) + match split_once(entries.last(), ':') {
            Some((cn, feats)) => if cn == unit {
                fields(feats, ',')
            } else {
                Seq::empty()
            },
            None => Seq::empty(),
        }
    }
}

/// The extern bindings that the table entries (`unit:name=path`) give `unit`.
pub open spec fn unit_externs(entries: Seq<Seq<char>>, unit: Seq<char>) -> Seq<(Seq<char>, Seq<char>)>
    decreases entries.len(),
{
    if entries.len() == 0 {
        Seq::empty()
    } else {
        unit_externs(entries.drop_last(), unit) + match split_once(entries.last(), ':') {
            Some((cn, spec)) => if cn == unit {
                match split_once(spec, '=') {
                    Some(pair) => seq![pair],
                    None => Seq::empty(),
                }
            } else {
                Seq::empty()
            },
            None => Seq::empty(),
        }
    }
}

/// `--cfg feature="f"` for each feature.
pub open spec fn feature_flags(fs: Seq<Seq<char>>) -> Seq<Seq<char>>
    decreases fs.len(),
{
    if fs.len() == 0 {
        Seq::empty()
    } else {
        feature_flags(fs.drop_last()) + seq!["--cfg"@, "feature=\""@ + fs.last() + "\""@]
    }
}

/// `--extern name=path` for each binding.
pub open spec fn extern_flags(es: Seq<(Seq<char>, Seq<char>)>) -> Seq<Seq<char>>
    decreases es.len(),
{
    if es.len() == 0 {
        Seq::empty()
    } else {
        extern_flags(es.drop_last()) + seq!["--extern"@, es.last().0 + "="@ + es.last().1]
    }
}

/// The flags the stand-in adds for a command line, given the two tables.
pub open spec fn injected_flags(
    args: Seq<Seq<char>>,
    features_env: Option<Seq<char>>,
    externs_env: Option<Seq<char>>,
) -> Seq<Seq<char>> {
    match unit_name(args) {
        None => Seq::empty(),
        Some(unit) => (match features_env {
            Some(t) => feature_flags(unit_features(fields(t, ';'), unit)),
            None => Seq::empty(),
        }) + (match externs_env {
            Some(t) => extern_flags(unit_externs(fields(t, ';'), unit)),
            None => Seq::empty(),
        }),
    }
}

/// The plain form of an optional string.
pub open spec fn opt_view(s: Option<String>) -> Option<Seq<char>> {
    match s {
        Some(x) => Some(x@),
        None => None,
    }
}

/// The unit a compiler command line compiles.
pub fn crate_name_arg(args: &Vec<String>) -> (r: Option<String>)
    ensures
        opt_view(r) == unit_name(views(args@)),
{
    let ghost a = views(args@);
    let n = args.len();
    let mut i: usize = 0;
    assert(a.subrange(0, n as int) =~= a);
    while i < n && i + 1 < n
        invariant
            n == args@.len(),
            a == views(args@),
            i <= n,
            unit_name(a) == unit_name(a.subrange(i as int, n as int)),
        decreases n - i,
    {
        assert(a.subrange(i as int, n as int).drop_first() =~= a.subrange(i + 1, n as int));
        if str_eq(args[i].as_str(), "--crate-name") {
            return Some(args[i + 1].clone());
        }
        i = i + 1;
    }
    None
}

/// The features the table assigns to `unit`.
pub fn features_for_unit(table: &str, unit: &str) -> (r: Vec<String>)
    ensures
        views(r@) == unit_features(fields(table@, ';'), unit@),
{
    let entries = split_fields(table, ';');
    let ghost ev = views(entries@);
    let mut out: Vec<String> = Vec::new();
    let mut i: usize = 0;
    while i < entries.len()
        invariant
            i <= entries.len(),
            ev == views(entries@),
            ev == fields(table@, ';'),
            views(out@) == unit_features(ev.subrange(0, i as int), unit@),
        decreases entries.len() - i,
    {
        assert(ev.subrange(0, i + 1).drop_last() =~= ev.subrange(0, i as int));
        match split_once_char(entries[i].as_str(), ':') {
            Some((cn, feats)) => {
                if str_eq(cn.as_str(), unit) {
                    let fs = split_fields(feats.as_str(), ',');
                    let ghost before = out@;
                    let mut j: usize = 0;
                    while j < fs.len()
                        invariant
                            j <= fs.len(),
                            out@ == before + fs@.subrange(0, j as int),
                        decreases fs.len() - j,
                    {
                        out.push(fs[j].clone());
                        assert(out@ =~= before + fs@.subrange(0, j + 1));
                        j = j + 1;
                    }
                    assert(fs@.subrange(0, j as int) =~= fs@);
                    assert(views(out@) =~= views(before) + views(fs@));
                }
            },
            None => {},
        }
        assert(views(out@) =~= unit_features(ev.subrange(0, i + 1), unit@));
        i = i + 1;
    }
    assert(ev.subrange(0, i as int) =~= ev);
    out
}

/// The extern bindings (name, path) the table assigns to `unit`.
pub fn externs_for_unit(table: &str, unit: &str) -> (r: Vec<(String, String)>)
    ensures
        r@.map_values(|e: (String, String)| (e.0@, e.1@)) == unit_externs(fields(table@, ';'), unit@),
{
    let entries = split_fields(table, ';');
    let ghost ev = views(entries@);
    let mut out: Vec<(String, String)> = Vec::new();
    let mut i: usize = 0;
    while i < entries.len()
        invariant
            i <= entries.len(),
            ev == views(entries@),
            ev == fields(table@, ';'),
            out@.map_values(|e: (String, String)| (e.0@, e.1@)) == unit_externs(
                ev.subrange(0, i as int),
                unit@,
            ),
        decreases entries.len() - i,
    {
        assert(ev.subrange(0, i + 1).drop_last() =~= ev.subrange(0, i as int));
        let ghost before = out@;
        match split_once_char(entries[i].as_str(), ':') {
            Some((cn, spec)) => {
                if str_eq(cn.as_str(), unit) {
                    match split_once_char(spec.as_str(), '=') {
                        Some((name, path)) => {
                            out.push((name, path));
                        },
                        None => {},
                    }
                }
            },
            None => {},
        }
        assert(out@.map_values(|e: (String, String)| (e.0@, e.1@)) =~= unit_externs(
            ev.subrange(0, i + 1),
            unit@,
        ));
        i = i + 1;
    }
    assert(ev.subrange(0, i as int) =~= ev);
    out
}

/// The command line for the real compiler: one `--cfg feature="f"` per
/// feature and one `--extern name=path` per binding that the tables
/// assign to the unit being compiled, ahead of the original arguments,
/// which are kept as they are. A table that is absent adds nothing.
pub fn wrapped_args(
    args: &Vec<String>,
    features_env: &Option<String>,
    externs_env: &Option<String>,
) -> (r: Vec<String>)
    ensures
        views(r@) == injected_flags(views(args@), opt_view(*features_env), opt_view(*externs_env))
            + views(args@),
{
    let mut out: Vec<String> = Vec::new();
    match crate_name_arg(args) {
        None => {},
        Some(unit) => {
            match features_env {
                Some(t) => {
                    let fs = features_for_unit(t.as_str(), unit.as_str());
                    let ghost fv = views(fs@);
                    let mut i: usize = 0;
                    while i < fs.len()
                        invariant
                            i <= fs.len(),
                            fv == views(fs@),
                            views(out@) == feature_flags(fv.subrange(0, i as int)),
                        decreases fs.len() - i,
                    {
                        assert(fv.subrange(0, i + 1).drop_last() =~= fv.subrange(0, i as int));
                        let ghost before = out@;
                        out.push(String::from_str("--cfg"));
                        let mut flag = String::from_str("feature=\"");
                        flag.append(fs[i].as_str());
                        flag.append("\"");
                        out.push(flag);
                        assert(views(out@) =~= views(before) + seq!["--cfg"@, "feature=\""@ + fv[i as int] + "\""@]);
                        i = i + 1;
                    }
                    assert(fv.subrange(0, i as int) =~= fv);
                },
                None => {},
            }
            let ghost mid = views(out@);
            match externs_env {
                Some(t) => {
                    let es = externs_for_unit(t.as_str(), unit.as_str());
                    let ghost esv = es@.map_values(|e: (String, String)| (e.0@, e.1@));
                    let mut i: usize = 0;
                    while i < es.len()
                        invariant
                            i <= es.len(),
                            esv == es@.map_values(|e: (String, String)| (e.0@, e.1@)),
                            views(out@) == mid + extern_flags(esv.subrange(0, i as int)),
                        decreases es.len() - i,
                    {
                        assert(esv.subrange(0, i + 1).drop_last() =~= esv.subrange(0, i as int));
                        let ghost before = out@;
                        out.push(String::from_str("--extern"));
                        let mut flag = es[i].0.clone();
                        flag.append("=");
                        flag.append(es[i].1.as_str());
                        out.push(flag);
                        assert(views(out@) =~= views(before) + seq!["--extern"@, esv[i as int].0 + "="@ + esv[i as int].1]);
                        i = i + 1;
                    }
                    assert(esv.subrange(0, i as int) =~= esv);
                },
                None => {
                    assert(mid + Seq::<Seq<char>>::empty() =~= mid);
                },
            }
        },
    }
    let ghost injected = views(out@);
    let mut i: usize = 0;
    while i < args.len()
        invariant
            i <= args.len(),
            views(out@) == injected + views(args@.subrange(0, i as int)),
        decreases args.len() - i,
    {
        let ghost before = out@;
        out.push(args[i].clone());
        assert(out@ == before.push(args@[i as int]));
        assert(views(out@) =~= views(before).push(args@[i as int]@));
        assert(views(args@.subrange(0, i + 1)) =~= views(args@.subrange(0, i as int)).push(
            args@[i as int]@,
        ));
        assert(views(out@) =~= injected + views(args@.subrange(0, i + 1)));
        i = i + 1;
    }
    assert(args@.subrange(0, i as int) =~= args@);
    out
}

} // verus!
