//! Verified string helpers shared by the configuration pipeline.
use vstd::prelude::*;

verus! {

/// The views of a sequence of strings.
pub open spec fn views(v: Seq<String>) -> Seq<Seq<char>> {
    v.map_values(|s: String| s@)
}

/// `i` is the first position of `c` in `s`.
pub open spec fn is_first(s: Seq<char>, c: char, i: int) -> bool {
    &&& 0 <= i < s.len()
    &&& s[i] == c
    &&& forall|j: int| 0 <= j < i ==> s[j] != c
}

/// `s` split at the first `c`, or `None` when `s` holds no `c`.
pub open spec fn split_once(s: Seq<char>, c: char) -> Option<(Seq<char>, Seq<char>)> {
    if exists|i: int| is_first(s, c, i) {
        let i = choose|i: int| is_first(s, c, i);
        Some((s.subrange(0, i), s.subrange(i + 1, s.len() as int)))
    } else {
        None
    }
}

/// What remains of `s` after the prefix `p`, when `s` starts with it.
pub open spec fn strip_prefix(s: Seq<char>, p: Seq<char>) -> Option<Seq<char>> {
    if p.len() <= s.len() && s.subrange(0, p.len() as int) == p {
        Some(s.subrange(p.len() as int, s.len() as int))
    } else {
        None
    }
}

/// Scanning `s` left to right for fields separated by `c`: the non-empty
/// fields closed so far, and the field still open.
pub open spec fn scan_fields(s: Seq<char>, c: char) -> (Seq<Seq<char>>, Seq<char>)
    decreases s.len(),
{
    if s.len() == 0 {
        (Seq::empty(), Seq::empty())
    } else {
        let (done, cur) = scan_fields(s.drop_last(), c);
        if s.last() == c {
            (if cur.len() > 0 { done.push(cur) } else { done }, Seq::empty())
        } else {
            (done, cur.push(s.last()))
        }
    }
}

/// The non-empty fields of `s` separated by `c`, in order.
pub open spec fn fields(s: Seq<char>, c: char) -> Seq<Seq<char>> {
    let (done, cur) = scan_fields(s, c);
    if cur.len() > 0 {
        done.push(cur)
    } else {
        done
    }
}

/// `s` with every `-` replaced by `_`.
pub open spec fn underscored(s: Seq<char>) -> Seq<char> {
    s.map_values(|x: char| if x == '-' { '_' } else { x })
}

/// Lexicographic order on character sequences (the order of `str`).
pub open spec fn seq_lt(a: Seq<char>, b: Seq<char>) -> bool
    decreases a.len(),
{
    if b.len() == 0 {
        false
    } else if a.len() == 0 {
        true
    } else if a[0] != b[0] {
        (a[0] as int) < (b[0] as int)
    } else {
        seq_lt(a.drop_first(), b.drop_first())
    }
}

pub proof fn lemma_seq_lt_irreflexive(a: Seq<char>)
    ensures
        !seq_lt(a, a),
    decreases a.len(),
{
    if a.len() > 0 {
        lemma_seq_lt_irreflexive(a.drop_first());
    }
}

pub proof fn lemma_seq_lt_transitive(a: Seq<char>, b: Seq<char>, c: Seq<char>)
    requires
        seq_lt(a, b),
        seq_lt(b, c),
    ensures
        seq_lt(a, c),
    decreases a.len(),
{
    if a.len() > 0 && b.len() > 0 && c.len() > 0 && a[0] == b[0] && b[0] == c[0] {
        lemma_seq_lt_transitive(a.drop_first(), b.drop_first(), c.drop_first());
    }
}

pub proof fn lemma_seq_lt_total(a: Seq<char>, b: Seq<char>)
    requires
        a != b,
    ensures
        seq_lt(a, b) || seq_lt(b, a),
    decreases a.len(),
{
    if a.len() > 0 && b.len() > 0 && a[0] == b[0] {
        if a.drop_first() == b.drop_first() {
            assert(a =~= seq![a[0]] + a.drop_first());
            assert(b =~= seq![b[0]] + b.drop_first());
        }
        lemma_seq_lt_total(a.drop_first(), b.drop_first());
    } else if a.len() == 0 && b.len() == 0 {
        assert(a =~= b);
    } else if a.len() > 0 && b.len() > 0 {
        assert((a[0] as int) != (b[0] as int));
    }
}

/// Equality of two strings, character by character.
pub fn str_eq(a: &str, b: &str) -> (r: bool)
    ensures
        r == (a@ == b@),
{
    let n = a.unicode_len();
    let m = b.unicode_len();
    if n != m {
        return false;
    }
    let mut i: usize = 0;
    while i < n
        invariant
            n == a@.len(),
            m == b@.len(),
            n == m,
            i <= n,
            a@.subrange(0, i as int) == b@.subrange(0, i as int),
        decreases n - i,
    {
        if a.get_char(i) != b.get_char(i) {
            assert(a@[i as int] != b@[i as int]);
            return false;
        }
        assert(a@.subrange(0, i + 1) =~= a@.subrange(0, i as int).push(a@[i as int]));
        assert(b@.subrange(0, i + 1) =~= b@.subrange(0, i as int).push(b@[i as int]));
        i = i + 1;
    }
    assert(a@ =~= a@.subrange(0, n as int));
    assert(b@ =~= b@.subrange(0, n as int));
    true
}

/// Whether `a` comes strictly before `b` in lexicographic order.
pub fn str_lt(a: &str, b: &str) -> (r: bool)
    ensures
        r == seq_lt(a@, b@),
{
    let n = a.unicode_len();
    let m = b.unicode_len();
    let mut i: usize = 0;
    assert(a@.subrange(0, n as int) =~= a@);
    assert(b@.subrange(0, m as int) =~= b@);
    while i < n && i < m
        invariant
            n == a@.len(),
            m == b@.len(),
            i <= n,
            i <= m,
            seq_lt(a@, b@) == seq_lt(a@.subrange(i as int, n as int), b@.subrange(i as int, m as int)),
        decreases n - i,
    {
        let x = a.get_char(i);
        let y = b.get_char(i);
        if x != y {
            return (x as u32) < (y as u32);
        }
        assert(a@.subrange(i as int, n as int).drop_first() =~= a@.subrange(i + 1, n as int));
        assert(b@.subrange(i as int, m as int).drop_first() =~= b@.subrange(i + 1, m as int));
        i = i + 1;
    }
    i < m
}

/// The first position of `c` in `s`.
pub fn find_char(s: &str, c: char) -> (r: Option<usize>)
    ensures
        match r {
            Some(i) => is_first(s@, c, i as int),
            None => forall|j: int| 0 <= j < s@.len() ==> s@[j] != c,
        },
{
    let n = s.unicode_len();
    let mut i: usize = 0;
    while i < n
        invariant
            n == s@.len(),
            i <= n,
            forall|j: int| 0 <= j < i ==> s@[j] != c,
        decreases n - i,
    {
        if s.get_char(i) == c {
            return Some(i);
        }
        i = i + 1;
    }
    None
}

pub proof fn lemma_split_once_at(s: Seq<char>, c: char, i: int)
    requires
        is_first(s, c, i),
    ensures
        split_once(s, c) == Some((s.subrange(0, i), s.subrange(i + 1, s.len() as int))),
{
    let k = choose|k: int| is_first(s, c, k);
    assert(is_first(s, c, k));
    if k < i {
        assert(s[k] != c);
    }
    if i < k {
        assert(s[i] != c);
    }
}

/// `s` split at the first `c`.
pub fn split_once_char(s: &str, c: char) -> (r: Option<(String, String)>)
    ensures
        match r {
            Some((a, b)) => split_once(s@, c) == Some((a@, b@)),
            None => split_once(s@, c) is None,
        },
{
    match find_char(s, c) {
        Some(i) => {
            proof {
                lemma_split_once_at(s@, c, i as int);
            }
            let n = s.unicode_len();
            let a = String::from_str(s.substring_char(0, i));
            let b = String::from_str(s.substring_char(i + 1, n));
            Some((a, b))
        },
        None => {
            assert(!exists|i: int| is_first(s@, c, i));
            None
        },
    }
}

/// What remains of `s` after the prefix `p`.
pub fn strip_prefix_str(s: &str, p: &str) -> (r: Option<String>)
    ensures
        match r {
            Some(t) => strip_prefix(s@, p@) == Some(t@),
            None => strip_prefix(s@, p@) is None,
        },
{
    let n = s.unicode_len();
    let m = p.unicode_len();
    if m > n {
        return None;
    }
    let head = s.substring_char(0, m);
    if str_eq(head, p) {
        Some(String::from_str(s.substring_char(m, n)))
    } else {
        None
    }
}

/// The non-empty fields of `s` separated by `c`.
pub fn split_fields(s: &str, c: char) -> (r: Vec<String>)
    ensures
        views(r@) == fields(s@, c),
{
    let n = s.unicode_len();
    let mut out: Vec<String> = Vec::new();
    let mut start: usize = 0;
    let mut i: usize = 0;
    while i < n
        invariant
            n == s@.len(),
            start <= i <= n,
            scan_fields(s@.subrange(0, i as int), c) == (views(out@), s@.subrange(
                start as int,
                i as int,
            )),
        decreases n - i,
    {
        let ghost pre = s@.subrange(0, i as int);
        assert(s@.subrange(0, i + 1).drop_last() =~= pre);
        if s.get_char(i) == c {
            if start < i {
                let piece = String::from_str(s.substring_char(start, i));
                let ghost before = out@;
                out.push(piece);
                assert(views(out@) =~= views(before).push(piece@));
            }
            start = i + 1;
            assert(s@.subrange(start as int, start as int) =~= Seq::<char>::empty());
        } else {
            assert(s@.subrange(start as int, i + 1) =~= s@.subrange(start as int, i as int).push(
                s@[i as int],
            ));
        }
        i = i + 1;
    }
    assert(s@.subrange(0, n as int) =~= s@);
    if start < n {
        let piece = String::from_str(s.substring_char(start, n));
        let ghost before = out@;
        out.push(piece);
        assert(views(out@) =~= views(before).push(piece@));
    }
    out
}

/// `s` with every `-` replaced by `_`.
pub fn underscore_name(s: &str) -> (r: String)
    ensures
        r@ == underscored(s@),
{
    let n = s.unicode_len();
    let mut out = String::new();
    let mut i: usize = 0;
    while i < n
        invariant
            n == s@.len(),
            i <= n,
            out@ == underscored(s@.subrange(0, i as int)),
        decreases n - i,
    {
        let ghost prev = out@;
        if s.get_char(i) == '-' {
            out.append("_");
            proof {
                reveal_strlit("_");
            }
        } else {
            out.append(s.substring_char(i, i + 1));
        }
        assert(underscored(s@.subrange(0, i + 1)) =~= underscored(s@.subrange(0, i as int)).push(
            if s@[i as int] == '-' { '_' } else { s@[i as int] },
        ));
        assert(out@ =~= underscored(s@.subrange(0, i + 1)));
        i = i + 1;
    }
    assert(s@.subrange(0, n as int) =~= s@);
    out
}

/// A copy of a vector of strings.
pub fn copy_strings(v: &Vec<String>) -> (r: Vec<String>)
    ensures
        r@ == v@,
{
    let mut out: Vec<String> = Vec::new();
    let mut i: usize = 0;
    while i < v.len()
        invariant
            i <= v.len(),
            out@ == v@.subrange(0, i as int),
        decreases v.len() - i,
    {
        out.push(v[i].clone());
        assert(out@ =~= v@.subrange(0, i + 1));
        i = i + 1;
    }
    assert(out@ =~= v@);
    out
}

/// Whether a vector of strings holds `s`.
pub fn contains_str(v: &Vec<String>, s: &str) -> (r: bool)
    ensures
        r == views(v@).contains(s@),
{
    let mut i: usize = 0;
    while i < v.len()
        invariant
            i <= v.len(),
            forall|j: int| 0 <= j < i ==> v@[j]@ != s@,
        decreases v.len() - i,
    {
        if str_eq(v[i].as_str(), s) {
            assert(views(v@)[i as int] == s@);
            return true;
        }
        i = i + 1;
    }
    assert(!views(v@).contains(s@)) by {
        if views(v@).contains(s@) {
            let j = choose|j: int| 0 <= j < views(v@).len() && views(v@)[j] == s@;
            assert(v@[j]@ == s@);
        }
    }
    false
}

/// Strictly increasing in lexicographic order (so without repeats).
pub open spec fn strictly_sorted(v: Seq<Seq<char>>) -> bool {
    forall|i: int, j: int| 0 <= i < j < v.len() ==> seq_lt(#[trigger] v[i], #[trigger] v[j])
}

/// Inserts `s` into a strictly sorted vector, keeping it strictly sorted;
/// a string already there is not inserted again.
pub fn insert_sorted(v: &mut Vec<String>, s: String)
    requires
        strictly_sorted(views(old(v)@)),
    ensures
        strictly_sorted(views(final(v)@)),
        views(final(v)@).to_set() == views(old(v)@).to_set().insert(s@),
{
    let ghost old_v = views(v@);
    let mut p: usize = 0;
    while p < v.len() && str_lt(v[p].as_str(), s.as_str())
        invariant
            p <= v.len(),
            old_v == views(v@),
            forall|k: int| 0 <= k < p ==> seq_lt(#[trigger] old_v[k], s@),
        decreases v.len() - p,
    {
        p = p + 1;
    }
    if p < v.len() && str_eq(v[p].as_str(), s.as_str()) {
        assert(old_v.to_set().insert(s@) =~= old_v.to_set()) by {
            assert(old_v[p as int] == s@);
        }
        return;
    }
    proof {
        if p < old_v.len() {
            lemma_seq_lt_total(old_v[p as int], s@);
        }
    }
    v.insert(p, s);
    let ghost nv = views(v@);
    assert(nv =~= old_v.insert(p as int, s@));
    assert forall|i: int, j: int| 0 <= i < j < nv.len() implies seq_lt(#[trigger] nv[i], #[trigger] nv[j]) by {
        if j < p {
        } else if j == p {
        } else if i < p {
            lemma_seq_lt_transitive(nv[i], s@, old_v[p as int]);
            if j - 1 > p {
                lemma_seq_lt_transitive(nv[i], old_v[p as int], nv[j]);
            }
        } else if i == p {
            if j - 1 > p {
                lemma_seq_lt_transitive(s@, old_v[p as int], nv[j]);
            }
        } else {
        }
    }
    assert forall|x: Seq<char>| nv.to_set().contains(x) <==> old_v.to_set().insert(s@).contains(x) by {
        if nv.to_set().contains(x) {
            let k = choose|k: int| 0 <= k < nv.len() && nv[k] == x;
            if k < p {
                assert(old_v[k] == x);
            } else if k > p {
                assert(old_v[k - 1] == x);
            }
        }
        if old_v.to_set().contains(x) {
            let k = choose|k: int| 0 <= k < old_v.len() && old_v[k] == x;
            if k < p {
                assert(nv[k] == x);
            } else {
                assert(nv[k + 1] == x);
            }
        }
        if x == s@ {
            assert(nv[p as int] == x);
        }
    }
    assert(nv.to_set() =~= old_v.to_set().insert(s@));
}

/// The strings of `v` in strictly increasing order, each once.
pub fn sorted_unique(v: &Vec<String>) -> (r: Vec<String>)
    ensures
        strictly_sorted(views(r@)),
        views(r@).to_set() == views(v@).to_set(),
        views(r@) == sorted_names(views(v@).to_set()),
{
    let mut out: Vec<String> = Vec::new();
    let mut i: usize = 0;
    assert(views(out@).to_set() =~= views(v@.subrange(0, 0)).to_set());
    while i < v.len()
        invariant
            i <= v.len(),
            strictly_sorted(views(out@)),
            views(out@).to_set() == views(v@.subrange(0, i as int)).to_set(),
        decreases v.len() - i,
    {
        insert_sorted(&mut out, v[i].clone());
        assert(views(v@.subrange(0, i + 1)) =~= views(v@.subrange(0, i as int)).push(v@[i as int]@));
        proof {
            views(v@.subrange(0, i as int)).lemma_push_to_set_commute(v@[i as int]@);
        }
        i = i + 1;
    }
    assert(v@.subrange(0, i as int) =~= v@);
    proof {
        lemma_sorted_names(views(out@));
    }
    out
}

/// `parts` joined with `sep` between each two.
pub open spec fn join(parts: Seq<Seq<char>>, sep: Seq<char>) -> Seq<char>
    decreases parts.len(),
{
    if parts.len() == 0 {
        Seq::empty()
    } else if parts.len() == 1 {
        parts[0]
    } else {
        join(parts.drop_last(), sep) + sep + parts.last()
    }
}

/// The strings of `parts` joined with `sep` between each two.
pub fn join_strings(parts: &Vec<String>, sep: &str) -> (r: String)
    ensures
        r@ == join(views(parts@), sep@),
{
    let ghost pv = views(parts@);
    let mut out = String::new();
    let mut i: usize = 0;
    while i < parts.len()
        invariant
            i <= parts.len(),
            pv == views(parts@),
            out@ == join(pv.subrange(0, i as int), sep@),
        decreases parts.len() - i,
    {
        assert(pv.subrange(0, i + 1).drop_last() =~= pv.subrange(0, i as int));
        if i > 0 {
            out.append(sep);
        }
        out.append(parts[i].as_str());
        assert(out@ =~= join(pv.subrange(0, i + 1), sep@));
        i = i + 1;
    }
    assert(pv.subrange(0, i as int) =~= pv);
    out
}

/// Two strictly sorted sequences holding the same elements are equal.
pub proof fn lemma_sorted_same_set_equal(a: Seq<Seq<char>>, b: Seq<Seq<char>>)
    requires
        strictly_sorted(a),
        strictly_sorted(b),
        a.to_set() == b.to_set(),
    ensures
        a == b,
    decreases a.len(),
{
    if a.len() == 0 {
        if b.len() > 0 {
            assert(b.to_set().contains(b[0]));
        }
        assert(a =~= b);
    } else {
        assert(a.to_set().contains(a[0]));
        assert(b.to_set().contains(a[0]));
        assert(b.len() > 0);
        assert(b.to_set().contains(b[0]));
        if a[0] != b[0] {
            let j = choose|j: int| 0 <= j < b.len() && b[j] == a[0];
            let i = choose|i: int| 0 <= i < a.len() && a[i] == b[0];
            assert(seq_lt(b[0], b[j]));
            assert(seq_lt(a[0], a[i]));
            lemma_seq_lt_transitive(a[0], b[0], a[0]);
            lemma_seq_lt_irreflexive(a[0]);
        }
        let a1 = a.drop_first();
        let b1 = b.drop_first();
        assert forall|x: Seq<char>| a1.to_set().contains(x) <==> b1.to_set().contains(x) by {
            if a1.to_set().contains(x) {
                let i = choose|i: int| 0 <= i < a1.len() && a1[i] == x;
                assert(a[i + 1] == x);
                assert(seq_lt(a[0], x));
                lemma_seq_lt_irreflexive(x);
                assert(a.to_set().contains(x));
                let j = choose|j: int| 0 <= j < b.len() && b[j] == x;
                assert(j != 0);
                assert(b1[j - 1] == x);
            }
            if b1.to_set().contains(x) {
                let j = choose|j: int| 0 <= j < b1.len() && b1[j] == x;
                assert(b[j + 1] == x);
                assert(seq_lt(b[0], x));
                lemma_seq_lt_irreflexive(x);
                assert(b.to_set().contains(x));
                let i = choose|i: int| 0 <= i < a.len() && a[i] == x;
                assert(i != 0);
                assert(a1[i - 1] == x);
            }
        }
        assert(a1.to_set() =~= b1.to_set());
        assert(strictly_sorted(a1)) by {
            assert forall|i: int, j: int| 0 <= i < j < a1.len() implies seq_lt(#[trigger] a1[i], #[trigger] a1[j]) by {
                assert(a1[i] == a[i + 1] && a1[j] == a[j + 1]);
            }
        }
        assert(strictly_sorted(b1)) by {
            assert forall|i: int, j: int| 0 <= i < j < b1.len() implies seq_lt(#[trigger] b1[i], #[trigger] b1[j]) by {
                assert(b1[i] == b[i + 1] && b1[j] == b[j + 1]);
            }
        }
        lemma_sorted_same_set_equal(a1, b1);
        assert(a =~= seq![a[0]] + a1);
        assert(b =~= seq![b[0]] + b1);
    }
}

/// `s` ends with `suffix`.
pub open spec fn ends_with(s: Seq<char>, suffix: Seq<char>) -> bool {
    suffix.len() <= s.len() && s.subrange(s.len() - suffix.len(), s.len() as int) == suffix
}

/// Whether `s` ends with `suffix`.
pub fn ends_with_str(s: &str, suffix: &str) -> (r: bool)
    ensures
        r == ends_with(s@, suffix@),
{
    let n = s.unicode_len();
    let m = suffix.unicode_len();
    if m > n {
        return false;
    }
    str_eq(s.substring_char(n - m, n), suffix)
}

/// Characters without a separator extend the field still open.
pub proof fn lemma_scan_plain(x: Seq<char>, b: Seq<char>, c: char)
    requires
        forall|j: int| 0 <= j < b.len() ==> b[j] != c,
    ensures
        scan_fields(x + b, c) == (scan_fields(x, c).0, scan_fields(x, c).1 + b),
    decreases b.len(),
{
    if b.len() == 0 {
        assert(x + b =~= x);
        assert(scan_fields(x, c).1 + b =~= scan_fields(x, c).1);
    } else {
        assert((x + b).drop_last() =~= x + b.drop_last());
        lemma_scan_plain(x, b.drop_last(), c);
        assert((x + b).last() == b.last());
        assert(scan_fields(x, c).1 + b.drop_last() + seq![b.last()] =~= scan_fields(x, c).1 + b);
        assert((scan_fields(x, c).1 + b.drop_last()).push(b.last()) =~= scan_fields(x, c).1 + b);
    }
}

/// Joining non-empty fields that hold no separator and splitting again
/// gives the fields back.
pub proof fn lemma_fields_of_join(parts: Seq<Seq<char>>, c: char)
    requires
        forall|k: int|
            0 <= k < parts.len() ==> (#[trigger] parts[k]).len() > 0 && forall|j: int|
                0 <= j < parts[k].len() ==> parts[k][j] != c,
    ensures
        fields(join(parts, seq![c]), c) == parts,
    decreases parts.len(),
{
    if parts.len() == 0 {
        assert(fields(Seq::<char>::empty(), c) =~= parts);
    } else if parts.len() == 1 {
        let p0 = parts[0];
        lemma_scan_plain(Seq::empty(), p0, c);
        assert(Seq::<char>::empty() + p0 =~= p0);
        assert(Seq::<char>::empty() + p0 =~= p0);
        assert(fields(p0, c) =~= seq![p0]);
        assert(parts =~= seq![p0]);
    } else {
        let dl = parts.drop_last();
        let last = parts.last();
        assert forall|k: int|
            0 <= k < dl.len() implies (#[trigger] dl[k]).len() > 0 && forall|j: int|
                0 <= j < dl[k].len() ==> dl[k][j] != c by {
            assert(dl[k] == parts[k]);
        }
        lemma_fields_of_join(dl, c);
        let x = join(dl, seq![c]) + seq![c];
        assert(x.drop_last() =~= join(dl, seq![c]));
        assert(x.last() == c);
        assert(parts[parts.len() - 1] == last);
        lemma_scan_plain(x, last, c);
        assert(scan_fields(x, c).1 =~= Seq::<char>::empty());
        assert(Seq::<char>::empty() + last =~= last);
        assert(join(parts, seq![c]) == x + last);
        assert(parts =~= dl.push(last));
    }
}

/// A join avoids a character that neither the parts nor the separator hold.
pub proof fn lemma_join_avoids(parts: Seq<Seq<char>>, sep: Seq<char>, d: char)
    requires
        forall|k: int, j: int| 0 <= k < parts.len() && 0 <= j < parts[k].len() ==> parts[k][j] != d,
        forall|j: int| 0 <= j < sep.len() ==> sep[j] != d,
    ensures
        forall|j: int| 0 <= j < join(parts, sep).len() ==> join(parts, sep)[j] != d,
    decreases parts.len(),
{
    if parts.len() > 1 {
        let dl = parts.drop_last();
        assert forall|k: int, j: int| 0 <= k < dl.len() && 0 <= j < dl[k].len() implies dl[k][j] != d by {
            assert(dl[k] == parts[k]);
        }
        lemma_join_avoids(dl, sep, d);
        let a = join(dl, sep);
        let l = parts[parts.len() - 1];
        assert forall|j: int| 0 <= j < (a + sep + l).len() implies (a + sep + l)[j] != d by {
            if j < a.len() {
            } else if j < a.len() + sep.len() {
                assert((a + sep + l)[j] == sep[j - a.len()]);
            } else {
                assert((a + sep + l)[j] == l[j - a.len() - sep.len()]);
            }
        }
    }
}

/// `s` with `f` inserted before the first element that follows it, unless
/// `f` is met first; on a strictly sorted `s` this is sorted insertion.
pub open spec fn sorted_insert(s: Seq<Seq<char>>, f: Seq<char>) -> Seq<Seq<char>>
    decreases s.len(),
{
    if s.len() == 0 {
        seq![f]
    } else if s[0] == f {
        s
    } else if seq_lt(f, s[0]) {
        seq![f] + s
    } else {
        seq![s[0]] + sorted_insert(s.drop_first(), f)
    }
}

pub proof fn lemma_sorted_insert_set(s: Seq<Seq<char>>, f: Seq<char>)
    ensures
        sorted_insert(s, f).to_set() == s.to_set().insert(f),
    decreases s.len(),
{
    if s.len() == 0 {
        assert forall|x: Seq<char>| seq![f].to_set().contains(x) <==> s.to_set().insert(f).contains(x) by {
            if x == f {
                assert(seq![f][0] == f);
            }
        }
        assert(seq![f].to_set() =~= s.to_set().insert(f));
    } else {
        let t = sorted_insert(s, f);
        if s[0] == f {
            assert(s.to_set().contains(f));
            assert(s.to_set().insert(f) =~= s.to_set());
        } else {
            assert(s =~= seq![s[0]] + s.drop_first());
            if !seq_lt(f, s[0]) {
                lemma_sorted_insert_set(s.drop_first(), f);
            }
            assert forall|x: Seq<char>| t.to_set().contains(x) <==> s.to_set().insert(f).contains(x) by {
                if t.to_set().contains(x) {
                    let k = choose|k: int| 0 <= k < t.len() && t[k] == x;
                    if seq_lt(f, s[0]) {
                        if k > 0 {
                            assert(s[k - 1] == x);
                        }
                    } else if k > 0 {
                        assert(sorted_insert(s.drop_first(), f)[k - 1] == x);
                        assert(sorted_insert(s.drop_first(), f).to_set().contains(x));
                        if x != f {
                            let j = choose|j: int| 0 <= j < s.drop_first().len() && s.drop_first()[j] == x;
                            assert(s[j + 1] == x);
                        }
                    }
                }
                if s.to_set().insert(f).contains(x) {
                    if seq_lt(f, s[0]) {
                        if x == f {
                            assert(t[0] == x);
                        } else {
                            let j = choose|j: int| 0 <= j < s.len() && s[j] == x;
                            assert(t[j + 1] == x);
                        }
                    } else {
                        let r = sorted_insert(s.drop_first(), f);
                        if x == s[0] {
                            assert(t[0] == x);
                        } else {
                            if x != f {
                                let j = choose|j: int| 0 <= j < s.len() && s[j] == x;
                                assert(j != 0);
                                assert(s.drop_first()[j - 1] == x);
                            }
                            assert(s.drop_first().to_set().insert(f).contains(x));
                            let k = choose|k: int| 0 <= k < r.len() && r[k] == x;
                            assert(t[k + 1] == x);
                        }
                    }
                }
            }
            assert(t.to_set() =~= s.to_set().insert(f));
        }
    }
}

pub proof fn lemma_sorted_insert_sorted(s: Seq<Seq<char>>, f: Seq<char>)
    requires
        strictly_sorted(s),
    ensures
        strictly_sorted(sorted_insert(s, f)),
    decreases s.len(),
{
    if s.len() > 0 && s[0] != f {
        let t = sorted_insert(s, f);
        if seq_lt(f, s[0]) {
            assert forall|i: int, j: int| 0 <= i < j < t.len() implies seq_lt(#[trigger] t[i], #[trigger] t[j]) by {
                if i == 0 {
                    if j > 1 {
                        lemma_seq_lt_transitive(f, s[0], s[j - 1]);
                    }
                } else {
                    assert(t[i] == s[i - 1] && t[j] == s[j - 1]);
                }
            }
        } else {
            let d = s.drop_first();
            assert(strictly_sorted(d)) by {
                assert forall|i: int, j: int| 0 <= i < j < d.len() implies seq_lt(#[trigger] d[i], #[trigger] d[j]) by {
                    assert(d[i] == s[i + 1] && d[j] == s[j + 1]);
                }
            }
            lemma_sorted_insert_sorted(d, f);
            lemma_sorted_insert_set(d, f);
            lemma_seq_lt_total(f, s[0]);
            let r = sorted_insert(d, f);
            assert forall|i: int, j: int| 0 <= i < j < t.len() implies seq_lt(#[trigger] t[i], #[trigger] t[j]) by {
                if i == 0 {
                    assert(t[j] == r[j - 1]);
                    assert(r.to_set().contains(r[j - 1]));
                    assert(d.to_set().insert(f).contains(r[j - 1]));
                    if r[j - 1] != f {
                        let k = choose|k: int| 0 <= k < d.len() && d[k] == r[j - 1];
                        assert(s[k + 1] == r[j - 1]);
                    }
                } else {
                    assert(t[i] == r[i - 1] && t[j] == r[j - 1]);
                }
            }
        }
    }
}

/// The elements of a set in strictly increasing order.
pub open spec fn sorted_names(s: Set<Seq<char>>) -> Seq<Seq<char>> {
    choose|k: Seq<Seq<char>>| strictly_sorted(k) && k.to_set() == s
}

/// A strictly sorted sequence is the sorted form of its own elements.
pub proof fn lemma_sorted_names(k: Seq<Seq<char>>)
    requires
        strictly_sorted(k),
    ensures
        sorted_names(k.to_set()) == k,
{
    let c = sorted_names(k.to_set());
    assert(strictly_sorted(k) && k.to_set() == k.to_set());
    assert(strictly_sorted(c) && c.to_set() == k.to_set());
    lemma_sorted_same_set_equal(c, k);
}

/// `s` sorted by repeated sorted insertion.
pub open spec fn sort_seq(s: Seq<Seq<char>>) -> Seq<Seq<char>>
    decreases s.len(),
{
    if s.len() == 0 {
        Seq::empty()
    } else {
        sorted_insert(sort_seq(s.drop_last()), s.last())
    }
}

/// Every list has a sorted form: `sorted_names` of its elements is
/// strictly sorted and holds exactly them.
pub proof fn lemma_sorted_names_exist(s: Seq<Seq<char>>)
    ensures
        strictly_sorted(sorted_names(s.to_set())),
        sorted_names(s.to_set()).to_set() == s.to_set(),
    decreases s.len(),
{
    lemma_sort_seq(s);
    let w = sort_seq(s);
    assert(strictly_sorted(w) && w.to_set() == s.to_set());
}

pub proof fn lemma_sort_seq(s: Seq<Seq<char>>)
    ensures
        strictly_sorted(sort_seq(s)),
        sort_seq(s).to_set() == s.to_set(),
    decreases s.len(),
{
    if s.len() == 0 {
        assert(s.to_set() =~= Set::<Seq<char>>::empty());
        assert(sort_seq(s).to_set() =~= Set::<Seq<char>>::empty());
    } else {
        lemma_sort_seq(s.drop_last());
        lemma_sorted_insert_sorted(sort_seq(s.drop_last()), s.last());
        lemma_sorted_insert_set(sort_seq(s.drop_last()), s.last());
        assert(s =~= s.drop_last().push(s.last()));
        s.drop_last().lemma_push_to_set_commute(s.last());
    }
}

} // verus!
