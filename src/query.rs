//! Filters, the order in which documents are sorted, and pagination.
use vstd::prelude::*;
use crate::value::{Value, deep_eq, field, lookup_from, well_formed};

verus! {

/// A query: an optional filter, an optional field to sort by, and an
/// optional page number and page size.
pub struct Query {
    pub where_clause: Option<Value>,
    pub sort: Option<String>,
    pub page: Option<u32>,
    pub size: Option<u32>,
}

/// `doc` has the field named by constraint `c`, deeply equal to its value.
pub open spec fn satisfies(doc: Value, c: (String, Value)) -> bool {
    match field(doc, c.0@) {
        Some(v) => deep_eq(v, c.1),
        None => false,
    }
}

/// `doc` meets every constraint of `filter`; a filter that is not an object
/// meets nothing, and an empty object everything.
pub open spec fn matches_filter(doc: Value, filter: Value) -> bool {
    match filter {
        Value::Object(cs) => forall|i: int| 0 <= i < cs.len() ==> satisfies(doc, #[trigger] cs[i]),
        _ => false,
    }
}

/// `doc` passes an optional filter: an absent filter passes everything.
pub open spec fn passes(doc: Value, w: Option<Value>) -> bool {
    match w {
        Some(f) => matches_filter(doc, f),
        None => true,
    }
}

/// Whether `document` matches the filter `where_clause`.
pub fn matches_where_clause(document: &Value, where_clause: &Value) -> (r: bool)
    requires
        well_formed(*document),
        well_formed(*where_clause),
    ensures
        r == matches_filter(*document, *where_clause),
{
    match where_clause {
        Value::Object(cs) => {
            let mut i: usize = 0;
            while i < cs.len()
                invariant
                    *where_clause == Value::Object(*cs),
                    0 <= i <= cs.len(),
                    forall|j: int| 0 <= j < i ==> satisfies(*document, #[trigger] cs[j]),
                decreases cs.len() - i,
            {
                match document.get(&cs[i].0) {
                    Some(v) => {
                        if !v.equals(&cs[i].1) {
                            let ghost wc = *where_clause;
                            assert(!satisfies(*document, wc->Object_0[i as int]));
                            return false;
                        }
                    },
                    None => {
                        let ghost wc = *where_clause;
                        assert(!satisfies(*document, wc->Object_0[i as int]));
                        return false;
                    },
                }
                i = i + 1;
            }
            true
        },
        _ => false,
    }
}

/// A document matches a filter exactly when the filter is an object and the
/// document has each of its fields, deeply equal to the filter's value; an
/// empty object matches every document, and a filter that is not an object
/// matches none.
pub proof fn lemma_filter_conjunction(d: Value, f: Value)
    ensures
        matches_filter(d, f) <==> (f matches Value::Object(cs) && forall|i: int|
            0 <= i < cs@.len() ==> (field(d, (#[trigger] cs@[i]).0@) matches Some(v) && deep_eq(v, cs@[i].1))),
        f matches Value::Object(cs) && cs@.len() == 0 ==> matches_filter(d, f),
        !(f is Object) ==> !matches_filter(d, f),
{
    if let Value::Object(cs) = f {
        assert forall|i: int| 0 <= i < cs@.len() implies satisfies(d, cs[i]) == (field(d, (#[trigger] cs@[i]).0@) matches Some(v) && deep_eq(v, cs@[i].1)) by {
        }
    }
}

/// Lexicographic order of character sequences, by code point.
pub open spec fn lex_le(a: Seq<char>, b: Seq<char>) -> bool
    decreases a.len(),
{
    if a.len() == 0 {
        true
    } else if b.len() == 0 {
        false
    } else if a[0] != b[0] {
        a[0] < b[0]
    } else {
        lex_le(a.drop_first(), b.drop_first())
    }
}

/// Whether `a` comes no later than `b` in lexicographic order.
pub fn text_le(a: &Vec<char>, b: &Vec<char>) -> (r: bool)
    ensures
        r == lex_le(a@, b@),
{
    let mut i: usize = 0;
    assert(a@.subrange(0, a@.len() as int) == a@);
    assert(b@.subrange(0, b@.len() as int) == b@);
    while i < a.len() && i < b.len()
        invariant
            0 <= i <= a.len(),
            i <= b.len(),
            lex_le(a@, b@) == lex_le(a@.subrange(i as int, a@.len() as int), b@.subrange(i as int, b@.len() as int)),
        decreases a.len() - i,
    {
        let ghost sa = a@.subrange(i as int, a@.len() as int);
        let ghost sb = b@.subrange(i as int, b@.len() as int);
        if a[i] != b[i] {
            return a[i] < b[i];
        }
        assert(sa.drop_first() == a@.subrange(i + 1, a@.len() as int));
        assert(sb.drop_first() == b@.subrange(i + 1, b@.len() as int));
        i = i + 1;
    }
    i == a.len()
}

/// Inserts position `p` into `s`, after every position whose key is no
/// greater than that of `p`, and before the others.
pub open spec fn insert_sorted(s: Seq<int>, p: int, keys: Seq<Seq<char>>) -> Seq<int>
    decreases s.len(),
{
    if s.len() == 0 {
        seq![p]
    } else if lex_le(keys[s.last()], keys[p]) {
        s.push(p)
    } else {
        insert_sorted(s.drop_last(), p, keys).push(s.last())
    }
}

/// The positions `0..n` in ascending order of their keys; positions with
/// equal keys keep their relative order.
pub open spec fn sorted_order(keys: Seq<Seq<char>>, n: nat) -> Seq<int>
    decreases n,
{
    if n == 0 {
        Seq::empty()
    } else {
        insert_sorted(sorted_order(keys, (n - 1) as nat), n - 1, keys)
    }
}

/// The views of a sequence of character vectors.
pub open spec fn views(keys: Seq<Vec<char>>) -> Seq<Seq<char>> {
    keys.map_values(|k: Vec<char>| k@)
}

proof fn lemma_insert_at(s: Seq<int>, p: int, keys: Seq<Seq<char>>, j: int)
    requires
        0 <= j <= s.len(),
        forall|t: int| j <= t < s.len() ==> !lex_le(keys[#[trigger] s[t]], keys[p]),
        j == 0 || lex_le(keys[s[j - 1]], keys[p]),
    ensures
        insert_sorted(s, p, keys) == s.subrange(0, j) + seq![p] + s.subrange(j, s.len() as int),
    decreases s.len(),
{
    if s.len() == 0 {
        assert(s.subrange(0, j) + seq![p] + s.subrange(j, s.len() as int) == seq![p]);
    } else if j == s.len() {
        assert(s.subrange(0, j) == s);
        assert(s.subrange(j, s.len() as int) + Seq::<int>::empty() == Seq::<int>::empty());
        assert(s.subrange(0, j) + seq![p] + s.subrange(j, s.len() as int) == s.push(p));
    } else {
        let d = s.drop_last();
        assert(!lex_le(keys[s[s.len() - 1]], keys[p]));
        assert forall|t: int| j <= t < d.len() implies !lex_le(keys[#[trigger] d[t]], keys[p]) by {
            assert(d[t] == s[t]);
        }
        lemma_insert_at(d, p, keys, j);
        assert(d.subrange(0, j) == s.subrange(0, j));
        assert(d.subrange(j, d.len() as int).push(s.last()) == s.subrange(j, s.len() as int));
        assert((d.subrange(0, j) + seq![p] + d.subrange(j, d.len() as int)).push(s.last())
            == s.subrange(0, j) + seq![p] + s.subrange(j, s.len() as int));
    }
}

/// The positions of `keys` in ascending order of the keys, stable among
/// equal keys.
pub fn sort_order(keys: &Vec<Vec<char>>) -> (r: Vec<usize>)
    ensures
        r@.len() == sorted_order(views(keys@), keys@.len()).len(),
        forall|i: int| 0 <= i < r@.len() ==> r@[i] as int == sorted_order(views(keys@), keys@.len())[i],
{
    let ghost ks = views(keys@);
    let mut r: Vec<usize> = Vec::new();
    let mut n: usize = 0;
    while n < keys.len()
        invariant
            ks == views(keys@),
            0 <= n <= keys.len(),
            r@.len() == sorted_order(ks, n as nat).len(),
            forall|i: int| 0 <= i < r@.len() ==> r@[i] as int == sorted_order(ks, n as nat)[i],
            forall|i: int| 0 <= i < r@.len() ==> (#[trigger] r@[i]) < n,
        decreases keys.len() - n,
    {
        let ghost s = sorted_order(ks, n as nat);
        let mut j: usize = r.len();
        while j > 0 && !text_le(&keys[r[j - 1]], &keys[n])
            invariant
                ks == views(keys@),
                0 <= j <= r@.len(),
                n < keys.len(),
                s.len() == r@.len(),
                forall|i: int| 0 <= i < r@.len() ==> r@[i] as int == s[i],
                forall|i: int| 0 <= i < r@.len() ==> (#[trigger] r@[i]) < n,
                forall|t: int| j <= t < s.len() ==> !lex_le(ks[#[trigger] s[t]], ks[n as int]),
            decreases j,
        {
            j = j - 1;
        }
        proof {
            if j > 0 {
                assert(lex_le(ks[s[j - 1]], ks[n as int]));
            }
            lemma_insert_at(s, n as int, ks, j as int);
        }
        let ghost r0 = r@;
        r.insert(j, n);
        n = n + 1;
        proof {
            let s2 = sorted_order(ks, n as nat);
            assert(s2 == s.subrange(0, j as int) + seq![(n - 1) as int] + s.subrange(j as int, s.len() as int));
            assert forall|i: int| 0 <= i < r@.len() implies r@[i] as int == s2[i] by {
                if i < j {
                    assert(r@[i] == r0[i]);
                } else if i > j {
                    assert(r@[i] == r0[i - 1]);
                }
            }
        }
    }
    r
}

/// Any two sequences are ordered one way or the other.
pub proof fn lemma_lex_le_total(a: Seq<char>, b: Seq<char>)
    ensures
        lex_le(a, b) || lex_le(b, a),
    decreases a.len(),
{
    if a.len() > 0 && b.len() > 0 && a[0] == b[0] {
        lemma_lex_le_total(a.drop_first(), b.drop_first());
    }
}

/// Neighbouring positions of `s` have ascending keys.
pub open spec fn ascending(s: Seq<int>, keys: Seq<Seq<char>>) -> bool {
    forall|i: int| 0 <= i < s.len() - 1 ==> lex_le(keys[#[trigger] s[i]], keys[s[i + 1]])
}

proof fn lemma_insert_sorted_ascending(s: Seq<int>, p: int, keys: Seq<Seq<char>>)
    requires
        ascending(s, keys),
    ensures
        ascending(insert_sorted(s, p, keys), keys),
        insert_sorted(s, p, keys).len() == s.len() + 1,
        insert_sorted(s, p, keys).last() == p || (s.len() > 0 && insert_sorted(s, p, keys).last() == s.last()),
    decreases s.len(),
{
    if s.len() == 0 {
    } else if lex_le(keys[s.last()], keys[p]) {
        let r = s.push(p);
        assert forall|i: int| 0 <= i < r.len() - 1 implies lex_le(keys[#[trigger] r[i]], keys[r[i + 1]]) by {
            if i < s.len() - 1 {
                assert(r[i] == s[i] && r[i + 1] == s[i + 1]);
            }
        }
    } else {
        let d = s.drop_last();
        assert forall|i: int| 0 <= i < d.len() - 1 implies lex_le(keys[#[trigger] d[i]], keys[d[i + 1]]) by {
            assert(d[i] == s[i] && d[i + 1] == s[i + 1]);
        }
        lemma_insert_sorted_ascending(d, p, keys);
        lemma_lex_le_total(keys[s.last()], keys[p]);
        let r0 = insert_sorted(d, p, keys);
        let r = r0.push(s.last());
        if r0.last() != p {
            assert(lex_le(keys[s[s.len() - 2]], keys[s[s.len() - 1]]));
        }
        assert forall|i: int| 0 <= i < r.len() - 1 implies lex_le(keys[#[trigger] r[i]], keys[r[i + 1]]) by {
            if i < r0.len() - 1 {
                assert(r[i] == r0[i] && r[i + 1] == r0[i + 1]);
            } else {
                assert(r[i] == r0.last());
            }
        }
    }
}

/// Sorting yields the positions in ascending order of their keys.
pub proof fn lemma_sorted_order_ascending(keys: Seq<Seq<char>>, n: nat)
    ensures
        ascending(sorted_order(keys, n), keys),
    decreases n,
{
    if n > 0 {
        lemma_sorted_order_ascending(keys, (n - 1) as nat);
        lemma_insert_sorted_ascending(sorted_order(keys, (n - 1) as nat), n - 1, keys);
    }
}

proof fn lemma_insert_sorted_multiset(s: Seq<int>, p: int, keys: Seq<Seq<char>>)
    ensures
        insert_sorted(s, p, keys).to_multiset() == s.to_multiset().insert(p),
    decreases s.len(),
{
    broadcast use vstd::seq_lib::group_to_multiset_ensures;
    if s.len() == 0 {
        assert(seq![p] == Seq::<int>::empty().push(p));
    } else if !lex_le(keys[s.last()], keys[p]) {
        let d = s.drop_last();
        lemma_insert_sorted_multiset(d, p, keys);
        assert(d.push(s.last()) == s);
        assert(d.to_multiset().insert(p).insert(s.last()) =~= d.to_multiset().insert(s.last()).insert(p));
    }
}

/// Sorting `n` positions yields each of `0..n` exactly once.
pub proof fn lemma_sorted_order_permutation(keys: Seq<Seq<char>>, n: nat)
    ensures
        sorted_order(keys, n).to_multiset() == Seq::new(n, |i: int| i).to_multiset(),
    decreases n,
{
    broadcast use vstd::seq_lib::group_to_multiset_ensures;
    if n == 0 {
        assert(Seq::new(0, |i: int| i) == Seq::<int>::empty());
    } else {
        lemma_sorted_order_permutation(keys, (n - 1) as nat);
        lemma_insert_sorted_multiset(sorted_order(keys, (n - 1) as nat), n - 1, keys);
        assert(Seq::new(n, |i: int| i) == Seq::new((n - 1) as nat, |i: int| i).push(n - 1));
    }
}

/// Every sequence comes no later than itself.
pub proof fn lemma_lex_le_reflexive(a: Seq<char>)
    ensures
        lex_le(a, a),
    decreases a.len(),
{
    if a.len() > 0 {
        lemma_lex_le_reflexive(a.drop_first());
    }
}

/// The order is transitive.
pub proof fn lemma_lex_le_transitive(a: Seq<char>, b: Seq<char>, c: Seq<char>)
    requires
        lex_le(a, b),
        lex_le(b, c),
    ensures
        lex_le(a, c),
    decreases a.len(),
{
    if a.len() > 0 && b.len() > 0 && c.len() > 0 && a[0] == b[0] && b[0] == c[0] {
        lemma_lex_le_transitive(a.drop_first(), b.drop_first(), c.drop_first());
    }
}

/// Positions of `s` with equal keys stand in ascending order.
pub open spec fn stable(s: Seq<int>, keys: Seq<Seq<char>>) -> bool {
    forall|a: int, b: int|
        0 <= a < b < s.len() && keys[#[trigger] s[a]] == keys[#[trigger] s[b]] ==> s[a] < s[b]
}

proof fn lemma_insert_sorted_stable(s: Seq<int>, p: int, keys: Seq<Seq<char>>)
    requires
        stable(s, keys),
        forall|i: int| 0 <= i < s.len() ==> #[trigger] s[i] < p,
    ensures
        stable(insert_sorted(s, p, keys), keys),
        forall|a: int|
            0 <= a < insert_sorted(s, p, keys).len() ==> #[trigger] insert_sorted(s, p, keys)[a] == p
                || exists|k: int| 0 <= k < s.len() && s[k] == insert_sorted(s, p, keys)[a],
        insert_sorted(s, p, keys).len() == s.len() + 1,
    decreases s.len(),
{
    if s.len() == 0 {
    } else if lex_le(keys[s.last()], keys[p]) {
        let r = s.push(p);
        assert forall|a: int| 0 <= a < r.len() implies #[trigger] r[a] == p
            || exists|k: int| 0 <= k < s.len() && s[k] == r[a] by {
            if a < s.len() {
                assert(s[a] == r[a]);
            }
        }
        assert forall|a: int, b: int|
            0 <= a < b < r.len() && keys[#[trigger] r[a]] == keys[#[trigger] r[b]] implies r[a] < r[b] by {
            assert(r[a] == s[a]);
            if b < s.len() {
                assert(r[b] == s[b]);
            }
        }
    } else {
        let d = s.drop_last();
        let last = s.last();
        assert forall|a: int, b: int|
            0 <= a < b < d.len() && keys[#[trigger] d[a]] == keys[#[trigger] d[b]] implies d[a] < d[b] by {
            assert(d[a] == s[a] && d[b] == s[b]);
        }
        assert forall|i: int| 0 <= i < d.len() implies #[trigger] d[i] < p by {
            assert(d[i] == s[i]);
        }
        lemma_insert_sorted_stable(d, p, keys);
        lemma_lex_le_reflexive(keys[p]);
        let r0 = insert_sorted(d, p, keys);
        let r = r0.push(last);
        assert forall|a: int| 0 <= a < r.len() implies #[trigger] r[a] == p
            || exists|k: int| 0 <= k < s.len() && s[k] == r[a] by {
            if a < r0.len() {
                assert(r[a] == r0[a]);
                if r0[a] != p {
                    let k = choose|k: int| 0 <= k < d.len() && d[k] == r0[a];
                    assert(s[k] == r[a]);
                }
            } else {
                assert(s[s.len() - 1] == r[a]);
            }
        }
        assert forall|a: int, b: int|
            0 <= a < b < r.len() && keys[#[trigger] r[a]] == keys[#[trigger] r[b]] implies r[a] < r[b] by {
            assert(r[a] == r0[a]);
            if b < r0.len() {
                assert(r[b] == r0[b]);
            } else {
                assert(r[b] == last);
                if r0[a] == p {
                    assert(keys[last] != keys[p]);
                } else {
                    let k = choose|k: int| 0 <= k < d.len() && d[k] == r0[a];
                    assert(s[k] == r0[a]);
                    assert(keys[s[k]] == keys[s[s.len() - 1]]);
                }
            }
        }
    }
}

/// Sorting is stable: positions with equal keys keep their relative order.
pub proof fn lemma_sorted_order_stable(keys: Seq<Seq<char>>, n: nat)
    ensures
        stable(sorted_order(keys, n), keys),
        forall|i: int| 0 <= i < sorted_order(keys, n).len() ==> #[trigger] sorted_order(keys, n)[i] < n,
    decreases n,
{
    if n > 0 {
        let m = (n - 1) as nat;
        lemma_sorted_order_stable(keys, m);
        lemma_sorted_order_bounds(keys, m);
        let s = sorted_order(keys, m);
        lemma_insert_sorted_stable(s, n - 1, keys);
        let r = insert_sorted(s, n - 1, keys);
        assert forall|i: int| 0 <= i < r.len() implies #[trigger] r[i] < n by {
            if r[i] != n - 1 {
                let k = choose|k: int| 0 <= k < s.len() && s[k] == r[i];
            }
        }
    }
}

/// The positions in `s` as integers.
pub open spec fn as_ints(s: Seq<usize>) -> Seq<int> {
    s.map_values(|x: usize| x as int)
}

proof fn lemma_insert_sorted_bounds(s: Seq<int>, p: int, keys: Seq<Seq<char>>, b: int)
    requires
        forall|i: int| 0 <= i < s.len() ==> 0 <= #[trigger] s[i] < b,
        0 <= p < b,
    ensures
        insert_sorted(s, p, keys).len() == s.len() + 1,
        forall|i: int|
            0 <= i < insert_sorted(s, p, keys).len() ==> 0 <= #[trigger] insert_sorted(s, p, keys)[i] < b,
    decreases s.len(),
{
    if s.len() > 0 && !lex_le(keys[s.last()], keys[p]) {
        lemma_insert_sorted_bounds(s.drop_last(), p, keys, b);
    }
}

/// Every position that `sorted_order` yields lies in `0..n`, and there are
/// `n` of them.
pub proof fn lemma_sorted_order_bounds(keys: Seq<Seq<char>>, n: nat)
    ensures
        sorted_order(keys, n).len() == n,
        forall|i: int| 0 <= i < n ==> 0 <= #[trigger] sorted_order(keys, n)[i] < n,
    decreases n,
{
    if n > 0 {
        lemma_sorted_order_bounds(keys, (n - 1) as nat);
        lemma_insert_sorted_bounds(sorted_order(keys, (n - 1) as nat), n - 1, keys, n as int);
    }
}

/// The slice of `s` that a page selects: with a page number and a page size
/// above zero, the items from `page * size` on, at most `size` of them;
/// otherwise all of `s`.
pub open spec fn page_of(s: Seq<int>, page: Option<u32>, size: Option<u32>) -> Seq<int> {
    if page is Some && size is Some && size->0 > 0 {
        let start = page->0 * size->0;
        let end = start + size->0;
        if start >= s.len() {
            Seq::empty()
        } else if end >= s.len() {
            s.subrange(start, s.len() as int)
        } else {
            s.subrange(start, end)
        }
    } else {
        s
    }
}

/// The range `lo..hi` of positions `0..len` that a page selects.
pub fn page_bounds(len: usize, page: Option<u32>, size: Option<u32>) -> (r: (usize, usize))
    ensures
        r.0 <= r.1 <= len,
        forall|s: Seq<int>| s.len() == len ==> #[trigger] page_of(s, page, size) == s.subrange(r.0 as int, r.1 as int),
{
    match (page, size) {
        (Some(p), Some(z)) => {
            if z == 0 {
                assert forall|s: Seq<int>| s.len() == len implies #[trigger] page_of(s, page, size) == s.subrange(0, len as int) by {
                    assert(s.subrange(0, len as int) == s);
                }
                return (0, len);
            }
            assert((p as int) * (z as int) <= u64::MAX) by (nonlinear_arith)
                requires
                    p <= u32::MAX,
                    z <= u32::MAX,
            ;
            let start: u64 = (p as u64) * (z as u64);
            if start >= len as u64 {
                assert forall|s: Seq<int>| s.len() == len implies #[trigger] page_of(s, page, size) == s.subrange(len as int, len as int) by {
                    assert(s.subrange(len as int, len as int) == Seq::<int>::empty());
                }
                (len, len)
            } else {
                let lo = start as usize;
                if len - lo > z as usize {
                    (lo, lo + z as usize)
                } else {
                    (lo, len)
                }
            }
        },
        _ => {
            assert forall|s: Seq<int>| s.len() == len implies #[trigger] page_of(s, page, size) == s.subrange(0, len as int) by {
                assert(s.subrange(0, len as int) == s);
            }
            (0, len)
        },
    }
}

} // verus!
