//! The document store: documents under unique string keys.
use vstd::prelude::*;
use crate::value::{Value, deep_eq, field, text, well_formed};
use crate::query::{
    Query, passes, matches_filter, matches_where_clause, sorted_order, views, sort_order, as_ints,
    lemma_sorted_order_bounds, page_of, page_bounds,
};

verus! {

/// Why an insertion stopped.
pub enum StoreError {
    /// A document's key was already present in the store.
    DuplicateKey(String),
}

/// A stored document together with its key.
pub struct QueryResultItem {
    pub key: String,
    pub value: Value,
}

/// The documents a query returns, and how many documents passed its filter
/// before pagination.
pub struct FindResults {
    pub documents: Vec<Value>,
    pub total_count: usize,
}

/// The stored documents, in the order they were added; no two share a key.
pub struct DataStore {
    entries: Vec<QueryResultItem>,
}

/// No two entries share a key.
pub open spec fn keys_unique(s: Seq<(Seq<char>, Value)>) -> bool {
    forall|i: int, j: int| 0 <= i < s.len() && 0 <= j < s.len() && i != j ==> s[i].0 != s[j].0
}

/// Every stored document is well formed.
pub open spec fn documents_well_formed(s: Seq<(Seq<char>, Value)>) -> bool {
    forall|i: int| 0 <= i < s.len() ==> well_formed(#[trigger] s[i].1)
}

/// An optional filter is absent or well formed.
pub open spec fn filter_well_formed(w: Option<Value>) -> bool {
    match w {
        Some(f) => well_formed(f),
        None => true,
    }
}

/// Some entry has key `k`.
pub open spec fn has_key(s: Seq<(Seq<char>, Value)>, k: Seq<char>) -> bool {
    exists|i: int| 0 <= i < s.len() && s[i].0 == k
}

impl View for DataStore {
    type V = Seq<(Seq<char>, Value)>;

    closed spec fn view(&self) -> Seq<(Seq<char>, Value)> {
        self.entries@.map_values(|e: QueryResultItem| (e.key@, e.value))
    }
}

impl DataStore {
    /// An empty store.
    pub fn new() -> (r: DataStore)
        ensures
            r@.len() == 0,
            keys_unique(r@),
            documents_well_formed(r@),
    {
        let r = DataStore { entries: Vec::new() };
        assert(r@.len() == 0);
        r
    }

    /// The position of the entry with key `k`, if there is one.
    fn position_of(&self, k: &String) -> (r: Option<usize>)
        ensures
            match r {
                Some(i) => i < self@.len() && self@[i as int].0 == k@,
                None => !has_key(self@, k@),
            },
    {
        let mut i: usize = 0;
        while i < self.entries.len()
            invariant
                0 <= i <= self@.len(),
                self@.len() == self.entries@.len(),
                forall|j: int| 0 <= j < i ==> (#[trigger] self@[j]).0 != k@,
            decreases self.entries.len() - i,
        {
            if self.entries[i].key == *k {
                return Some(i);
            }
            i = i + 1;
        }
        None
    }

    /// Removes every document.
    pub fn clear(&mut self)
        ensures
            final(self)@.len() == 0,
            keys_unique(final(self)@),
            documents_well_formed(final(self)@),
    {
        self.entries.clear();
        assert(self@.len() == 0);
    }

    /// The number of stored documents.
    pub fn size(&self) -> (r: usize)
        ensures
            r == self@.len(),
    {
        self.entries.len()
    }
}

/// The name of the field that carries a document's key.
pub open spec fn id_key() -> Seq<char> {
    seq!['i', 'd']
}

/// The key a document is stored under: the string in its `id` field, or
/// else the fresh key handed to it.
pub open spec fn key_of(doc: Value, fresh: Seq<char>) -> Seq<char> {
    match field(doc, id_key()) {
        Some(Value::Str(s)) => s@,
        _ => fresh,
    }
}

/// The views of a sequence of strings.
pub open spec fn string_views(ks: Seq<String>) -> Seq<Seq<char>> {
    ks.map_values(|k: String| k@)
}

/// The store `s` after inserting `docs[i..]` one at a time, each under
/// `key_of` with its fresh key; the insertion stops at the first key already
/// present, which is then reported.
pub open spec fn insert_all(
    s: Seq<(Seq<char>, Value)>,
    docs: Seq<Value>,
    fresh: Seq<Seq<char>>,
    i: nat,
) -> (Seq<(Seq<char>, Value)>, Option<Seq<char>>)
    decreases docs.len() - i,
{
    if i >= docs.len() {
        (s, None)
    } else {
        let k = key_of(docs[i as int], fresh[i as int]);
        if has_key(s, k) {
            (s, Some(k))
        } else {
            insert_all(s.push((k, docs[i as int])), docs, fresh, i + 1)
        }
    }
}

/// The key an insertion reported, if it failed.
pub open spec fn failed_key(r: Result<(), StoreError>) -> Option<Seq<char>> {
    match r {
        Ok(()) => None,
        Err(StoreError::DuplicateKey(k)) => Some(k@),
    }
}

/// Relies on `uuid::Uuid::new_v4` and the text form of a `Uuid`: a random
/// identifier, written in its hyphenated form of 36 characters.
#[verifier::external_body]
fn new_key() -> (r: String)
    ensures
        r@.len() == 36,
{
    uuid::Uuid::new_v4().to_string()
}

/// The string in the `id` field of `doc`, if it has one.
fn id_of(doc: &Value) -> (r: Option<&String>)
    ensures
        match r {
            Some(s) => field(*doc, id_key()) == Some(Value::Str(*s)),
            None => !(field(*doc, id_key()) matches Some(Value::Str(_))),
        },
{
    let id = String::from_str("id");
    proof {
        reveal_strlit("id");
    }
    assert(id@ == id_key());
    match doc.get(&id) {
        Some(v) => match v {
            Value::Str(s) => Some(s),
            _ => None,
        },
        None => None,
    }
}

/// The key `doc` is stored under, given its fresh key.
fn key_for(doc: &Value, fresh: &String) -> (r: String)
    ensures
        r@ == key_of(*doc, fresh@),
{
    match id_of(doc) {
        Some(s) => s.clone(),
        None => fresh.clone(),
    }
}

impl DataStore {
    /// Inserts `documents` in order, the document at position `i` under its
    /// `id` or else under `fresh[i]`. Stops at the first key already present
    /// and reports it; the documents inserted before it stay.
    #[verifier::loop_isolation(false)]
    pub fn insert_keyed(&mut self, documents: Vec<Value>, fresh: Vec<String>) -> (r: Result<(), StoreError>)
        requires
            keys_unique(old(self)@),
            documents_well_formed(old(self)@),
            forall|i: int| 0 <= i < documents@.len() ==> well_formed(#[trigger] documents@[i]),
            documents@.len() == fresh@.len(),
        ensures
            keys_unique(final(self)@),
            documents_well_formed(final(self)@),
            insert_all(old(self)@, documents@, string_views(fresh@), 0) == (final(self)@, failed_key(r)),
            final(self)@.subrange(0, old(self)@.len() as int) == old(self)@,
    {
        let ghost docs0 = documents@;
        let ghost fr = string_views(fresh@);
        let ghost s0 = self@;
        let mut documents = documents;
        let n = documents.len();
        let mut i: usize = 0;
        while i < n
            invariant
                s0 == old(self)@,
                n == docs0.len(),
                n == fresh@.len(),
                fr == string_views(fresh@),
                0 <= i <= n,
                documents@ == docs0.subrange(i as int, n as int),
                keys_unique(self@),
                documents_well_formed(self@),
                self@.len() == self.entries@.len(),
                insert_all(s0, docs0, fr, 0) == insert_all(self@, docs0, fr, i as nat),
                s0.len() <= self@.len(),
                self@.subrange(0, s0.len() as int) == s0,
            decreases n - i,
        {
            let doc = documents.remove(0);
            assert(doc == docs0[i as int]);
            let k = key_for(&doc, &fresh[i]);
            assert(k@ == key_of(docs0[i as int], fr[i as int]));
            match self.position_of(&k) {
                Some(p) => {
                    assert(self@[p as int].0 == k@);
                    assert(has_key(self@, k@));
                    return Err(StoreError::DuplicateKey(k));
                },
                None => {
                    let ghost before = self@;
                    let ghost e0 = self.entries@;
                    self.entries.push(QueryResultItem { key: k, value: doc });
                    assert(self.entries@ == e0.push(QueryResultItem { key: k, value: doc }));
                    assert(self@ == before.push((k@, doc)));
                    assert(self@.subrange(0, s0.len() as int) == before.subrange(0, s0.len() as int));
                },
            }
            i = i + 1;
            assert(documents@ == docs0.subrange(i as int, n as int));
        }
        Ok(())
    }

    /// Inserts `documents` in order, each under its `id`, or else under a
    /// newly generated random key. Stops at the first key already present and
    /// reports it; the documents inserted before it stay.
    pub fn insert(&mut self, documents: Vec<Value>) -> (r: Result<(), StoreError>)
        requires
            keys_unique(old(self)@),
            documents_well_formed(old(self)@),
            forall|i: int| 0 <= i < documents@.len() ==> well_formed(#[trigger] documents@[i]),
        ensures
            keys_unique(final(self)@),
            documents_well_formed(final(self)@),
            final(self)@.subrange(0, old(self)@.len() as int) == old(self)@,
            exists|fresh: Seq<Seq<char>>|
                fresh.len() == documents@.len() && #[trigger] insert_all(old(self)@, documents@, fresh, 0)
                    == (final(self)@, failed_key(r)),
    {
        let mut fresh: Vec<String> = Vec::new();
        let mut i: usize = 0;
        while i < documents.len()
            invariant
                0 <= i <= documents@.len(),
                fresh@.len() == i,
            decreases documents.len() - i,
        {
            match id_of(&documents[i]) {
                Some(_) => fresh.push(String::new()),
                None => fresh.push(new_key()),
            }
            i = i + 1;
        }
        let ghost fr = string_views(fresh@);
        let ghost docs = documents@;
        let r = self.insert_keyed(documents, fresh);
        assert(insert_all(old(self)@, docs, fr, 0) == (self@, failed_key(r)));
        r
    }
}

/// The entries of `s` whose documents do not match filter `f`, in order.
pub open spec fn unmatched(s: Seq<(Seq<char>, Value)>, f: Value) -> Seq<(Seq<char>, Value)>
    decreases s.len(),
{
    if s.len() == 0 {
        s
    } else {
        let r = unmatched(s.drop_last(), f);
        if matches_filter(s.last().1, f) {
            r
        } else {
            r.push(s.last())
        }
    }
}

impl DataStore {
    /// Removes every document that matches the filter; without a filter,
    /// removes nothing.
    #[verifier::loop_isolation(false)]
    pub fn delete(&mut self, where_clause: &Option<Value>)
        requires
            keys_unique(old(self)@),
            documents_well_formed(old(self)@),
            filter_well_formed(*where_clause),
        ensures
            keys_unique(final(self)@),
            documents_well_formed(final(self)@),
            final(self)@ == match where_clause {
                Some(f) => unmatched(old(self)@, *f),
                None => old(self)@,
            },
    {
        match where_clause {
            None => {},
            Some(f) => {
                let ghost s0 = self@;
                let ghost n = s0.len();
                let ghost mut j: int = 0;
                let mut i: usize = 0;
                assert(s0.subrange(0, 0) == Seq::<(Seq<char>, Value)>::empty());
                assert(s0.subrange(0, n as int) == s0);
                while i < self.entries.len()
                    invariant
                        0 <= j <= n,
                        self@.len() == self.entries@.len(),
                        self@ == unmatched(s0.subrange(0, j), *f) + s0.subrange(j, n as int),
                        i == unmatched(s0.subrange(0, j), *f).len(),
                        keys_unique(self@),
                        documents_well_formed(self@),
                        well_formed(*f),
                    decreases self.entries@.len() - i,
                {
                    let ghost before = self@;
                    let ghost e0 = self.entries@;
                    let ghost u = unmatched(s0.subrange(0, j), *f);
                    assert(before[i as int] == s0[j]);
                    assert(self@[i as int].1 == self.entries@[i as int].value);
                    assert(well_formed(self@[i as int].1));
                    assert(s0.subrange(0, j + 1).drop_last() == s0.subrange(0, j));
                    if matches_where_clause(&self.entries[i].value, f) {
                        self.entries.remove(i);
                        assert(self.entries@ == e0.remove(i as int));
                        assert(self@ == before.remove(i as int));
                        assert(self@ == u + s0.subrange(j + 1, n as int));
                    } else {
                        i = i + 1;
                        assert(u.push(s0[j]) + s0.subrange(j + 1, n as int) == u + s0.subrange(j, n as int));
                    }
                    proof {
                        j = j + 1;
                    }
                }
                assert(self@ == unmatched(s0, *f) + s0.subrange(n as int, n as int));
                assert(s0.subrange(n as int, n as int) + Seq::<(Seq<char>, Value)>::empty() == Seq::<(Seq<char>, Value)>::empty());
            },
        }
    }
}

/// The positions among the first `n` entries of `s` whose documents pass
/// filter `w`, in order.
pub open spec fn selected(s: Seq<(Seq<char>, Value)>, w: Option<Value>, n: nat) -> Seq<int>
    decreases n,
{
    if n == 0 {
        Seq::empty()
    } else if passes(s[n - 1].1, w) {
        selected(s, w, (n - 1) as nat).push(n - 1)
    } else {
        selected(s, w, (n - 1) as nat)
    }
}

/// The value a document is sorted by: its field `f`, or null without one.
pub open spec fn sort_value(doc: Value, f: Seq<char>) -> Value {
    match field(doc, f) {
        Some(v) => v,
        None => Value::Null,
    }
}

/// The sort keys of the entries at positions `sel`: the text of each one's
/// sort value.
pub open spec fn sort_keys(s: Seq<(Seq<char>, Value)>, sel: Seq<int>, f: Seq<char>) -> Seq<Seq<char>> {
    sel.map_values(|p: int| text(sort_value(s[p].1, f)))
}

/// The positions `sel`, reordered by the sort field when there is one.
pub open spec fn ordered(s: Seq<(Seq<char>, Value)>, sel: Seq<int>, sort: Option<String>) -> Seq<int> {
    match sort {
        Some(f) => sorted_order(sort_keys(s, sel, f@), sel.len()).map_values(|o: int| sel[o]),
        None => sel,
    }
}

/// The positions of the documents that query `q` returns from `s`: filter,
/// then sort, then paginate.
pub open spec fn found(s: Seq<(Seq<char>, Value)>, q: Query) -> Seq<int> {
    page_of(ordered(s, selected(s, q.where_clause, s.len()), q.sort), q.page, q.size)
}

impl DataStore {
    /// The positions of the entries whose documents pass filter `w`.
    fn select(&self, w: &Option<Value>) -> (r: Vec<usize>)
        requires
            documents_well_formed(self@),
            filter_well_formed(*w),
        ensures
            as_ints(r@) == selected(self@, *w, self@.len()),
            forall|i: int| 0 <= i < r@.len() ==> (#[trigger] r@[i]) < self@.len(),
    {
        let mut r: Vec<usize> = Vec::new();
        let mut n: usize = 0;
        while n < self.entries.len()
            invariant
                0 <= n <= self@.len(),
                self@.len() == self.entries@.len(),
                as_ints(r@) == selected(self@, *w, n as nat),
                documents_well_formed(self@),
                filter_well_formed(*w),
                forall|i: int| 0 <= i < r@.len() ==> (#[trigger] r@[i]) < n,
            decreases self.entries.len() - n,
        {
            assert(self@[n as int].1 == self.entries@[n as int].value);
            let pass = match w {
                Some(f) => matches_where_clause(&self.entries[n].value, f),
                None => true,
            };
            if pass {
                let ghost r0 = r@;
                r.push(n);
                assert(as_ints(r@) == as_ints(r0).push(n as int));
            }
            n = n + 1;
        }
        r
    }

    /// The sort keys of the entries at positions `sel`.
    fn keys_of(&self, sel: &Vec<usize>, f: &String) -> (r: Vec<Vec<char>>)
        requires
            forall|i: int| 0 <= i < sel@.len() ==> (#[trigger] sel@[i]) < self@.len(),
        ensures
            views(r@) == sort_keys(self@, as_ints(sel@), f@),
    {
        let mut r: Vec<Vec<char>> = Vec::new();
        let mut j: usize = 0;
        while j < sel.len()
            invariant
                0 <= j <= sel@.len(),
                self@.len() == self.entries@.len(),
                forall|i: int| 0 <= i < sel@.len() ==> (#[trigger] sel@[i]) < self@.len(),
                r@.len() == j,
                forall|i: int| 0 <= i < j ==> (#[trigger] r@[i])@ == text(sort_value(self@[sel@[i] as int].1, f@)),
            decreases sel.len() - j,
        {
            let p = sel[j];
            assert(self@[p as int].1 == self.entries@[p as int].value);
            let mut k: Vec<char> = Vec::new();
            match self.entries[p].value.get(f) {
                Some(v) => v.write_text(&mut k),
                None => {
                    let null = Value::Null;
                    null.write_text(&mut k);
                },
            }
            assert(k@ == text(sort_value(self@[p as int].1, f@)));
            r.push(k);
            j = j + 1;
        }
        assert(views(r@) == sort_keys(self@, as_ints(sel@), f@));
        r
    }

    /// Runs query `q`: the documents that pass its filter, sorted by its
    /// sort field when it has one, then cut to its page when it has a page
    /// and a page size above zero; and the number that passed the filter.
    pub fn find_documents(&self, q: &Query) -> (r: FindResults)
        requires
            documents_well_formed(self@),
            filter_well_formed(q.where_clause),
        ensures
            r.total_count == selected(self@, q.where_clause, self@.len()).len(),
            r.documents@.len() == found(self@, *q).len(),
            forall|i: int|
                0 <= i < r.documents@.len() ==> deep_eq(#[trigger] r.documents@[i], self@[found(self@, *q)[i]].1),
    {
        let sel = self.select(&q.where_clause);
        let ghost sel_s = as_ints(sel@);
        let total_count = sel.len();
        let order: Vec<usize> = match &q.sort {
            Some(f) => {
                let keys = self.keys_of(&sel, f);
                let perm = sort_order(&keys);
                let ghost so = sorted_order(views(keys@), keys@.len());
                proof {
                    lemma_sorted_order_bounds(views(keys@), keys@.len());
                    assert(views(keys@).len() == keys@.len());
                    assert(sort_keys(self@, sel_s, f@).len() == sel@.len());
                }
                let mut out: Vec<usize> = Vec::new();
                let mut j: usize = 0;
                while j < perm.len()
                    invariant
                        0 <= j <= perm@.len(),
                        perm@.len() == so.len(),
                        so.len() == sel@.len(),
                        forall|i: int| 0 <= i < perm@.len() ==> perm@[i] as int == so[i],
                        forall|i: int| 0 <= i < so.len() ==> 0 <= #[trigger] so[i] < so.len(),
                        forall|i: int| 0 <= i < sel@.len() ==> (#[trigger] sel@[i]) < self@.len(),
                        out@.len() == j,
                        forall|i: int| 0 <= i < j ==> (#[trigger] out@[i]) == sel@[so[i]],
                    decreases perm.len() - j,
                {
                    assert(0 <= so[j as int] < so.len());
                    out.push(sel[perm[j]]);
                    j = j + 1;
                }
                assert(as_ints(out@) == ordered(self@, sel_s, q.sort));
                out
            },
            None => sel,
        };
        let ghost ord = as_ints(order@);
        assert(ord == ordered(self@, sel_s, q.sort));
        let (lo, hi) = page_bounds(order.len(), q.page, q.size);
        assert(page_of(ord, q.page, q.size) == ord.subrange(lo as int, hi as int));
        let mut documents: Vec<Value> = Vec::new();
        let mut t: usize = lo;
        while t < hi
            invariant
                lo <= t <= hi <= order@.len(),
                ord == as_ints(order@),
                self@.len() == self.entries@.len(),
                forall|i: int| 0 <= i < order@.len() ==> (#[trigger] order@[i]) < self@.len(),
                documents@.len() == t - lo,
                forall|i: int|
                    0 <= i < t - lo ==> deep_eq(#[trigger] documents@[i], self@[ord[lo + i]].1),
            decreases hi - t,
        {
            let p = order[t];
            assert(self@[p as int].1 == self.entries@[p as int].value);
            documents.push(self.entries[p].value.deep_copy());
            t = t + 1;
        }
        FindResults { documents, total_count }
    }
}

/// What an insertion from position `i` does: the store it starts from stays
/// as a prefix, the documents that went in follow it in order under their
/// keys, keys stay unique, and a reported key is one already present.
pub proof fn lemma_insert_all_shape(s: Seq<(Seq<char>, Value)>, docs: Seq<Value>, fresh: Seq<Seq<char>>, i: nat)
    requires
        keys_unique(s),
        fresh.len() == docs.len(),
        i <= docs.len(),
    ensures
        ({
            let r = insert_all(s, docs, fresh, i);
            let m = r.0.len() - s.len();
            &&& keys_unique(r.0)
            &&& s.len() <= r.0.len()
            &&& r.0.subrange(0, s.len() as int) == s
            &&& m <= docs.len() - i
            &&& forall|j: int|
                0 <= j < m ==> #[trigger] r.0[s.len() + j] == (key_of(docs[i + j], fresh[i + j]), docs[i + j])
            &&& r.1 is None ==> m == docs.len() - i
            &&& r.1 matches Some(k) ==> i + m < docs.len() && k == key_of(docs[i + m], fresh[i + m])
                && has_key(r.0, k)
        }),
    decreases docs.len() - i,
{
    if i < docs.len() {
        let k = key_of(docs[i as int], fresh[i as int]);
        if !has_key(s, k) {
            let s2 = s.push((k, docs[i as int]));
            assert forall|a: int, b: int| 0 <= a < s2.len() && 0 <= b < s2.len() && a != b implies s2[a].0 != s2[b].0 by {
                if a == s.len() {
                    assert(s[b].0 != k);
                } else if b == s.len() {
                    assert(s[a].0 != k);
                }
            }
            lemma_insert_all_shape(s2, docs, fresh, i + 1);
            let r = insert_all(s2, docs, fresh, i + 1);
            assert(r.0.subrange(0, s.len() as int) == r.0.subrange(0, s2.len() as int).subrange(0, s.len() as int));
            assert forall|j: int| 0 <= j < r.0.len() - s.len() implies #[trigger] r.0[s.len() + j] == (key_of(docs[i + j], fresh[i + j]), docs[i + j]) by {
                if j > 0 {
                    assert(r.0[s2.len() + (j - 1)] == (key_of(docs[i + 1 + (j - 1)], fresh[i + 1 + (j - 1)]), docs[i + 1 + (j - 1)]));
                } else {
                    assert(r.0.subrange(0, s2.len() as int)[s.len() as int] == s2[s.len() as int]);
                }
            }
        } else {
            assert(s.subrange(0, s.len() as int) == s);
        }
    } else {
        assert(s.subrange(0, s.len() as int) == s);
    }
}

/// Inserting never lets two documents share a key; the documents already
/// stored stay as they were, the documents of the batch that went in follow
/// them in order, and a failure names a key that is already present.
pub proof fn lemma_insert_keys_unique(s: Seq<(Seq<char>, Value)>, docs: Seq<Value>, fresh: Seq<Seq<char>>)
    requires
        keys_unique(s),
        fresh.len() == docs.len(),
    ensures
        ({
            let r = insert_all(s, docs, fresh, 0);
            let m = r.0.len() - s.len();
            &&& keys_unique(r.0)
            &&& r.0.subrange(0, s.len() as int) == s
            &&& forall|j: int| 0 <= j < m ==> #[trigger] r.0[s.len() + j] == (key_of(docs[j], fresh[j]), docs[j])
            &&& r.1 is None ==> m == docs.len()
            &&& r.1 matches Some(k) ==> m < docs.len() && k == key_of(docs[m], fresh[m]) && has_key(r.0, k)
        }),
{
    lemma_insert_all_shape(s, docs, fresh, 0);
}

/// A document whose `id` is already a key makes the insertion fail at once
/// with that key, and leaves the store as it was.
pub proof fn lemma_insert_duplicate_id(s: Seq<(Seq<char>, Value)>, docs: Seq<Value>, fresh: Seq<Seq<char>>, k: Seq<char>)
    requires
        0 < docs.len(),
        key_of(docs[0], fresh[0]) == k,
        field(docs[0], id_key()) matches Some(Value::Str(_)),
        has_key(s, k),
    ensures
        insert_all(s, docs, fresh, 0) == (s, Some(k)),
{
}

/// Documents without a string `id`, handed distinct fresh keys that the
/// store does not hold, all go in, each under its own fresh key.
pub proof fn lemma_fresh_keys_all_inserted(s: Seq<(Seq<char>, Value)>, docs: Seq<Value>, fresh: Seq<Seq<char>>)
    requires
        keys_unique(s),
        fresh.len() == docs.len(),
        forall|j: int| 0 <= j < docs.len() ==> !(field(#[trigger] docs[j], id_key()) matches Some(Value::Str(_))),
        forall|a: int, b: int| 0 <= a < fresh.len() && 0 <= b < fresh.len() && a != b ==> fresh[a] != fresh[b],
        forall|j: int| 0 <= j < fresh.len() ==> !has_key(s, #[trigger] fresh[j]),
    ensures
        ({
            let r = insert_all(s, docs, fresh, 0);
            &&& r.1 is None
            &&& keys_unique(r.0)
            &&& r.0.len() == s.len() + docs.len()
            &&& r.0.subrange(0, s.len() as int) == s
            &&& forall|j: int| 0 <= j < docs.len() ==> #[trigger] r.0[s.len() + j] == (fresh[j], docs[j])
        }),
{
    lemma_fresh_from(s, docs, fresh, 0);
    lemma_insert_all_shape(s, docs, fresh, 0);
    let r = insert_all(s, docs, fresh, 0);
    assert forall|j: int| 0 <= j < docs.len() implies #[trigger] r.0[s.len() + j] == (fresh[j], docs[j]) by {
        assert(r.0[s.len() + j] == (key_of(docs[0 + j], fresh[0 + j]), docs[0 + j]));
        assert(!(field(docs[j], id_key()) matches Some(Value::Str(_))));
    }
}

proof fn lemma_fresh_from(s: Seq<(Seq<char>, Value)>, docs: Seq<Value>, fresh: Seq<Seq<char>>, i: nat)
    requires
        fresh.len() == docs.len(),
        i <= docs.len(),
        forall|j: int| 0 <= j < docs.len() ==> !(field(#[trigger] docs[j], id_key()) matches Some(Value::Str(_))),
        forall|a: int, b: int| 0 <= a < fresh.len() && 0 <= b < fresh.len() && a != b ==> fresh[a] != fresh[b],
        forall|j: int| i <= j < fresh.len() ==> !has_key(s, #[trigger] fresh[j]),
    ensures
        insert_all(s, docs, fresh, i).1 is None,
    decreases docs.len() - i,
{
    if i < docs.len() {
        assert(!(field(docs[i as int], id_key()) matches Some(Value::Str(_))));
        let k = key_of(docs[i as int], fresh[i as int]);
        assert(k == fresh[i as int]);
        let s2 = s.push((k, docs[i as int]));
        assert forall|j: int| i + 1 <= j < fresh.len() implies !has_key(s2, #[trigger] fresh[j]) by {
            assert(!has_key(s, fresh[j]));
            assert(fresh[j] != fresh[i as int]);
            if has_key(s2, fresh[j]) {
                let t = choose|t: int| 0 <= t < s2.len() && s2[t].0 == fresh[j];
                if t < s.len() {
                    assert(s[t].0 == fresh[j]);
                }
            }
        }
        lemma_fresh_from(s2, docs, fresh, i + 1);
    }
}

/// Deleting with an empty filter object removes every document.
pub proof fn lemma_delete_empty_filter(s: Seq<(Seq<char>, Value)>, f: Value)
    requires
        f matches Value::Object(cs) && cs@.len() == 0,
    ensures
        unmatched(s, f).len() == 0,
    decreases s.len(),
{
    if s.len() > 0 {
        lemma_delete_empty_filter(s.drop_last(), f);
    }
}

/// The count a query reports is the number of stored documents that pass
/// its filter; page and page size play no part in it.
pub proof fn lemma_count_is_matching_documents(s: Seq<(Seq<char>, Value)>, q: Query)
    ensures
        selected(s, q.where_clause, s.len()).len() == s.filter(|e: (Seq<char>, Value)| passes(e.1, q.where_clause)).len(),
{
    lemma_selected_len(s, q.where_clause, s.len());
    assert(s.take(s.len() as int) == s);
}

proof fn lemma_selected_len(s: Seq<(Seq<char>, Value)>, w: Option<Value>, n: nat)
    requires
        n <= s.len(),
    ensures
        selected(s, w, n).len() == s.take(n as int).filter(|e: (Seq<char>, Value)| passes(e.1, w)).len(),
    decreases n,
{
    reveal(Seq::filter);
    if n > 0 {
        lemma_selected_len(s, w, (n - 1) as nat);
        assert(s.take(n as int).drop_last() == s.take(n - 1));
    }
}

/// The entries that the first `n` documents of a batch become.
pub open spec fn batch_entries(docs: Seq<Value>, fresh: Seq<Seq<char>>, n: nat) -> Seq<(Seq<char>, Value)> {
    Seq::new(n, |j: int| (key_of(docs[j], fresh[j]), docs[j]))
}

proof fn lemma_stop_from(s: Seq<(Seq<char>, Value)>, docs: Seq<Value>, fresh: Seq<Seq<char>>, t: nat, i: nat)
    requires
        fresh.len() == docs.len(),
        t <= i < docs.len(),
        forall|j: int| 0 <= j < i ==> !has_key(s, key_of(#[trigger] docs[j], fresh[j])),
        forall|j: int, m: int| 0 <= m < j < i ==> key_of(#[trigger] docs[j], fresh[j]) != key_of(#[trigger] docs[m], fresh[m]),
        has_key(s, key_of(docs[i as int], fresh[i as int])) || exists|m: int|
            0 <= m < i && key_of(docs[m], fresh[m]) == key_of(docs[i as int], fresh[i as int]),
    ensures
        insert_all(s + batch_entries(docs, fresh, t), docs, fresh, t) == (s + batch_entries(docs, fresh, i), Some(
            key_of(docs[i as int], fresh[i as int]),
        )),
    decreases i - t,
{
    let st = s + batch_entries(docs, fresh, t);
    let k = key_of(docs[t as int], fresh[t as int]);
    if t < i {
        if has_key(st, k) {
            let x = choose|x: int| 0 <= x < st.len() && st[x].0 == k;
            if x < s.len() {
                assert(s[x].0 == k);
            } else {
                let m = x - s.len();
                assert(st[x] == batch_entries(docs, fresh, t)[m]);
                assert(key_of(docs[t as int], fresh[t as int]) != key_of(docs[m], fresh[m]));
            }
        }
        assert(st.push((k, docs[t as int])) == s + batch_entries(docs, fresh, t + 1));
        lemma_stop_from(s, docs, fresh, t + 1, i);
    } else {
        if !has_key(s, k) {
            let m = choose|m: int| 0 <= m < i && key_of(docs[m], fresh[m]) == k;
            assert(st[s.len() + m] == batch_entries(docs, fresh, t)[m]);
        } else {
            let x = choose|x: int| 0 <= x < s.len() && s[x].0 == k;
            assert(st[x] == s[x]);
        }
    }
}

/// An insertion stops at the first document whose key is already stored or
/// is the key of an earlier document of the batch: it reports that key, and
/// exactly the documents before it have been written after the stored ones.
/// A document with a string `id` has that `id` as its key.
pub proof fn lemma_insert_stops_at_first_repeated_key(
    s: Seq<(Seq<char>, Value)>,
    docs: Seq<Value>,
    fresh: Seq<Seq<char>>,
    i: nat,
)
    requires
        fresh.len() == docs.len(),
        i < docs.len(),
        forall|j: int| 0 <= j < i ==> !has_key(s, key_of(#[trigger] docs[j], fresh[j])),
        forall|j: int, m: int| 0 <= m < j < i ==> key_of(#[trigger] docs[j], fresh[j]) != key_of(#[trigger] docs[m], fresh[m]),
        has_key(s, key_of(docs[i as int], fresh[i as int])) || exists|m: int|
            0 <= m < i && key_of(docs[m], fresh[m]) == key_of(docs[i as int], fresh[i as int]),
    ensures
        insert_all(s, docs, fresh, 0) == (s + batch_entries(docs, fresh, i), Some(key_of(docs[i as int], fresh[i as int]))),
        field(docs[i as int], id_key()) matches Some(Value::Str(t)) ==> key_of(docs[i as int], fresh[i as int]) == t@,
{
    assert(s + batch_entries(docs, fresh, 0) == s);
    lemma_stop_from(s, docs, fresh, 0, i);
}

} // verus!
