//! An ordered key-value table held in memory: rows sorted by key, point
//! reads and writes, a merge that applies the table's operator, and scans in
//! key order.
use crate::codec::copy_bytes;
use crate::merge::{merge_for_pair, merge_for_screen_name, merged_day_ids_value, merged_ids_value};
use crate::order::{
    is_prefix, lemma_lex_irreflexive, lemma_lex_transitive, lemma_lex_trichotomy,
    lemma_past_prefix, lemma_prefix_not_after, lex_lt,
};
use vstd::prelude::*;

verus! {

/// The operator that combines a merge operand with the value under its key.
#[derive(Clone, Copy, Debug, PartialEq, Eq, Structural)]
pub enum MergeOperator {
    /// Union of two-byte day ids (the primary table).
    DayIds,
    /// Union of eight-byte account ids (the index).
    AccountIds,
}

/// The value under a key after `operand` is merged into `existing`.
pub open spec fn merged_value(op: MergeOperator, existing: Seq<u8>, operand: Seq<u8>) -> Seq<u8> {
    match op {
        MergeOperator::DayIds => merged_day_ids_value(existing, operand),
        MergeOperator::AccountIds => merged_ids_value(existing, operand),
    }
}

/// Rows whose keys increase strictly.
pub open spec fn keys_sorted(rows: Seq<(Seq<u8>, Seq<u8>)>) -> bool {
    forall|i: int, j: int| 0 <= i < j < rows.len() ==> lex_lt(#[trigger] rows[i].0, #[trigger] rows[j].0)
}

/// Some row has key `k`.
pub open spec fn has_key(rows: Seq<(Seq<u8>, Seq<u8>)>, k: Seq<u8>) -> bool {
    exists|i: int| 0 <= i < rows.len() && #[trigger] rows[i].0 == k
}

/// The rows as a map from key to value.
pub open spec fn rows_map(rows: Seq<(Seq<u8>, Seq<u8>)>) -> Map<Seq<u8>, Seq<u8>> {
    Map::new(
        |k: Seq<u8>| has_key(rows, k),
        |k: Seq<u8>| rows[choose|i: int| 0 <= i < rows.len() && #[trigger] rows[i].0 == k].1,
    )
}

/// The rows whose keys start with `p`, in key order.
pub open spec fn prefix_rows(rows: Seq<(Seq<u8>, Seq<u8>)>, p: Seq<u8>) -> Seq<(Seq<u8>, Seq<u8>)> {
    rows.filter(|r: (Seq<u8>, Seq<u8>)| is_prefix(p, r.0))
}

pub proof fn lemma_rows_map_at(rows: Seq<(Seq<u8>, Seq<u8>)>, i: int)
    requires
        keys_sorted(rows),
        0 <= i < rows.len(),
    ensures
        rows_map(rows).contains_key(rows[i].0),
        rows_map(rows)[rows[i].0] == rows[i].1,
{
    assert(has_key(rows, rows[i].0));
    let j = choose|j: int| 0 <= j < rows.len() && #[trigger] rows[j].0 == rows[i].0;
    if j != i {
        if j < i {
            assert(lex_lt(rows[j].0, rows[i].0));
        } else {
            assert(lex_lt(rows[i].0, rows[j].0));
        }
        lemma_lex_irreflexive(rows[i].0);
    }
}

/// Rows with the same keys in the same order, and a map that agrees with
/// theirs, are those rows.
proof fn lemma_rows_map_ext(
    a: Seq<(Seq<u8>, Seq<u8>)>,
    b: Seq<(Seq<u8>, Seq<u8>)>,
    m: Map<Seq<u8>, Seq<u8>>,
)
    requires
        keys_sorted(b),
        forall|k: Seq<u8>| #[trigger] has_key(b, k) <==> m.contains_key(k),
        forall|i: int| 0 <= i < b.len() ==> m[#[trigger] b[i].0] == b[i].1,
        a == b,
    ensures
        rows_map(b) == m,
{
    assert forall|k: Seq<u8>| #[trigger] rows_map(b).contains_key(k) == m.contains_key(k) by {}
    assert forall|k: Seq<u8>| rows_map(b).contains_key(k) implies #[trigger] rows_map(b)[k] == m[k] by {
        let i = choose|i: int| 0 <= i < b.len() && #[trigger] b[i].0 == k;
        lemma_rows_map_at(b, i);
    }
    assert(rows_map(b) =~= m);
}

/// A property holds of every row exactly when it holds of every entry of
/// the rows' map.
pub proof fn lemma_rows_map_all(rows: Seq<(Seq<u8>, Seq<u8>)>, p: spec_fn((Seq<u8>, Seq<u8>)) -> bool)
    requires
        keys_sorted(rows),
    ensures
        (forall|i: int| 0 <= i < rows.len() ==> p(#[trigger] rows[i])) <==> (forall|k: Seq<u8>|
            #[trigger] rows_map(rows).contains_key(k) ==> p((k, rows_map(rows)[k]))),
{
    if forall|i: int| 0 <= i < rows.len() ==> p(#[trigger] rows[i]) {
        assert forall|k: Seq<u8>| #[trigger] rows_map(rows).contains_key(k) implies p((k, rows_map(rows)[k])) by {
            let i = choose|i: int| 0 <= i < rows.len() && #[trigger] rows[i].0 == k;
            lemma_rows_map_at(rows, i);
            assert(rows[i] == (k, rows_map(rows)[k]));
        }
    }
    if forall|k: Seq<u8>| #[trigger] rows_map(rows).contains_key(k) ==> p((k, rows_map(rows)[k])) {
        assert forall|i: int| 0 <= i < rows.len() implies p(#[trigger] rows[i]) by {
            lemma_rows_map_at(rows, i);
            assert(rows[i] == (rows[i].0, rows_map(rows)[rows[i].0]));
        }
    }
}

/// Every row that a filter keeps is a row of the sequence.
pub proof fn lemma_filter_rows(rows: Seq<(Seq<u8>, Seq<u8>)>, pred: spec_fn((Seq<u8>, Seq<u8>)) -> bool, i: int)
    requires
        0 <= i < rows.filter(pred).len(),
    ensures
        exists|j: int| 0 <= j < rows.len() && rows[j] == #[trigger] rows.filter(pred)[i],
        pred(rows.filter(pred)[i]),
{
    let f = rows.filter(pred);
    assert(f.contains(f[i]));
    rows.lemma_filter_contains_rev(pred, f[i]);
    rows.lemma_filter_pred(pred, i);
}

/// Where exactly the rows from `lo` up to `hi` satisfy a predicate, the
/// filter is that run.
pub proof fn lemma_filter_run<A>(s: Seq<A>, pred: spec_fn(A) -> bool, lo: int, hi: int)
    requires
        0 <= lo <= hi <= s.len(),
        forall|i: int| 0 <= i < s.len() ==> (pred(#[trigger] s[i]) <==> lo <= i < hi),
    ensures
        s.filter(pred) == s.subrange(lo, hi),
    decreases s.len(),
{
    reveal(Seq::filter);
    if s.len() > 0 {
        let init = s.drop_last();
        assert forall|i: int| 0 <= i < init.len() implies init[i] == s[i] by {}
        if lo == hi {
            assert forall|i: int| 0 <= i < init.len() implies (pred(#[trigger] init[i]) <==> 0 <= i
                < 0) by {
                assert(init[i] == s[i]);
            }
            lemma_filter_run(init, pred, 0, 0);
            assert(!pred(s[s.len() - 1]));
            assert(s.subrange(lo, hi) =~= Seq::<A>::empty());
        } else if hi == s.len() {
            assert forall|i: int| 0 <= i < init.len() implies (pred(#[trigger] init[i]) <==> lo <= i
                < hi - 1) by {
                assert(init[i] == s[i]);
            }
            lemma_filter_run(init, pred, lo, hi - 1);
            assert(pred(s[s.len() - 1]));
            assert(s.subrange(lo, hi) =~= init.subrange(lo, hi - 1).push(s.last()));
        } else {
            assert forall|i: int| 0 <= i < init.len() implies (pred(#[trigger] init[i]) <==> lo <= i
                < hi) by {
                assert(init[i] == s[i]);
            }
            lemma_filter_run(init, pred, lo, hi);
            assert(!pred(s[s.len() - 1]));
            assert(s.subrange(lo, hi) =~= init.subrange(lo, hi));
        }
    }
}

/// An ordered key-value table held in memory.
pub struct OrderedTable {
    rows: Vec<(Vec<u8>, Vec<u8>)>,
    op: MergeOperator,
}

impl View for OrderedTable {
    type V = Seq<(Seq<u8>, Seq<u8>)>;

    closed spec fn view(&self) -> Seq<(Seq<u8>, Seq<u8>)> {
        self.rows@.map_values(|r: (Vec<u8>, Vec<u8>)| (r.0@, r.1@))
    }
}

/// Whether `a` sorts strictly before `b`.
pub fn lex_less(a: &[u8], b: &[u8]) -> (r: bool)
    ensures
        r == lex_lt(a@, b@),
{
    let mut i: usize = 0;
    assert(a@.skip(0) =~= a@);
    assert(b@.skip(0) =~= b@);
    while i < a.len() && i < b.len()
        invariant
            i <= a@.len(),
            i <= b@.len(),
            lex_lt(a@, b@) == lex_lt(a@.skip(i as int), b@.skip(i as int)),
        decreases a@.len() - i,
    {
        if a[i] != b[i] {
            assert(a@.skip(i as int)[0] == a[i as int]);
            assert(b@.skip(i as int)[0] == b[i as int]);
            return a[i] < b[i];
        }
        assert(a@.skip(i as int).drop_first() == a@.skip(i + 1));
        assert(b@.skip(i as int).drop_first() == b@.skip(i + 1));
        i = i + 1;
    }
    i < b.len()
}

impl OrderedTable {
    /// The operator that this table merges with.
    pub closed spec fn operator(&self) -> MergeOperator {
        self.op
    }

    /// The table's rows are sorted by key.
    pub open spec fn wf(&self) -> bool {
        keys_sorted(self@)
    }

    /// The table's contents as a map from key to value.
    pub open spec fn map(&self) -> Map<Seq<u8>, Seq<u8>> {
        rows_map(self@)
    }

    /// An empty table that merges with `op`.
    pub fn new(op: MergeOperator) -> (r: OrderedTable)
        ensures
            r@ == Seq::<(Seq<u8>, Seq<u8>)>::empty(),
            r.operator() == op,
            r.wf(),
    {
        let r = OrderedTable { rows: Vec::new(), op };
        assert(r@ =~= Seq::<(Seq<u8>, Seq<u8>)>::empty());
        r
    }

    /// The number of rows.
    pub fn len(&self) -> (r: usize)
        ensures
            r == self@.len(),
    {
        self.rows.len()
    }

    /// The key and value of row `i`.
    pub fn row(&self, i: usize) -> (r: (&Vec<u8>, &Vec<u8>))
        requires
            i < self@.len(),
        ensures
            r.0@ == self@[i as int].0,
            r.1@ == self@[i as int].1,
    {
        let row = &self.rows[i];
        (&row.0, &row.1)
    }

    /// The index of the first row whose key does not sort before `key`.
    pub fn lower_bound(&self, key: &[u8]) -> (r: usize)
        requires
            self.wf(),
        ensures
            r <= self@.len(),
            forall|j: int| 0 <= j < r ==> lex_lt(#[trigger] self@[j].0, key@),
            forall|j: int| r <= j < self@.len() ==> !lex_lt(#[trigger] self@[j].0, key@),
    {
        let mut i: usize = 0;
        while i < self.rows.len()
            invariant
                i <= self@.len(),
                self.wf(),
                forall|j: int| 0 <= j < i ==> lex_lt(#[trigger] self@[j].0, key@),
            decreases self@.len() - i,
        {
            if !lex_less(self.rows[i].0.as_slice(), key) {
                assert forall|j: int| i <= j < self@.len() implies !lex_lt(
                    #[trigger] self@[j].0,
                    key@,
                ) by {
                    if j > i && lex_lt(self@[j].0, key@) {
                        assert(lex_lt(self@[i as int].0, self@[j].0));
                        lemma_lex_transitive(self@[i as int].0, self@[j].0, key@);
                    }
                }
                return i;
            }
            i = i + 1;
        }
        i
    }

    /// Where `key` stands: `Ok` with the index of its row, or `Err` with the
    /// index at which a row for it would be inserted.
    pub fn find(&self, key: &[u8]) -> (r: Result<usize, usize>)
        requires
            self.wf(),
        ensures
            r matches Ok(i) ==> i < self@.len() && self@[i as int].0 == key@,
            r matches Err(p) ==> p <= self@.len() && (forall|j: int|
                0 <= j < p ==> lex_lt(#[trigger] self@[j].0, key@)) && (forall|j: int|
                p <= j < self@.len() ==> lex_lt(key@, #[trigger] self@[j].0)),
            r is Ok <==> has_key(self@, key@),
    {
        let p = self.lower_bound(key);
        proof {
            assert forall|j: int| p <= j < self@.len() && self@[j].0 != key@ implies lex_lt(
                key@,
                #[trigger] self@[j].0,
            ) by {
                lemma_lex_trichotomy(key@, self@[j].0);
            }
        }
        if p < self.rows.len() && !lex_less(key, self.rows[p].0.as_slice()) {
            proof {
                lemma_lex_trichotomy(key@, self@[p as int].0);
            }
            Ok(p)
        } else {
            proof {
                if has_key(self@, key@) {
                    let j = choose|j: int| 0 <= j < self@.len() && #[trigger] self@[j].0 == key@;
                    lemma_lex_irreflexive(key@);
                    if j >= p && j > p {
                        assert(lex_lt(self@[p as int].0, self@[j].0));
                        lemma_lex_trichotomy(key@, self@[p as int].0);
                    }
                }
            }
            Err(p)
        }
    }

    /// The value under `key`, if any.
    pub fn get(&self, key: &[u8]) -> (r: Option<&Vec<u8>>)
        requires
            self.wf(),
        ensures
            r is Some <==> self.map().contains_key(key@),
            r matches Some(v) ==> v@ == self.map()[key@],
    {
        match self.find(key) {
            Ok(i) => {
                proof {
                    lemma_rows_map_at(self@, i as int);
                }
                Some(&self.rows[i].1)
            },
            Err(_) => None,
        }
    }

    /// Writes `value` under `key`, replacing what was there.
    pub fn put(&mut self, key: Vec<u8>, value: Vec<u8>)
        requires
            old(self).wf(),
        ensures
            final(self).wf(),
            final(self).operator() == old(self).operator(),
            final(self).map() == old(self).map().insert(key@, value@),
            has_key(old(self)@, key@) ==> final(self)@ == old(self)@.map_values(
                |r: (Seq<u8>, Seq<u8>)|
                    if r.0 == key@ {
                        (r.0, value@)
                    } else {
                        r
                    },
            ),
    {
        let ghost old_rows = self@;
        let ghost k = key@;
        let ghost v = value@;
        match self.find(key.as_slice()) {
            Ok(i) => {
                self.rows.remove(i);
                self.rows.insert(i, (key, value));
                proof {
                    assert(self@ =~= old_rows.update(i as int, (k, v)));
                    assert forall|j: int| 0 <= j < old_rows.len() && j != i implies old_rows[j].0
                        != k by {
                        if j < i {
                            assert(lex_lt(old_rows[j].0, old_rows[i as int].0));
                        } else {
                            assert(lex_lt(old_rows[i as int].0, old_rows[j].0));
                        }
                        lemma_lex_irreflexive(k);
                    }
                    assert(self@ =~= old_rows.map_values(
                        |r: (Seq<u8>, Seq<u8>)|
                            if r.0 == k {
                                (r.0, v)
                            } else {
                                r
                            },
                    ));
                    let m = rows_map(old_rows).insert(k, v);
                    assert forall|kk: Seq<u8>| #[trigger] has_key(self@, kk) <==> m.contains_key(kk) by {
                        if has_key(old_rows, kk) {
                            let j = choose|j: int| 0 <= j < old_rows.len() && #[trigger] old_rows[j].0 == kk;
                            assert(self@[j].0 == kk);
                        }
                        if has_key(self@, kk) {
                            let j = choose|j: int| 0 <= j < self@.len() && #[trigger] self@[j].0 == kk;
                            assert(old_rows[j].0 == kk);
                        }
                    }
                    assert forall|j: int| 0 <= j < self@.len() implies m[#[trigger] self@[j].0] == self@[j].1 by {
                        if j != i {
                            lemma_rows_map_at(old_rows, j);
                        }
                    }
                    lemma_rows_map_ext(self@, self@, m);
                }
            },
            Err(p) => {
                self.rows.insert(p, (key, value));
                proof {
                    assert(self@ =~= old_rows.insert(p as int, (k, v)));
                    assert forall|a: int, b: int| 0 <= a < b < self@.len() implies lex_lt(
                        #[trigger] self@[a].0,
                        #[trigger] self@[b].0,
                    ) by {
                        if b == p {
                        } else if a == p {
                        } else if a < p && b > p {
                            assert(lex_lt(self@[a].0, k));
                            lemma_lex_transitive(self@[a].0, k, self@[b].0);
                        } else if b < p {
                        } else {
                            assert(self@[a].0 == old_rows[a - 1].0);
                        }
                    }
                    let m = rows_map(old_rows).insert(k, v);
                    assert forall|kk: Seq<u8>| #[trigger] has_key(self@, kk) <==> m.contains_key(kk) by {
                        if has_key(old_rows, kk) {
                            let j = choose|j: int| 0 <= j < old_rows.len() && #[trigger] old_rows[j].0 == kk;
                            if j < p {
                                assert(self@[j].0 == kk);
                            } else {
                                assert(self@[j + 1].0 == kk);
                            }
                        }
                        if kk == k {
                            assert(self@[p as int].0 == kk);
                        }
                        if has_key(self@, kk) {
                            let j = choose|j: int| 0 <= j < self@.len() && #[trigger] self@[j].0 == kk;
                            if j < p {
                                assert(old_rows[j].0 == kk);
                            } else if j > p {
                                assert(old_rows[j - 1].0 == kk);
                            }
                        }
                    }
                    assert forall|j: int| 0 <= j < self@.len() implies m[#[trigger] self@[j].0] == self@[j].1 by {
                        if j < p {
                            lemma_rows_map_at(old_rows, j);
                            assert(lex_lt(old_rows[j].0, k));
                            lemma_lex_irreflexive(k);
                        } else if j > p {
                            lemma_rows_map_at(old_rows, j - 1);
                            assert(lex_lt(k, old_rows[j - 1].0));
                            lemma_lex_irreflexive(k);
                        }
                    }
                    lemma_rows_map_ext(self@, self@, m);
                }
            },
        }
    }

    /// Removes the row of `key`, if there is one.
    pub fn delete(&mut self, key: &[u8])
        requires
            old(self).wf(),
        ensures
            final(self).wf(),
            final(self).operator() == old(self).operator(),
            final(self).map() == old(self).map().remove(key@),
    {
        let ghost old_rows = self@;
        match self.find(key) {
            Ok(i) => {
                self.rows.remove(i);
                proof {
                    assert(self@ =~= old_rows.remove(i as int));
                    assert forall|a: int, b: int| 0 <= a < b < self@.len() implies lex_lt(
                        #[trigger] self@[a].0,
                        #[trigger] self@[b].0,
                    ) by {
                        if a >= i {
                            assert(self@[a].0 == old_rows[a + 1].0);
                        }
                        if b >= i {
                            assert(self@[b].0 == old_rows[b + 1].0);
                        }
                    }
                    let m = rows_map(old_rows).remove(key@);
                    assert forall|j: int| 0 <= j < old_rows.len() && j != i implies old_rows[j].0
                        != key@ by {
                        if j < i {
                            assert(lex_lt(old_rows[j].0, old_rows[i as int].0));
                        } else {
                            assert(lex_lt(old_rows[i as int].0, old_rows[j].0));
                        }
                        lemma_lex_irreflexive(key@);
                    }
                    assert forall|kk: Seq<u8>| #[trigger] has_key(self@, kk) <==> m.contains_key(kk) by {
                        if has_key(old_rows, kk) && kk != key@ {
                            let j = choose|j: int| 0 <= j < old_rows.len() && #[trigger] old_rows[j].0 == kk;
                            if j < i {
                                assert(self@[j].0 == kk);
                            } else {
                                assert(self@[j - 1].0 == kk);
                            }
                        }
                        if has_key(self@, kk) {
                            let j = choose|j: int| 0 <= j < self@.len() && #[trigger] self@[j].0 == kk;
                            if j < i {
                                assert(old_rows[j].0 == kk);
                            } else {
                                assert(old_rows[j + 1].0 == kk);
                            }
                        }
                    }
                    assert forall|j: int| 0 <= j < self@.len() implies m[#[trigger] self@[j].0] == self@[j].1 by {
                        if j < i {
                            lemma_rows_map_at(old_rows, j);
                        } else {
                            lemma_rows_map_at(old_rows, j + 1);
                        }
                    }
                    lemma_rows_map_ext(self@, self@, m);
                }
            },
            Err(_) => {
                assert(rows_map(old_rows).remove(key@) =~= rows_map(old_rows));
            },
        }
    }

    /// Merges `operand` into the value under `key` with the table's
    /// operator; a key with no value merges into an empty one.
    pub fn merge(&mut self, key: Vec<u8>, operand: &[u8])
        requires
            old(self).wf(),
        ensures
            final(self).wf(),
            final(self).operator() == old(self).operator(),
            final(self).map() == old(self).map().insert(
                key@,
                merged_value(
                    old(self).operator(),
                    if old(self).map().contains_key(key@) {
                        old(self).map()[key@]
                    } else {
                        Seq::empty()
                    },
                    operand@,
                ),
            ),
    {
        let mut value = match self.get(key.as_slice()) {
            Some(v) => copy_bytes(v.as_slice()),
            None => Vec::new(),
        };
        match self.op {
            MergeOperator::DayIds => merge_for_pair(&mut value, operand),
            MergeOperator::AccountIds => merge_for_screen_name(&mut value, operand),
        }
        self.put(key, value);
    }

    /// The rows whose keys start with `prefix`, in key order, at most `limit`
    /// of them: a scan from the first key at or after `prefix` that stops at
    /// the first key without it.
    pub fn scan_prefix(&self, prefix: &[u8], limit: usize) -> (r: Vec<(Vec<u8>, Vec<u8>)>)
        requires
            self.wf(),
        ensures
            r@.map_values(|r: (Vec<u8>, Vec<u8>)| (r.0@, r.1@)) == prefix_rows(self@, prefix@).take(
                if limit < prefix_rows(self@, prefix@).len() {
                    limit as int
                } else {
                    prefix_rows(self@, prefix@).len() as int
                },
            ),
    {
        let lo = self.lower_bound(prefix);
        let ghost pred = |r: (Seq<u8>, Seq<u8>)| is_prefix(prefix@, r.0);
        let mut hi = lo;
        while hi < self.rows.len() && starts_with(self.rows[hi].0.as_slice(), prefix)
            invariant
                self.wf(),
                lo <= hi <= self@.len(),
                forall|j: int| 0 <= j < lo ==> lex_lt(#[trigger] self@[j].0, prefix@),
                forall|j: int| lo <= j < self@.len() ==> !lex_lt(#[trigger] self@[j].0, prefix@),
                forall|j: int| lo <= j < hi ==> is_prefix(prefix@, #[trigger] self@[j].0),
            decreases self@.len() - hi,
        {
            hi = hi + 1;
        }
        proof {
            // Rows before `lo` sort before the prefix and so do not start with it.
            assert forall|j: int| 0 <= j < lo implies !is_prefix(prefix@, #[trigger] self@[j].0) by {
                if is_prefix(prefix@, self@[j].0) {
                    lemma_prefix_not_after(prefix@, self@[j].0);
                }
            }
            // The scan stopped at a key past the prefix: no later key has it.
            assert forall|j: int| hi <= j < self@.len() implies !is_prefix(prefix@, #[trigger] self@[j].0) by {
                if j > hi && is_prefix(prefix@, self@[j].0) {
                    lemma_past_prefix(prefix@, self@[hi as int].0, self@[j].0);
                    assert(lex_lt(self@[hi as int].0, self@[j].0));
                    lemma_lex_trichotomy(self@[hi as int].0, self@[j].0);
                }
            }
            assert forall|j: int| 0 <= j < self@.len() implies (pred(#[trigger] self@[j]) <==> lo <= j < hi) by {}
            lemma_filter_run(self@, pred, lo as int, hi as int);
        }
        let end = if hi - lo > limit { lo + limit } else { hi };
        let mut out: Vec<(Vec<u8>, Vec<u8>)> = Vec::new();
        let mut i = lo;
        while i < end
            invariant
                lo <= i <= end <= self@.len(),
                out@.map_values(|r: (Vec<u8>, Vec<u8>)| (r.0@, r.1@)) == self@.subrange(lo as int, i as int),
            decreases end - i,
        {
            let (k, v) = self.row(i);
            let ghost prev = out@;
            out.push((copy_bytes(k.as_slice()), copy_bytes(v.as_slice())));
            i = i + 1;
            assert(out@.map_values(|r: (Vec<u8>, Vec<u8>)| (r.0@, r.1@)) =~= self@.subrange(lo as int, i as int)) by {
                assert forall|j: int| 0 <= j < prev.len() implies out@[j] == prev[j] by {}
                assert(prev.map_values(|r: (Vec<u8>, Vec<u8>)| (r.0@, r.1@)) =~= self@.subrange(lo as int, i - 1));
            }
        }
        assert(self@.subrange(lo as int, end as int) =~= self@.subrange(lo as int, hi as int).take(end - lo));
        out
    }
}

/// Whether `p` is a prefix of `k`.
pub fn starts_with(k: &[u8], p: &[u8]) -> (r: bool)
    ensures
        r == is_prefix(p@, k@),
{
    if p.len() > k.len() {
        return false;
    }
    let mut i: usize = 0;
    while i < p.len()
        invariant
            p@.len() <= k@.len(),
            i <= p@.len(),
            forall|j: int| 0 <= j < i ==> k@[j] == p@[j],
        decreases p@.len() - i,
    {
        if k[i] != p[i] {
            assert(k@.take(p@.len() as int)[i as int] != p@[i as int]);
            return false;
        }
        i = i + 1;
    }
    assert(k@.take(p@.len() as int) =~= p@);
    true
}

} // verus!
