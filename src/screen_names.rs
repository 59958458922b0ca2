//! The secondary index: from the lower-cased screen name to the account ids
//! that have used it.
use crate::accounts::AccountTable;
use crate::codec::{
    encode_ids, ids_of, ids_to_value, key_pair, key_to_screen_name, lemma_ids_round_trip, screen_name_key,
    screen_name_to_key, value_to_ids,
};
use crate::error::Error;
use crate::merge::{lemma_union_append_set, merged_ids_value, union_append};
use crate::store::{
    keys_sorted, lemma_filter_rows, lemma_rows_map_all, prefix_rows, rows_map, MergeOperator, OrderedTable,
};
use crate::table::{Mode, Writeable};
use crate::topk::{is_top_k, top_k_indices};
use std::marker::PhantomData;
use vstd::prelude::*;
use vstd::utf8::{decode_utf8, encode_utf8_valid_utf8, valid_utf8};

verus! {

/// The number of screen names in the index and of (screen name, id) mappings.
#[derive(Clone, Copy, Debug, PartialEq, Eq, Structural)]
pub struct ScreenNameTableCounts {
    pub screen_name_count: u64,
    pub mapping_count: u64,
}

/// A row of the index: a UTF-8 key and a whole number of account ids, each once.
pub open spec fn index_row(row: (Seq<u8>, Seq<u8>)) -> bool {
    &&& valid_utf8(row.0)
    &&& row.1.len() % 8 == 0
    &&& ids_of(row.1).no_duplicates()
}

/// The number of (screen name, id) mappings in the rows.
pub open spec fn mapping_total(rows: Seq<(Seq<u8>, Seq<u8>)>) -> nat
    decreases rows.len(),
{
    if rows.len() == 0 {
        0
    } else {
        mapping_total(rows.drop_last()) + ids_of(rows.last().1).len()
    }
}

/// The number of ids of each row.
pub open spec fn row_id_counts(rows: Seq<(Seq<u8>, Seq<u8>)>) -> Seq<usize> {
    rows.map_values(|r: (Seq<u8>, Seq<u8>)| ids_of(r.1).len() as usize)
}

/// A row as the index returns it: the screen name, and its ids in stored order.
pub open spec fn name_ids_match(out: (String, Vec<u64>), row: (Seq<u8>, Seq<u8>)) -> bool {
    out.0@ == decode_utf8(row.0) && out.1@ == ids_of(row.1)
}

/// The index map that inserting every pair of the primary table's rows, in
/// order, into an empty index gives.
pub open spec fn rebuilt_map(rows: Seq<(Seq<u8>, Seq<u8>)>) -> Map<Seq<u8>, Seq<u8>>
    decreases rows.len(),
{
    if rows.len() == 0 {
        Map::empty()
    } else {
        let m = rebuilt_map(rows.drop_last());
        let k = screen_name_key(key_pair(rows.last().0)->Some_0.1);
        let existing = if m.contains_key(k) {
            m[k]
        } else {
            Seq::empty()
        };
        m.insert(k, merged_ids_value(existing, encode_ids(seq![key_pair(rows.last().0)->Some_0.0])))
    }
}

/// The secondary index.
pub struct ScreenNameTable<M> {
    store: OrderedTable,
    mode: PhantomData<M>,
}

impl<M> ScreenNameTable<M> {
    /// The index's rows, in key order.
    pub closed spec fn rows(&self) -> Seq<(Seq<u8>, Seq<u8>)> {
        self.store@
    }

    /// The index's rows as a map from key to value.
    pub open spec fn map(&self) -> Map<Seq<u8>, Seq<u8>> {
        rows_map(self.rows())
    }

    /// The ids stored under a screen name's key; empty for a name not stored.
    pub open spec fn ids_for(&self, name: Seq<char>) -> Seq<u64> {
        if self.map().contains_key(screen_name_key(name)) {
            ids_of(self.map()[screen_name_key(name)])
        } else {
            Seq::empty()
        }
    }

    pub closed spec fn merges_ids(&self) -> bool {
        self.store.operator() == MergeOperator::AccountIds
    }

    /// Rows sorted by key, each a well-formed index row.
    pub open spec fn wf(&self) -> bool {
        &&& keys_sorted(self.rows())
        &&& forall|i: int| 0 <= i < self.rows().len() ==> index_row(#[trigger] self.rows()[i])
        &&& self.merges_ids()
    }

    /// An empty index.
    pub fn open() -> (r: Self)
        ensures
            r.wf(),
            r.rows() == Seq::<(Seq<u8>, Seq<u8>)>::empty(),
    {
        ScreenNameTable { store: OrderedTable::new(MergeOperator::AccountIds), mode: PhantomData }
    }

    /// The ids that have used a screen name, matched without regard to case;
    /// empty where there are none.
    pub fn lookup(&self, screen_name: &str) -> (r: Result<Vec<u64>, Error>)
        requires
            self.wf(),
        ensures
            r matches Ok(v) && v@ == self.ids_for(screen_name@),
    {
        let key = screen_name_to_key(screen_name);
        match self.store.get(key.as_slice()) {
            Some(value) => {
                proof {
                    lemma_rows_map_all(self.rows(), |row: (Seq<u8>, Seq<u8>)| index_row(row));
                    assert(index_row((key@, self.map()[key@])));
                }
                value_to_ids(value.as_slice())
            },
            None => Ok(Vec::new()),
        }
    }

    /// The screen names that start with `screen_name` once lower-cased, with
    /// their ids, in key order, at most `limit` of them.
    pub fn lookup_by_prefix(&self, screen_name: &str, limit: usize) -> (r: Result<Vec<(String, Vec<u64>)>, Error>)
        requires
            self.wf(),
        ensures
            r matches Ok(v) && v@.len() == (if limit < prefix_rows(self.rows(), screen_name_key(screen_name@)).len() {
                limit as int
            } else {
                prefix_rows(self.rows(), screen_name_key(screen_name@)).len() as int
            }) && (forall|i: int|
                0 <= i < v@.len() ==> name_ids_match(#[trigger] v@[i], prefix_rows(self.rows(), screen_name_key(screen_name@))[i])),
    {
        let prefix = screen_name_to_key(screen_name);
        let rows = self.store.scan_prefix(prefix.as_slice(), limit);
        let ghost expected = prefix_rows(self.rows(), prefix@);
        assert(rows@.map_values(|r: (Vec<u8>, Vec<u8>)| (r.0@, r.1@)).len() == rows@.len());
        let mut results: Vec<(String, Vec<u64>)> = Vec::with_capacity(1);
        let mut i: usize = 0;
        while i < rows.len()
            invariant
                self.wf(),
                rows@.map_values(|r: (Vec<u8>, Vec<u8>)| (r.0@, r.1@)) == expected.take(rows@.len() as int),
                rows@.len() == (if limit < expected.len() { limit as int } else { expected.len() as int }),
                expected == prefix_rows(self.rows(), prefix@),
                i <= rows@.len(),
                results@.len() == i,
                forall|j: int| 0 <= j < i ==> name_ids_match(#[trigger] results@[j], expected[j]),
            decreases rows@.len() - i,
        {
            let (key, value) = &rows[i];
            proof {
                assert(expected.take(rows@.len() as int)[i as int] == (key@, value@));
                lemma_filter_rows(self.rows(), |r: (Seq<u8>, Seq<u8>)| crate::order::is_prefix(prefix@, r.0), i as int);
            }
            let name = key_to_screen_name(key.as_slice())?;
            let ids = value_to_ids(value.as_slice())?;
            results.push((name, ids));
            i = i + 1;
        }
        Ok(results)
    }

    /// The `k` screen names used by the most ids, most first, with their ids.
    /// Which of several equal-sized names are chosen is not specified.
    pub fn get_most_reused(&self, k: usize) -> (r: Result<Vec<(String, Vec<u64>)>, Error>)
        requires
            self.wf(),
        ensures
            r matches Ok(v) && exists|top: Seq<usize>|
                is_top_k(top, row_id_counts(self.rows()), k as nat) && v@.len() == top.len() && (forall|i: int|
                    0 <= i < top.len() ==> name_ids_match(#[trigger] v@[i], self.rows()[top[i] as int])),
    {
        let ghost rows = self.rows();
        let n = self.store.len();
        let mut sizes: Vec<usize> = Vec::new();
        let mut i: usize = 0;
        while i < n
            invariant
                self.wf(),
                rows == self.rows(),
                n == rows.len(),
                i <= n,
                sizes@ == row_id_counts(rows).take(i as int),
            decreases n - i,
        {
            let (_, value) = self.store.row(i);
            proof {
                assert(index_row(rows[i as int]));
            }
            sizes.push(value.len() / 8);
            i = i + 1;
            assert(sizes@ =~= row_id_counts(rows).take(i as int));
        }
        assert(row_id_counts(rows).take(n as int) =~= row_id_counts(rows));
        let top = top_k_indices(&sizes, k);
        let mut out: Vec<(String, Vec<u64>)> = Vec::new();
        let mut t: usize = 0;
        while t < top.len()
            invariant
                self.wf(),
                rows == self.rows(),
                sizes@ == row_id_counts(rows),
                is_top_k(top@, sizes@, k as nat),
                t <= top@.len(),
                out@.len() == t,
                forall|a: int| 0 <= a < t ==> name_ids_match(#[trigger] out@[a], rows[top@[a] as int]),
            decreases top@.len() - t,
        {
            let g = top[t];
            let (key, value) = self.store.row(g);
            proof {
                assert(index_row(rows[g as int]));
            }
            let name = key_to_screen_name(key.as_slice())?;
            let ids = value_to_ids(value.as_slice())?;
            out.push((name, ids));
            t = t + 1;
        }
        Ok(out)
    }

    /// The number of screen names and of (screen name, id) mappings: one
    /// scan, summing each value's length over eight. The mapping count stops
    /// at `u64::MAX`.
    pub fn get_counts(&self) -> (r: Result<ScreenNameTableCounts, Error>)
        requires
            self.wf(),
        ensures
            r matches Ok(c) && c.screen_name_count == self.rows().len() && c.mapping_count == (if mapping_total(
                self.rows(),
            ) <= u64::MAX {
                mapping_total(self.rows())
            } else {
                u64::MAX as nat
            }),
    {
        let ghost rows = self.rows();
        let n = self.store.len();
        let mut mapping_count: u64 = 0;
        let mut i: usize = 0;
        while i < n
            invariant
                self.wf(),
                rows == self.rows(),
                n == rows.len(),
                i <= n,
                mapping_count == (if mapping_total(rows.take(i as int)) <= u64::MAX {
                    mapping_total(rows.take(i as int))
                } else {
                    u64::MAX as nat
                }),
            decreases n - i,
        {
            let (_, value) = self.store.row(i);
            proof {
                assert(index_row(rows[i as int]));
                assert(rows.take(i + 1).drop_last() == rows.take(i as int));
                assert(rows.take(i + 1).last() == rows[i as int]);
            }
            let value_len = value.len();
            if value_len % 8 != 0 {
                return Err(Error::InvalidValue(crate::codec::copy_bytes(value.as_slice())));
            }
            mapping_count = mapping_count.saturating_add((value_len / 8) as u64);
            i = i + 1;
        }
        assert(rows.take(n as int) == rows);
        Ok(ScreenNameTableCounts { screen_name_count: n as u64, mapping_count })
    }
}

impl<M: Mode> ScreenNameTable<M> {
    /// Whether this handle was opened read-only.
    pub fn is_read_only(&self) -> (r: bool) {
        M::is_read_only()
    }
}

impl ScreenNameTable<Writeable> {
    /// Records that `id` has used `screen_name`: the id is merged into the
    /// set under the name's lower-case key.
    pub fn insert(&mut self, screen_name: &str, id: u64) -> (r: Result<(), Error>)
        requires
            old(self).wf(),
        ensures
            r is Ok,
            final(self).wf(),
            final(self).map() == old(self).map().insert(
                screen_name_key(screen_name@),
                merged_ids_value(
                    if old(self).map().contains_key(screen_name_key(screen_name@)) {
                        old(self).map()[screen_name_key(screen_name@)]
                    } else {
                        Seq::empty()
                    },
                    encode_ids(seq![id]),
                ),
            ),
    {
        let key = screen_name_to_key(screen_name);
        let mut one: Vec<u64> = Vec::new();
        one.push(id);
        let value = ids_to_value(one.as_slice());
        let ghost k = key@;
        let ghost old_map = self.map();
        proof {
            assert(one@ == seq![id]);
            lemma_rows_map_all(self.rows(), |row: (Seq<u8>, Seq<u8>)| index_row(row));
        }
        self.store.merge(key, value.as_slice());
        proof {
            let new_map = self.map();
            let old_v = if old_map.contains_key(k) { old_map[k] } else { Seq::empty() };
            assert(old_v.len() % 8 == 0 && ids_of(old_v).no_duplicates()) by {
                if !old_map.contains_key(k) {
                    assert(ids_of(old_v) =~= Seq::<u64>::empty());
                }
            }
            lemma_ids_round_trip(one@);
            lemma_ids_round_trip(union_append(ids_of(old_v), one@));
            lemma_union_append_set(ids_of(old_v), one@);
            encode_utf8_valid_utf8(crate::codec::lowercase_of(screen_name@));
            assert(index_row((k, new_map[k])));
            assert forall|kk: Seq<u8>| #[trigger] new_map.contains_key(kk) implies index_row((kk, new_map[kk])) by {
                if kk != k {
                    assert(old_map.contains_key(kk));
                }
            }
            lemma_rows_map_all(self.rows(), |row: (Seq<u8>, Seq<u8>)| index_row(row));
        }
        Ok(())
    }

    /// Empties the index and derives it anew from every pair of the primary
    /// table, in key order: the one repair for an index that has drifted.
    pub fn rebuild<M2>(&mut self, accounts: &AccountTable<M2>) -> (r: Result<(), Error>)
        requires
            old(self).wf(),
            accounts.wf(),
        ensures
            r is Ok,
            final(self).wf(),
            final(self).map() == rebuilt_map(accounts.rows()),
    {
        self.store = OrderedTable::new(MergeOperator::AccountIds);
        let pairs = accounts.pairs()?;
        let ghost rows = accounts.rows();
        proof {
            assert(self.map() =~= Map::<Seq<u8>, Seq<u8>>::empty());
            assert(rows.take(0).len() == 0);
        }
        let mut i: usize = 0;
        while i < pairs.len()
            invariant
                self.wf(),
                accounts.wf(),
                rows == accounts.rows(),
                pairs@.len() == rows.len(),
                forall|j: int| 0 <= j < rows.len() ==> crate::accounts::pair_item_match(#[trigger] pairs@[j], rows[j]),
                i <= pairs@.len(),
                self.map() == rebuilt_map(rows.take(i as int)),
            decreases pairs@.len() - i,
        {
            let (id, screen_name, _) = &pairs[i];
            proof {
                assert(crate::accounts::pair_item_match(pairs@[i as int], rows[i as int]));
                assert(rows.take(i + 1).drop_last() == rows.take(i as int));
                assert(rows.take(i + 1).last() == rows[i as int]);
            }
            self.insert(screen_name.as_str(), *id)?;
            i = i + 1;
        }
        assert(rows.take(pairs@.len() as int) == rows);
        Ok(())
    }
}

} // verus!
