//! The primary table: from an (account id, screen name) pair to the set of
//! days on which the account was seen under that name.
use crate::codec::{
    be_value, day_ids_of, day_ids_to_value, encode_day_ids, key_prefix_to_id, lemma_be_value_bound, lemma_be_value_injective, pow256,
    value_to_day_ids, id_prefix, id_to_key_prefix, is_valid_screen_name,
    key_pair, key_to_pair, lemma_day_ids_round_trip, lemma_key_pair_of_pair_key,
    pair_key, pair_to_key, valid_screen_name,
};
use crate::date::{date_of_day_id, date_to_day_id, day_id_to_date, epoch_offset, representable, Date};
use crate::dates::{sorted_dates_of, sorted_distinct_day_ids, value_to_dates};
use crate::error::Error;
use crate::merge::{lemma_union_append_set, merged_day_ids_value, union_append};
use crate::order::{is_prefix, lemma_lex_irreflexive, lemma_lex_transitive, lemma_lex_trichotomy, lex_lt};
use crate::topk::{is_top_k, top_k_indices};
use crate::store::{
    keys_sorted, lemma_filter_rows, lemma_rows_map_all, prefix_rows, rows_map,
    MergeOperator, OrderedTable,
};
use crate::table::{Mode, Writeable};
use std::marker::PhantomData;
use vstd::prelude::*;
use vstd::utf8::decode_utf8;

verus! {

/// The number of distinct account ids and of (id, screen name) pairs.
#[derive(Clone, Copy, Debug, PartialEq, Eq, Structural)]
pub struct AccountTableCounts {
    pub id_count: u64,
    pub pair_count: u64,
}

/// A row of the primary table: the key of an (id, screen name) pair and a
/// whole number of day ids, each once.
pub open spec fn account_row(row: (Seq<u8>, Seq<u8>)) -> bool {
    &&& key_pair(row.0) is Some
    &&& row.1.len() % 2 == 0
    &&& day_ids_of(row.1).no_duplicates()
}

/// The day ids of a list of representable dates.
pub open spec fn day_ids_of_dates(dates: Seq<Date>) -> Seq<u16> {
    dates.map_values(|d: Date| epoch_offset(d) as u16)
}

/// Every date of the list can be stored as a day id.
pub open spec fn all_representable(dates: Seq<Date>) -> bool {
    forall|i: int| 0 <= i < dates.len() ==> representable(#[trigger] dates[i])
}

/// `i` is the first date of the list that cannot be stored.
pub open spec fn first_unrepresentable(dates: Seq<Date>, i: int) -> bool {
    &&& 0 <= i < dates.len()
    &&& !representable(dates[i])
    &&& forall|j: int| 0 <= j < i ==> representable(#[trigger] dates[j])
}

/// The value under `k` in a map of rows, or the empty value.
pub open spec fn value_or_empty(m: Map<Seq<u8>, Seq<u8>>, k: Seq<u8>) -> Seq<u8> {
    if m.contains_key(k) {
        m[k]
    } else {
        Seq::empty()
    }
}

/// A row as a lookup returns it: the screen name, and the dates once each,
/// earliest first.
pub open spec fn named_dates_match(out: (String, Vec<Date>), row: (Seq<u8>, Seq<u8>)) -> bool {
    &&& key_pair(row.0) matches Some(p) && out.0@ == p.1
    &&& sorted_dates_of(out.1@, day_ids_of(row.1).to_set())
}

/// `out` holds, in order, one lookup result for each row of `rows`.
pub open spec fn lookup_matches(out: Seq<(String, Vec<Date>)>, rows: Seq<(Seq<u8>, Seq<u8>)>) -> bool {
    &&& out.len() == rows.len()
    &&& forall|i: int| 0 <= i < rows.len() ==> named_dates_match(#[trigger] out[i], rows[i])
}

/// A row as `pairs` returns it: id, screen name, and the dates once each,
/// earliest first.
pub open spec fn pair_item_match(out: (u64, String, Vec<Date>), row: (Seq<u8>, Seq<u8>)) -> bool {
    &&& key_pair(row.0) matches Some(p) && out.0 == p.0 && out.1@ == p.1
    &&& sorted_dates_of(out.2@, day_ids_of(row.1).to_set())
}

/// Some date of a primary-table value is `earliest` or later.
pub open spec fn has_date_from(value: Seq<u8>, earliest: Date) -> bool {
    exists|i: int|
        0 <= i < day_ids_of(value).len() && crate::date::date_of_day_id(#[trigger] day_ids_of(value)[i]).day_number
            >= earliest.day_number
}

/// The account id of a primary-table row: its key's first eight bytes.
pub open spec fn row_id(row: (Seq<u8>, Seq<u8>)) -> u64 {
    be_value(row.0.take(8)) as u64
}

/// The distinct account ids of the rows.
pub open spec fn distinct_ids(rows: Seq<(Seq<u8>, Seq<u8>)>) -> Set<u64> {
    rows.map_values(|r: (Seq<u8>, Seq<u8>)| row_id(r)).to_set()
}

/// The number of rows whose dates hold day id `x`.
pub open spec fn date_occurrences(rows: Seq<(Seq<u8>, Seq<u8>)>, x: u16) -> nat
    decreases rows.len(),
{
    if rows.len() == 0 {
        0
    } else {
        date_occurrences(rows.drop_last(), x) + if day_ids_of(rows.last().1).contains(x) {
            1nat
        } else {
            0nat
        }
    }
}

/// `out` lists each date that some row holds, earliest first, with the
/// number of rows that hold it.
pub open spec fn date_counts_match(out: Seq<(Date, u64)>, rows: Seq<(Seq<u8>, Seq<u8>)>) -> bool {
    &&& forall|i: int, j: int| 0 <= i < j < out.len() ==> (#[trigger] out[i]).0.day_number < (#[trigger] out[j]).0.day_number
    &&& forall|i: int|
        0 <= i < out.len() ==> representable((#[trigger] out[i]).0) && date_occurrences(rows, epoch_offset(out[i].0) as u16) > 0
            && out[i].1 == date_occurrences(rows, epoch_offset(out[i].0) as u16)
    &&& forall|x: u16| #[trigger] date_occurrences(rows, x) > 0 ==> out.contains((date_of_day_id(x), date_occurrences(rows, x) as u64))
}

/// The stored set `t` is the compaction of `s`: its least and greatest
/// element where `s` has more than two, else `s` itself.
pub open spec fn compacts_to(s: Set<u16>, t: Set<u16>) -> bool {
    if s.len() > 2 {
        exists|lo: u16, hi: u16|
            s.contains(lo) && s.contains(hi) && (forall|y: u16| #[trigger] s.contains(y) ==> lo <= y <= hi) && t
                == Set::<u16>::empty().insert(lo).insert(hi)
    } else {
        t == s
    }
}

/// The rows grouped by account id, in key order: each id with its screen
/// names.
pub open spec fn id_groups(rows: Seq<(Seq<u8>, Seq<u8>)>) -> Seq<(u64, Seq<Seq<char>>)>
    decreases rows.len(),
{
    if rows.len() == 0 {
        Seq::empty()
    } else {
        let g = id_groups(rows.drop_last());
        let id = row_id(rows.last());
        let name = decode_utf8(rows.last().0.skip(8));
        if g.len() > 0 && g.last().0 == id {
            g.update(g.len() - 1, (id, g.last().1.push(name)))
        } else {
            g.push((id, seq![name]))
        }
    }
}

/// The number of screen names of each group.
pub open spec fn group_sizes(groups: Seq<(u64, Seq<Seq<char>>)>) -> Seq<usize> {
    groups.map_values(|g: (u64, Seq<Seq<char>>)| g.1.len() as usize)
}

/// The view of a group as `get_most_screen_names` returns it.
pub open spec fn group_view(g: (u64, Vec<String>)) -> (u64, Seq<Seq<char>>) {
    (g.0, g.1@.map_values(|s: String| s@))
}

/// Within a prefix width, keys keep their order.
proof fn lemma_prefix_order(a: Seq<u8>, b: Seq<u8>, n: nat)
    requires
        lex_lt(a, b),
        a.len() >= n,
        b.len() >= n,
    ensures
        !lex_lt(b.take(n as int), a.take(n as int)),
    decreases n,
{
    if n > 0 {
        if a[0] == b[0] {
            lemma_prefix_order(a.drop_first(), b.drop_first(), (n - 1) as nat);
            assert(b.take(n as int).drop_first() == b.drop_first().take(n - 1));
            assert(a.take(n as int).drop_first() == a.drop_first().take(n - 1));
        }
    } else {
        assert(b.take(0).len() == 0);
    }
}

/// In a sorted table the id prefixes never decrease.
proof fn lemma_prefixes_sorted(rows: Seq<(Seq<u8>, Seq<u8>)>, j: int, i: int)
    requires
        keys_sorted(rows),
        forall|k: int| 0 <= k < rows.len() ==> account_row(#[trigger] rows[k]),
        0 <= j < i < rows.len(),
    ensures
        rows[j].0.take(8) == rows[i].0.take(8) || lex_lt(rows[j].0.take(8), rows[i].0.take(8)),
{
    assert(account_row(rows[j]) && account_row(rows[i]));
    assert(lex_lt(rows[j].0, rows[i].0));
    lemma_prefix_order(rows[j].0, rows[i].0, 8);
    lemma_lex_trichotomy(rows[j].0.take(8), rows[i].0.take(8));
}

/// The primary table.
pub struct AccountTable<M> {
    store: OrderedTable,
    mode: PhantomData<M>,
}

impl<M> AccountTable<M> {
    /// The table's rows, in key order.
    pub closed spec fn rows(&self) -> Seq<(Seq<u8>, Seq<u8>)> {
        self.store@
    }

    /// The table's rows as a map from key to value.
    pub open spec fn map(&self) -> Map<Seq<u8>, Seq<u8>> {
        rows_map(self.rows())
    }

    /// The day ids stored for (id, screen name); empty for a pair not stored.
    pub open spec fn date_set(&self, id: u64, name: Seq<char>) -> Set<u16> {
        day_ids_of(value_or_empty(self.map(), pair_key(id, name))).to_set()
    }

    pub closed spec fn merges_day_ids(&self) -> bool {
        self.store.operator() == MergeOperator::DayIds
    }

    /// Rows sorted by key, each a well-formed primary-table row.
    pub open spec fn wf(&self) -> bool {
        &&& keys_sorted(self.rows())
        &&& forall|i: int| 0 <= i < self.rows().len() ==> account_row(#[trigger] self.rows()[i])
        &&& self.merges_day_ids()
    }

    /// An empty table.
    pub fn open() -> (r: Self)
        ensures
            r.wf(),
            r.rows() == Seq::<(Seq<u8>, Seq<u8>)>::empty(),
    {
        AccountTable { store: OrderedTable::new(MergeOperator::DayIds), mode: PhantomData }
    }

    /// Decodes one row into its id, screen name and sorted dates.
    fn kv_to_item(key: &[u8], value: &[u8]) -> (r: Result<(u64, String, Vec<Date>), Error>)
        requires
            account_row((key@, value@)),
        ensures
            r matches Ok(item) && pair_item_match(item, (key@, value@)),
    {
        let (id, screen_name) = key_to_pair(key)?;
        let dates = value_to_dates(value)?;
        Ok((id, screen_name, dates))
    }

    /// Every (id, screen name, dates) of the table, in key order.
    pub fn pairs(&self) -> (r: Result<Vec<(u64, String, Vec<Date>)>, Error>)
        requires
            self.wf(),
        ensures
            r matches Ok(items) && items@.len() == self.rows().len() && (forall|i: int|
                0 <= i < self.rows().len() ==> pair_item_match(#[trigger] items@[i], self.rows()[i])),
    {
        let mut out: Vec<(u64, String, Vec<Date>)> = Vec::new();
        let mut i: usize = 0;
        while i < self.store.len()
            invariant
                self.wf(),
                i <= self.rows().len(),
                out@.len() == i,
                forall|j: int| 0 <= j < i ==> pair_item_match(#[trigger] out@[j], self.rows()[j]),
            decreases self.rows().len() - i,
        {
            let (key, value) = self.store.row(i);
            assert(account_row(self.rows()[i as int]));
            let item = Self::kv_to_item(key.as_slice(), value.as_slice())?;
            out.push(item);
            i = i + 1;
        }
        Ok(out)
    }

    /// The screen names of `id`, each with its dates, in key order: a scan
    /// of the keys that start with the id's prefix.
    pub fn lookup(&self, id: u64) -> (r: Result<Vec<(String, Vec<Date>)>, Error>)
        requires
            self.wf(),
        ensures
            r matches Ok(v) && lookup_matches(v@, prefix_rows(self.rows(), id_prefix(id))),
    {
        let prefix = id_to_key_prefix(id);
        let rows = self.store.scan_prefix(prefix.as_slice(), self.store.len());
        let ghost expected = prefix_rows(self.rows(), id_prefix(id));
        proof {
            self.rows().lemma_filter_len(|r: (Seq<u8>, Seq<u8>)| is_prefix(id_prefix(id), r.0));
            assert(expected.take(expected.len() as int) == expected);
        }
        let mut results: Vec<(String, Vec<Date>)> = Vec::new();
        let mut i: usize = 0;
        while i < rows.len()
            invariant
                self.wf(),
                rows@.map_values(|r: (Vec<u8>, Vec<u8>)| (r.0@, r.1@)) == expected,
                expected == prefix_rows(self.rows(), id_prefix(id)),
                i <= rows@.len(),
                results@.len() == i,
                forall|j: int| 0 <= j < i ==> named_dates_match(#[trigger] results@[j], expected[j]),
            decreases rows@.len() - i,
        {
            let (key, value) = &rows[i];
            proof {
                assert(expected[i as int] == (key@, value@));
                lemma_filter_rows(self.rows(), |r: (Seq<u8>, Seq<u8>)| is_prefix(id_prefix(id), r.0), i as int);
            }
            let (_, screen_name, dates) = Self::kv_to_item(key.as_slice(), value.as_slice())?;
            results.push((screen_name, dates));
            i = i + 1;
        }
        Ok(results)
    }

    /// Like `lookup`, but only the screen names with a date on or after
    /// `earliest`.
    pub fn limited_lookup(&self, id: u64, earliest: Date) -> (r: Result<Vec<(String, Vec<Date>)>, Error>)
        requires
            self.wf(),
        ensures
            r matches Ok(v) && lookup_matches(
                v@,
                prefix_rows(self.rows(), id_prefix(id)).filter(
                    |row: (Seq<u8>, Seq<u8>)| has_date_from(row.1, earliest),
                ),
            ),
    {
        let prefix = id_to_key_prefix(id);
        let rows = self.store.scan_prefix(prefix.as_slice(), self.store.len());
        let ghost all = prefix_rows(self.rows(), id_prefix(id));
        let ghost keep = |row: (Seq<u8>, Seq<u8>)| has_date_from(row.1, earliest);
        proof {
            self.rows().lemma_filter_len(|r: (Seq<u8>, Seq<u8>)| is_prefix(id_prefix(id), r.0));
            assert(all.take(all.len() as int) == all);
        }
        let mut results: Vec<(String, Vec<Date>)> = Vec::new();
        let mut i: usize = 0;
        while i < rows.len()
            invariant
                self.wf(),
                rows@.map_values(|r: (Vec<u8>, Vec<u8>)| (r.0@, r.1@)) == all,
                all == prefix_rows(self.rows(), id_prefix(id)),
                i <= rows@.len(),
                lookup_matches(results@, all.take(i as int).filter(keep)),
                keep == (|row: (Seq<u8>, Seq<u8>)| has_date_from(row.1, earliest)),
            decreases rows@.len() - i,
        {
            let (key, value) = &rows[i];
            proof {
                assert(all[i as int] == (key@, value@));
                lemma_filter_rows(self.rows(), |r: (Seq<u8>, Seq<u8>)| is_prefix(id_prefix(id), r.0), i as int);
                reveal(Seq::filter);
                assert(all.take(i + 1).drop_last() == all.take(i as int));
                assert(all.take(i + 1).last() == all[i as int]);
            }
            let (_, screen_name, dates) = Self::kv_to_item(key.as_slice(), value.as_slice())?;
            let mut any = false;
            let mut j: usize = 0;
            while j < dates.len()
                invariant
                    j <= dates@.len(),
                    any == exists|k: int| 0 <= k < j && (#[trigger] dates@[k]).day_number >= earliest.day_number,
                decreases dates@.len() - j,
            {
                if dates[j].day_number >= earliest.day_number {
                    any = true;
                }
                j = j + 1;
            }
            proof {
                let f = |x: u16| crate::date::date_of_day_id(x);
                let ids = day_ids_of(value@);
                if any {
                    let k = choose|k: int| 0 <= k < dates@.len() && (#[trigger] dates@[k]).day_number >= earliest.day_number;
                    assert(dates@.to_set().contains(dates@[k]));
                    assert(ids.to_set().map(f).contains(dates@[k]));
                    let x = choose|x: u16| ids.to_set().contains(x) && f(x) == dates@[k];
                    let m = choose|m: int| 0 <= m < ids.len() && ids[m] == x;
                    assert(has_date_from(value@, earliest));
                }
                if has_date_from(value@, earliest) {
                    let m = choose|m: int| 0 <= m < ids.len() && crate::date::date_of_day_id(#[trigger] ids[m]).day_number >= earliest.day_number;
                    assert(ids.to_set().contains(ids[m]));
                    assert(ids.to_set().map(f).contains(f(ids[m])));
                    assert(dates@.to_set().contains(f(ids[m])));
                    let k = choose|k: int| 0 <= k < dates@.len() && dates@[k] == f(ids[m]);
                    assert(dates@[k].day_number >= earliest.day_number);
                }
            }
            let ghost prev = results@;
            let ghost row = all[i as int];
            let ghost item = (screen_name, dates);
            proof {
                assert(named_dates_match(item, row));
                assert(row.1 == value@);
                assert(keep(row) == has_date_from(row.1, earliest));
                assert(keep(row) == any);
                reveal(Seq::filter);
                if any {
                    assert(all.take(i + 1).filter(keep) == all.take(i as int).filter(keep).push(row));
                } else {
                    assert(all.take(i + 1).filter(keep) == all.take(i as int).filter(keep));
                }
            }
            if any {
                results.push((screen_name, dates));
                assert(results@ == prev.push(item));
            }
            i = i + 1;
        }
        assert(all.take(rows@.len() as int) == all);
        Ok(results)
    }
}

impl<M> AccountTable<M> {
    /// The number of distinct account ids and of rows: one scan, counting a
    /// new id wherever a row's id differs from the row before.
    pub fn get_counts(&self) -> (r: Result<AccountTableCounts, Error>)
        requires
            self.wf(),
        ensures
            r matches Ok(c) && c.pair_count == self.rows().len() && c.id_count == distinct_ids(
                self.rows(),
            ).len(),
    {
        let ghost rows = self.rows();
        let n = self.store.len();
        let mut id_count: u64 = 0;
        let mut last_id: u64 = 0;
        let mut i: usize = 0;
        assert(distinct_ids(rows.take(0)) =~= Set::<u64>::empty());
        while i < n
            invariant
                self.wf(),
                rows == self.rows(),
                n == rows.len(),
                i <= n,
                distinct_ids(rows.take(i as int)).finite(),
                id_count == distinct_ids(rows.take(i as int)).len(),
                id_count <= i,
                i > 0 ==> last_id == row_id(rows[i - 1]),
            decreases n - i,
        {
            let (key, _) = self.store.row(i);
            let id = key_prefix_to_id(key.as_slice())?;
            let ghost before = distinct_ids(rows.take(i as int));
            proof {
                assert(account_row(rows[i as int]));
                assert(rows.take(i + 1).map_values(|r: (Seq<u8>, Seq<u8>)| row_id(r)) =~= rows.take(
                    i as int,
                ).map_values(|r: (Seq<u8>, Seq<u8>)| row_id(r)).push(id));
                rows.take(i as int).map_values(|r: (Seq<u8>, Seq<u8>)| row_id(r)).lemma_push_to_set_commute(id);
            }
            if i == 0 || id != last_id {
                proof {
                    assert(!before.contains(id)) by {
                        if before.contains(id) {
                            let m = rows.take(i as int).map_values(|r: (Seq<u8>, Seq<u8>)| row_id(r));
                            let j = choose|j: int| 0 <= j < m.len() && m[j] == id;
                            assert(row_id(rows[j]) == id);
                            assert(account_row(rows[j]));
                            lemma_be_value_bound(rows[j].0.take(8));
                            lemma_be_value_bound(rows[i as int].0.take(8));
                            assert(pow256(8) == 0x10000000000000000) by {
                                reveal_with_fuel(pow256, 9);
                            }
                            lemma_be_value_injective(rows[j].0.take(8), rows[i as int].0.take(8));
                            lemma_prefixes_sorted(rows, j, i as int);
                            if j < i - 1 {
                                lemma_prefixes_sorted(rows, j, i - 1);
                                lemma_prefixes_sorted(rows, i - 1, i as int);
                                assert(rows[i - 1].0.take(8) != rows[i as int].0.take(8));
                                if rows[j].0.take(8) == rows[i - 1].0.take(8) {
                                    lemma_lex_irreflexive(rows[i as int].0.take(8));
                                } else {
                                    lemma_lex_transitive(rows[j].0.take(8), rows[i - 1].0.take(8), rows[i as int].0.take(8));
                                    lemma_lex_irreflexive(rows[i as int].0.take(8));
                                }
                            }
                        }
                    }
                }
                id_count = id_count + 1;
                last_id = id;
            } else {
                proof {
                    assert(before.contains(id)) by {
                        let m = rows.take(i as int).map_values(|r: (Seq<u8>, Seq<u8>)| row_id(r));
                        assert(m[i - 1] == id);
                    }
                    assert(before.insert(id) == before);
                }
            }
            i = i + 1;
        }
        assert(rows.take(n as int) == rows);
        Ok(AccountTableCounts { id_count, pair_count: n as u64 })
    }
}

impl<M> AccountTable<M> {
    /// How many rows hold each date, for every date that some row holds,
    /// earliest first.
    pub fn get_date_counts(&self) -> (r: Result<Vec<(Date, u64)>, Error>)
        requires
            self.wf(),
        ensures
            r matches Ok(v) && date_counts_match(v@, self.rows()),
    {
        let ghost rows = self.rows();
        let n = self.store.len();
        let mut counts: Vec<u64> = vec![0u64; 65536];
        let mut i: usize = 0;
        while i < n
            invariant
                self.wf(),
                rows == self.rows(),
                n == rows.len(),
                i <= n,
                counts@.len() == 65536,
                forall|x: u16| #[trigger] counts@[x as int] == date_occurrences(rows.take(i as int), x),
                forall|x: int| 0 <= x < 65536 ==> #[trigger] counts@[x] <= i,
            decreases n - i,
        {
            let (_, value) = self.store.row(i);
            proof {
                assert(account_row(rows[i as int]));
            }
            let ids = value_to_day_ids(value.as_slice())?;
            let ghost base = counts@;
            let mut j: usize = 0;
            while j < ids.len()
                invariant
                    i < n,
                    n <= usize::MAX,
                    ids@.no_duplicates(),
                    j <= ids@.len(),
                    counts@.len() == 65536,
                    base.len() == 65536,
                    forall|x: int| 0 <= x < 65536 ==> #[trigger] base[x] <= i,
                    forall|x: u16| #[trigger] counts@[x as int] == base[x as int] + if ids@.take(j as int).contains(x) {
                        1int
                    } else {
                        0int
                    },
                decreases ids@.len() - j,
            {
                let x = ids[j];
                proof {
                    assert(!ids@.take(j as int).contains(x)) by {
                        if ids@.take(j as int).contains(x) {
                            let k = choose|k: int| 0 <= k < j && ids@.take(j as int)[k] == x;
                            assert(ids@[k] == ids@[j as int]);
                        }
                    }
                    assert(counts@[x as int] == base[x as int]);
                }
                counts.set(x as usize, counts[x as usize] + 1);
                proof {
                    assert forall|y: u16| #[trigger] counts@[y as int] == base[y as int] + if ids@.take(j + 1).contains(y) {
                        1int
                    } else {
                        0int
                    } by {
                        assert(ids@.take(j + 1) == ids@.take(j as int).push(x));
                        if y != x {
                            assert(ids@.take(j + 1).contains(y) == ids@.take(j as int).contains(y));
                        } else {
                            assert(ids@.take(j + 1)[j as int] == x);
                        }
                    }
                }
                j = j + 1;
            }
            proof {
                assert(ids@.take(ids@.len() as int) == ids@);
                assert(rows.take(i + 1).drop_last() == rows.take(i as int));
                assert(rows.take(i + 1).last() == rows[i as int]);
                assert forall|x: int| 0 <= x < 65536 implies #[trigger] counts@[x] <= i + 1 by {
                    assert(counts@[(x as u16) as int] == base[(x as u16) as int] + if ids@.contains(x as u16) { 1int } else { 0int });
                }
            }
            i = i + 1;
        }
        assert(rows.take(n as int) == rows);
        let mut out: Vec<(Date, u64)> = Vec::new();
        let mut x: usize = 0;
        while x < 65536
            invariant
                counts@.len() == 65536,
                forall|y: u16| #[trigger] counts@[y as int] == date_occurrences(rows, y),
                x <= 65536,
                forall|a: int, b: int| 0 <= a < b < out@.len() ==> (#[trigger] out@[a]).0.day_number < (#[trigger] out@[b]).0.day_number,
                forall|a: int| 0 <= a < out@.len() ==> (#[trigger] out@[a]).0.day_number < date_of_day_id(0).day_number + x,
                forall|a: int|
                    0 <= a < out@.len() ==> representable((#[trigger] out@[a]).0) && date_occurrences(rows, epoch_offset(out@[a].0) as u16) > 0
                        && out@[a].1 == date_occurrences(rows, epoch_offset(out@[a].0) as u16),
                forall|y: u16| y < x && #[trigger] date_occurrences(rows, y) > 0 ==> out@.contains((date_of_day_id(y), date_occurrences(rows, y) as u64)),
            decreases 65536 - x,
        {
            let c = counts[x];
            if c > 0 {
                let ghost prev = out@;
                let ghost y = x as u16;
                assert(counts@[y as int] == date_occurrences(rows, y));
                out.push((day_id_to_date(x as u16), c));
                proof {
                    assert(out@[prev.len() as int] == (date_of_day_id(y), date_occurrences(rows, y) as u64));
                    assert forall|z: u16| z < x + 1 && #[trigger] date_occurrences(rows, z) > 0 implies out@.contains((date_of_day_id(z), date_occurrences(rows, z) as u64)) by {
                        if z < x {
                            let a = choose|a: int| 0 <= a < prev.len() && prev[a] == (date_of_day_id(z), date_occurrences(rows, z) as u64);
                            assert(out@[a] == prev[a]);
                        } else {
                            assert(z == y);
                        }
                    }
                    assert forall|a: int|
                        0 <= a < out@.len() implies representable((#[trigger] out@[a]).0) && date_occurrences(rows, epoch_offset(out@[a].0) as u16) > 0
                            && out@[a].1 == date_occurrences(rows, epoch_offset(out@[a].0) as u16) by {
                        if a < prev.len() {
                            assert(out@[a] == prev[a]);
                        }
                    }
                }
            } else {
                proof {
                    assert forall|z: u16| z < x + 1 && #[trigger] date_occurrences(rows, z) > 0 implies out@.contains((date_of_day_id(z), date_occurrences(rows, z) as u64)) by {
                        if z == x {
                            assert(counts@[z as int] == 0);
                        }
                    }
                }
            }
            x = x + 1;
        }
        assert forall|y: u16| #[trigger] date_occurrences(rows, y) > 0 implies out@.contains((date_of_day_id(y), date_occurrences(rows, y) as u64)) by {
            assert((y as usize) < x);
        }
        assert(date_counts_match(out@, rows));
        Ok(out)
    }
}

/// A copy of a list of screen names.
pub fn clone_names(names: &Vec<String>) -> (r: Vec<String>)
    ensures
        r@.map_values(|s: String| s@) == names@.map_values(|s: String| s@),
{
    let mut r: Vec<String> = Vec::new();
    let mut i: usize = 0;
    while i < names.len()
        invariant
            i <= names@.len(),
            r@.len() == i,
            r@.map_values(|s: String| s@) == names@.take(i as int).map_values(|s: String| s@),
        decreases names@.len() - i,
    {
        let ghost prev = r@;
        let c = names[i].clone();
        assert(c@ == names@[i as int]@);
        r.push(c);
        i = i + 1;
        assert forall|j: int| 0 <= j < i implies r@[j]@ == names@[j]@ by {
            if j < i - 1 {
                assert(r@[j] == prev[j]);
                assert(prev.map_values(|s: String| s@)[j] == names@.take(i - 1).map_values(|s: String| s@)[j]);
            }
        }
        assert(r@.map_values(|s: String| s@) =~= names@.take(i as int).map_values(|s: String| s@));
    }
    assert(names@.take(names@.len() as int) == names@);
    r
}

impl<M> AccountTable<M> {
    /// The `k` accounts with the most screen names, most first, each with its
    /// screen names in key order. Which of several equal-sized accounts are
    /// chosen is not specified.
    pub fn get_most_screen_names(&self, k: usize) -> (r: Result<Vec<(u64, Vec<String>)>, Error>)
        requires
            self.wf(),
        ensures
            r matches Ok(v) && exists|top: Seq<usize>|
                is_top_k(top, group_sizes(id_groups(self.rows())), k as nat) && v@.len() == top.len() && (forall|i: int|
                    0 <= i < top.len() ==> group_view(#[trigger] v@[i]) == id_groups(self.rows())[top[i] as int]),
    {
        let ghost rows = self.rows();
        let n = self.store.len();
        let mut groups: Vec<(u64, Vec<String>)> = Vec::new();
        let mut current: Vec<String> = Vec::new();
        let mut current_id: u64 = 0;
        let mut i: usize = 0;
        while i < n
            invariant
                self.wf(),
                rows == self.rows(),
                n == rows.len(),
                i <= n,
                i > 0 ==> groups@.map_values(|g: (u64, Vec<String>)| group_view(g)).push(
                    group_view((current_id, current)),
                ) == id_groups(rows.take(i as int)),
                i == 0 ==> groups@.len() == 0,
            decreases n - i,
        {
            let (key, _) = self.store.row(i);
            proof {
                assert(account_row(rows[i as int]));
            }
            let (id, screen_name) = key_to_pair(key.as_slice())?;
            let ghost gv = groups@.map_values(|g: (u64, Vec<String>)| group_view(g));
            let ghost name = screen_name@;
            proof {
                assert(rows.take(i + 1).drop_last() == rows.take(i as int));
                assert(rows.take(i + 1).last() == rows[i as int]);
                assert(id == row_id(rows[i as int]));
                assert(name == decode_utf8(rows[i as int].0.skip(8)));
                if i == 0 {
                    assert(rows.take(0).len() == 0);
                }
            }
            let ghost g = id_groups(rows.take(i as int));
            proof {
                if i > 0 {
                    assert(g == gv.push(group_view((current_id, current))));
                    assert(g.last() == group_view((current_id, current)));
                }
            }
            if i > 0 && id == current_id {
                let ghost old_current = current@;
                current.push(screen_name);
                proof {
                    assert(g.len() > 0 && g.last().0 == id);
                    assert(id_groups(rows.take(i + 1)) == g.update(g.len() - 1, (id, g.last().1.push(name))));
                    assert(current@.map_values(|s: String| s@) =~= old_current.map_values(|s: String| s@).push(name));
                    assert(groups@.map_values(|g: (u64, Vec<String>)| group_view(g)).push(
                        group_view((current_id, current)),
                    ) =~= id_groups(rows.take(i + 1)));
                }
            } else {
                if i > 0 {
                    let old_group = (current_id, current);
                    groups.push(old_group);
                    proof {
                        assert(groups@.map_values(|g: (u64, Vec<String>)| group_view(g)) =~= gv.push(group_view(old_group)));
                    }
                }
                current = Vec::new();
                current.push(screen_name);
                current_id = id;
                proof {
                    assert(current@.map_values(|s: String| s@) =~= seq![name]);
                    assert(groups@.map_values(|g: (u64, Vec<String>)| group_view(g)).push(
                        group_view((current_id, current)),
                    ) =~= id_groups(rows.take(i + 1)));
                }
            }
            i = i + 1;
        }
        if n > 0 {
            let ghost gv = groups@.map_values(|g: (u64, Vec<String>)| group_view(g));
            let last = (current_id, current);
            groups.push(last);
            assert(groups@.map_values(|g: (u64, Vec<String>)| group_view(g)) =~= gv.push(group_view(last)));
        }
        proof {
            assert(rows.take(n as int) == rows);
            if n == 0 {
                assert(id_groups(rows) =~= Seq::<(u64, Seq<Seq<char>>)>::empty());
            }
        }
        let ghost all = id_groups(rows);
        assert(groups@.map_values(|g: (u64, Vec<String>)| group_view(g)) == all);
        let mut sizes: Vec<usize> = Vec::new();
        let mut j: usize = 0;
        while j < groups.len()
            invariant
                groups@.map_values(|g: (u64, Vec<String>)| group_view(g)) == all,
                j <= groups@.len(),
                sizes@ == group_sizes(all).take(j as int),
            decreases groups@.len() - j,
        {
            proof {
                assert(group_view(groups@[j as int]) == all[j as int]);
            }
            sizes.push(groups[j].1.len());
            j = j + 1;
            assert(sizes@ =~= group_sizes(all).take(j as int));
        }
        assert(group_sizes(all).take(groups@.len() as int) =~= group_sizes(all));
        let top = top_k_indices(&sizes, k);
        let mut out: Vec<(u64, Vec<String>)> = Vec::new();
        let mut t: usize = 0;
        while t < top.len()
            invariant
                groups@.map_values(|g: (u64, Vec<String>)| group_view(g)) == all,
                sizes@ == group_sizes(all),
                is_top_k(top@, sizes@, k as nat),
                t <= top@.len(),
                out@.len() == t,
                forall|a: int| 0 <= a < t ==> group_view(#[trigger] out@[a]) == all[top@[a] as int],
            decreases top@.len() - t,
        {
            let g = top[t];
            proof {
                assert(top@[t as int] < sizes@.len());
                assert(group_view(groups@[g as int]) == all[g as int]);
            }
            let names = clone_names(&groups[g].1);
            out.push((groups[g].0, names));
            t = t + 1;
        }
        Ok(out)
    }
}

/// The rows whose screen name is not a valid one.
pub open spec fn invalid_name_rows(rows: Seq<(Seq<u8>, Seq<u8>)>) -> Seq<(Seq<u8>, Seq<u8>)> {
    rows.filter(|row: (Seq<u8>, Seq<u8>)| !valid_screen_name(key_pair(row.0)->Some_0.1))
}

impl<M> AccountTable<M> {
    /// The (id, screen name) pairs of the rows whose screen name holds a
    /// character other than an ASCII letter, digit or `_`, in key order.
    pub fn validate_screen_names(&self) -> (r: Result<Vec<(u64, String)>, Error>)
        requires
            self.wf(),
        ensures
            r matches Ok(v) && v@.len() == invalid_name_rows(self.rows()).len() && (forall|i: int|
                0 <= i < v@.len() ==> key_pair(invalid_name_rows(self.rows())[i].0) == Some(
                    ((#[trigger] v@[i]).0, v@[i].1@),
                )),
    {
        let ghost rows = self.rows();
        let ghost bad = |row: (Seq<u8>, Seq<u8>)| !valid_screen_name(key_pair(row.0)->Some_0.1);
        let n = self.store.len();
        let mut errors: Vec<(u64, String)> = Vec::new();
        let mut i: usize = 0;
        while i < n
            invariant
                self.wf(),
                rows == self.rows(),
                n == rows.len(),
                i <= n,
                bad == (|row: (Seq<u8>, Seq<u8>)| !valid_screen_name(key_pair(row.0)->Some_0.1)),
                errors@.len() == rows.take(i as int).filter(bad).len(),
                forall|j: int|
                    0 <= j < errors@.len() ==> key_pair(rows.take(i as int).filter(bad)[j].0) == Some(
                        ((#[trigger] errors@[j]).0, errors@[j].1@),
                    ),
            decreases n - i,
        {
            let (key, _) = self.store.row(i);
            proof {
                assert(account_row(rows[i as int]));
            }
            let (id, screen_name) = key_to_pair(key.as_slice())?;
            let valid = is_valid_screen_name(screen_name.as_str());
            let ghost prev = errors@;
            proof {
                reveal(Seq::filter);
                assert(rows.take(i + 1).drop_last() == rows.take(i as int));
                assert(rows.take(i + 1).last() == rows[i as int]);
                assert(bad(rows[i as int]) == !valid);
            }
            if !valid {
                errors.push((id, screen_name));
                proof {
                    assert(rows.take(i + 1).filter(bad) == rows.take(i as int).filter(bad).push(rows[i as int]));
                    assert forall|j: int| 0 <= j < errors@.len() implies key_pair(rows.take(i + 1).filter(bad)[j].0) == Some(
                        ((#[trigger] errors@[j]).0, errors@[j].1@),
                    ) by {
                        if j < prev.len() {
                            assert(errors@[j] == prev[j]);
                        }
                    }
                }
            } else {
                assert(rows.take(i + 1).filter(bad) == rows.take(i as int).filter(bad));
            }
            i = i + 1;
        }
        assert(rows.take(n as int) == rows);
        Ok(errors)
    }
}

impl<M: Mode> AccountTable<M> {
    /// Whether this handle was opened read-only.
    pub fn is_read_only(&self) -> (r: bool) {
        M::is_read_only()
    }
}

impl AccountTable<Writeable> {
    /// Records that `id` was seen as `screen_name` on each of `dates`: the
    /// dates are merged into the pair's stored set. A screen name with a
    /// character other than an ASCII letter, digit or `_`, or a date that no
    /// day id can stand for, is refused and nothing is written.
    pub fn insert(&mut self, id: u64, screen_name: &str, dates: Vec<Date>) -> (r: Result<(), Error>)
        requires
            old(self).wf(),
        ensures
            final(self).wf(),
            !valid_screen_name(screen_name@) ==> (r matches Err(Error::InvalidScreenName(s)) && s@
                == screen_name@),
            forall|i: int|
                valid_screen_name(screen_name@) && first_unrepresentable(dates@, i) ==> r
                    == Err::<(), Error>(Error::InvalidDay(epoch_offset(#[trigger] dates@[i]) as i64)),
            r is Err ==> final(self).rows() == old(self).rows(),
            valid_screen_name(screen_name@) && all_representable(dates@) ==> r is Ok,
            r is Ok ==> final(self).map() == old(self).map().insert(
                pair_key(id, screen_name@),
                merged_day_ids_value(
                    value_or_empty(old(self).map(), pair_key(id, screen_name@)),
                    encode_day_ids(day_ids_of_dates(dates@)),
                ),
            ),
    {
        if !is_valid_screen_name(screen_name) {
            return Err(Error::InvalidScreenName(screen_name.to_string()));
        }
        let mut ids: Vec<u16> = Vec::with_capacity(dates.len());
        let mut i: usize = 0;
        while i < dates.len()
            invariant
                i <= dates@.len(),
                ids@ == day_ids_of_dates(dates@.take(i as int)),
                forall|j: int| 0 <= j < i ==> representable(#[trigger] dates@[j]),
                valid_screen_name(screen_name@),
                self.wf(),
                self.rows() == old(self).rows(),
            decreases dates@.len() - i,
        {
            let day_id = date_to_day_id(&dates[i]);
            match day_id {
                Ok(d) => {
                    ids.push(d);
                },
                Err(e) => {
                    proof {
                        assert(first_unrepresentable(dates@, i as int));
                        assert forall|k: int| first_unrepresentable(dates@, k) implies k == i by {
                            if k < i {
                                assert(representable(dates@[k]));
                            }
                            if k > i {
                                assert(representable(dates@[i as int]));
                            }
                        }
                    }
                    return Err(e);
                },
            }
            i = i + 1;
            assert(ids@ =~= day_ids_of_dates(dates@.take(i as int)));
        }
        assert(dates@.take(dates@.len() as int) == dates@);
        let value = day_ids_to_value(ids.as_slice());
        let key = pair_to_key(id, screen_name);
        let ghost k = key@;
        let ghost old_map = self.map();
        proof {
            lemma_rows_map_all(self.rows(), |row: (Seq<u8>, Seq<u8>)| account_row(row));
        }
        self.store.merge(key, value.as_slice());
        proof {
            let new_map = self.map();
            let merged = new_map[k];
            let old_v = value_or_empty(old_map, k);
            assert(old_v.len() % 2 == 0 && day_ids_of(old_v).no_duplicates()) by {
                if !old_map.contains_key(k) {
                    assert(day_ids_of(old_v) =~= Seq::<u16>::empty());
                }
            }
            lemma_day_ids_round_trip(ids@);
            lemma_day_ids_round_trip(union_append(day_ids_of(old_v), ids@));
            lemma_union_append_set(day_ids_of(old_v), ids@);
            lemma_key_pair_of_pair_key(id, screen_name@);
            assert(account_row((k, merged)));
            assert forall|kk: Seq<u8>| #[trigger] new_map.contains_key(kk) implies account_row((kk, new_map[kk])) by {
                if kk != k {
                    assert(old_map.contains_key(kk));
                }
            }
            lemma_rows_map_all(self.rows(), |row: (Seq<u8>, Seq<u8>)| account_row(row));
        }
        Ok(())
    }

    /// Reduces every stored date set of more than two days to its earliest
    /// and latest day, in place; smaller sets stay as they are. Keys do not
    /// change.
    pub fn compact_ranges(&mut self) -> (r: Result<(), Error>)
        requires
            old(self).wf(),
        ensures
            r is Ok,
            final(self).wf(),
            final(self).rows().len() == old(self).rows().len(),
            forall|i: int| 0 <= i < old(self).rows().len() ==> (#[trigger] final(self).rows()[i]).0 == old(self).rows()[i].0
                && compacts_to(day_ids_of(old(self).rows()[i].1).to_set(), day_ids_of(final(self).rows()[i].1).to_set()),
    {
        let ghost start = self.rows();
        let n = self.store.len();
        let mut i: usize = 0;
        while i < n
            invariant
                self.wf(),
                n == start.len(),
                self.rows().len() == n,
                i <= n,
                forall|j: int| 0 <= j < n ==> (#[trigger] self.rows()[j]).0 == start[j].0,
                forall|j: int| i <= j < n ==> #[trigger] self.rows()[j] == start[j],
                forall|j: int| 0 <= j < i ==> compacts_to(day_ids_of(start[j].1).to_set(), day_ids_of((#[trigger] self.rows()[j]).1).to_set()),
            decreases n - i,
        {
            let (key, value) = self.store.row(i);
            proof {
                assert(account_row(self.rows()[i as int]));
            }
            let ids = value_to_day_ids(value.as_slice())?;
            proof {
                ids@.unique_seq_to_set();
            }
            if ids.len() > 2 {
                let sorted = sorted_distinct_day_ids(&ids);
                proof {
                    sorted@.unique_seq_to_set();
                }
                let lo = sorted[0];
                let hi = sorted[sorted.len() - 1];
                let mut pair: Vec<u16> = Vec::new();
                pair.push(lo);
                pair.push(hi);
                let new_value = day_ids_to_value(pair.as_slice());
                let key_copy = crate::codec::copy_bytes(key.as_slice());
                let ghost before = self.rows();
                let ghost k = key_copy@;
                proof {
                    assert(crate::store::has_key(before, k)) by {
                        assert(before[i as int].0 == k);
                    }
                }
                self.store.put(key_copy, new_value);
                proof {
                    let s0 = ids@.to_set();
                    lemma_day_ids_round_trip(pair@);
                    assert(day_ids_of(new_value@) == pair@);
                    assert forall|y: u16| #[trigger] s0.contains(y) implies lo <= y <= hi by {
                        assert(sorted@.to_set().contains(y));
                        let m = choose|m: int| 0 <= m < sorted@.len() && sorted@[m] == y;
                        assert(m == 0 || sorted@[0] < sorted@[m]);
                        assert(m == sorted@.len() - 1 || sorted@[m] < sorted@[sorted@.len() - 1]);
                    }
                    assert(sorted@.to_set().contains(lo) && sorted@.to_set().contains(hi));
                    assert(pair@.to_set() =~= Set::<u16>::empty().insert(lo).insert(hi)) by {
                        assert(pair@[0] == lo && pair@[1] == hi);
                    }
                    assert forall|j: int| 0 <= j < n && j != i implies before[j].0 != k by {
                        if j < i {
                            assert(lex_lt(before[j].0, before[i as int].0));
                        } else {
                            assert(lex_lt(before[i as int].0, before[j].0));
                        }
                        lemma_lex_irreflexive(k);
                    }
                    assert(self.rows()[i as int] == (k, new_value@));
                    assert(compacts_to(s0, day_ids_of(new_value@).to_set()));
                    assert(sorted@[0] < sorted@[sorted@.len() - 1]);
                    assert(pair@.no_duplicates());
                    assert(account_row(self.rows()[i as int]));
                    assert forall|j: int| 0 <= j < n && j != i implies #[trigger] self.rows()[j] == before[j] by {}
                }
            } else {
                proof {
                    assert(compacts_to(day_ids_of(start[i as int].1).to_set(), day_ids_of(self.rows()[i as int].1).to_set()));
                }
            }
            i = i + 1;
        }
        Ok(())
    }

    /// Deletes the row of (id, screen name); other screen names of the id stay.
    pub fn remove(&mut self, id: u64, screen_name: &str) -> (r: Result<(), Error>)
        requires
            old(self).wf(),
        ensures
            final(self).wf(),
            r is Ok,
            final(self).map() == old(self).map().remove(pair_key(id, screen_name@)),
    {
        let key = pair_to_key(id, screen_name);
        proof {
            lemma_rows_map_all(self.rows(), |row: (Seq<u8>, Seq<u8>)| account_row(row));
        }
        self.store.delete(key.as_slice());
        proof {
            lemma_rows_map_all(self.rows(), |row: (Seq<u8>, Seq<u8>)| account_row(row));
        }
        Ok(())
    }
}

} // verus!
