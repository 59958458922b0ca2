//! Properties that relate several operations of the store.
use crate::accounts::{
    account_row, all_representable, compacts_to, day_ids_of_dates, distinct_ids, row_id, value_or_empty,
    AccountTable,
};
use crate::codec::{
    day_ids_of, encode_day_ids, encode_ids, id_prefix, ids_of, key_pair, lemma_day_ids_round_trip,
    lemma_id_prefix_len, lemma_ids_round_trip, lemma_key_pair_of_pair_key, lowercase_of, pair_key,
    screen_name_key, valid_screen_name,
};
use crate::date::Date;
use crate::merge::{
    lemma_union_append_concat, lemma_union_append_idempotent, lemma_union_append_set, merged_day_ids_value,
    union_append,
};
use crate::order::is_prefix;
use crate::screen_names::{rebuilt_map, ScreenNameTable};
use crate::store::{has_key, lemma_rows_map_all, lemma_rows_map_at, prefix_rows};
use crate::table::Writeable;
use vstd::prelude::*;

verus! {

/// The value that an insert of `dates` for (id, name) leaves in a table whose
/// map was `m`.
pub open spec fn inserted_value(m: Map<Seq<u8>, Seq<u8>>, id: u64, name: Seq<char>, dates: Seq<Date>) -> Seq<u8> {
    merged_day_ids_value(value_or_empty(m, pair_key(id, name)), encode_day_ids(day_ids_of_dates(dates)))
}

proof fn lemma_wf_values(t: AccountTable<Writeable>, k: Seq<u8>)
    requires
        t.wf(),
    ensures
        value_or_empty(t.map(), k).len() % 2 == 0,
        day_ids_of(value_or_empty(t.map(), k)).no_duplicates(),
{
    lemma_rows_map_all(t.rows(), |row: (Seq<u8>, Seq<u8>)| account_row(row));
    if t.map().contains_key(k) {
        assert(account_row((k, t.map()[k])));
    } else {
        assert(day_ids_of(value_or_empty(t.map(), k)) =~= Seq::<u16>::empty());
    }
}

/// After `insert(id, name, dates)` succeeds, the rows that `lookup(id)`
/// reads hold one for `name`, and its day ids are those stored before
/// together with those of `dates`; so `lookup` returns `name` with the union
/// of both, sorted and without repeats.
pub proof fn lemma_insert_then_lookup(
    before: AccountTable<Writeable>,
    after: AccountTable<Writeable>,
    id: u64,
    name: Seq<char>,
    dates: Seq<Date>,
)
    requires
        before.wf(),
        after.wf(),
        valid_screen_name(name),
        all_representable(dates),
        after.map() == before.map().insert(pair_key(id, name), inserted_value(before.map(), id, name, dates)),
    ensures
        after.date_set(id, name) == before.date_set(id, name).union(day_ids_of_dates(dates).to_set()),
        exists|i: int|
            0 <= i < prefix_rows(after.rows(), id_prefix(id)).len() && key_pair(
                #[trigger] prefix_rows(after.rows(), id_prefix(id))[i].0,
            ) == Some((id, name)) && day_ids_of(prefix_rows(after.rows(), id_prefix(id))[i].1).to_set()
                == before.date_set(id, name).union(day_ids_of_dates(dates).to_set()),
{
    let k = pair_key(id, name);
    let old_v = value_or_empty(before.map(), k);
    let ids = day_ids_of_dates(dates);
    lemma_wf_values(before, k);
    lemma_day_ids_round_trip(ids);
    lemma_day_ids_round_trip(union_append(day_ids_of(old_v), ids));
    lemma_union_append_set(day_ids_of(old_v), ids);
    assert(after.date_set(id, name) == before.date_set(id, name).union(ids.to_set()));
    let rows = after.rows();
    assert(has_key(rows, k));
    let j = choose|j: int| 0 <= j < rows.len() && #[trigger] rows[j].0 == k;
    lemma_rows_map_at(rows, j);
    let pred = |r: (Seq<u8>, Seq<u8>)| is_prefix(id_prefix(id), r.0);
    lemma_id_prefix_len(id);
    assert(k.take(8) == id_prefix(id));
    assert(pred(rows[j]));
    rows.lemma_filter_contains(pred, j);
    let f = rows.filter(pred);
    assert(f == prefix_rows(rows, id_prefix(id)));
    let i = choose|i: int| 0 <= i < f.len() && f[i] == rows[j];
    lemma_key_pair_of_pair_key(id, name);
    assert(rows[j].1 == after.map()[k]);
    assert(value_or_empty(after.map(), k) == after.map()[k]);
    assert(key_pair(f[i].0) == Some((id, name)));
    assert(day_ids_of(f[i].1).to_set() == after.date_set(id, name));
}

/// Inserting `a` and then `b` for one (id, screen name) leaves what one
/// insert of `a + b` leaves; inserting the same dates twice leaves what one
/// insert leaves.
pub proof fn lemma_inserts_combine(
    t0: AccountTable<Writeable>,
    t1: AccountTable<Writeable>,
    t2: AccountTable<Writeable>,
    id: u64,
    name: Seq<char>,
    a: Seq<Date>,
    b: Seq<Date>,
)
    requires
        t0.wf(),
        t1.wf(),
        valid_screen_name(name),
        all_representable(a),
        all_representable(b),
        t1.map() == t0.map().insert(pair_key(id, name), inserted_value(t0.map(), id, name, a)),
        t2.map() == t1.map().insert(pair_key(id, name), inserted_value(t1.map(), id, name, b)),
    ensures
        t2.map() == t0.map().insert(pair_key(id, name), inserted_value(t0.map(), id, name, a + b)),
        a == b ==> t2.map() == t1.map(),
{
    let k = pair_key(id, name);
    let v0 = value_or_empty(t0.map(), k);
    let ia = day_ids_of_dates(a);
    let ib = day_ids_of_dates(b);
    lemma_wf_values(t0, k);
    lemma_day_ids_round_trip(ia);
    lemma_day_ids_round_trip(ib);
    lemma_day_ids_round_trip(ia + ib);
    let u1 = union_append(day_ids_of(v0), ia);
    lemma_day_ids_round_trip(u1);
    assert(value_or_empty(t1.map(), k) == encode_day_ids(u1));
    assert(day_ids_of_dates(a + b) =~= ia + ib);
    lemma_union_append_concat(day_ids_of(v0), ia, ib);
    if a == b {
        lemma_union_append_idempotent(day_ids_of(v0), ia);
        assert(t2.map() =~= t1.map());
    }
}

/// A compacted set compacts to itself: compacting twice is compacting once.
pub proof fn lemma_compaction_idempotent(s: Set<u16>, t: Set<u16>)
    requires
        s.finite(),
        compacts_to(s, t),
    ensures
        compacts_to(t, t),
        t.len() <= 2,
{
    if s.len() > 2 {
        let (lo, hi) = choose|lo: u16, hi: u16|
            s.contains(lo) && s.contains(hi) && (forall|y: u16| #[trigger] s.contains(y) ==> lo <= y <= hi)
                && t == Set::<u16>::empty().insert(lo).insert(hi);
        let one = Set::<u16>::empty().insert(lo);
        assert(one.len() == 1);
        assert(t.len() <= 2);
    }
}

/// Compaction keeps every key, so it keeps the table's counts.
pub proof fn lemma_compaction_keeps_counts(before: AccountTable<Writeable>, after: AccountTable<Writeable>)
    requires
        after.rows().len() == before.rows().len(),
        forall|i: int| 0 <= i < before.rows().len() ==> (#[trigger] after.rows()[i]).0 == before.rows()[i].0,
    ensures
        distinct_ids(after.rows()) == distinct_ids(before.rows()),
        after.rows().len() == before.rows().len(),
{
    let f = |r: (Seq<u8>, Seq<u8>)| row_id(r);
    assert(after.rows().map_values(f) =~= before.rows().map_values(f));
}

/// Screen names are matched without regard to case: two names with the same
/// lower-case form find the same ids.
pub proof fn lemma_screen_name_case(t: ScreenNameTable<Writeable>, a: Seq<char>, b: Seq<char>)
    requires
        lowercase_of(a) == lowercase_of(b),
    ensures
        t.ids_for(a) == t.ids_for(b),
{
}

/// The screen name of a primary-table row.
pub open spec fn row_name(row: (Seq<u8>, Seq<u8>)) -> Seq<char> {
    key_pair(row.0)->Some_0.1
}

/// The account id of a primary-table row, as its key spells it.
pub open spec fn row_pair_id(row: (Seq<u8>, Seq<u8>)) -> u64 {
    key_pair(row.0)->Some_0.0
}

/// A rebuilt index has a key for exactly the screen names of the rows, and
/// under each key exactly the ids of the rows with that name, each once.
pub proof fn lemma_rebuilt_index_exact(rows: Seq<(Seq<u8>, Seq<u8>)>)
    ensures
        forall|k: Seq<u8>|
            #[trigger] rebuilt_map(rows).contains_key(k) <==> exists|i: int|
                0 <= i < rows.len() && screen_name_key(row_name(#[trigger] rows[i])) == k,
        forall|k: Seq<u8>|
            #[trigger] rebuilt_map(rows).contains_key(k) ==> rebuilt_map(rows)[k].len() % 8 == 0 && ids_of(
                rebuilt_map(rows)[k],
            ).no_duplicates(),
        forall|k: Seq<u8>, id: u64|
            rebuilt_map(rows).contains_key(k) ==> (#[trigger] ids_of(rebuilt_map(rows)[k]).contains(id) <==> exists|i: int|
                0 <= i < rows.len() && screen_name_key(row_name(#[trigger] rows[i])) == k && row_pair_id(rows[i]) == id),
    decreases rows.len(),
{
    if rows.len() > 0 {
        let init = rows.drop_last();
        lemma_rebuilt_index_exact(init);
        let m = rebuilt_map(init);
        let last = rows.last();
        let k = screen_name_key(row_name(last));
        let id = row_pair_id(last);
        let existing = if m.contains_key(k) { m[k] } else { Seq::<u8>::empty() };
        assert(existing.len() % 8 == 0 && ids_of(existing).no_duplicates()) by {
            if !m.contains_key(k) {
                assert(ids_of(existing) =~= Seq::<u64>::empty());
            }
        }
        lemma_ids_round_trip(seq![id]);
        let u = union_append(ids_of(existing), seq![id]);
        lemma_ids_round_trip(u);
        lemma_union_append_set(ids_of(existing), seq![id]);
        let r = rebuilt_map(rows);
        assert(r == m.insert(k, encode_ids(u)));
        assert forall|i: int| 0 <= i < init.len() implies #[trigger] init[i] == rows[i] by {}
        assert(rows[rows.len() - 1] == last);
        assert forall|kk: Seq<u8>|
            #[trigger] r.contains_key(kk) <==> exists|i: int| 0 <= i < rows.len() && screen_name_key(row_name(#[trigger] rows[i])) == kk by {
            if r.contains_key(kk) && kk != k {
                let i = choose|i: int| 0 <= i < init.len() && screen_name_key(row_name(#[trigger] init[i])) == kk;
                assert(rows[i] == init[i]);
            }
            if exists|i: int| 0 <= i < rows.len() && screen_name_key(row_name(#[trigger] rows[i])) == kk {
                let i = choose|i: int| 0 <= i < rows.len() && screen_name_key(row_name(#[trigger] rows[i])) == kk;
                if i < init.len() {
                    assert(init[i] == rows[i]);
                }
            }
        }
        assert forall|kk: Seq<u8>, x: u64|
            r.contains_key(kk) implies (#[trigger] ids_of(r[kk]).contains(x) <==> exists|i: int|
                0 <= i < rows.len() && screen_name_key(row_name(#[trigger] rows[i])) == kk && row_pair_id(rows[i]) == x) by {
            let ex_init = exists|i: int|
                0 <= i < init.len() && screen_name_key(row_name(#[trigger] init[i])) == kk && row_pair_id(init[i]) == x;
            let ex_rows = exists|i: int|
                0 <= i < rows.len() && screen_name_key(row_name(#[trigger] rows[i])) == kk && row_pair_id(rows[i]) == x;
            if ex_init {
                let i = choose|i: int|
                    0 <= i < init.len() && screen_name_key(row_name(#[trigger] init[i])) == kk && row_pair_id(init[i]) == x;
                assert(rows[i] == init[i]);
            }
            if ex_rows {
                let i = choose|i: int|
                    0 <= i < rows.len() && screen_name_key(row_name(#[trigger] rows[i])) == kk && row_pair_id(rows[i]) == x;
                if i < init.len() {
                    assert(init[i] == rows[i]);
                }
            }
            if kk == k {
                assert(ids_of(r[kk]) == u);
                assert(u.to_set() == ids_of(existing).to_set().union(seq![id].to_set()));
                assert(seq![id].to_set().contains(x) <==> x == id) by {
                    if seq![id].to_set().contains(x) {
                        assert(seq![id].contains(x));
                    }
                    if x == id {
                        assert(seq![id][0] == x);
                    }
                }
                assert(u.contains(x) <==> u.to_set().contains(x));
                assert(ids_of(existing).contains(x) <==> ids_of(existing).to_set().contains(x));
                if !m.contains_key(k) {
                    assert(!ids_of(existing).contains(x));
                    assert(!ex_init) by {
                        if ex_init {
                            let i = choose|i: int|
                                0 <= i < init.len() && screen_name_key(row_name(#[trigger] init[i])) == kk && row_pair_id(init[i]) == x;
                        }
                    }
                }
                assert(ex_rows <==> (ex_init || x == id));
            } else {
                assert(ex_rows <==> ex_init);
            }
        }
    }
}

} // verus!
