//! Batches of observations to load: entries are grouped by (account id,
//! screen name), then each group is written with one insert.
use crate::accounts::{all_representable, compacts_to, day_ids_of_dates};
use crate::auth::{all_digits, decimal_value, parse_u64};
use crate::codec::{is_valid_screen_name, lemma_day_ids_round_trip, lemma_pair_key_injective, valid_screen_name};
use crate::database::Database;
use crate::date::{date_of_day_id, date_to_day_id, day_id_to_date, representable, Date};
use crate::dates::sorted_distinct_day_ids;
use crate::error::Error;
use crate::table::Writeable;
use chrono::DateTime;
use vstd::prelude::*;

verus! {

/// Which dates of a group are written.
#[derive(Clone, Copy, Debug, PartialEq, Eq, Structural)]
pub enum UpdateMode {
    /// Every distinct date.
    All,
    /// Only the earliest and the latest date.
    Range,
}

/// The day number of the UTC date of a Unix timestamp in seconds, where
/// chrono can represent it.
pub uninterp spec fn timestamp_day_number(seconds: i64) -> Option<i32>;

/// Relies on chrono's `DateTime::from_timestamp`, `date_naive` and
/// `Datelike::num_days_from_ce`: the day number of the UTC date of a
/// timestamp, `None` outside chrono's range.
#[verifier::external_body]
fn timestamp_to_day_number(seconds: i64) -> (r: Option<i32>)
    ensures
        r == timestamp_day_number(seconds),
{
    DateTime::from_timestamp(seconds, 0).map(|t| chrono::Datelike::num_days_from_ce(&t.date_naive()))
}

/// The number that `i64`'s `FromStr` reads from a string: an optional `+`
/// or `-`, then one or more ASCII digits, whose value fits in 64 bits.
pub open spec fn parsed_i64(s: Seq<char>) -> Option<i64> {
    let negative = s.len() > 0 && s[0] == '-';
    let digits = if s.len() > 0 && (s[0] == '+' || s[0] == '-') {
        s.drop_first()
    } else {
        s
    };
    let value: int = if negative {
        -decimal_value(digits)
    } else {
        decimal_value(digits) as int
    };
    if digits.len() > 0 && all_digits(digits) && i64::MIN <= value <= i64::MAX {
        Some(value as i64)
    } else {
        None
    }
}

/// Relies on `str::parse::<i64>`: an optional sign followed by one or more
/// ASCII digits whose value fits in an `i64`; anything else is an error.
#[verifier::external_body]
fn parse_i64(s: &str) -> (r: Option<i64>)
    ensures
        r == parsed_i64(s@),
{
    s.parse::<i64>().ok()
}

/// One observation: an account seen under a screen name on some dates.
#[derive(Clone, Debug, PartialEq, Eq)]
pub struct ScreenNameEntry {
    pub id: u64,
    pub screen_name: String,
    pub snapshots: Vec<Date>,
}

impl ScreenNameEntry {
    /// The entry of a record of three fields: a decimal id, a screen name and
    /// a Unix timestamp in seconds; `None` where a field does not read.
    pub fn from_fields(id: &str, screen_name: &str, snapshot: &str) -> (r: Option<ScreenNameEntry>)
        ensures
            match (crate::auth::parsed_u64(id@), parsed_i64(snapshot@)) {
                (Some(n), Some(t)) => match timestamp_day_number(t) {
                    Some(d) => r matches Some(e) && e.id == n && e.screen_name@ == screen_name@ && e.snapshots@ == seq![
                        (Date { day_number: d }),
                    ],
                    None => r is None,
                },
                _ => r is None,
            },
    {
        let id = parse_u64(id)?;
        let seconds = parse_i64(snapshot)?;
        let day_number = timestamp_to_day_number(seconds)?;
        let mut snapshots: Vec<Date> = Vec::new();
        snapshots.push(Date { day_number });
        Some(ScreenNameEntry { id, screen_name: screen_name.to_owned(), snapshots })
    }
}

/// The view of a group of a session.
pub open spec fn group_view(g: (u64, String, Vec<Date>)) -> (u64, Seq<char>, Seq<Date>) {
    (g.0, g.1@, g.2@)
}

/// Observations grouped by (account id, screen name), each group once.
pub struct Session {
    groups: Vec<(u64, String, Vec<Date>)>,
}

impl View for Session {
    type V = Seq<(u64, Seq<char>, Seq<Date>)>;

    closed spec fn view(&self) -> Seq<(u64, Seq<char>, Seq<Date>)> {
        self.groups@.map_values(|g: (u64, String, Vec<Date>)| group_view(g))
    }
}

/// No two groups share an (account id, screen name).
pub open spec fn groups_distinct(s: Seq<(u64, Seq<char>, Seq<Date>)>) -> bool {
    forall|i: int, j: int| 0 <= i < j < s.len() ==> (#[trigger] s[i].0 != #[trigger] s[j].0 || s[i].1 != s[j].1)
}

/// The day ids that a group writes in a mode: all of the group's, or their
/// compaction to the earliest and latest.
pub open spec fn written_day_ids(dates: Seq<Date>, mode: UpdateMode, t: Set<u16>) -> bool {
    match mode {
        UpdateMode::All => t == day_ids_of_dates(dates).to_set(),
        UpdateMode::Range => compacts_to(day_ids_of_dates(dates).to_set(), t),
    }
}

/// Group `i` is the one of (id, name).
pub open spec fn group_at(s: Seq<(u64, Seq<char>, Seq<Date>)>, id: u64, name: Seq<char>, i: int) -> bool {
    0 <= i < s.len() && s[i].0 == id && s[i].1 == name
}

impl Session {
    /// An empty session.
    pub fn new() -> (r: Session)
        ensures
            r@ == Seq::<(u64, Seq<char>, Seq<Date>)>::empty(),
    {
        let r = Session { groups: Vec::new() };
        assert(r@ =~= Seq::<(u64, Seq<char>, Seq<Date>)>::empty());
        r
    }

    /// Adds an entry's dates to the group of its (id, screen name), which is
    /// started where there is none.
    pub fn add_entry(&mut self, entry: &ScreenNameEntry)
        requires
            groups_distinct(old(self)@),
        ensures
            groups_distinct(final(self)@),
            forall|i: int|
                #[trigger] group_at(old(self)@, entry.id, entry.screen_name@, i) ==> final(self)@ == old(self)@.update(
                    i,
                    (entry.id, entry.screen_name@, old(self)@[i].2 + entry.snapshots@),
                ),
            (forall|i: int| !#[trigger] group_at(old(self)@, entry.id, entry.screen_name@, i)) ==> final(self)@
                == old(self)@.push((entry.id, entry.screen_name@, entry.snapshots@)),
    {
        let ghost v0 = self@;
        assert(v0 == old(self)@);
        let mut i: usize = 0;
        while i < self.groups.len()
            invariant
                self@ == v0,
                v0 == old(self)@,
                groups_distinct(v0),
                i <= v0.len(),
                forall|j: int| 0 <= j < i ==> !#[trigger] group_at(v0, entry.id, entry.screen_name@, j),
            decreases v0.len() - i,
        {
            assert(group_view(self.groups@[i as int]) == v0[i as int]);
            if self.groups[i].0 == entry.id && self.groups[i].1 == entry.screen_name {
                assert(v0[i as int].0 == entry.id);
                assert(v0[i as int].1 == entry.screen_name@);
                let (id, name, mut dates) = self.groups.remove(i);
                let ghost old_dates = dates@;
                let ghost rest = self.groups@;
                let mut k: usize = 0;
                while k < entry.snapshots.len()
                    invariant
                        self.groups@ == rest,
                        k <= entry.snapshots@.len(),
                        dates@ == old_dates + entry.snapshots@.take(k as int),
                    decreases entry.snapshots@.len() - k,
                {
                    dates.push(entry.snapshots[k]);
                    k = k + 1;
                    assert(dates@ =~= old_dates + entry.snapshots@.take(k as int));
                }
                assert(entry.snapshots@.take(entry.snapshots@.len() as int) == entry.snapshots@);
                self.groups.insert(i, (id, name, dates));
                proof {
                    assert(self@ =~= v0.update(i as int, (entry.id, entry.screen_name@, v0[i as int].2 + entry.snapshots@)));
                    assert(group_at(v0, entry.id, entry.screen_name@, i as int));
                    assert forall|j: int| #[trigger] group_at(v0, entry.id, entry.screen_name@, j) implies j == i by {
                        if j != i {
                            if j < i {
                                assert(v0[j].0 != v0[i as int].0 || v0[j].1 != v0[i as int].1);
                            } else {
                                assert(v0[i as int].0 != v0[j].0 || v0[i as int].1 != v0[j].1);
                            }
                        }
                    }
                }
                proof {
                    assert(v0[i as int].0 == entry.id && v0[i as int].1 == entry.screen_name@);
                    assert forall|a: int, b: int| 0 <= a < b < self@.len() implies (#[trigger] self@[a].0 != #[trigger] self@[b].0
                        || self@[a].1 != self@[b].1) by {
                        assert(v0[a].0 != v0[b].0 || v0[a].1 != v0[b].1);
                    }
                    assert(groups_distinct(self@));
                    assert(self@ == v0.update(i as int, (entry.id, entry.screen_name@, v0[i as int].2 + entry.snapshots@)));
                    assert(!(forall|j: int| !#[trigger] group_at(v0, entry.id, entry.screen_name@, j)));
                }
                return ;
            }
            i = i + 1;
        }
        let mut dates: Vec<Date> = Vec::new();
        let mut k: usize = 0;
        while k < entry.snapshots.len()
            invariant
                k <= entry.snapshots@.len(),
                dates@ == entry.snapshots@.take(k as int),
            decreases entry.snapshots@.len() - k,
        {
            dates.push(entry.snapshots[k]);
            k = k + 1;
            assert(dates@ =~= entry.snapshots@.take(k as int));
        }
        assert(entry.snapshots@.take(entry.snapshots@.len() as int) == entry.snapshots@);
        self.groups.push((entry.id, entry.screen_name.clone(), dates));
        assert(self@ =~= v0.push((entry.id, entry.screen_name@, entry.snapshots@)));
        assert forall|a: int, b: int| 0 <= a < b < self@.len() implies (#[trigger] self@[a].0 != #[trigger] self@[b].0
            || self@[a].1 != self@[b].1) by {
            if b == v0.len() {
                assert(!group_at(v0, entry.id, entry.screen_name@, a));
            } else {
                assert(v0[a].0 != v0[b].0 || v0[a].1 != v0[b].1);
            }
        }
    }

    /// Writes each group with one insert: its distinct dates, or in `Range`
    /// mode only the earliest and latest of them. A group whose screen name is
    /// not valid is passed over; in another group, a date that no day id can
    /// stand for stops the load with its error. Returns the number of groups.
    pub fn update(&self, db: &mut Database<Writeable>, mode: UpdateMode) -> (r: Result<usize, Error>)
        requires
            old(db).wf(),
            groups_distinct(self@),
        ensures
            final(db).wf(),
            (forall|i: int|
                0 <= i < self@.len() && valid_screen_name(#[trigger] self@[i].1) ==> all_representable(self@[i].2))
                ==> r == Ok::<usize, Error>(self@.len() as usize),
            r is Err ==> exists|i: int|
                0 <= i < self@.len() && valid_screen_name(#[trigger] self@[i].1) && !all_representable(self@[i].2),
            r is Ok ==> forall|i: int|
                0 <= i < self@.len() && valid_screen_name(#[trigger] self@[i].1) ==> exists|t: Set<u16>|
                    written_day_ids(self@[i].2, mode, t) && final(db).accounts.date_set(self@[i].0, self@[i].1)
                        == old(db).accounts.date_set(self@[i].0, self@[i].1).union(t),
            r is Ok ==> forall|i: int|
                0 <= i < self@.len() && !valid_screen_name(#[trigger] self@[i].1) ==> final(db).accounts.date_set(
                    self@[i].0,
                    self@[i].1,
                ) == old(db).accounts.date_set(self@[i].0, self@[i].1),
    {
        let ghost start = *db;
        let ghost v = self@;
        let mut i: usize = 0;
        while i < self.groups.len()
            invariant
                v == self@,
                groups_distinct(v),
                db.wf(),
                start.wf(),
                i <= v.len(),
                forall|j: int| i <= j < v.len() ==> #[trigger] db.accounts.date_set(v[j].0, v[j].1)
                    == start.accounts.date_set(v[j].0, v[j].1),
                forall|j: int|
                    0 <= j < i && valid_screen_name(#[trigger] v[j].1) ==> exists|t: Set<u16>|
                        written_day_ids(v[j].2, mode, t) && db.accounts.date_set(v[j].0, v[j].1)
                            == start.accounts.date_set(v[j].0, v[j].1).union(t),
                forall|j: int|
                    0 <= j < i && !valid_screen_name(#[trigger] v[j].1) ==> db.accounts.date_set(v[j].0, v[j].1)
                        == start.accounts.date_set(v[j].0, v[j].1),
            decreases v.len() - i,
        {
            let (id, screen_name, dates) = &self.groups[i];
            assert(group_view(self.groups@[i as int]) == v[i as int]);
            if !is_valid_screen_name(screen_name.as_str()) {
                i = i + 1;
                continue;
            }
            let mut ids: Vec<u16> = Vec::new();
            let mut k: usize = 0;
            while k < dates.len()
                invariant
                    k <= dates@.len(),
                    ids@ == day_ids_of_dates(dates@.take(k as int)),
                    forall|j: int| 0 <= j < k ==> representable(#[trigger] dates@[j]),
                    db.wf(),
                    v == self@,
                    i < v.len(),
                    dates@ == v[i as int].2,
                    valid_screen_name(v[i as int].1),
                decreases dates@.len() - k,
            {
                let d = match date_to_day_id(&dates[k]) {
                    Ok(d) => d,
                    Err(e) => {
                        proof {
                            assert(!representable(v[i as int].2[k as int]));
                            assert(valid_screen_name(v[i as int].1));
                        }
                        return Err(e);
                    },
                };
                ids.push(d);
                k = k + 1;
                assert(ids@ =~= day_ids_of_dates(dates@.take(k as int)));
            }
            assert(dates@.take(dates@.len() as int) == dates@);
            let sorted = sorted_distinct_day_ids(&ids);
            let mut chosen: Vec<u16> = Vec::new();
            match mode {
                UpdateMode::Range => {
                    if sorted.len() > 2 {
                        chosen.push(sorted[0]);
                        chosen.push(sorted[sorted.len() - 1]);
                    } else {
                        let mut m: usize = 0;
                        while m < sorted.len()
                            invariant
                                m <= sorted@.len(),
                                chosen@ == sorted@.take(m as int),
                            decreases sorted@.len() - m,
                        {
                            chosen.push(sorted[m]);
                            m = m + 1;
                            assert(chosen@ =~= sorted@.take(m as int));
                        }
                        assert(sorted@.take(sorted@.len() as int) == sorted@);
                    }
                },
                UpdateMode::All => {
                    let mut m: usize = 0;
                    while m < sorted.len()
                        invariant
                            m <= sorted@.len(),
                            chosen@ == sorted@.take(m as int),
                        decreases sorted@.len() - m,
                    {
                        chosen.push(sorted[m]);
                        m = m + 1;
                        assert(chosen@ =~= sorted@.take(m as int));
                    }
                    assert(sorted@.take(sorted@.len() as int) == sorted@);
                },
            }
            let mut out: Vec<Date> = Vec::new();
            let mut m: usize = 0;
            while m < chosen.len()
                invariant
                    m <= chosen@.len(),
                    out@.len() == m,
                    forall|a: int| 0 <= a < m ==> #[trigger] out@[a] == date_of_day_id(chosen@[a]),
                decreases chosen@.len() - m,
            {
                out.push(day_id_to_date(chosen[m]));
                m = m + 1;
            }
            let ghost t = chosen@.to_set();
            proof {
                sorted@.unique_seq_to_set();
                let s = day_ids_of_dates(dates@).to_set();
                assert(s == sorted@.to_set());
                // The day ids written are exactly the chosen ones.
                assert(day_ids_of_dates(out@) =~= chosen@);
                if mode == UpdateMode::Range && sorted@.len() > 2 {
                    let lo = sorted@[0];
                    let hi = sorted@[sorted@.len() - 1];
                    assert forall|y: u16| #[trigger] s.contains(y) implies lo <= y <= hi by {
                        assert(sorted@.to_set().contains(y));
                        let q = choose|q: int| 0 <= q < sorted@.len() && sorted@[q] == y;
                        assert(q == 0 || sorted@[0] < sorted@[q]);
                        assert(q == sorted@.len() - 1 || sorted@[q] < sorted@[sorted@.len() - 1]);
                    }
                    assert(sorted@.to_set().contains(lo) && sorted@.to_set().contains(hi));
                    assert(chosen@.to_set() =~= Set::<u16>::empty().insert(lo).insert(hi)) by {
                        assert(chosen@[0] == lo && chosen@[1] == hi);
                    }
                    assert(s.len() > 2);
                } else {
                    assert(chosen@ == sorted@);
                }
                assert(written_day_ids(dates@, mode, t));
                assert forall|a: int| 0 <= a < out@.len() implies representable(#[trigger] out@[a]) by {}
            }
            let ghost before = *db;
            let res = db.insert(*id, screen_name.as_str(), out);
            match res {
                Ok(()) => {
                    proof {
                        lemma_day_ids_round_trip(chosen@);
                        crate::laws::lemma_insert_then_lookup(before.accounts, db.accounts, *id, screen_name@, out@);
                        assert forall|j: int| 0 <= j < v.len() && j != i implies #[trigger] db.accounts.date_set(v[j].0, v[j].1)
                            == before.accounts.date_set(v[j].0, v[j].1) by {
                            lemma_pair_key_injective(v[j].0, v[j].1, v[i as int].0, v[i as int].1);
                            if j < i {
                                assert(v[j].0 != v[i as int].0 || v[j].1 != v[i as int].1);
                            } else {
                                assert(v[i as int].0 != v[j].0 || v[i as int].1 != v[j].1);
                            }
                        }
                        assert forall|j: int| i + 1 <= j < v.len() implies #[trigger] db.accounts.date_set(v[j].0, v[j].1)
                            == start.accounts.date_set(v[j].0, v[j].1) by {
                            assert(before.accounts.date_set(v[j].0, v[j].1) == start.accounts.date_set(v[j].0, v[j].1));
                        }
                        assert(db.accounts.date_set(v[i as int].0, v[i as int].1) == start.accounts.date_set(
                            v[i as int].0,
                            v[i as int].1,
                        ).union(t));
                        assert(valid_screen_name(v[i as int].1));
                        assert forall|j: int|
                            0 <= j < i + 1 && !valid_screen_name(#[trigger] v[j].1) implies db.accounts.date_set(v[j].0, v[j].1)
                                == start.accounts.date_set(v[j].0, v[j].1) by {
                            assert(j != i);
                            assert(before.accounts.date_set(v[j].0, v[j].1) == start.accounts.date_set(v[j].0, v[j].1));
                        }
                        assert forall|j: int|
                            0 <= j < i + 1 && valid_screen_name(#[trigger] v[j].1) implies exists|t2: Set<u16>|
                                written_day_ids(v[j].2, mode, t2) && db.accounts.date_set(v[j].0, v[j].1)
                                    == start.accounts.date_set(v[j].0, v[j].1).union(t2) by {
                            if j == i {
                                assert(written_day_ids(v[j].2, mode, t));
                            } else {
                                let t2 = choose|t2: Set<u16>|
                                    written_day_ids(v[j].2, mode, t2) && before.accounts.date_set(v[j].0, v[j].1)
                                        == start.accounts.date_set(v[j].0, v[j].1).union(t2);
                                assert(written_day_ids(v[j].2, mode, t2));
                            }
                        }
                    }
                },
                Err(e) => {
                    return Err(e);
                },
            }
            i = i + 1;
        }
        Ok(self.groups.len())
    }
}

} // verus!
