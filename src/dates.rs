//! Turning stored day ids into sorted, de-duplicated dates.
use crate::codec::{day_ids_of, value_to_day_ids};
use crate::date::{date_of_day_id, day_id_to_date, Date};
use crate::error::Error;
use vstd::prelude::*;

verus! {

/// Day ids that increase strictly.
pub open spec fn strictly_increasing(s: Seq<u16>) -> bool {
    forall|i: int, j: int| 0 <= i < j < s.len() ==> s[i] < s[j]
}

/// `out` lists the dates of the day ids in `ids` once each, earliest first.
pub open spec fn sorted_dates_of(out: Seq<Date>, ids: Set<u16>) -> bool {
    &&& forall|i: int, j: int| 0 <= i < j < out.len() ==> out[i].day_number < out[j].day_number
    &&& out.to_set() == ids.map(|x: u16| date_of_day_id(x))
}

/// The distinct day ids of `ids`, in increasing order.
pub fn sorted_distinct_day_ids(ids: &Vec<u16>) -> (r: Vec<u16>)
    ensures
        strictly_increasing(r@),
        r@.to_set() == ids@.to_set(),
{
    let mut r: Vec<u16> = Vec::new();
    let mut i: usize = 0;
    while i < ids.len()
        invariant
            i <= ids@.len(),
            strictly_increasing(r@),
            r@.to_set() == ids@.take(i as int).to_set(),
        decreases ids@.len() - i,
    {
        let x = ids[i];
        let mut p: usize = 0;
        while p < r.len() && r[p] < x
            invariant
                p <= r@.len(),
                forall|j: int| 0 <= j < p ==> r@[j] < x,
            decreases r@.len() - p,
        {
            p = p + 1;
        }
        let ghost before = r@;
        proof {
            ids@.take(i as int).lemma_push_to_set_commute(x);
            assert(ids@.take(i + 1) == ids@.take(i as int).push(x));
        }
        if p < r.len() && r[p] == x {
            assert(before.to_set().contains(x)) by {
                assert(before[p as int] == x);
            }
            assert(before.to_set().insert(x) =~= before.to_set());
        } else {
            r.insert(p, x);
            proof {
                assert(r@ == before.insert(p as int, x));
                assert forall|a: int, b: int| 0 <= a < b < r@.len() implies r@[a] < r@[b] by {
                    if a < p && b > p {
                        assert(r@[b] == before[b - 1]);
                        assert(before[b - 1] >= before[p as int] || b - 1 == p as int);
                    } else if a > p {
                        assert(r@[a] == before[a - 1] && r@[b] == before[b - 1]);
                    } else if a == p && b > p {
                        assert(r@[b] == before[b - 1]);
                        if b - 1 > p {
                            assert(before[p as int] < before[b - 1]);
                        }
                    }
                }
                assert forall|y: u16| r@.to_set().contains(y) <==> before.to_set().insert(x).contains(y) by {
                    if r@.contains(y) {
                        let k = choose|k: int| 0 <= k < r@.len() && r@[k] == y;
                        if k < p {
                            assert(before[k] == y);
                        } else if k > p {
                            assert(before[k - 1] == y);
                        }
                    }
                    if before.contains(y) {
                        let k = choose|k: int| 0 <= k < before.len() && before[k] == y;
                        if k < p {
                            assert(r@[k] == y);
                        } else {
                            assert(r@[k + 1] == y);
                        }
                    }
                    if y == x {
                        assert(r@[p as int] == x);
                    }
                }
                assert(r@.to_set() =~= before.to_set().insert(x));
            }
        }
        i = i + 1;
    }
    assert(ids@.take(ids@.len() as int) == ids@);
    r
}

/// The dates of a primary-table value, once each and earliest first.
pub fn value_to_dates(value: &[u8]) -> (r: Result<Vec<Date>, Error>)
    ensures
        value@.len() % 2 == 0 ==> (r matches Ok(d) && sorted_dates_of(d@, day_ids_of(value@).to_set())),
        value@.len() % 2 != 0 ==> (r matches Err(Error::InvalidValue(v)) && v@ == value@),
{
    let ids = value_to_day_ids(value)?;
    let sorted = sorted_distinct_day_ids(&ids);
    let mut out: Vec<Date> = Vec::with_capacity(sorted.len());
    let mut i: usize = 0;
    while i < sorted.len()
        invariant
            i <= sorted@.len(),
            strictly_increasing(sorted@),
            out@ == sorted@.take(i as int).map_values(|x: u16| date_of_day_id(x)),
        decreases sorted@.len() - i,
    {
        out.push(day_id_to_date(sorted[i]));
        i = i + 1;
        assert(out@ =~= sorted@.take(i as int).map_values(|x: u16| date_of_day_id(x)));
    }
    proof {
        assert(sorted@.take(sorted@.len() as int) == sorted@);
        let f = |x: u16| date_of_day_id(x);
        assert forall|d: Date| out@.to_set().contains(d) <==> sorted@.to_set().map(f).contains(d) by {
            if out@.contains(d) {
                let k = choose|k: int| 0 <= k < out@.len() && out@[k] == d;
                assert(sorted@.to_set().contains(sorted@[k]));
                assert(f(sorted@[k]) == d);
            }
            if sorted@.to_set().map(f).contains(d) {
                let x = choose|x: u16| sorted@.to_set().contains(x) && f(x) == d;
                let k = choose|k: int| 0 <= k < sorted@.len() && sorted@[k] == x;
                assert(out@[k] == d);
            }
        }
        assert(out@.to_set() =~= sorted@.to_set().map(f));
    }
    Ok(out)
}

} // verus!
