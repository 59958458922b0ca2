//! The merge operators of the two tables: a write appends to a value the
//! elements it does not hold yet, so that writes combine without reading.
use crate::codec::{
    day_ids_of, day_ids_to_value, encode_day_ids, encode_ids, ids_of, ids_to_value, value_to_day_ids,
    value_to_ids,
};
use vstd::prelude::*;

verus! {

/// The elements of `acc`, followed by each element of `add` in turn that
/// the accumulated sequence does not hold yet.
pub open spec fn union_append<A>(acc: Seq<A>, add: Seq<A>) -> Seq<A>
    decreases add.len(),
{
    if add.len() == 0 {
        acc
    } else {
        let prev = union_append(acc, add.drop_last());
        if prev.contains(add.last()) {
            prev
        } else {
            prev.push(add.last())
        }
    }
}

/// The primary-table value after merging `operand` into `existing`.
pub open spec fn merged_day_ids_value(existing: Seq<u8>, operand: Seq<u8>) -> Seq<u8> {
    if existing.len() % 2 == 0 && operand.len() % 2 == 0 {
        encode_day_ids(union_append(day_ids_of(existing), day_ids_of(operand)))
    } else {
        existing
    }
}

/// The index value after merging `operand` into `existing`.
pub open spec fn merged_ids_value(existing: Seq<u8>, operand: Seq<u8>) -> Seq<u8> {
    if existing.len() % 8 == 0 && operand.len() % 8 == 0 {
        encode_ids(union_append(ids_of(existing), ids_of(operand)))
    } else {
        existing
    }
}

/// A union keeps what was there first, in place.
pub proof fn lemma_union_append_prefix<A>(acc: Seq<A>, add: Seq<A>)
    ensures
        union_append(acc, add).len() >= acc.len(),
        union_append(acc, add).take(acc.len() as int) == acc,
    decreases add.len(),
{
    if add.len() > 0 {
        lemma_union_append_prefix(acc, add.drop_last());
        let prev = union_append(acc, add.drop_last());
        assert(prev.push(add.last()).take(acc.len() as int) == prev.take(acc.len() as int));
    }
}

/// A union holds exactly the elements of both sequences, and holds each once
/// when the first sequence did.
pub proof fn lemma_union_append_set<A>(acc: Seq<A>, add: Seq<A>)
    ensures
        union_append(acc, add).to_set() == acc.to_set().union(add.to_set()),
        acc.no_duplicates() ==> union_append(acc, add).no_duplicates(),
    decreases add.len(),
{
    if add.len() == 0 {
        assert(add.to_set() == Set::<A>::empty());
        assert(acc.to_set().union(add.to_set()) == acc.to_set());
    } else {
        let init = add.drop_last();
        let x = add.last();
        lemma_union_append_set(acc, init);
        let prev = union_append(acc, init);
        assert(add == init.push(x));
        assert(add.to_set() == init.to_set().insert(x)) by {
            init.lemma_push_to_set_commute(x);
        }
        if prev.contains(x) {
            assert(prev.to_set().contains(x));
            assert(union_append(acc, add).to_set() == acc.to_set().union(add.to_set()));
        } else {
            prev.lemma_push_to_set_commute(x);
            assert(union_append(acc, add).to_set() == acc.to_set().union(add.to_set()));
            if acc.no_duplicates() {
                let r = prev.push(x);
                assert forall|i: int, j: int|
                    0 <= i < r.len() && 0 <= j < r.len() && i != j implies r[i] != r[j] by {
                    if i == prev.len() as int {
                        assert(r[j] == prev[j]);
                        if prev[j] == x {
                            assert(prev.contains(x));
                        }
                    } else if j == prev.len() as int {
                        assert(r[i] == prev[i]);
                        if prev[i] == x {
                            assert(prev.contains(x));
                        }
                    } else {
                        assert(r[i] == prev[i] && r[j] == prev[j]);
                    }
                }
            }
        }
    }
}

/// Merging in elements that are all present already changes nothing.
pub proof fn lemma_union_append_present<A>(acc: Seq<A>, add: Seq<A>)
    requires
        forall|i: int| 0 <= i < add.len() ==> acc.contains(#[trigger] add[i]),
    ensures
        union_append(acc, add) == acc,
    decreases add.len(),
{
    if add.len() > 0 {
        let init = add.drop_last();
        assert forall|i: int| 0 <= i < init.len() implies acc.contains(#[trigger] init[i]) by {
            assert(init[i] == add[i]);
        }
        lemma_union_append_present(acc, init);
        assert(acc.contains(add[add.len() - 1]));
    }
}

/// Merging `b` and then `c` is merging `b + c` at once: the engine may group
/// pending operands as it likes.
pub proof fn lemma_union_append_concat<A>(acc: Seq<A>, b: Seq<A>, c: Seq<A>)
    ensures
        union_append(union_append(acc, b), c) == union_append(acc, b + c),
    decreases c.len(),
{
    if c.len() == 0 {
        assert(b + c == b);
    } else {
        lemma_union_append_concat(acc, b, c.drop_last());
        assert((b + c).drop_last() == b + c.drop_last());
        assert((b + c).last() == c.last());
    }
}

/// Merging the same elements twice is merging them once.
pub proof fn lemma_union_append_idempotent<A>(acc: Seq<A>, add: Seq<A>)
    ensures
        union_append(union_append(acc, add), add) == union_append(acc, add),
{
    let u = union_append(acc, add);
    lemma_union_append_set(acc, add);
    assert forall|i: int| 0 <= i < add.len() implies u.contains(#[trigger] add[i]) by {
        assert(add.to_set().contains(add[i]));
        assert(u.to_set().contains(add[i]));
    }
    lemma_union_append_present(u, add);
}

fn contains_u16(v: &Vec<u16>, x: u16) -> (r: bool)
    ensures
        r == v@.contains(x),
{
    let mut j: usize = 0;
    while j < v.len()
        invariant
            j <= v@.len(),
            forall|k: int| 0 <= k < j ==> v@[k] != x,
        decreases v@.len() - j,
    {
        if v[j] == x {
            return true;
        }
        j = j + 1;
    }
    false
}

fn contains_u64(v: &Vec<u64>, x: u64) -> (r: bool)
    ensures
        r == v@.contains(x),
{
    let mut j: usize = 0;
    while j < v.len()
        invariant
            j <= v@.len(),
            forall|k: int| 0 <= k < j ==> v@[k] != x,
        decreases v@.len() - j,
    {
        if v[j] == x {
            return true;
        }
        j = j + 1;
    }
    false
}

/// Appends to `acc` each element of `add` that it does not hold yet.
pub fn union_day_ids(acc: &mut Vec<u16>, add: &Vec<u16>)
    ensures
        final(acc)@ == union_append(old(acc)@, add@),
{
    let ghost start = acc@;
    let mut i: usize = 0;
    while i < add.len()
        invariant
            i <= add@.len(),
            acc@ == union_append(start, add@.take(i as int)),
        decreases add@.len() - i,
    {
        let x = add[i];
        proof {
            assert(add@.take(i + 1).drop_last() == add@.take(i as int));
            assert(add@.take(i + 1).last() == x);
        }
        if !contains_u16(acc, x) {
            acc.push(x);
        }
        i = i + 1;
    }
    assert(add@.take(add@.len() as int) == add@);
}

/// Appends to `acc` each element of `add` that it does not hold yet.
pub fn union_ids(acc: &mut Vec<u64>, add: &Vec<u64>)
    ensures
        final(acc)@ == union_append(old(acc)@, add@),
{
    let ghost start = acc@;
    let mut i: usize = 0;
    while i < add.len()
        invariant
            i <= add@.len(),
            acc@ == union_append(start, add@.take(i as int)),
        decreases add@.len() - i,
    {
        let x = add[i];
        proof {
            assert(add@.take(i + 1).drop_last() == add@.take(i as int));
            assert(add@.take(i + 1).last() == x);
        }
        if !contains_u64(acc, x) {
            acc.push(x);
        }
        i = i + 1;
    }
    assert(add@.take(add@.len() as int) == add@);
}

/// Merges a primary-table operand into a value: the day ids of `b` that `a`
/// does not hold yet are appended to it. A value or operand whose length is
/// not a whole number of day ids leaves `a` as it was.
pub fn merge_for_pair(a: &mut Vec<u8>, b: &[u8])
    ensures
        final(a)@ == merged_day_ids_value(old(a)@, b@),
{
    let existing = match value_to_day_ids(a.as_slice()) {
        Ok(ids) => ids,
        Err(_) => return ,
    };
    let added = match value_to_day_ids(b) {
        Ok(ids) => ids,
        Err(_) => return ,
    };
    let mut acc = existing;
    union_day_ids(&mut acc, &added);
    *a = day_ids_to_value(acc.as_slice());
}

/// Merges an index operand into a value: the account ids of `b` that `a`
/// does not hold yet are appended to it. A value or operand whose length is
/// not a whole number of ids leaves `a` as it was.
pub fn merge_for_screen_name(a: &mut Vec<u8>, b: &[u8])
    ensures
        final(a)@ == merged_ids_value(old(a)@, b@),
{
    let existing = match value_to_ids(a.as_slice()) {
        Ok(ids) => ids,
        Err(_) => return ,
    };
    let added = match value_to_ids(b) {
        Ok(ids) => ids,
        Err(_) => return ,
    };
    let mut acc = existing;
    union_ids(&mut acc, &added);
    *a = ids_to_value(acc.as_slice());
}

} // verus!
