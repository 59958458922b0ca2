//! Byte layouts of keys and values: big-endian integers, account keys,
//! screen-name keys, and the day ids that stand for observation dates.
use crate::error::Error;
use vstd::prelude::*;
use vstd::string::*;
use vstd::utf8::*;

verus! {

/// `256` to the power `n`.
pub open spec fn pow256(n: nat) -> nat
    decreases n,
{
    if n == 0 {
        1
    } else {
        256 * pow256((n - 1) as nat)
    }
}

/// The unsigned number that a big-endian byte string spells.
pub open spec fn be_value(s: Seq<u8>) -> nat
    decreases s.len(),
{
    if s.len() == 0 {
        0
    } else {
        be_value(s.drop_last()) * 256 + s.last() as nat
    }
}

/// The `n` low-order bytes of `v`, most significant first.
pub open spec fn be_bytes(v: nat, n: nat) -> Seq<u8>
    decreases n,
{
    if n == 0 {
        Seq::empty()
    } else {
        be_bytes(v / 256, (n - 1) as nat).push((v % 256) as u8)
    }
}

pub proof fn lemma_pow256_positive(n: nat)
    ensures
        pow256(n) >= 1,
    decreases n,
{
    if n > 0 {
        lemma_pow256_positive((n - 1) as nat);
    }
}

pub proof fn lemma_be_bytes_len(v: nat, n: nat)
    ensures
        be_bytes(v, n).len() == n,
    decreases n,
{
    if n > 0 {
        lemma_be_bytes_len(v / 256, (n - 1) as nat);
    }
}

pub proof fn lemma_be_value_bound(s: Seq<u8>)
    ensures
        be_value(s) < pow256(s.len()),
    decreases s.len(),
{
    if s.len() > 0 {
        let t = s.drop_last();
        lemma_be_value_bound(t);
        assert(be_value(t) + 1 <= pow256(t.len()));
        assert((be_value(t) + 1) * 256 <= pow256(t.len()) * 256) by (nonlinear_arith)
            requires
                be_value(t) + 1 <= pow256(t.len()),
        ;
    }
}

/// Reading back `n` bytes written from `v` gives `v`, when `v` fits in them.
pub proof fn lemma_be_round_trip(v: nat, n: nat)
    requires
        v < pow256(n),
    ensures
        be_value(be_bytes(v, n)) == v,
    decreases n,
{
    if n > 0 {
        let q = v / 256;
        assert(q < pow256((n - 1) as nat)) by (nonlinear_arith)
            requires
                v < 256 * pow256((n - 1) as nat),
                q == v / 256,
        ;
        lemma_be_round_trip(q, (n - 1) as nat);
        let s = be_bytes(v, n);
        assert(s.drop_last() == be_bytes(q, (n - 1) as nat));
        assert(q * 256 + v % 256 == v) by (nonlinear_arith)
            requires
                q == v / 256,
        ;
    }
}

/// Two equal-width byte strings with the same value are equal.
pub proof fn lemma_be_value_injective(a: Seq<u8>, b: Seq<u8>)
    requires
        a.len() == b.len(),
        be_value(a) == be_value(b),
    ensures
        a == b,
    decreases a.len(),
{
    if a.len() > 0 {
        let ta = a.drop_last();
        let tb = b.drop_last();
        let va = be_value(ta);
        let vb = be_value(tb);
        let la = a.last() as nat;
        let lb = b.last() as nat;
        assert(va * 256 + la == vb * 256 + lb);
        assert(la == lb && va == vb) by (nonlinear_arith)
            requires
                va * 256 + la == vb * 256 + lb,
                la < 256,
                lb < 256,
        ;
        lemma_be_value_injective(ta, tb);
        assert(a == ta.push(a.last()));
        assert(b == tb.push(b.last()));
    }
}

/// Writes the `n` low-order bytes of `v`, most significant first.
pub fn be_encode(v: u64, n: usize) -> (r: Vec<u8>)
    requires
        n <= 8,
    ensures
        r@ == be_bytes(v as nat, n as nat),
    decreases n,
{
    if n == 0 {
        Vec::new()
    } else {
        let mut r = be_encode(v / 256, n - 1);
        r.push((v % 256) as u8);
        r
    }
}

/// Reads `n` bytes from `start` as a big-endian number.
pub fn be_decode(s: &[u8], start: usize, n: usize) -> (r: u64)
    requires
        n <= 8,
        start + n <= s@.len(),
    ensures
        r as nat == be_value(s@.subrange(start as int, start + n)),
{
    let len = s.len();
    let mut acc: u64 = 0;
    let mut i: usize = 0;
    while i < n
        invariant
            len == s@.len(),
            i <= n,
            n <= 8,
            start + n <= s@.len(),
            acc as nat == be_value(s@.subrange(start as int, start + i)),
        decreases n - i,
    {
        let ghost prev = s@.subrange(start as int, start + i);
        let ghost next = s@.subrange(start as int, start + i + 1);
        proof {
            assert(next.drop_last() == prev);
            lemma_be_value_bound(prev);
            assert(pow256(i as nat) <= pow256(7)) by {
                lemma_pow256_monotone(i as nat, 7);
            }
            assert(pow256(7) == 0x100000000000000) by {
                reveal_with_fuel(pow256, 8);
            }
            assert(acc as nat * 256 + 255 <= 0xffffffffffffffff) by (nonlinear_arith)
                requires
                    acc < 0x100000000000000,
            ;
        }
        acc = acc * 256 + s[start + i] as u64;
        i = i + 1;
    }
    acc
}

pub proof fn lemma_pow256_monotone(a: nat, b: nat)
    requires
        a <= b,
    ensures
        pow256(a) <= pow256(b),
    decreases b,
{
    if a < b {
        lemma_pow256_monotone(a, (b - 1) as nat);
        lemma_pow256_positive((b - 1) as nat);
    }
}

/// Copies a byte slice into a vector of its own.
pub fn copy_bytes(s: &[u8]) -> (r: Vec<u8>)
    ensures
        r@ == s@,
{
    let mut r: Vec<u8> = Vec::new();
    let mut i: usize = 0;
    while i < s.len()
        invariant
            i <= s@.len(),
            r@ == s@.take(i as int),
        decreases s@.len() - i,
    {
        r.push(s[i]);
        i = i + 1;
        assert(r@ == s@.take(i as int));
    }
    assert(s@.take(s@.len() as int) == s@);
    r
}

// ---------------------------------------------------------------------------
// Values: sequences of fixed-width big-endian elements.

/// The day ids held in a primary-table value, two bytes each.
pub open spec fn day_ids_of(v: Seq<u8>) -> Seq<u16> {
    Seq::new(v.len() / 2, |i: int| be_value(v.subrange(2 * i, 2 * i + 2)) as u16)
}

/// The value that holds the given day ids, in order.
pub open spec fn encode_day_ids(xs: Seq<u16>) -> Seq<u8>
    decreases xs.len(),
{
    if xs.len() == 0 {
        Seq::empty()
    } else {
        encode_day_ids(xs.drop_last()) + be_bytes(xs.last() as nat, 2)
    }
}

/// The account ids held in an index value, eight bytes each.
pub open spec fn ids_of(v: Seq<u8>) -> Seq<u64> {
    Seq::new(v.len() / 8, |i: int| be_value(v.subrange(8 * i, 8 * i + 8)) as u64)
}

/// The value that holds the given account ids, in order.
pub open spec fn encode_ids(xs: Seq<u64>) -> Seq<u8>
    decreases xs.len(),
{
    if xs.len() == 0 {
        Seq::empty()
    } else {
        encode_ids(xs.drop_last()) + be_bytes(xs.last() as nat, 8)
    }
}

pub proof fn lemma_day_ids_round_trip(xs: Seq<u16>)
    ensures
        encode_day_ids(xs).len() == 2 * xs.len(),
        day_ids_of(encode_day_ids(xs)) == xs,
    decreases xs.len(),
{
    if xs.len() > 0 {
        let init = xs.drop_last();
        lemma_day_ids_round_trip(init);
        let e = encode_day_ids(init);
        let b = be_bytes(xs.last() as nat, 2);
        lemma_be_bytes_len(xs.last() as nat, 2);
        assert(pow256(2) == 65536) by {
            reveal_with_fuel(pow256, 3);
        }
        lemma_be_round_trip(xs.last() as nat, 2);
        let v = e + b;
        assert forall|i: int| 0 <= i < xs.len() implies day_ids_of(v)[i] == xs[i] by {
            assert(v.len() == 2 * xs.len());
            if i < init.len() {
                assert(v.subrange(2 * i, 2 * i + 2) == e.subrange(2 * i, 2 * i + 2));
                assert(day_ids_of(e)[i] == init[i]);
                assert(init[i] == xs[i]);
            } else {
                assert(v.subrange(2 * i, 2 * i + 2) == b);
                assert(xs[i] == xs.last());
            }
        }
        assert(day_ids_of(v) == xs);
    }
}

pub proof fn lemma_ids_round_trip(xs: Seq<u64>)
    ensures
        encode_ids(xs).len() == 8 * xs.len(),
        ids_of(encode_ids(xs)) == xs,
    decreases xs.len(),
{
    if xs.len() > 0 {
        let init = xs.drop_last();
        lemma_ids_round_trip(init);
        let e = encode_ids(init);
        let b = be_bytes(xs.last() as nat, 8);
        lemma_be_bytes_len(xs.last() as nat, 8);
        assert(pow256(8) == 0x10000000000000000) by {
            reveal_with_fuel(pow256, 9);
        }
        lemma_be_round_trip(xs.last() as nat, 8);
        let v = e + b;
        assert forall|i: int| 0 <= i < xs.len() implies ids_of(v)[i] == xs[i] by {
            assert(v.len() == 8 * xs.len());
            if i < init.len() {
                assert(v.subrange(8 * i, 8 * i + 8) == e.subrange(8 * i, 8 * i + 8));
                assert(ids_of(e)[i] == init[i]);
                assert(init[i] == xs[i]);
            } else {
                assert(v.subrange(8 * i, 8 * i + 8) == b);
                assert(xs[i] == xs.last());
            }
        }
        assert(ids_of(v) == xs);
    }
}

/// Decodes a primary-table value into its day ids, in stored order.
pub fn value_to_day_ids(value: &[u8]) -> (r: Result<Vec<u16>, Error>)
    ensures
        value@.len() % 2 == 0 ==> r is Ok && r->Ok_0@ == day_ids_of(value@),
        value@.len() % 2 != 0 ==> (r matches Err(Error::InvalidValue(v)) && v@ == value@),
{
    let len = value.len();
    if len % 2 != 0 {
        return Err(Error::InvalidValue(copy_bytes(value)));
    }
    let count = len / 2;
    let mut r: Vec<u16> = Vec::with_capacity(count);
    let mut i: usize = 0;
    while i < count
        invariant
            len == value@.len(),
            count == len / 2,
            len % 2 == 0,
            i <= count,
            r@ == day_ids_of(value@).take(i as int),
        decreases count - i,
    {
        let x = be_decode(value, 2 * i, 2);
        proof {
            lemma_be_value_bound(value@.subrange(2 * i as int, 2 * i + 2));
            assert(pow256(2) == 65536) by {
                reveal_with_fuel(pow256, 3);
            }
        }
        r.push(x as u16);
        i = i + 1;
        assert(r@ == day_ids_of(value@).take(i as int));
    }
    assert(day_ids_of(value@).take(count as int) == day_ids_of(value@));
    Ok(r)
}

/// Encodes day ids as a primary-table value.
pub fn day_ids_to_value(ids: &[u16]) -> (r: Vec<u8>)
    ensures
        r@ == encode_day_ids(ids@),
{
    let mut r: Vec<u8> = Vec::new();
    let mut i: usize = 0;
    while i < ids.len()
        invariant
            i <= ids@.len(),
            r@ == encode_day_ids(ids@.take(i as int)),
        decreases ids@.len() - i,
    {
        let b = be_encode(ids[i] as u64, 2);
        let mut j: usize = 0;
        let ghost start = r@;
        while j < b.len()
            invariant
                j <= b@.len(),
                r@ == start + b@.take(j as int),
            decreases b@.len() - j,
        {
            r.push(b[j]);
            j = j + 1;
            assert(r@ == start + b@.take(j as int));
        }
        assert(b@.take(b@.len() as int) == b@);
        assert(ids@.take(i + 1).drop_last() == ids@.take(i as int));
        i = i + 1;
    }
    assert(ids@.take(ids@.len() as int) == ids@);
    r
}

/// Decodes an index value into its account ids, in stored order.
pub fn value_to_ids(value: &[u8]) -> (r: Result<Vec<u64>, Error>)
    ensures
        value@.len() % 8 == 0 ==> r is Ok && r->Ok_0@ == ids_of(value@),
        value@.len() % 8 != 0 ==> (r matches Err(Error::InvalidValue(v)) && v@ == value@),
{
    let len = value.len();
    if len % 8 != 0 {
        return Err(Error::InvalidValue(copy_bytes(value)));
    }
    let count = len / 8;
    let mut r: Vec<u64> = Vec::with_capacity(count);
    let mut i: usize = 0;
    while i < count
        invariant
            len == value@.len(),
            count == len / 8,
            len % 8 == 0,
            i <= count,
            r@ == ids_of(value@).take(i as int),
        decreases count - i,
    {
        let x = be_decode(value, 8 * i, 8);
        r.push(x);
        i = i + 1;
        assert(r@ == ids_of(value@).take(i as int));
    }
    assert(ids_of(value@).take(count as int) == ids_of(value@));
    Ok(r)
}

/// Encodes account ids as an index value.
pub fn ids_to_value(ids: &[u64]) -> (r: Vec<u8>)
    ensures
        r@ == encode_ids(ids@),
{
    let mut r: Vec<u8> = Vec::new();
    let mut i: usize = 0;
    while i < ids.len()
        invariant
            i <= ids@.len(),
            r@ == encode_ids(ids@.take(i as int)),
        decreases ids@.len() - i,
    {
        let b = be_encode(ids[i], 8);
        let mut j: usize = 0;
        let ghost start = r@;
        while j < b.len()
            invariant
                j <= b@.len(),
                r@ == start + b@.take(j as int),
            decreases b@.len() - j,
        {
            r.push(b[j]);
            j = j + 1;
            assert(r@ == start + b@.take(j as int));
        }
        assert(b@.take(b@.len() as int) == b@);
        assert(ids@.take(i + 1).drop_last() == ids@.take(i as int));
        i = i + 1;
    }
    assert(ids@.take(ids@.len() as int) == ids@);
    r
}

// ---------------------------------------------------------------------------
// Keys.

/// The eight-byte prefix that every primary key of an account starts with.
pub open spec fn id_prefix(id: u64) -> Seq<u8> {
    be_bytes(id as nat, 8)
}

/// The primary key of an (account id, screen name) pair: the id's prefix,
/// then the screen name's UTF-8 bytes, case preserved.
pub open spec fn pair_key(id: u64, name: Seq<char>) -> Seq<u8> {
    id_prefix(id) + encode_utf8(name)
}

/// The (account id, screen name) pair that a primary key stands for, if any.
pub open spec fn key_pair(key: Seq<u8>) -> Option<(u64, Seq<char>)> {
    if key.len() >= 8 && valid_utf8(key.skip(8)) {
        Some((be_value(key.take(8)) as u64, decode_utf8(key.skip(8))))
    } else {
        None
    }
}

/// The key of a screen name in the index: its lower-case form's UTF-8 bytes.
pub open spec fn screen_name_key(name: Seq<char>) -> Seq<u8> {
    encode_utf8(lowercase_of(name))
}

/// The lower-case form of a string, as `str::to_lowercase` computes it.
pub uninterp spec fn lowercase_of(s: Seq<char>) -> Seq<char>;

/// Relies on `str::to_lowercase`: its result depends on the characters alone.
#[verifier::external_body]
fn to_lowercase(s: &str) -> (r: String)
    ensures
        r@ == lowercase_of(s@),
{
    s.to_lowercase()
}

/// Relies on `std::str::from_utf8`: it accepts exactly the valid UTF-8 byte
/// strings and decodes them.
#[verifier::external_body]
fn utf8_decode(bytes: &[u8]) -> (r: Option<String>)
    ensures
        r is Some <==> valid_utf8(bytes@),
        r matches Some(s) ==> s@ == decode_utf8(bytes@),
{
    std::str::from_utf8(bytes).ok().map(|s| s.to_string())
}

pub proof fn lemma_id_prefix_len(id: u64)
    ensures
        id_prefix(id).len() == 8,
        be_value(id_prefix(id)) == id as nat,
{
    lemma_be_bytes_len(id as nat, 8);
    assert(pow256(8) == 0x10000000000000000) by {
        reveal_with_fuel(pow256, 9);
    }
    lemma_be_round_trip(id as nat, 8);
}

/// A primary key decodes to the pair it was made from.
pub proof fn lemma_key_pair_of_pair_key(id: u64, name: Seq<char>)
    ensures
        key_pair(pair_key(id, name)) == Some((id, name)),
{
    let k = pair_key(id, name);
    lemma_id_prefix_len(id);
    assert(k.take(8) == id_prefix(id));
    assert(k.skip(8) == encode_utf8(name));
    encode_utf8_valid_utf8(name);
    encode_utf8_decode_utf8(name);
}

/// Two primary keys are equal exactly when their pairs are.
pub proof fn lemma_pair_key_injective(id1: u64, n1: Seq<char>, id2: u64, n2: Seq<char>)
    ensures
        pair_key(id1, n1) == pair_key(id2, n2) <==> (id1 == id2 && n1 == n2),
{
    if pair_key(id1, n1) == pair_key(id2, n2) {
        lemma_key_pair_of_pair_key(id1, n1);
        lemma_key_pair_of_pair_key(id2, n2);
    }
}

/// The eight-byte key prefix of an account id.
pub fn id_to_key_prefix(id: u64) -> (r: Vec<u8>)
    ensures
        r@ == id_prefix(id),
{
    be_encode(id, 8)
}

/// Reads the account id from the first eight bytes of a primary key.
pub fn key_prefix_to_id(key: &[u8]) -> (r: Result<u64, Error>)
    ensures
        key@.len() >= 8 ==> r == Ok::<u64, Error>(be_value(key@.take(8)) as u64),
        key@.len() < 8 ==> (r matches Err(Error::InvalidKey(v)) && v@ == key@),
{
    if key.len() < 8 {
        Err(Error::InvalidKey(copy_bytes(key)))
    } else {
        let id = be_decode(key, 0, 8);
        assert(key@.subrange(0, 8) == key@.take(8));
        Ok(id)
    }
}

/// The primary key of an (account id, screen name) pair.
pub fn pair_to_key(id: u64, screen_name: &str) -> (r: Vec<u8>)
    ensures
        r@ == pair_key(id, screen_name@),
{
    let mut r = id_to_key_prefix(id);
    let bytes = screen_name.as_bytes();
    let ghost start = r@;
    let mut i: usize = 0;
    while i < bytes.len()
        invariant
            i <= bytes@.len(),
            bytes@ == encode_utf8(screen_name@),
            start == id_prefix(id),
            r@ == start + bytes@.take(i as int),
        decreases bytes@.len() - i,
    {
        r.push(bytes[i]);
        i = i + 1;
        assert(r@ == start + bytes@.take(i as int));
    }
    assert(bytes@.take(bytes@.len() as int) == bytes@);
    r
}

/// Splits a primary key into its account id and screen name.
pub fn key_to_pair(key: &[u8]) -> (r: Result<(u64, String), Error>)
    ensures
        key@.len() < 8 ==> (r matches Err(Error::InvalidKey(v)) && v@ == key@),
        key@.len() >= 8 && !valid_utf8(key@.skip(8)) ==> (r matches Err(Error::InvalidString(v))
            && v@ == key@.skip(8)),
        key_pair(key@) matches Some(p) ==> (r matches Ok(q) && q.0 == p.0 && q.1@ == p.1),
{
    let id = key_prefix_to_id(key)?;
    let len = key.len();
    let mut rest: Vec<u8> = Vec::new();
    let mut i: usize = 8;
    while i < len
        invariant
            len == key@.len(),
            8 <= i <= len,
            rest@ == key@.subrange(8, i as int),
        decreases len - i,
    {
        rest.push(key[i]);
        i = i + 1;
        assert(rest@ == key@.subrange(8, i as int));
    }
    assert(rest@ == key@.skip(8));
    match utf8_decode(rest.as_slice()) {
        Some(screen_name) => Ok((id, screen_name)),
        None => Err(Error::InvalidString(rest)),
    }
}

/// The index key of a screen name: its lower-case form's UTF-8 bytes.
pub fn screen_name_to_key(screen_name: &str) -> (r: Vec<u8>)
    ensures
        r@ == screen_name_key(screen_name@),
{
    let form = to_lowercase(screen_name);
    let bytes = form.as_str().as_bytes();
    copy_bytes(bytes)
}

/// Reads an index key back as a screen name.
pub fn key_to_screen_name(key: &[u8]) -> (r: Result<String, Error>)
    ensures
        valid_utf8(key@) ==> (r matches Ok(s) && s@ == decode_utf8(key@)),
        !valid_utf8(key@) ==> (r matches Err(Error::InvalidString(v)) && v@ == key@),
{
    match utf8_decode(key) {
        Some(s) => Ok(s),
        None => Err(Error::InvalidString(copy_bytes(key))),
    }
}

/// A character that a screen name may hold: an ASCII letter or digit, or `_`.
pub open spec fn is_screen_name_char(c: char) -> bool {
    ('0' <= c && c <= '9') || ('a' <= c && c <= 'z') || ('A' <= c && c <= 'Z') || c == '_'
}

/// A screen name whose every character is an ASCII letter or digit, or `_`.
pub open spec fn valid_screen_name(s: Seq<char>) -> bool {
    forall|i: int| 0 <= i < s.len() ==> is_screen_name_char(#[trigger] s[i])
}

/// Whether every character of `value` is an ASCII letter or digit, or `_`.
pub fn is_valid_screen_name(value: &str) -> (r: bool)
    ensures
        r == valid_screen_name(value@),
{
    let n = value.unicode_len();
    let mut i: usize = 0;
    while i < n
        invariant
            n == value@.len(),
            i <= n,
            forall|j: int| 0 <= j < i ==> is_screen_name_char(#[trigger] value@[j]),
        decreases n - i,
    {
        let c = value.get_char(i);
        let ok = ('0' <= c && c <= '9') || ('a' <= c && c <= 'z') || ('A' <= c && c <= 'Z')
            || c == '_';
        if !ok {
            return false;
        }
        i = i + 1;
    }
    true
}

} // verus!
