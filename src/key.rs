//! Index keys: a record id written as sixteen big-endian bytes, so that the
//! byte order of keys is the numeric order of ids.
use vstd::arithmetic::div_mod::{lemma_breakdown, lemma_fundamental_div_mod_converse, lemma_small_mod};
use vstd::prelude::*;

verus! {

/// Length in bytes of an index key.
pub const KEY_LEN: usize = 16;

/// `256` to the power `n`.
pub open spec fn pow256(n: nat) -> nat
    decreases n,
{
    if n == 0 {
        1
    } else {
        256 * pow256((n - 1) as nat)
    }
}

/// The number that the bytes `k` spell in big-endian order.
pub open spec fn key_value(k: Seq<u8>) -> nat
    decreases k.len(),
{
    if k.len() == 0 {
        0
    } else {
        key_value(k.drop_last()) * 256 + k.last() as nat
    }
}

/// The last `n` bytes of `x` in big-endian order.
pub open spec fn low_bytes_of(x: nat, n: nat) -> Seq<u8>
    decreases n,
{
    if n == 0 {
        seq![]
    } else {
        low_bytes_of(x / 256, (n - 1) as nat).push((x % 256) as u8)
    }
}

/// The index key of the record with id `id`.
pub open spec fn id_key(id: u128) -> Seq<u8> {
    low_bytes_of(id as nat, KEY_LEN as nat)
}

/// Lexicographic order on byte strings, as `[u8]` and the index order them.
pub open spec fn bytes_lt(a: Seq<u8>, b: Seq<u8>) -> bool {
    ||| exists|i: int|
        0 <= i < a.len() && i < b.len() && a.subrange(0, i) == b.subrange(0, i) && a[i] < b[i]
    ||| (a.len() < b.len() && a == b.subrange(0, a.len() as int))
}

pub proof fn lemma_pow256_positive(n: nat)
    ensures
        pow256(n) > 0,
    decreases n,
{
    if n > 0 {
        lemma_pow256_positive((n - 1) as nat);
    }
}

pub proof fn lemma_key_value_bound(k: Seq<u8>)
    ensures
        key_value(k) < pow256(k.len()),
    decreases k.len(),
{
    if k.len() > 0 {
        let d = k.drop_last();
        lemma_key_value_bound(d);
        let v = key_value(d);
        let p = pow256(d.len());
        assert(v * 256 + (k.last() as nat) < 256 * p) by (nonlinear_arith)
            requires
                v < p,
                k.last() < 256,
        ;
    }
}

/// Keys of one length compare as bytes the way their values compare as
/// numbers.
pub proof fn lemma_key_order(a: Seq<u8>, b: Seq<u8>)
    requires
        a.len() == b.len(),
        bytes_lt(a, b),
    ensures
        key_value(a) < key_value(b),
{
    let i = choose|i: int|
        0 <= i < a.len() && i < b.len() && a.subrange(0, i) == b.subrange(0, i) && a[i] < b[i];
    lemma_key_order_at(a, b, i);
}

proof fn lemma_key_order_at(a: Seq<u8>, b: Seq<u8>, i: int)
    requires
        a.len() == b.len(),
        0 <= i < a.len(),
        a.subrange(0, i) == b.subrange(0, i),
        a[i] < b[i],
    ensures
        key_value(a) < key_value(b),
    decreases a.len(),
{
    let da = a.drop_last();
    let db = b.drop_last();
    if i == a.len() - 1 {
        assert(da == a.subrange(0, i));
        assert(db == b.subrange(0, i));
    } else {
        assert(da.subrange(0, i) == a.subrange(0, i));
        assert(db.subrange(0, i) == b.subrange(0, i));
        lemma_key_order_at(da, db, i);
        let va = key_value(da);
        let vb = key_value(db);
        let la = a.last() as nat;
        let lb = b.last() as nat;
        assert(va * 256 + la < vb * 256 + lb) by (nonlinear_arith)
            requires
                va < vb,
                la < 256,
        ;
    }
}

pub proof fn lemma_low_bytes_value(x: nat, n: nat)
    ensures
        low_bytes_of(x, n).len() == n,
        key_value(low_bytes_of(x, n)) == x % pow256(n),
    decreases n,
{
    if n > 0 {
        let p = pow256((n - 1) as nat);
        lemma_low_bytes_value(x / 256, (n - 1) as nat);
        lemma_pow256_positive((n - 1) as nat);
        lemma_breakdown(x as int, 256, p as int);
        let s = low_bytes_of(x, n);
        assert(s.drop_last() == low_bytes_of(x / 256, (n - 1) as nat));
    }
}

/// A key holds its id: reading back the key of `id` gives `id`.
pub proof fn lemma_id_key_value(id: u128)
    ensures
        id_key(id).len() == KEY_LEN,
        key_value(id_key(id)) == id,
{
    lemma_low_bytes_value(id as nat, KEY_LEN as nat);
    reveal_with_fuel(pow256, 17);
    assert(pow256(16) == 0x1_0000_0000_0000_0000_0000_0000_0000_0000);
    lemma_small_mod(id as nat, pow256(16));
}

/// A key is the big-endian spelling of its own value.
pub proof fn lemma_bytes_of_value(k: Seq<u8>)
    ensures
        low_bytes_of(key_value(k), k.len()) == k,
    decreases k.len(),
{
    if k.len() > 0 {
        let d = k.drop_last();
        lemma_bytes_of_value(d);
        let x = key_value(k);
        lemma_fundamental_div_mod_converse(x as int, 256, key_value(d) as int, k.last() as int);
        assert(low_bytes_of(x, k.len()) == d.push(k.last()));
        assert(d.push(k.last()) == k);
    }
}

/// A key of sixteen bytes is the key of the id it spells.
pub proof fn lemma_key_of_value(k: Seq<u8>)
    requires
        k.len() == KEY_LEN,
    ensures
        key_value(k) <= u128::MAX,
        id_key(key_value(k) as u128) == k,
{
    lemma_key_value_bound(k);
    reveal_with_fuel(pow256, 17);
    assert(pow256(16) == 0x1_0000_0000_0000_0000_0000_0000_0000_0000);
    lemma_bytes_of_value(k);
}

/// Keys of one length compare as numbers the way they compare as bytes.
pub proof fn lemma_value_order(a: Seq<u8>, b: Seq<u8>)
    requires
        a.len() == b.len(),
        key_value(a) < key_value(b),
    ensures
        bytes_lt(a, b),
    decreases a.len(),
{
    let n = a.len() as int;
    let da = a.drop_last();
    let db = b.drop_last();
    let va = key_value(da);
    let vb = key_value(db);
    let la = a.last() as nat;
    let lb = b.last() as nat;
    if va < vb {
        lemma_value_order(da, db);
        let i = choose|i: int|
            0 <= i < da.len() && i < db.len() && da.subrange(0, i) == db.subrange(0, i) && da[i]
                < db[i];
        assert(a.subrange(0, i) == da.subrange(0, i));
        assert(b.subrange(0, i) == db.subrange(0, i));
        assert(a[i] == da[i] && b[i] == db[i]);
    } else if va == vb {
        lemma_bytes_of_value(da);
        lemma_bytes_of_value(db);
        assert(a.subrange(0, n - 1) == da);
        assert(b.subrange(0, n - 1) == db);
        assert(a[n - 1] < b[n - 1]);
    } else {
        assert(va * 256 + la >= vb * 256 + lb) by (nonlinear_arith)
            requires
                va > vb,
                lb < 256,
        ;
    }
}

/// The last `n` bytes of `x` in big-endian order.
fn low_bytes(x: u128, n: usize) -> (r: Vec<u8>)
    requires
        n <= KEY_LEN,
    ensures
        r@ == low_bytes_of(x as nat, n as nat),
    decreases n,
{
    if n == 0 {
        Vec::new()
    } else {
        let mut v = low_bytes(x / 256, n - 1);
        v.push((x % 256) as u8);
        v
    }
}

/// The index key of the record with id `id`.
pub fn id_to_key(id: u128) -> (r: Vec<u8>)
    ensures
        r@ == id_key(id),
        r@.len() == KEY_LEN,
        key_value(r@) == id,
{
    proof {
        lemma_id_key_value(id);
    }
    low_bytes(id, KEY_LEN)
}

/// The record id that an index key stands for.
pub fn key_to_id(k: &[u8]) -> (r: u128)
    requires
        k@.len() == KEY_LEN,
    ensures
        r == key_value(k@),
{
    let mut acc: u128 = 0;
    let mut i: usize = 0;
    while i < KEY_LEN
        invariant
            i <= KEY_LEN,
            k@.len() == KEY_LEN,
            acc == key_value(k@.subrange(0, i as int)),
        decreases KEY_LEN - i,
    {
        proof {
            let s = k@.subrange(0, i + 1);
            assert(s.drop_last() == k@.subrange(0, i as int));
            lemma_key_value_bound(k@.subrange(0, i as int));
            lemma_pow256_monotonic(i as nat, 15);
            reveal_with_fuel(pow256, 17);
            assert(pow256(15) == 0x1_00_0000_0000_0000_0000_0000_0000_0000);
        }
        acc = acc * 256 + k[i] as u128;
        i = i + 1;
    }
    assert(k@.subrange(0, KEY_LEN as int) == k@);
    acc
}

proof fn lemma_pow256_monotonic(a: nat, b: nat)
    requires
        a <= b,
    ensures
        pow256(a) <= pow256(b),
    decreases b,
{
    if a < b {
        lemma_pow256_monotonic(a, (b - 1) as nat);
    }
}

} // verus!
