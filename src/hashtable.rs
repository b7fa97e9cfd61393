//! The table: its key trait, the hashing of keys, the chains of records and
//! the map they represent, and the operations with their contracts.
use std::collections::hash_map::DefaultHasher;
use std::hash::Hasher;
use vstd::prelude::*;
use vstd::std_specs::hash::DefaultHasherAdditionalSpecFns;

verus! {

/// The bytes of a `u64` in little-endian order.
pub open spec fn u64_bytes(x: u64) -> Seq<u8> {
    seq![
        x as u8, (x >> 8u64) as u8, (x >> 16u64) as u8, (x >> 24u64) as u8,
        (x >> 32u64) as u8, (x >> 40u64) as u8, (x >> 48u64) as u8, (x >> 56u64) as u8,
    ]
}

/// Hands the eight bytes of `x` to the hasher in one write.
fn write_u64(state: &mut DefaultHasher, x: u64)
    ensures
        final(state)@ == old(state)@.push(u64_bytes(x)),
{
    let bytes: Vec<u8> = vec![
        x as u8, (x >> 8) as u8, (x >> 16) as u8, (x >> 24) as u8,
        (x >> 32) as u8, (x >> 40) as u8, (x >> 48) as u8, (x >> 56) as u8,
    ];
    assert(bytes@ =~= u64_bytes(x));
    state.write(bytes.as_slice());
}

/// A key type that the table can hold: it feeds a deterministic sequence of
/// bytes to the hasher, and tells equal keys by their views.
pub trait TableKey: View + Sized {
    /// The bytes that the key hands to the hasher.
    spec fn key_bytes(k: Self::V) -> Seq<u8>;

    fn write_key(&self, state: &mut DefaultHasher)
        ensures
            final(state)@ == old(state)@.push(Self::key_bytes(self@)),
    ;

    fn same_key(&self, other: &Self) -> (r: bool)
        ensures
            r == (self@ == other@),
    ;
}

impl TableKey for String {
    open spec fn key_bytes(k: Seq<char>) -> Seq<u8> {
        vstd::utf8::encode_utf8(k)
    }

    fn write_key(&self, state: &mut DefaultHasher) {
        state.write(self.as_str().as_bytes());
    }

    fn same_key(&self, other: &Self) -> (r: bool) {
        self.eq(other)
    }
}

impl TableKey for i32 {
    open spec fn key_bytes(k: i32) -> Seq<u8> {
        u64_bytes(k as u64)
    }

    fn write_key(&self, state: &mut DefaultHasher) {
        write_u64(state, *self as u64);
    }

    fn same_key(&self, other: &Self) -> (r: bool) {
        *self == *other
    }
}

impl TableKey for i64 {
    open spec fn key_bytes(k: i64) -> Seq<u8> {
        u64_bytes(k as u64)
    }

    fn write_key(&self, state: &mut DefaultHasher) {
        write_u64(state, *self as u64);
    }

    fn same_key(&self, other: &Self) -> (r: bool) {
        *self == *other
    }
}

impl TableKey for u32 {
    open spec fn key_bytes(k: u32) -> Seq<u8> {
        u64_bytes(k as u64)
    }

    fn write_key(&self, state: &mut DefaultHasher) {
        write_u64(state, *self as u64);
    }

    fn same_key(&self, other: &Self) -> (r: bool) {
        *self == *other
    }
}

impl TableKey for u64 {
    open spec fn key_bytes(k: u64) -> Seq<u8> {
        u64_bytes(k as u64)
    }

    fn write_key(&self, state: &mut DefaultHasher) {
        write_u64(state, *self as u64);
    }

    fn same_key(&self, other: &Self) -> (r: bool) {
        *self == *other
    }
}

impl TableKey for usize {
    open spec fn key_bytes(k: usize) -> Seq<u8> {
        u64_bytes(k as u64)
    }

    fn write_key(&self, state: &mut DefaultHasher) {
        write_u64(state, *self as u64);
    }

    fn same_key(&self, other: &Self) -> (r: bool) {
        *self == *other
    }
}

/// The 64-bit digest of a key: the hasher's output after it was handed the
/// key's bytes, starting from a fresh state.
pub open spec fn key_digest<K: TableKey>(k: K::V) -> u64 {
    DefaultHasher::spec_finish(seq![K::key_bytes(k)])
}

/// The bucket that a key belongs to among `cap` buckets.
pub open spec fn bucket_of<K: TableKey>(k: K::V, cap: int) -> int {
    key_digest::<K>(k) as int % cap
}

struct Entity<K, V> {
    key: K,
    value: V,
}

/// A map from keys to values, held in a growable array of buckets; each
/// bucket is a chain of the records whose keys hash to its index.
pub struct HashTable<K, V> {
    buckets: Vec<Vec<Entity<K, V>>>,
    count: usize,
    capacity: usize,
}

/// Whether a key is held among the chains `c`, read with `cap` buckets.
spec fn has_in<K: TableKey, V>(c: Seq<Seq<Entity<K, V>>>, cap: int, k: K::V) -> bool {
    let i = bucket_of::<K>(k, cap);
    0 <= i < c.len() && exists|j: int| 0 <= j < c[i].len() && (#[trigger] c[i][j]).key@ == k
}

/// The value held for a key among the chains `c`.
spec fn val_in<K: TableKey, V>(c: Seq<Seq<Entity<K, V>>>, cap: int, k: K::V) -> V {
    let i = bucket_of::<K>(k, cap);
    c[i][choose|j: int| 0 <= j < c[i].len() && (#[trigger] c[i][j]).key@ == k].value
}

/// The map that the chains `c` represent.
spec fn map_of<K: TableKey, V>(c: Seq<Seq<Entity<K, V>>>, cap: int) -> Map<K::V, V> {
    Map::new(|k: K::V| has_in(c, cap, k), |k: K::V| val_in(c, cap, k))
}

/// Every record sits in the chain of its key, and no chain holds a key twice.
spec fn layout_ok<K: TableKey, V>(c: Seq<Seq<Entity<K, V>>>, cap: int) -> bool {
    &&& forall|i: int, j: int|
        0 <= i < c.len() && 0 <= j < c[i].len() ==> bucket_of::<K>((#[trigger] c[i][j]).key@, cap) == i
    &&& forall|i: int, j1: int, j2: int|
        0 <= i < c.len() && 0 <= j1 < c[i].len() && 0 <= j2 < c[i].len() && j1 != j2
            ==> (#[trigger] c[i][j1]).key@ != (#[trigger] c[i][j2]).key@
}

/// A record at a known position is what the map holds for its key.
proof fn lemma_val<K: TableKey, V>(c: Seq<Seq<Entity<K, V>>>, cap: int, i: int, j: int)
    requires
        layout_ok(c, cap),
        0 <= i < c.len(),
        0 <= j < c[i].len(),
    ensures
        map_of(c, cap).contains_key(c[i][j].key@),
        map_of(c, cap)[c[i][j].key@] == c[i][j].value,
{
    let k = c[i][j].key@;
    assert(has_in(c, cap, k));
    let jj = choose|jj: int| 0 <= jj < c[i].len() && (#[trigger] c[i][jj]).key@ == k;
    assert(jj == j);
}

/// Appending a record whose key is absent to the chain of that key.
proof fn lemma_push<K: TableKey, V>(c: Seq<Seq<Entity<K, V>>>, cap: int, i: int, e: Entity<K, V>)
    requires
        layout_ok(c, cap),
        0 <= i < c.len(),
        bucket_of::<K>(e.key@, cap) == i,
        !map_of(c, cap).contains_key(e.key@),
    ensures
        layout_ok(c.update(i, c[i].push(e)), cap),
        map_of(c.update(i, c[i].push(e)), cap) == map_of(c, cap).insert(e.key@, e.value),
{
    let c2 = c.update(i, c[i].push(e));
    let m = map_of(c, cap);
    let m2 = map_of(c2, cap);
    assert forall|a: int, j: int| 0 <= a < c2.len() && 0 <= j < c2[a].len() implies
        bucket_of::<K>((#[trigger] c2[a][j]).key@, cap) == a by {
        if a != i || j < c[i].len() {
            assert(c2[a][j] == c[a][j]);
        }
    }
    assert forall|a: int, j1: int, j2: int|
        0 <= a < c2.len() && 0 <= j1 < c2[a].len() && 0 <= j2 < c2[a].len() && j1 != j2
        implies (#[trigger] c2[a][j1]).key@ != (#[trigger] c2[a][j2]).key@ by {
        if a == i {
            if j1 == c[i].len() {
                lemma_val(c, cap, i, j2);
            } else if j2 == c[i].len() {
                lemma_val(c, cap, i, j1);
            }
        }
    }
    assert forall|k: K::V| #[trigger] m2.contains_key(k) == m.insert(e.key@, e.value).contains_key(k) by {
        let b = bucket_of::<K>(k, cap);
        if m2.contains_key(k) {
            let j = choose|j: int| 0 <= j < c2[b].len() && (#[trigger] c2[b][j]).key@ == k;
            if b != i || j < c[i].len() {
                assert(c2[b][j] == c[b][j]);
                lemma_val(c, cap, b, j);
            }
        }
        if m.contains_key(k) {
            let j = choose|j: int| 0 <= j < c[b].len() && (#[trigger] c[b][j]).key@ == k;
            assert(c2[b][j] == c[b][j]);
            assert(has_in(c2, cap, k));
        }
        if k == e.key@ {
            assert(c2[i][c[i].len() as int] == e);
            assert(has_in(c2, cap, k));
        }
    }
    assert forall|k: K::V| #[trigger] m2.contains_key(k) implies m2[k] == m.insert(e.key@, e.value)[k] by {
        let b = bucket_of::<K>(k, cap);
        let j = choose|j: int| 0 <= j < c2[b].len() && (#[trigger] c2[b][j]).key@ == k;
        lemma_val(c2, cap, b, j);
        if b != i || j < c[i].len() {
            assert(c2[b][j] == c[b][j]);
            lemma_val(c, cap, b, j);
        }
    }
    assert(m2 =~= m.insert(e.key@, e.value));
}

/// Taking the record at position `j` out of chain `i`.
proof fn lemma_remove<K: TableKey, V>(c: Seq<Seq<Entity<K, V>>>, cap: int, i: int, j: int)
    requires
        layout_ok(c, cap),
        0 <= i < c.len(),
        0 <= j < c[i].len(),
    ensures
        layout_ok(c.update(i, c[i].remove(j)), cap),
        map_of(c.update(i, c[i].remove(j)), cap) == map_of(c, cap).remove(c[i][j].key@),
{
    let c2 = c.update(i, c[i].remove(j));
    let kr = c[i][j].key@;
    let m = map_of(c, cap);
    let m2 = map_of(c2, cap);
    // where a record of the new chains stood before
    assert forall|a: int, b: int| 0 <= a < c2.len() && 0 <= b < c2[a].len() implies
        (#[trigger] c2[a][b]) == (if a == i && b >= j { c[a][b + 1] } else { c[a][b] }) by {}
    assert forall|a: int, b: int| 0 <= a < c2.len() && 0 <= b < c2[a].len() implies
        bucket_of::<K>((#[trigger] c2[a][b]).key@, cap) == a by {
        if a == i && b >= j {
            assert(c2[a][b] == c[a][b + 1]);
        } else {
            assert(c2[a][b] == c[a][b]);
        }
    }
    assert forall|a: int, j1: int, j2: int|
        0 <= a < c2.len() && 0 <= j1 < c2[a].len() && 0 <= j2 < c2[a].len() && j1 != j2
        implies (#[trigger] c2[a][j1]).key@ != (#[trigger] c2[a][j2]).key@ by {
        let o1 = if a == i && j1 >= j { j1 + 1 } else { j1 };
        let o2 = if a == i && j2 >= j { j2 + 1 } else { j2 };
        assert(c2[a][j1] == c[a][o1]);
        assert(c2[a][j2] == c[a][o2]);
    }
    assert forall|k: K::V| #[trigger] m2.contains_key(k) == m.remove(kr).contains_key(k) by {
        let b = bucket_of::<K>(k, cap);
        if m2.contains_key(k) {
            let q = choose|q: int| 0 <= q < c2[b].len() && (#[trigger] c2[b][q]).key@ == k;
            let o = if b == i && q >= j { q + 1 } else { q };
            assert(c2[b][q] == c[b][o]);
            lemma_val(c, cap, b, o);
        }
        if m.contains_key(k) && k != kr {
            let q = choose|q: int| 0 <= q < c[b].len() && (#[trigger] c[b][q]).key@ == k;
            if b == i {
                assert(q != j);
                let n = if q > j { q - 1 } else { q };
                assert(c2[b][n] == c[b][q]);
            } else {
                assert(c2[b][q] == c[b][q]);
            }
            assert(has_in(c2, cap, k));
        }
    }
    assert forall|k: K::V| #[trigger] m2.contains_key(k) implies m2[k] == m.remove(kr)[k] by {
        let b = bucket_of::<K>(k, cap);
        let q = choose|q: int| 0 <= q < c2[b].len() && (#[trigger] c2[b][q]).key@ == k;
        let o = if b == i && q >= j { q + 1 } else { q };
        assert(c2[b][q] == c[b][o]);
        lemma_val(c2, cap, b, q);
        lemma_val(c, cap, b, o);
    }
    assert(m2 =~= m.remove(kr));
}

/// Giving the record at position `j` of chain `i` a new value.
proof fn lemma_set_value<K: TableKey, V>(c: Seq<Seq<Entity<K, V>>>, cap: int, i: int, j: int, e: Entity<K, V>)
    requires
        layout_ok(c, cap),
        0 <= i < c.len(),
        0 <= j < c[i].len(),
        e.key@ == c[i][j].key@,
    ensures
        layout_ok(c.update(i, c[i].update(j, e)), cap),
        map_of(c.update(i, c[i].update(j, e)), cap) == map_of(c, cap).insert(e.key@, e.value),
{
    let c2 = c.update(i, c[i].update(j, e));
    let m = map_of(c, cap);
    let m2 = map_of(c2, cap);
    assert forall|a: int, b: int| 0 <= a < c2.len() && 0 <= b < c2[a].len() implies
        bucket_of::<K>((#[trigger] c2[a][b]).key@, cap) == a by {
        assert(c2[a][b].key@ == c[a][b].key@);
    }
    assert forall|a: int, j1: int, j2: int|
        0 <= a < c2.len() && 0 <= j1 < c2[a].len() && 0 <= j2 < c2[a].len() && j1 != j2
        implies (#[trigger] c2[a][j1]).key@ != (#[trigger] c2[a][j2]).key@ by {
        assert(c2[a][j1].key@ == c[a][j1].key@);
        assert(c2[a][j2].key@ == c[a][j2].key@);
    }
    assert forall|k: K::V| #[trigger] m2.contains_key(k) == m.insert(e.key@, e.value).contains_key(k) by {
        let b = bucket_of::<K>(k, cap);
        if m2.contains_key(k) {
            let q = choose|q: int| 0 <= q < c2[b].len() && (#[trigger] c2[b][q]).key@ == k;
            assert(c2[b][q].key@ == c[b][q].key@);
            lemma_val(c, cap, b, q);
        }
        if m.insert(e.key@, e.value).contains_key(k) {
            if k == e.key@ {
                lemma_val(c2, cap, i, j);
            } else {
                let q = choose|q: int| 0 <= q < c[b].len() && (#[trigger] c[b][q]).key@ == k;
                assert(c2[b][q].key@ == c[b][q].key@);
                assert(has_in(c2, cap, k));
            }
        }
    }
    assert forall|k: K::V| #[trigger] m2.contains_key(k) implies m2[k] == m.insert(e.key@, e.value)[k] by {
        let b = bucket_of::<K>(k, cap);
        let q = choose|q: int| 0 <= q < c2[b].len() && (#[trigger] c2[b][q]).key@ == k;
        lemma_val(c2, cap, b, q);
        if b != i || q != j {
            assert(c2[b][q] == c[b][q]);
            lemma_val(c, cap, b, q);
        }
    }
    assert(m2 =~= m.insert(e.key@, e.value));
}

/// Dropping an empty last chain changes nothing that the chains represent.
proof fn lemma_drop_empty<K: TableKey, V>(c: Seq<Seq<Entity<K, V>>>, cap: int)
    requires
        layout_ok(c, cap),
        c.len() > 0,
        c.last().len() == 0,
    ensures
        layout_ok(c.drop_last(), cap),
        map_of(c.drop_last(), cap) == map_of(c, cap),
{
    let c2 = c.drop_last();
    assert forall|k: K::V| #[trigger] map_of(c2, cap).contains_key(k) == map_of(c, cap).contains_key(k) by {
        let b = bucket_of::<K>(k, cap);
        if map_of(c, cap).contains_key(k) {
            let q = choose|q: int| 0 <= q < c[b].len() && (#[trigger] c[b][q]).key@ == k;
            assert(c2[b][q] == c[b][q]);
        }
        if map_of(c2, cap).contains_key(k) {
            let q = choose|q: int| 0 <= q < c2[b].len() && (#[trigger] c2[b][q]).key@ == k;
            assert(c2[b][q] == c[b][q]);
        }
    }
    assert forall|k: K::V| #[trigger] map_of(c2, cap).contains_key(k) implies
        map_of(c2, cap)[k] == map_of(c, cap)[k] by {
        let b = bucket_of::<K>(k, cap);
        let q = choose|q: int| 0 <= q < c2[b].len() && (#[trigger] c2[b][q]).key@ == k;
        lemma_val(c2, cap, b, q);
        assert(c2[b][q] == c[b][q]);
        lemma_val(c, cap, b, q);
    }
    assert(map_of(c2, cap) =~= map_of(c, cap));
}

/// Chains that are all empty hold nothing, and in the right place.
proof fn lemma_empty<K: TableKey, V>(c: Seq<Seq<Entity<K, V>>>, cap: int)
    requires
        forall|a: int| 0 <= a < c.len() ==> (#[trigger] c[a]).len() == 0,
    ensures
        layout_ok(c, cap),
        map_of(c, cap) == Map::<K::V, V>::empty(),
{
    assert(map_of(c, cap) =~= Map::<K::V, V>::empty());
}

spec fn chains_of<K, V>(b: Seq<Vec<Entity<K, V>>>) -> Seq<Seq<Entity<K, V>>> {
    b.map_values(|v: Vec<Entity<K, V>>| v@)
}

/// Replacing one bucket replaces one chain.
broadcast proof fn lemma_chains_update<K, V>(b: Seq<Vec<Entity<K, V>>>, i: int, v: Vec<Entity<K, V>>)
    requires
        0 <= i < b.len(),
    ensures
        #[trigger] chains_of(b.update(i, v)) == chains_of(b).update(i, v@),
{
    assert(chains_of(b.update(i, v)) =~= chains_of(b).update(i, v@));
}

/// Position `(a, b)` comes before position `(i, j)`, bucket by bucket.
spec fn before<K, V>(c: Seq<Seq<Entity<K, V>>>, i: int, j: int, a: int, b: int) -> bool {
    (0 <= a < i && 0 <= b < c[a].len()) || (a == i && 0 <= b < j)
}

/// The pair `p` refers to a record before position `(i, j)`.
spec fn came_from<K: View, V>(p: (&K, &V), c: Seq<Seq<Entity<K, V>>>, i: int, j: int) -> bool {
    exists|a: int, b: int| #[trigger] before(c, i, j, a, b) && p.0@ == c[a][b].key@ && *p.1 == c[a][b].value
}

/// Some pair of `r` has the key `k`.
spec fn has_key<K: View, V>(r: Seq<(&K, &V)>, k: K::V) -> bool {
    exists|n: int| 0 <= n < r.len() && (#[trigger] r[n]).0@ == k
}

/// Each pair of `r` refers to a record before position `(i, j)`.
spec fn from_chains<K: View, V>(r: Seq<(&K, &V)>, c: Seq<Seq<Entity<K, V>>>, i: int, j: int) -> bool {
    forall|n: int| 0 <= n < r.len() ==> #[trigger] came_from(r[n], c, i, j)
}

/// Each record before position `(i, j)` has its key in `r`.
spec fn covers<K: View, V>(r: Seq<(&K, &V)>, c: Seq<Seq<Entity<K, V>>>, i: int, j: int) -> bool {
    forall|a: int, b: int| #[trigger] before(c, i, j, a, b) ==> has_key(r, c[a][b].key@)
}

spec fn distinct_keys<K: View, V>(r: Seq<(&K, &V)>) -> bool {
    forall|n1: int, n2: int| 0 <= n1 < r.len() && 0 <= n2 < r.len() && n1 != n2
        ==> (#[trigger] r[n1]).0@ != (#[trigger] r[n2]).0@
}

/// Collecting the record at `(i, j)`.
proof fn lemma_collect_step<K: TableKey, V>(
    r: Seq<(&K, &V)>,
    c: Seq<Seq<Entity<K, V>>>,
    cap: int,
    i: int,
    j: int,
    p: (&K, &V),
)
    requires
        layout_ok(c, cap),
        0 <= i < c.len(),
        0 <= j < c[i].len(),
        p.0@ == c[i][j].key@,
        *p.1 == c[i][j].value,
        from_chains(r, c, i, j),
        covers(r, c, i, j),
        distinct_keys(r),
    ensures
        from_chains(r.push(p), c, i, j + 1),
        covers(r.push(p), c, i, j + 1),
        distinct_keys(r.push(p)),
{
    let r2 = r.push(p);
    assert forall|n: int| 0 <= n < r.len() implies (#[trigger] r[n]).0@ != p.0@ by {
        assert(came_from(r[n], c, i, j));
        let (a, b) = choose|a: int, b: int| #[trigger] before(c, i, j, a, b) && r[n].0@ == c[a][b].key@ && *r[n].1 == c[a][b].value;
        assert(bucket_of::<K>(c[a][b].key@, cap) == a);
        assert(bucket_of::<K>(c[i][j].key@, cap) == i);
    }
    assert forall|n: int| 0 <= n < r2.len() implies #[trigger] came_from(r2[n], c, i, j + 1) by {
        if n < r.len() {
            assert(r2[n] == r[n]);
            assert(came_from(r[n], c, i, j));
            let (a, b) = choose|a: int, b: int| #[trigger] before(c, i, j, a, b) && r[n].0@ == c[a][b].key@ && *r[n].1 == c[a][b].value;
            assert(before(c, i, j + 1, a, b));
        } else {
            assert(r2[n] == p);
            assert(before(c, i, j + 1, i, j));
        }
    }
    assert forall|a: int, b: int| #[trigger] before(c, i, j + 1, a, b) implies has_key(r2, c[a][b].key@) by {
        if a == i && b == j {
            assert(r2[r.len() as int] == p);
        } else {
            assert(before(c, i, j, a, b));
            let n = choose|n: int| 0 <= n < r.len() && (#[trigger] r[n]).0@ == c[a][b].key@;
            assert(r2[n] == r[n]);
        }
    }
    assert forall|n1: int, n2: int| 0 <= n1 < r2.len() && 0 <= n2 < r2.len() && n1 != n2
        implies (#[trigger] r2[n1]).0@ != (#[trigger] r2[n2]).0@ by {
        if n1 < r.len() {
            assert(r2[n1] == r[n1]);
        }
        if n2 < r.len() {
            assert(r2[n2] == r[n2]);
        }
    }
}

/// Past the end of bucket `i` is the start of bucket `i + 1`.
proof fn lemma_collect_next<K: View, V>(r: Seq<(&K, &V)>, c: Seq<Seq<Entity<K, V>>>, i: int)
    requires
        0 <= i < c.len(),
        from_chains(r, c, i, c[i].len() as int),
        covers(r, c, i, c[i].len() as int),
    ensures
        from_chains(r, c, i + 1, 0),
        covers(r, c, i + 1, 0),
{
    assert forall|a: int, b: int| before(c, i + 1, 0, a, b) == before(c, i, c[i].len() as int, a, b) by {}
    assert forall|n: int| 0 <= n < r.len() implies #[trigger] came_from(r[n], c, i + 1, 0) by {
        assert(came_from(r[n], c, i, c[i].len() as int));
        let (a, b) = choose|a: int, b: int| #[trigger] before(c, i, c[i].len() as int, a, b) && r[n].0@ == c[a][b].key@ && *r[n].1 == c[a][b].value;
        assert(before(c, i + 1, 0, a, b));
    }
    assert forall|a: int, b: int| #[trigger] before(c, i + 1, 0, a, b) implies has_key(r, c[a][b].key@) by {
        assert(before(c, i, c[i].len() as int, a, b));
    }
}

/// Once every bucket is collected, the pairs are exactly the map's entries.
proof fn lemma_collect_done<K: TableKey, V>(r: Seq<(&K, &V)>, c: Seq<Seq<Entity<K, V>>>, cap: int)
    requires
        layout_ok(c, cap),
        map_of(c, cap).dom().finite(),
        from_chains(r, c, c.len() as int, 0),
        covers(r, c, c.len() as int, 0),
        distinct_keys(r),
    ensures
        r.len() == map_of(c, cap).len(),
        forall|n: int| 0 <= n < r.len() ==> map_of(c, cap).contains_key((#[trigger] r[n]).0@)
            && map_of(c, cap)[r[n].0@] == *r[n].1,
        forall|k: K::V| #[trigger] map_of(c, cap).contains_key(k) ==> exists|n: int| 0 <= n < r.len() && (#[trigger] r[n]).0@ == k,
{
    let m = map_of(c, cap);
    assert forall|n: int| 0 <= n < r.len() implies m.contains_key((#[trigger] r[n]).0@) && m[r[n].0@] == *r[n].1 by {
        assert(came_from(r[n], c, c.len() as int, 0));
        let (a, b) = choose|a: int, b: int| #[trigger] before(c, c.len() as int, 0, a, b) && r[n].0@ == c[a][b].key@ && *r[n].1 == c[a][b].value;
        lemma_val(c, cap, a, b);
    }
    assert forall|k: K::V| #[trigger] m.contains_key(k) implies has_key(r, k) by {
        let a = bucket_of::<K>(k, cap);
        let b = choose|b: int| 0 <= b < c[a].len() && (#[trigger] c[a][b]).key@ == k;
        assert(before(c, c.len() as int, 0, a, b));
    }
    let ks = r.map_values(|p: (&K, &V)| p.0@);
    assert(ks.no_duplicates()) by {
        assert forall|n1: int, n2: int| 0 <= n1 < ks.len() && 0 <= n2 < ks.len() && n1 != n2
            implies ks[n1] != ks[n2] by {
            assert(r[n1].0@ != r[n2].0@);
        }
    }
    assert(ks.to_set() =~= m.dom()) by {
        assert forall|k: K::V| ks.to_set().contains(k) implies m.dom().contains(k) by {
            let n = choose|n: int| 0 <= n < ks.len() && ks[n] == k;
            assert(m.contains_key(r[n].0@));
        }
        assert forall|k: K::V| m.dom().contains(k) implies ks.to_set().contains(k) by {
            assert(has_key(r, k));
            let n = choose|n: int| 0 <= n < r.len() && (#[trigger] r[n]).0@ == k;
            assert(ks[n] == k);
        }
    }
    ks.unique_seq_to_set();
}

const INITIAL_CAPACITY: usize = 16;

/// `n` empty buckets.
fn empty_chains<K, V>(n: usize) -> (r: Vec<Vec<Entity<K, V>>>)
    ensures
        r@.len() == n,
        forall|a: int| 0 <= a < n ==> (#[trigger] r@[a])@.len() == 0,
{
    let mut r: Vec<Vec<Entity<K, V>>> = Vec::new();
    let mut i: usize = 0;
    while i < n
        invariant
            i <= n,
            r@.len() == i,
            forall|a: int| 0 <= a < i ==> (#[trigger] r@[a])@.len() == 0,
        decreases n - i,
    {
        r.push(Vec::new());
        i += 1;
    }
    r
}

/// The digest of a key, from a fresh hasher.
fn hash_key<K: TableKey>(key: &K) -> (r: u64)
    ensures
        r == key_digest::<K>(key@),
{
    let mut state = DefaultHasher::new();
    key.write_key(&mut state);
    assert(state@ =~= seq![K::key_bytes(key@)]);
    state.finish()
}

/// The bucket of a key among `cap` buckets.
fn index_in<K: TableKey>(key: &K, cap: usize) -> (r: usize)
    requires
        cap > 0,
    ensures
        r == bucket_of::<K>(key@, cap as int),
        r < cap,
{
    let h = hash_key(key);
    (h % (cap as u64)) as usize
}

impl<K: TableKey, V> View for HashTable<K, V> {
    type V = Map<K::V, V>;

    closed spec fn view(&self) -> Map<K::V, V> {
        map_of(chains_of(self.buckets@), self.capacity as int)
    }
}

impl<K: TableKey, V> HashTable<K, V> {
    /// The buckets are as many as the capacity, every record sits in the
    /// bucket of its key, keys are unique, and the count is the number of keys.
    pub closed spec fn wf(&self) -> bool {
        &&& self.capacity > 0
        &&& self.buckets@.len() == self.capacity
        &&& layout_ok(chains_of(self.buckets@), self.capacity as int)
        &&& self@.dom().finite()
        &&& self@.len() == self.count
    }

    /// The number of buckets.
    pub closed spec fn cap(&self) -> nat {
        self.capacity as nat
    }

    spec fn chains(&self) -> Seq<Seq<Entity<K, V>>> {
        chains_of(self.buckets@)
    }

    /// An empty table with sixteen buckets.
    pub fn new() -> (r: Self)
        ensures
            r.wf(),
            r@ == Map::<K::V, V>::empty(),
            r.cap() == 16,
    {
        let buckets = empty_chains(INITIAL_CAPACITY);
        proof {
            lemma_empty(chains_of(buckets@), INITIAL_CAPACITY as int);
        }
        HashTable { buckets, count: 0, capacity: INITIAL_CAPACITY }
    }

    /// The number of records.
    pub fn len(&self) -> (r: usize)
        requires
            self.wf(),
        ensures
            r == self@.len(),
    {
        self.count
    }

    /// The number of buckets.
    pub fn capacity(&self) -> (r: usize)
        ensures
            r == self.cap(),
    {
        self.capacity
    }

    pub fn is_empty(&self) -> (r: bool)
        requires
            self.wf(),
        ensures
            r == (self@.len() == 0),
    {
        self.count == 0
    }

    /// The bucket of `key`, and the position of its record there if it has one.
    fn find(&self, key: &K) -> (r: (usize, Option<usize>))
        requires
            self.wf(),
        ensures
            r.0 == bucket_of::<K>(key@, self.capacity as int),
            r.0 < self.capacity,
            match r.1 {
                Some(j) => j < self.chains()[r.0 as int].len() && self.chains()[r.0 as int][j as int].key@ == key@,
                None => !self@.contains_key(key@),
            },
    {
        let i = index_in(key, self.capacity);
        let bucket = &self.buckets[i];
        let mut j: usize = 0;
        while j < bucket.len()
            invariant
                i == bucket_of::<K>(key@, self.capacity as int),
                i < self.capacity,
                i < self.buckets@.len(),
                bucket@ == self.chains()[i as int],
                j <= bucket@.len(),
                forall|q: int| 0 <= q < j ==> (#[trigger] bucket@[q]).key@ != key@,
            decreases bucket@.len() - j,
        {
            if bucket[j].key.same_key(key) {
                return (i, Some(j));
            }
            j += 1;
        }
        (i, None)
    }

    /// The value held for `key`, if any.
    pub fn get(&self, key: &K) -> (r: Option<&V>)
        requires
            self.wf(),
        ensures
            r.is_some() == self@.contains_key(key@),
            r.is_some() ==> *r.unwrap() == self@[key@],
    {
        let (i, pos) = self.find(key);
        match pos {
            Some(j) => {
                proof {
                    lemma_val(self.chains(), self.capacity as int, i as int, j as int);
                }
                Some(&self.buckets[i][j].value)
            },
            None => None,
        }
    }

    /// Whether a value is held for `key`.
    pub fn contains_key(&self, key: &K) -> (r: bool)
        requires
            self.wf(),
        ensures
            r == self@.contains_key(key@),
    {
        let (i, pos) = self.find(key);
        proof {
            if let Some(j) = pos {
                lemma_val(self.chains(), self.capacity as int, i as int, j as int);
            }
        }
        pos.is_some()
    }

    /// Empties every bucket; the capacity stays.
    pub fn clear(&mut self)
        requires
            old(self).wf(),
        ensures
            final(self).wf(),
            final(self)@ == Map::<K::V, V>::empty(),
            final(self).cap() == old(self).cap(),
    {
        let mut i: usize = 0;
        while i < self.buckets.len()
            invariant
                self.capacity == old(self).capacity,
                self.buckets@.len() == self.capacity,
                i <= self.buckets@.len(),
                forall|a: int| 0 <= a < i ==> (#[trigger] self.buckets@[a])@.len() == 0,
            decreases self.buckets@.len() - i,
        {
            self.buckets[i].clear();
            i += 1;
        }
        self.count = 0;
        proof {
            lemma_empty(self.chains(), self.capacity as int);
        }
    }

    /// Takes the record of `key` out of the table and hands back its value.
    pub fn remove(&mut self, key: &K) -> (r: Option<V>)
        requires
            old(self).wf(),
        ensures
            final(self).wf(),
            final(self).cap() == old(self).cap(),
            r.is_some() == old(self)@.contains_key(key@),
            r.is_some() ==> r.unwrap() == old(self)@[key@],
            final(self)@ == old(self)@.remove(key@),
    {
        let (i, pos) = self.find(key);
        match pos {
            Some(j) => {
                let ghost c = self.chains();
                proof {
                    lemma_val(c, self.capacity as int, i as int, j as int);
                    lemma_remove(c, self.capacity as int, i as int, j as int);
                }
                let e = self.buckets[i].remove(j);
                assert(self.chains() =~= c.update(i as int, c[i as int].remove(j as int)));
                self.count -= 1;
                Some(e.value)
            },
            None => {
                assert(self@ =~= self@.remove(key@));
                None
            },
        }
    }

    /// Doubles the number of buckets and moves every record to the bucket
    /// of its key among the new ones.
    fn expand(&mut self)
        requires
            old(self).wf(),
            old(self).capacity <= usize::MAX / 2,
        ensures
            final(self).wf(),
            final(self)@ == old(self)@,
            final(self).capacity == 2 * old(self).capacity,
    {
        let ghost whole = self@;
        let old_cap = self.capacity;
        let new_cap = self.capacity * 2;
        let mut rest = empty_chains(new_cap);
        std::mem::swap(&mut self.buckets, &mut rest);
        self.capacity = new_cap;
        proof {
            lemma_empty(self.chains(), new_cap as int);
        }
        while rest.len() > 0
            invariant
                self.capacity == new_cap,
                new_cap == 2 * old_cap,
                old_cap > 0,
                self.buckets@.len() == new_cap,
                self.count == old(self).count,
                whole.len() == self.count,
                whole.dom().finite(),
                layout_ok(self.chains(), new_cap as int),
                layout_ok(chains_of(rest@), old_cap as int),
                map_of(chains_of(rest@), old_cap as int).dom().finite(),
                forall|k: K::V| #[trigger] whole.contains_key(k) <==>
                    (map_of(chains_of(rest@), old_cap as int).contains_key(k) || self@.contains_key(k)),
                forall|k: K::V| #[trigger] map_of(chains_of(rest@), old_cap as int).contains_key(k) ==>
                    !self@.contains_key(k) && map_of(chains_of(rest@), old_cap as int)[k] == whole[k],
                forall|k: K::V| #[trigger] self@.contains_key(k) ==> self@[k] == whole[k],
            decreases map_of(chains_of(rest@), old_cap as int).dom().len() + rest@.len(),
        {
            let last = rest.len() - 1;
            let ghost c = chains_of(rest@);
            let ghost cn = self.chains();
            if rest[last].len() == 0 {
                proof {
                    lemma_drop_empty(c, old_cap as int);
                }
                rest.pop();
                assert(chains_of(rest@) =~= c.drop_last());
            } else {
                let ghost t = c[last as int].len() - 1;
                proof {
                    lemma_val(c, old_cap as int, last as int, t);
                    lemma_remove(c, old_cap as int, last as int, t);
                }
                let e = rest[last].pop().unwrap();
                assert(c[last as int].remove(t) =~= c[last as int].drop_last());
                assert(chains_of(rest@) =~= c.update(last as int, c[last as int].remove(t)));
                let i = index_in(&e.key, new_cap);
                proof {
                    lemma_push(cn, new_cap as int, i as int, e);
                }
                self.buckets[i].push(e);
                assert(self.chains() =~= cn.update(i as int, cn[i as int].push(e)));
            }
        }
        proof {
            assert forall|k: K::V| !(#[trigger] map_of(chains_of(rest@), old_cap as int).contains_key(k)) by {}
            assert(self@ =~= whole);
        }
    }

    /// Puts `value` under `key`, in place of the value it had if it had one.
    /// Before that, the buckets are doubled where three times the number of
    /// records exceeds four times the number of buckets.
    ///
    /// The number of records must stay below half the address range, so that
    /// the count and the doubled number of buckets fit in a `usize`.
    pub fn insert(&mut self, key: K, value: V)
        requires
            old(self).wf(),
            old(self)@.len() < usize::MAX / 2,
        ensures
            final(self).wf(),
            final(self)@ == old(self)@.insert(key@, value),
            final(self).cap() == if 3 * old(self)@.len() > 4 * old(self).cap() {
                2 * old(self).cap()
            } else {
                old(self).cap()
            },
    {
        if 3 * (self.count as u128) > 4 * (self.capacity as u128) {
            self.expand();
        }
        let (i, pos) = self.find(&key);
        let ghost c = self.chains();
        match pos {
            Some(j) => {
                let ghost e = Entity { key: c[i as int][j as int].key, value };
                proof {
                    lemma_val(c, self.capacity as int, i as int, j as int);
                    lemma_set_value(c, self.capacity as int, i as int, j as int, e);
                }
                self.buckets[i][j].value = value;
                assert(self.chains() =~= c.update(i as int, c[i as int].update(j as int, e)));
            },
            None => {
                let e = Entity { key, value };
                proof {
                    lemma_push(c, self.capacity as int, i as int, e);
                }
                self.buckets[i].push(e);
                assert(self.chains() =~= c.update(i as int, c[i as int].push(e)));
                self.count += 1;
            },
        }
    }

    /// A mutable reference to the value held for `key`, if any.
    pub fn get_mut(&mut self, key: &K) -> (r: Option<&mut V>)
        requires
            old(self).wf(),
        ensures
            final(self).wf(),
            final(self).cap() == old(self).cap(),
            r.is_some() == old(self)@.contains_key(key@),
            r.is_some() ==> *r.unwrap() == old(self)@[key@]
                && final(self)@ == old(self)@.insert(key@, *final(r.unwrap())),
            r.is_none() ==> final(self)@ == old(self)@,
    {
        broadcast use lemma_chains_update;

        let (i, pos) = self.find(key);
        match pos {
            Some(j) => {
                let ghost c = self.chains();
                proof {
                    lemma_val(c, self.capacity as int, i as int, j as int);
                }
                let chain = &mut self.buckets[i];
                let ent = &mut chain[j];
                let v = &mut ent.value;
                proof {
                    let e = Entity { key: c[i as int][j as int].key, value: *final(v) };
                    lemma_set_value(c, self.capacity as int, i as int, j as int, e);
                }
                Some(v)
            },
            None => None,
        }
    }

    /// The value held for `key`, which must be present.
    pub fn index(&self, key: &K) -> (r: &V)
        requires
            self.wf(),
            self@.contains_key(key@),
        ensures
            *r == self@[key@],
    {
        self.get(key).unwrap()
    }

    /// A mutable reference to the value held for `key`, which must be present.
    pub fn index_mut(&mut self, key: &K) -> (r: &mut V)
        requires
            old(self).wf(),
            old(self)@.contains_key(key@),
        ensures
            final(self).wf(),
            final(self).cap() == old(self).cap(),
            *r == old(self)@[key@],
            final(self)@ == old(self)@.insert(key@, *final(r)),
    {
        self.get_mut(key).unwrap()
    }

    /// Every record as a pair of references to its key and its value, bucket
    /// by bucket and in each bucket in storage order.
    pub fn inter(&self) -> (r: Vec<(&K, &V)>)
        requires
            self.wf(),
        ensures
            r@.len() == self@.len(),
            forall|n: int| 0 <= n < r@.len() ==> self@.contains_key((#[trigger] r@[n]).0@)
                && self@[r@[n].0@] == *r@[n].1,
            forall|n1: int, n2: int| 0 <= n1 < r@.len() && 0 <= n2 < r@.len() && n1 != n2
                ==> (#[trigger] r@[n1]).0@ != (#[trigger] r@[n2]).0@,
            forall|k: K::V| #[trigger] self@.contains_key(k) ==> exists|n: int| 0 <= n < r@.len() && (#[trigger] r@[n]).0@ == k,
    {
        let ghost c = self.chains();
        let ghost cap = self.capacity as int;
        let mut r: Vec<(&K, &V)> = Vec::new();
        let mut i: usize = 0;
        while i < self.buckets.len()
            invariant
                self.wf(),
                c == self.chains(),
                cap == self.capacity,
                i <= c.len(),
                from_chains(r@, c, i as int, 0),
                covers(r@, c, i as int, 0),
                distinct_keys(r@),
            decreases c.len() - i,
        {
            let bucket = &self.buckets[i];
            let mut j: usize = 0;
            while j < bucket.len()
                invariant
                    self.wf(),
                    c == self.chains(),
                    cap == self.capacity,
                    i < c.len(),
                    bucket@ == c[i as int],
                    j <= bucket@.len(),
                    from_chains(r@, c, i as int, j as int),
                    covers(r@, c, i as int, j as int),
                    distinct_keys(r@),
                decreases bucket@.len() - j,
            {
                let e = &bucket[j];
                proof {
                    lemma_collect_step(r@, c, cap, i as int, j as int, (&e.key, &e.value));
                }
                r.push((&e.key, &e.value));
                j += 1;
            }
            proof {
                lemma_collect_next(r@, c, i as int);
            }
            i += 1;
        }
        proof {
            lemma_collect_done(r@, c, cap);
        }
        r
    }
}

/// After `insert(k, v)`, looking `k` up finds `v`.
pub proof fn lemma_insert_then_get<K: TableKey, V>(before: HashTable<K, V>, after: HashTable<K, V>, k: K, v: V)
    requires
        before.wf(),
        after.wf(),
        after@ == before@.insert(k@, v),
    ensures
        after@.contains_key(k@),
        after@[k@] == v,
{
}

/// Inserting under a key that is already present leaves the number of
/// records as it was, and the key then holds the latest value.
pub proof fn lemma_overwrite<K: TableKey, V>(
    first: HashTable<K, V>,
    second: HashTable<K, V>,
    k: K,
    v: V,
)
    requires
        first.wf(),
        second.wf(),
        first@.contains_key(k@),
        second@ == first@.insert(k@, v),
    ensures
        second@.len() == first@.len(),
        second@[k@] == v,
{
    assert(second@.dom() =~= first@.dom());
}

/// After `remove(k)`, `k` is absent; the number of records fell by one if
/// `k` was present, and stayed as it was otherwise.
pub proof fn lemma_remove_drops_key<K: TableKey, V>(before: HashTable<K, V>, after: HashTable<K, V>, k: K)
    requires
        before.wf(),
        after.wf(),
        after@ == before@.remove(k@),
    ensures
        !after@.contains_key(k@),
        before@.contains_key(k@) ==> after@.len() == before@.len() - 1,
        !before@.contains_key(k@) ==> after@.len() == before@.len(),
{
    if !before@.contains_key(k@) {
        assert(after@ =~= before@);
    }
}

/// An insert that finds three times the number of records above four times
/// the number of buckets doubles the buckets, and every key held before
/// keeps its value.
pub proof fn lemma_growth_keeps_entries<K: TableKey, V>(
    before: HashTable<K, V>,
    after: HashTable<K, V>,
    k: K,
    v: V,
)
    requires
        before.wf(),
        after.wf(),
        3 * before@.len() > 4 * before.cap(),
        after@ == before@.insert(k@, v),
        after.cap() == if 3 * before@.len() > 4 * before.cap() {
            2 * before.cap()
        } else {
            before.cap()
        },
    ensures
        after.cap() == 2 * before.cap(),
        forall|q: K::V| #[trigger] before@.contains_key(q) && q != k@ ==> after@.contains_key(q) && after@[q] == before@[q],
{
}

} // verus!
