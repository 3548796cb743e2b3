use vstd::prelude::*;
use crate::record::{Slot, Stats, combine, empty_stats, fits_i64};
use crate::measurements::{
    NUM_BUCKETS, merge_slots, can_insert, probe_finds, probe_offset, probe_slot, slot_at, slot_insert, stops_at,
};

verus! {

/// The statistics of `s` are those a record can hold.
pub open spec fn stats_in_range(s: Stats) -> bool {
    &&& i16::MIN <= s.min <= i16::MAX
    &&& i16::MIN <= s.max <= i16::MAX
    &&& fits_i64(s.sum)
    &&& fits_i64(s.count)
}

/// The table is well formed: every free slot is untouched, and the search for
/// the name of every occupied slot stops at that slot (so no name occurs
/// twice).
/// A line with an empty name (see `fast_hash`) leaves a free slot that has
/// seen a value, so the table is no longer well formed.
pub open spec fn table_wf(t: Seq<Slot>) -> bool {
    &&& t.len() == NUM_BUCKETS
    &&& forall|i: int| 0 <= i < NUM_BUCKETS ==> stats_in_range(#[trigger] t[i].stats)
    &&& forall|i: int|
        0 <= i < NUM_BUCKETS && (#[trigger] t[i]).name.len() == 0 ==> t[i].stats == empty_stats()
    &&& forall|i: int|
        0 <= i < NUM_BUCKETS && (#[trigger] t[i]).name.len() > 0 ==> probe_finds(t, t[i].name)
            && probe_slot(t, t[i].name) == i
}

/// The stations of the table and their statistics: a name is there when the
/// search for it stops at a slot that holds it.
pub open spec fn table_map(t: Seq<Slot>) -> Map<Seq<u8>, Stats> {
    Map::new(
        |n: Seq<u8>| n.len() > 0 && probe_finds(t, n) && t[probe_slot(t, n)].name == n,
        |n: Seq<u8>| t[probe_slot(t, n)].stats,
    )
}

/// The statistics of `n` in `m`; those of a station with no value when `n`
/// is not there.
pub open spec fn stats_of(m: Map<Seq<u8>, Stats>, n: Seq<u8>) -> Stats {
    if m.contains_key(n) {
        m[n]
    } else {
        empty_stats()
    }
}

/// The stations of `a` and of `b`, the statistics of a station in both
/// combined.
pub open spec fn merge_maps(a: Map<Seq<u8>, Stats>, b: Map<Seq<u8>, Stats>) -> Map<Seq<u8>, Stats> {
    Map::new(
        |n: Seq<u8>| a.contains_key(n) || b.contains_key(n),
        |n: Seq<u8>| combine(stats_of(a, n), stats_of(b, n)),
    )
}

/// Slots visited at different steps of one search are different.
pub proof fn lemma_slot_at_injective(name: Seq<u8>, j1: int, j2: int)
    requires
        0 <= j1 < NUM_BUCKETS,
        0 <= j2 < NUM_BUCKETS,
        j1 != j2,
    ensures
        slot_at(name, j1) != slot_at(name, j2),
        0 <= slot_at(name, j1) < NUM_BUCKETS,
{
}

pub proof fn lemma_slot_at_range(name: Seq<u8>, j: int)
    ensures
        0 <= slot_at(name, j) < NUM_BUCKETS,
{
}

/// The search passes over the slots before the one it reports, and stops at
/// the one it reports.
pub proof fn lemma_probe_offset_props(t: Seq<Slot>, name: Seq<u8>, k: int)
    requires
        0 <= k <= NUM_BUCKETS,
    ensures
        k <= probe_offset(t, name, k) <= NUM_BUCKETS,
        forall|j: int|
            k <= j < probe_offset(t, name, k) ==> !stops_at(t, name, #[trigger] slot_at(name, j)),
        probe_offset(t, name, k) < NUM_BUCKETS ==> stops_at(
            t,
            name,
            slot_at(name, probe_offset(t, name, k)),
        ),
    decreases NUM_BUCKETS - k,
{
    if k < NUM_BUCKETS && !stops_at(t, name, slot_at(name, k)) {
        lemma_probe_offset_props(t, name, k + 1);
    }
}

/// Two tables on which the search for `name` meets the same slots up to the
/// first stop in `t1` give the same search result.
pub proof fn lemma_probe_same(t1: Seq<Slot>, t2: Seq<Slot>, name: Seq<u8>, k: int)
    requires
        0 <= k <= probe_offset(t1, name, k) < NUM_BUCKETS,
        forall|j: int|
            k <= j < probe_offset(t1, name, k) ==> !stops_at(t2, name, #[trigger] slot_at(name, j)),
        stops_at(t2, name, slot_at(name, probe_offset(t1, name, k))),
    ensures
        probe_offset(t2, name, k) == probe_offset(t1, name, k),
    decreases NUM_BUCKETS - k,
{
    if probe_offset(t1, name, k) != k {
        assert(!stops_at(t2, name, slot_at(name, k)));
        lemma_probe_offset_props(t1, name, k);
        assert(!stops_at(t1, name, slot_at(name, k)));
        lemma_probe_same(t1, t2, name, k + 1);
    }
}

/// After merging `r`, the search for its name still ends at the same slot.
proof fn lemma_insert_probe_self(t: Seq<Slot>, r: Slot)
    requires
        t.len() == NUM_BUCKETS,
        probe_finds(t, r.name),
        r.name.len() > 0,
    ensures
        probe_finds(slot_insert(t, r), r.name),
        probe_slot(slot_insert(t, r), r.name) == probe_slot(t, r.name),
        0 <= probe_slot(t, r.name) < NUM_BUCKETS,
        stops_at(t, r.name, probe_slot(t, r.name)),
{
    let n = r.name;
    let off = probe_offset(t, n, 0);
    let t2 = slot_insert(t, r);
    lemma_probe_offset_props(t, n, 0);
    lemma_slot_at_range(n, off);
    assert forall|j: int| 0 <= j < off implies !stops_at(t2, n, #[trigger] slot_at(n, j)) by {
        lemma_slot_at_injective(n, j, off);
        assert(!stops_at(t, n, slot_at(n, j)));
    }
    lemma_probe_same(t, t2, n, 0);
}

/// After merging `r`, the search for the name of any other occupied slot
/// still ends at that slot.
proof fn lemma_insert_probe_other(t: Seq<Slot>, r: Slot, i: int)
    requires
        t.len() == NUM_BUCKETS,
        probe_finds(t, r.name),
        r.name.len() > 0,
        0 <= i < NUM_BUCKETS,
        i != probe_slot(t, r.name),
        t[i].name.len() > 0,
        probe_finds(t, t[i].name),
        probe_slot(t, t[i].name) == i,
    ensures
        t[i].name != r.name,
        probe_finds(slot_insert(t, r), t[i].name),
        probe_slot(slot_insert(t, r), t[i].name) == i,
{
    let n = r.name;
    let p = probe_slot(t, n);
    let t2 = slot_insert(t, r);
    let m = t[i].name;
    lemma_insert_probe_self(t, r);
    let offm = probe_offset(t, m, 0);
    lemma_probe_offset_props(t, m, 0);
    assert forall|j: int| 0 <= j < offm implies !stops_at(t2, m, #[trigger] slot_at(m, j)) by {
        lemma_slot_at_injective(m, j, offm);
        assert(!stops_at(t, m, slot_at(m, j)));
    }
    assert(t2[i] == t[i]);
    lemma_probe_same(t, t2, m, 0);
}

/// After merging `r`, every other name that was found is still found, with
/// the same statistics.
proof fn lemma_insert_lookup_kept(t: Seq<Slot>, r: Slot, k: Seq<u8>)
    requires
        t.len() == NUM_BUCKETS,
        probe_finds(t, r.name),
        r.name.len() > 0,
        k != r.name,
        table_map(t).contains_key(k),
    ensures
        table_map(slot_insert(t, r)).contains_key(k),
        table_map(slot_insert(t, r))[k] == table_map(t)[k],
{
    let p = probe_slot(t, r.name);
    let t2 = slot_insert(t, r);
    lemma_insert_probe_self(t, r);
    let q = probe_slot(t, k);
    lemma_slot_at_range(k, probe_offset(t, k, 0));
    assert(q != p);
    lemma_insert_probe_other(t, r, q);
    assert(t2[q] == t[q]);
}

/// After merging `r`, no other name is found that was not found before.
proof fn lemma_insert_lookup_new(t: Seq<Slot>, r: Slot, k: Seq<u8>)
    requires
        t.len() == NUM_BUCKETS,
        probe_finds(t, r.name),
        r.name.len() > 0,
        k != r.name,
        table_map(slot_insert(t, r)).contains_key(k),
    ensures
        k.len() > 0,
        t[probe_slot(slot_insert(t, r), k)].name == k,
        0 <= probe_slot(slot_insert(t, r), k) < NUM_BUCKETS,
{
    let p = probe_slot(t, r.name);
    let t2 = slot_insert(t, r);
    lemma_insert_probe_self(t, r);
    let q = probe_slot(t2, k);
    lemma_slot_at_range(k, probe_offset(t2, k, 0));
    assert(q != p);
    assert(t2[q] == t[q]);
}

/// Merging a slot with a non-empty name into a well-formed table keeps it
/// well formed, and adds the slot's statistics to those of its name.
pub proof fn lemma_insert(t: Seq<Slot>, r: Slot)
    requires
        table_wf(t),
        r.name.len() > 0,
        stats_in_range(r.stats),
        can_insert(t, r),
    ensures
        table_wf(slot_insert(t, r)),
        table_map(slot_insert(t, r)) == table_map(t).insert(
            r.name,
            combine(stats_of(table_map(t), r.name), r.stats),
        ),
{
    let n = r.name;
    let p = probe_slot(t, n);
    let t2 = slot_insert(t, r);
    lemma_insert_probe_self(t, r);
    assert forall|i: int|
        0 <= i < NUM_BUCKETS && (#[trigger] t2[i]).name.len() > 0 implies probe_finds(
        t2,
        t2[i].name,
    ) && probe_slot(t2, t2[i].name) == i by {
        if i != p {
            assert(t2[i] == t[i]);
            lemma_insert_probe_other(t, r, i);
        }
    }
    assert forall|i: int|
        0 <= i < NUM_BUCKETS && (#[trigger] t2[i]).name.len() == 0 implies t2[i].stats
        == empty_stats() by {
        assert(i != p);
    }
    assert forall|i: int| 0 <= i < NUM_BUCKETS implies stats_in_range(#[trigger] t2[i].stats) by {
        if i != p {
            assert(t2[i] == t[i]);
        }
    }
    assert(table_wf(t2));
    let m1 = table_map(t2);
    let m2 = table_map(t).insert(n, combine(stats_of(table_map(t), n), r.stats));
    assert forall|k: Seq<u8>| #[trigger] m1.contains_key(k) == m2.contains_key(k) by {
        if k != n {
            if table_map(t).contains_key(k) {
                lemma_insert_lookup_kept(t, r, k);
            }
            if m1.contains_key(k) {
                lemma_insert_lookup_new(t, r, k);
                let q = probe_slot(t2, k);
                assert(t[q].name.len() > 0);
            }
        }
    }
    assert forall|k: Seq<u8>| #[trigger] m1.contains_key(k) implies m1[k] == m2[k] by {
        if k != n {
            lemma_insert_lookup_new(t, r, k);
            let q = probe_slot(t2, k);
            assert(t[q].name.len() > 0);
            lemma_insert_lookup_kept(t, r, k);
        }
    }
    assert(m1 =~= m2);
}

/// The stations of table `rs` whose slot comes before slot `n`.
pub open spec fn map_before(rs: Seq<Slot>, n: int) -> Map<Seq<u8>, Stats> {
    Map::new(
        |k: Seq<u8>| table_map(rs).contains_key(k) && probe_slot(rs, k) < n,
        |k: Seq<u8>| table_map(rs)[k],
    )
}

/// Combining with no values changes nothing.
pub proof fn lemma_combine_empty(x: Stats)
    requires
        stats_in_range(x),
    ensures
        combine(x, empty_stats()) == x,
        combine(empty_stats(), x) == x,
        combine(empty_stats(), empty_stats()) == empty_stats(),
{
}

/// The statistics a well-formed table holds are those a record can hold.
pub proof fn lemma_table_map_in_range(t: Seq<Slot>, k: Seq<u8>)
    requires
        table_wf(t),
    ensures
        stats_in_range(stats_of(table_map(t), k)),
{
    if table_map(t).contains_key(k) {
        lemma_slot_at_range(k, probe_offset(t, k, 0));
        let q = probe_slot(t, k);
        assert(stats_in_range(t[q].stats));
    }
}

/// The statistics of a name in the merge of two maps.
pub proof fn lemma_stats_of_merge(a: Map<Seq<u8>, Stats>, b: Map<Seq<u8>, Stats>, k: Seq<u8>)
    ensures
        stats_of(merge_maps(a, b), k) == combine(stats_of(a, k), stats_of(b, k)),
{
    if !a.contains_key(k) && !b.contains_key(k) {
        lemma_combine_empty(empty_stats());
    }
}

/// Every station of a table has its slot before slot `NUM_BUCKETS`.
pub proof fn lemma_map_before_all(rs: Seq<Slot>)
    ensures
        map_before(rs, NUM_BUCKETS as int) == table_map(rs),
{
    assert forall|k: Seq<u8>| #[trigger] table_map(rs).contains_key(k) implies probe_slot(rs, k)
        < NUM_BUCKETS by {
        lemma_slot_at_range(k, probe_offset(rs, k, 0));
    }
    assert(map_before(rs, NUM_BUCKETS as int) =~= table_map(rs));
}

/// A table of free slots is well formed and holds no station.
pub proof fn lemma_empty_table(t: Seq<Slot>)
    requires
        t.len() == NUM_BUCKETS,
        forall|i: int| 0 <= i < NUM_BUCKETS ==> #[trigger] t[i] == (Slot { name: Seq::empty(), stats: empty_stats() }),
    ensures
        table_wf(t),
        table_map(t) == Map::<Seq<u8>, Stats>::empty(),
{
    assert forall|k: Seq<u8>| !(#[trigger] table_map(t).contains_key(k)) by {
        if k.len() > 0 && probe_finds(t, k) {
            lemma_slot_at_range(k, probe_offset(t, k, 0));
        }
    }
    assert(table_map(t) =~= Map::<Seq<u8>, Stats>::empty());
}

proof fn lemma_map_before_zero(rs: Seq<Slot>)
    ensures
        map_before(rs, 0) == Map::<Seq<u8>, Stats>::empty(),
{
    assert forall|k: Seq<u8>| !(#[trigger] map_before(rs, 0).contains_key(k)) by {
        if table_map(rs).contains_key(k) {
            lemma_slot_at_range(k, probe_offset(rs, k, 0));
        }
    }
    assert(map_before(rs, 0) =~= Map::<Seq<u8>, Stats>::empty());
}

/// Merging with no stations changes nothing.
pub proof fn lemma_merge_maps_empty(t: Seq<Slot>)
    requires
        table_wf(t),
    ensures
        merge_maps(table_map(t), Map::<Seq<u8>, Stats>::empty()) == table_map(t),
{
    let a = table_map(t);
    assert forall|k: Seq<u8>| #[trigger] a.contains_key(k) implies a[k] == combine(
        stats_of(a, k),
        stats_of(Map::<Seq<u8>, Stats>::empty(), k),
    ) by {
        lemma_table_map_in_range(t, k);
        lemma_combine_empty(a[k]);
    }
    assert(merge_maps(a, Map::<Seq<u8>, Stats>::empty()) =~= a);
}

proof fn lemma_map_before_step(rs: Seq<Slot>, n: int)
    requires
        table_wf(rs),
        0 < n <= NUM_BUCKETS,
    ensures
        rs[n - 1].name.len() == 0 ==> map_before(rs, n) == map_before(rs, n - 1),
        rs[n - 1].name.len() > 0 ==> !map_before(rs, n - 1).contains_key(rs[n - 1].name)
            && map_before(rs, n) == map_before(rs, n - 1).insert(rs[n - 1].name, rs[n - 1].stats),
{
    let r = rs[n - 1];
    let b0 = map_before(rs, n - 1);
    let b1 = map_before(rs, n);
    assert forall|k: Seq<u8>| k != r.name implies #[trigger] b1.contains_key(k) == b0.contains_key(k) by {
        if table_map(rs).contains_key(k) {
            lemma_slot_at_range(k, probe_offset(rs, k, 0));
        }
    }
    if r.name.len() == 0 {
        assert(!b1.contains_key(r.name));
        assert(b1 =~= b0);
    } else {
        assert(probe_slot(rs, r.name) == n - 1);
        assert(b1 =~= b0.insert(r.name, r.stats));
    }
}

proof fn lemma_merge_maps_insert(a: Map<Seq<u8>, Stats>, b: Map<Seq<u8>, Stats>, m: Seq<u8>, x: Stats)
    requires
        !b.contains_key(m),
        stats_in_range(stats_of(a, m)),
    ensures
        merge_maps(a, b.insert(m, x)) == merge_maps(a, b).insert(
            m,
            combine(stats_of(merge_maps(a, b), m), x),
        ),
{
    lemma_stats_of_merge(a, b, m);
    lemma_combine_empty(stats_of(a, m));
    assert(merge_maps(a, b.insert(m, x)) =~= merge_maps(a, b).insert(
        m,
        combine(stats_of(merge_maps(a, b), m), x),
    ));
}

/// Merging the first `n` slots of a well-formed table `rs` into a well-formed
/// table `t` gives a well-formed table holding the stations of both.
pub proof fn lemma_merge_slots_map(t: Seq<Slot>, rs: Seq<Slot>, n: int)
    requires
        table_wf(t),
        table_wf(rs),
        0 <= n <= NUM_BUCKETS,
        merge_slots(t, rs.take(n)) is Some,
    ensures
        table_wf(merge_slots(t, rs.take(n))->Some_0),
        table_map(merge_slots(t, rs.take(n))->Some_0) == merge_maps(table_map(t), map_before(rs, n)),
    decreases n,
{
    if n == 0 {
        assert(rs.take(0) =~= Seq::<Slot>::empty());
        lemma_map_before_zero(rs);
        lemma_merge_maps_empty(t);
    } else {
        assert(rs.take(n).drop_last() =~= rs.take(n - 1));
        assert(rs.take(n).last() == rs[n - 1]);
        lemma_merge_slots_map(t, rs, n - 1);
        lemma_map_before_step(rs, n);
        let cur = merge_slots(t, rs.take(n - 1))->Some_0;
        let r = rs[n - 1];
        if r.name.len() > 0 {
            lemma_insert(cur, r);
            lemma_table_map_in_range(t, r.name);
            lemma_merge_maps_insert(table_map(t), map_before(rs, n - 1), r.name, r.stats);
        }
    }
}

/// The non-empty names held by the slots of `t`.
pub open spec fn names_of(t: Seq<Slot>) -> Set<Seq<u8>> {
    t.map_values(|s: Slot| s.name).to_set().remove(Seq::empty())
}

/// Merging `b` into `a` keeps the sum and the count of every station that
/// both hold within `i64`.
pub open spec fn merge_fits(a: Map<Seq<u8>, Stats>, b: Map<Seq<u8>, Stats>) -> bool {
    forall|k: Seq<u8>|
        #![trigger a[k], b[k]]
        a.contains_key(k) && b.contains_key(k) ==> fits_i64(a[k].sum + b[k].sum) && fits_i64(
            a[k].count + b[k].count,
        )
}

/// The search for any name stops when the table has a free slot.
pub proof fn lemma_free_slot_stops_search(t: Seq<Slot>, n: Seq<u8>, e: int)
    requires
        t.len() == NUM_BUCKETS,
        0 <= e < NUM_BUCKETS,
        t[e].name.len() == 0,
    ensures
        probe_finds(t, n),
{
    let k = (e - slot_at(n, 0)) % (NUM_BUCKETS as int);
    lemma_slot_at_range(n, 0);
    assert(slot_at(n, k) == e) by {
        assert(slot_at(n, 0) == crate::measurements::home_slot(n) % (NUM_BUCKETS as int));
        assert(((crate::measurements::home_slot(n) % 15) + ((e - (crate::measurements::home_slot(n) % 15)) % 15)) % 15 == (crate::measurements::home_slot(n) + ((e - (crate::measurements::home_slot(n) % 15)) % 15)) % 15) by (nonlinear_arith);
        assert((crate::measurements::home_slot(n) + ((e - (crate::measurements::home_slot(n) % 15)) % 15)) % 15 == e) by (nonlinear_arith)
            requires
                0 <= e < 15,
        ;
    }
    lemma_probe_offset_props(t, n, 0);
    if probe_offset(t, n, 0) >= NUM_BUCKETS {
        assert(!stops_at(t, n, slot_at(n, k)));
    }
}

/// The stations of a table are names of its slots.
pub proof fn lemma_map_names(t: Seq<Slot>)
    requires
        t.len() == NUM_BUCKETS,
    ensures
        names_of(t).finite(),
        table_map(t).dom().subset_of(names_of(t)),
{
    let ns = t.map_values(|s: Slot| s.name);
    vstd::seq_lib::seq_to_set_is_finite(ns);
    assert forall|k: Seq<u8>| table_map(t).contains_key(k) implies #[trigger] names_of(t).contains(k) by {
        let p = probe_slot(t, k);
        lemma_slot_at_range(k, probe_offset(t, k, 0));
        assert(ns[p] == k);
        assert(ns.contains(k));
        assert(k != Seq::<u8>::empty());
    }
}

/// A well-formed table whose slots are all occupied holds `NUM_BUCKETS`
/// different names, each of them a station of the table.
proof fn lemma_full_table_names(t: Seq<Slot>)
    requires
        table_wf(t),
        forall|i: int| 0 <= i < NUM_BUCKETS ==> (#[trigger] t[i]).name.len() > 0,
    ensures
        names_of(t).len() == NUM_BUCKETS,
        names_of(t).subset_of(table_map(t).dom()),
{
    let ns = t.map_values(|s: Slot| s.name);
    assert(ns.no_duplicates()) by {
        assert forall|i: int, j: int| 0 <= i < ns.len() && 0 <= j < ns.len() && i != j implies ns[i]
            != ns[j] by {
            assert(probe_slot(t, t[i].name) == i);
            assert(probe_slot(t, t[j].name) == j);
        }
    }
    ns.unique_seq_to_set();
    assert(!ns.to_set().contains(Seq::<u8>::empty())) by {
        if ns.to_set().contains(Seq::<u8>::empty()) {
            assert(ns.contains(Seq::<u8>::empty()));
            let i = choose|i: int| 0 <= i < ns.len() && ns[i] == Seq::<u8>::empty();
            assert(t[i].name.len() > 0);
        }
    }
    assert(names_of(t) =~= ns.to_set());
    assert forall|k: Seq<u8>| #[trigger] names_of(t).contains(k) implies table_map(t).contains_key(k) by {
        assert(ns.contains(k));
        let i = choose|i: int| 0 <= i < ns.len() && ns[i] == k;
        assert(t[i].name == k);
        assert(probe_slot(t, t[i].name) == i);
    }
}

/// Merging the first `n` slots of a well-formed table `rs` into a
/// well-formed table `t` succeeds when the two hold at most `NUM_BUCKETS`
/// names together and the sums and counts of the stations they share stay
/// within `i64`.
pub proof fn lemma_merge_slots_succeeds(t: Seq<Slot>, rs: Seq<Slot>, n: int)
    requires
        table_wf(t),
        table_wf(rs),
        0 <= n <= NUM_BUCKETS,
        names_of(t).union(names_of(rs)).len() <= NUM_BUCKETS,
        merge_fits(table_map(t), table_map(rs)),
    ensures
        merge_slots(t, rs.take(n)) is Some,
    decreases n,
{
    if n == 0 {
        assert(rs.take(0) =~= Seq::<Slot>::empty());
    } else {
        lemma_merge_slots_succeeds(t, rs, n - 1);
        assert(rs.take(n).drop_last() =~= rs.take(n - 1));
        assert(rs.take(n).last() == rs[n - 1]);
        lemma_merge_slots_map(t, rs, n - 1);
        let cur = merge_slots(t, rs.take(n - 1))->Some_0;
        let r = rs[n - 1];
        if r.name.len() > 0 {
            let m = r.name;
            let a = table_map(t);
            let bb = map_before(rs, n - 1);
            lemma_map_before_step(rs, n);
            assert(probe_slot(rs, m) == n - 1);
            assert(table_map(rs).contains_key(m));
            assert(table_map(rs)[m] == r.stats);
            lemma_stats_of_merge(a, bb, m);
            lemma_table_map_in_range(t, m);
            lemma_combine_empty(stats_of(a, m));
            if table_map(cur).contains_key(m) {
                assert(a.contains_key(m));
                let p = probe_slot(cur, m);
                assert(cur[p].stats == table_map(cur)[m]);
                assert(fits_i64(a[m].sum + table_map(rs)[m].sum));
            } else {
                let u = names_of(t).union(names_of(rs));
                lemma_map_names(t);
                lemma_map_names(rs);
                lemma_map_names(cur);
                if forall|i: int| 0 <= i < NUM_BUCKETS ==> (#[trigger] cur[i]).name.len() > 0 {
                    lemma_full_table_names(cur);
                    assert(names_of(cur).subset_of(u.remove(m))) by {
                        assert forall|x: Seq<u8>| #[trigger] names_of(cur).contains(x) implies u.remove(
                            m,
                        ).contains(x) by {
                            assert(table_map(cur).contains_key(x));
                            if a.contains_key(x) {
                                assert(names_of(t).contains(x));
                            } else {
                                assert(bb.contains_key(x));
                                assert(table_map(rs).contains_key(x));
                                assert(names_of(rs).contains(x));
                            }
                        }
                    }
                    assert(names_of(rs).contains(m));
                    assert(u.contains(m));
                    vstd::set_lib::lemma_len_subset(names_of(cur), u.remove(m));
                    assert(false);
                }
                let e = choose|e: int| 0 <= e < NUM_BUCKETS && !((#[trigger] cur[e]).name.len() > 0);
                lemma_free_slot_stops_search(cur, m, e);
                let p = probe_slot(cur, m);
                lemma_probe_offset_props(cur, m, 0);
                lemma_slot_at_range(m, probe_offset(cur, m, 0));
                assert(cur[p].name != m);
                assert(cur[p].stats == empty_stats());
            }
            assert(can_insert(cur, r));
        }
    }
}

} // verus!
