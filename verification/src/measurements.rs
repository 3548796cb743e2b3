use vstd::prelude::*;
use crate::record::{
    Record, Slot, Stats, fits_i64, merge_slot, single_slot, empty_stats, slot_le, record_le,
    lemma_slot_le_total_ordering, combine,
};
use vstd::relations::sorted_by;
use crate::table_model::{
    table_wf, table_map, merge_maps, stats_of, names_of, merge_fits, lemma_insert,
    lemma_merge_slots_map, lemma_map_before_all, lemma_empty_table, lemma_probe_offset_props,
    lemma_merge_slots_succeeds,
};

verus! {

/// Number of slots of the table.
pub const NUM_BUCKETS: usize = 15;

/// Offset basis of the 64-bit FNV-1a hash.
pub const INITIAL_HASH: u64 = 0xcbf29ce484222325u64;

/// Prime of the 64-bit FNV-1a hash.
pub const HASH_WRAP_MUL: u64 = 0x100000001b3;

/// One step of FNV-1a: xor the byte in, multiply by the prime modulo 2^64.
pub open spec fn fnv_step(h: u64, b: u8) -> u64 {
    (((h ^ (b as u64)) as int * HASH_WRAP_MUL as int) % 0x1_0000_0000_0000_0000int) as u64
}

/// The 64-bit FNV-1a hash of `s`.
pub open spec fn fnv_hash(s: Seq<u8>) -> u64
    decreases s.len(),
{
    if s.len() == 0 {
        INITIAL_HASH
    } else {
        fnv_step(fnv_hash(s.drop_last()), s.last())
    }
}

/// The slot where the search for `name` starts.
#[verifier::opaque]
pub open spec fn home_slot(name: Seq<u8>) -> int {
    (fnv_hash(name) % (NUM_BUCKETS as u64)) as int
}

/// The `k`-th slot visited by the search for `name`.
pub open spec fn slot_at(name: Seq<u8>, k: int) -> int {
    (home_slot(name) + k) % (NUM_BUCKETS as int)
}

/// The search for `name` stops at slot `i`: it is free or holds `name`.
pub open spec fn stops_at(t: Seq<Slot>, name: Seq<u8>, i: int) -> bool {
    t[i].name.len() == 0 || t[i].name == name
}

/// The number of slots the search for `name` passes over, starting with the
/// `k`-th one; `NUM_BUCKETS` when no slot stops it.
pub open spec fn probe_offset(t: Seq<Slot>, name: Seq<u8>, k: int) -> int
    decreases NUM_BUCKETS - k,
{
    if k < 0 || k >= NUM_BUCKETS {
        NUM_BUCKETS as int
    } else if stops_at(t, name, slot_at(name, k)) {
        k
    } else {
        probe_offset(t, name, k + 1)
    }
}

/// Some slot stops the search for `name`.
pub open spec fn probe_finds(t: Seq<Slot>, name: Seq<u8>) -> bool {
    probe_offset(t, name, 0) < NUM_BUCKETS
}

/// The slot where the search for `name` stops.
pub open spec fn probe_slot(t: Seq<Slot>, name: Seq<u8>) -> int {
    slot_at(name, probe_offset(t, name, 0))
}

/// The table of free slots.
pub open spec fn empty_table() -> Seq<Slot> {
    Seq::new(NUM_BUCKETS as nat, |i: int| Slot { name: Seq::empty(), stats: empty_stats() })
}

/// `r` can be merged into `t`: the search for its name stops, and the sum and
/// count of the slot found stay within `i64`.
pub open spec fn can_insert(t: Seq<Slot>, r: Slot) -> bool {
    &&& probe_finds(t, r.name)
    &&& fits_i64(t[probe_slot(t, r.name)].stats.sum + r.stats.sum)
    &&& fits_i64(t[probe_slot(t, r.name)].stats.count + r.stats.count)
}

/// `t` after `r` has been merged into the slot where the search for its name
/// stops.
pub open spec fn slot_insert(t: Seq<Slot>, r: Slot) -> Seq<Slot> {
    t.update(probe_slot(t, r.name), merge_slot(t[probe_slot(t, r.name)], r))
}

/// `t` after the occupied slots of `rs` have been merged into it one after
/// the other, in order; `None` when one of them cannot be merged.
pub open spec fn merge_slots(t: Seq<Slot>, rs: Seq<Slot>) -> Option<Seq<Slot>>
    decreases rs.len(),
{
    if rs.len() == 0 {
        Some(t)
    } else {
        match merge_slots(t, rs.drop_last()) {
            None => None,
            Some(t1) => {
                let r = rs.last();
                if r.name.len() == 0 {
                    Some(t1)
                } else if can_insert(t1, r) {
                    Some(slot_insert(t1, r))
                } else {
                    None
                }
            },
        }
    }
}

/// The first position at or after `i` where `s` holds `c`; `s.len()` when
/// there is none.
pub open spec fn find_byte(s: Seq<u8>, i: int, c: u8) -> int
    decreases s.len() - i,
{
    if i < 0 || i >= s.len() {
        s.len() as int
    } else if s[i] == c {
        i
    } else {
        find_byte(s, i + 1, c)
    }
}

/// The order of `slot_le` as a function value.
pub open spec fn slot_order() -> spec_fn(Slot, Slot) -> bool {
    |a: Slot, b: Slot| slot_le(a, b)
}

/// The occupied slots of `t`, in slot order.
pub open spec fn occupied(t: Seq<Slot>) -> Seq<Slot> {
    t.filter(|s: Slot| s.name.len() > 0)
}

/// The occupied slots of `t`, ordered as `derive(Ord)` orders records: by
/// name, then by the statistics.
pub open spec fn sorted_slots(t: Seq<Slot>) -> Seq<Slot> {
    occupied(t).sort_by(slot_order())
}

/// The views of a vector of records.
pub open spec fn records_view<'a>(v: Seq<Record<'a>>) -> Seq<Slot> {
    v.map_values(|r: Record<'a>| r@)
}

/// A table of `NUM_BUCKETS` records, searched by open addressing with linear
/// probing from the FNV-1a hash of the name.
#[derive(Clone)]
pub struct Measurements<'a>(pub Vec<Record<'a>>);

impl<'a> View for Measurements<'a> {
    type V = Seq<Slot>;

    open spec fn view(&self) -> Seq<Slot> {
        self.0@.map_values(|r: Record<'a>| r@)
    }
}

impl<'a> Measurements<'a> {
    /// A table of free slots.
    pub fn new() -> (m: Self)
        ensures
            m@ == empty_table(),
            table_wf(m@),
            table_map(m@) == Map::<Seq<u8>, Stats>::empty(),
    {
        let mut v: Vec<Record<'a>> = Vec::new();
        let mut i: usize = 0;
        while i < NUM_BUCKETS
            invariant
                i <= NUM_BUCKETS,
                v@.len() == i,
                forall|j: int| 0 <= j < i ==> #[trigger] v@[j]@ == empty_table()[j],
            decreases NUM_BUCKETS - i,
        {
            let r = Record::empty();
            assert(r@.name =~= Seq::<u8>::empty());
            v.push(r);
            i = i + 1;
        }
        let m = Self(v);
        proof {
            assert(m@ =~= empty_table());
            lemma_empty_table(m@);
        }
        m
    }

    /// The number of slots.
    pub fn num_buckets() -> (n: usize)
        ensures
            n == NUM_BUCKETS,
    {
        NUM_BUCKETS
    }

    /// The slot for `record`: the free slot, or the one that holds its name,
    /// where the search from the FNV-1a hash of the name stops. The table is
    /// not changed.
    pub fn hash(&mut self, record: &Record) -> (idx: usize)
        requires
            old(self)@.len() == NUM_BUCKETS,
            record.name@.len() > 0,
            probe_finds(old(self)@, record.name@),
        ensures
            *final(self) == *old(self),
            idx as int == probe_slot(old(self)@, record.name@),
    {
        let home = home_of(record.name);
        self.probe_from(record.name, home)
    }

    /// Whether the value `value` of station `name` can be added: the search
    /// for the name stops at some slot, and the sum and count of that slot
    /// stay within `i64`.
    pub fn can_take(&self, name: &[u8], value: i16) -> (b: bool)
        requires
            self@.len() == NUM_BUCKETS,
        ensures
            b == can_insert(self@, single_slot(name@, value as int)),
    {
        match self.find_slot(name) {
            None => false,
            Some(idx) => {
                let found = &self.0[idx];
                assert(self@[idx as int] == found@);
                let ok_sum = found.sum.checked_add(value as i64).is_some();
                let ok_count = found.count < i64::MAX;
                ok_sum && ok_count
            },
        }
    }

    /// The slot where the search for `name` stops; `None` when every slot is
    /// occupied by another name.
    pub fn find_slot(&self, name: &[u8]) -> (r: Option<usize>)
        requires
            self@.len() == NUM_BUCKETS,
        ensures
            r is Some <==> probe_finds(self@, name@),
            r matches Some(idx) ==> idx as int == probe_slot(self@, name@),
    {
        let home = home_of(name);
        let mut hashed_idx = home;
        let mut k: usize = 0;
        proof {
            reveal(home_slot);
        }
        while k < NUM_BUCKETS
            invariant
                self@.len() == NUM_BUCKETS,
                home as int == home_slot(name@),
                0 <= k <= NUM_BUCKETS,
                k < NUM_BUCKETS ==> hashed_idx as int == slot_at(name@, k as int),
                probe_offset(self@, name@, 0) == probe_offset(self@, name@, k as int),
            decreases NUM_BUCKETS - k,
        {
            let found = &self.0[hashed_idx];
            assert(self@[hashed_idx as int] == found@);
            if found.is_empty() || same_bytes(found.name, name) {
                return Some(hashed_idx);
            }
            hashed_idx += 1;
            hashed_idx %= NUM_BUCKETS;
            k = k + 1;
        }
        None
    }

    /// Reads the bytes of `s` from `start` up to the first `stop_char`,
    /// hashing them, and searches for the slot of the name they spell.
    /// Returns that slot and the position of the `stop_char`.
    pub fn hash_until_char(&self, s: &[u8], start: usize, stop_char: u8) -> (res: (usize, usize))
        requires
            self@.len() == NUM_BUCKETS,
            find_byte(s@, start as int, stop_char) < s@.len(),
            probe_finds(self@, s@.subrange(start as int, find_byte(s@, start as int, stop_char))),
        ensures
            res.1 as int == find_byte(s@, start as int, stop_char),
            res.0 as int == probe_slot(self@, s@.subrange(start as int, res.1 as int)),
    {
        let mut city_name_end = start;
        let mut hash = INITIAL_HASH;
        while s[city_name_end] != stop_char
            invariant
                start <= city_name_end < s@.len(),
                find_byte(s@, start as int, stop_char) == find_byte(s@, city_name_end as int, stop_char),
                find_byte(s@, start as int, stop_char) < s@.len(),
                hash == fnv_hash(s@.subrange(start as int, city_name_end as int)),
            decreases s@.len() - city_name_end,
        {
            proof {
                assert(s@.subrange(start as int, city_name_end + 1).drop_last()
                    =~= s@.subrange(start as int, city_name_end as int));
                lemma_find_byte_at_least(s@, city_name_end + 1, stop_char);
            }
            hash ^= s[city_name_end] as u64;
            hash = hash.wrapping_mul(HASH_WRAP_MUL);
            city_name_end += 1;
        }
        let home = (hash % Measurements::num_buckets() as u64) as usize;
        let name = &s[start..city_name_end];
        proof {
            reveal(home_slot);
        }
        let hashed_idx = self.probe_from(name, home);
        (hashed_idx, city_name_end)
    }

    /// Adds `value` to the slot `hashed_idx`, which then holds `name`.
    pub fn process_at(&mut self, hashed_idx: usize, name: &'a [u8], value: i16)
        requires
            hashed_idx < old(self)@.len(),
            fits_i64(old(self)@[hashed_idx as int].stats.sum + value),
            fits_i64(old(self)@[hashed_idx as int].stats.count + 1),
        ensures
            final(self)@ == old(self)@.update(
                hashed_idx as int,
                merge_slot(old(self)@[hashed_idx as int], single_slot(name@, value as int)),
            ),
    {
        let mut r = self.0[hashed_idx];
        r.merge(&Record::new_with_initial(name, value));
        r.name = name;
        self.0.set(hashed_idx, r);
        proof {
            assert(final(self)@ =~= old(self)@.update(
                hashed_idx as int,
                merge_slot(old(self)@[hashed_idx as int], single_slot(name@, value as int)),
            ));
        }
    }

    /// Merges `other` into the slot for its name.
    pub fn merge_one<'b: 'a>(&mut self, other: &Record<'b>)
        requires
            old(self)@.len() == NUM_BUCKETS,
            other.name@.len() > 0,
            can_insert(old(self)@, other@),
        ensures
            final(self)@ == slot_insert(old(self)@, other@),
            table_wf(old(self)@) ==> table_wf(final(self)@) && table_map(final(self)@)
                == table_map(old(self)@).insert(
                other.name@,
                combine(stats_of(table_map(old(self)@), other.name@), other@.stats),
            ),
    {
        proof {
            if table_wf(old(self)@) {
                lemma_insert(old(self)@, other@);
            }
        }
        let hashed_idx = self.hash(other);
        let mut r = self.0[hashed_idx];
        r.merge(other);
        self.0.set(hashed_idx, r);
        proof {
            assert(final(self)@ =~= slot_insert(old(self)@, other@));
        }
    }

    /// Whether `merge` can take `other`: every occupied slot of `other`,
    /// merged in slot order, finds a slot and keeps sums and counts within
    /// `i64`.
    pub fn can_merge(&self, other: &Measurements<'a>) -> (b: bool)
        requires
            self@.len() == NUM_BUCKETS,
        ensures
            b == merge_slots(self@, other@) is Some,
            table_wf(self@) && table_wf(other@) && names_of(self@).union(names_of(other@)).len()
                <= NUM_BUCKETS && merge_fits(table_map(self@), table_map(other@)) ==> b,
    {
        proof {
            if table_wf(self@) && table_wf(other@) && names_of(self@).union(names_of(other@)).len()
                <= NUM_BUCKETS && merge_fits(table_map(self@), table_map(other@)) {
                lemma_merge_slots_succeeds(self@, other@, NUM_BUCKETS as int);
                assert(other@.take(NUM_BUCKETS as int) =~= other@);
            }
        }
        self.merge_fits_all(other)
    }

    /// Merges `other` into a copy of this table, slot by slot, and reports
    /// whether every step can be taken.
    fn merge_fits_all(&self, other: &Measurements<'a>) -> (b: bool)
        requires
            self@.len() == NUM_BUCKETS,
        ensures
            b == merge_slots(self@, other@) is Some,
    {
        let mut copy = Measurements(Vec::new());
        let mut j: usize = 0;
        while j < self.0.len()
            invariant
                j <= self.0@.len(),
                copy.0@ == self.0@.take(j as int),
            decreases self.0@.len() - j,
        {
            copy.0.push(self.0[j]);
            j = j + 1;
            assert(copy.0@ =~= self.0@.take(j as int));
        }
        assert(self.0@.take(j as int) =~= self.0@);
        assert(copy@ =~= self@);
        let mut i: usize = 0;
        while i < other.0.len()
            invariant
                i <= other@.len(),
                copy@.len() == NUM_BUCKETS,
                merge_slots(self@, other@.take(i as int)) == Some(copy@),
            decreases other@.len() - i,
        {
            let e = &other.0[i];
            proof {
                assert(other@.take(i + 1).drop_last() =~= other@.take(i as int));
                assert(other@.take(i + 1).last() == e@);
            }
            if !e.is_empty() {
                match copy.find_slot(e.name) {
                    None => {
                        proof {
                            lemma_merge_slots_none_extends(self@, other@, i as int + 1);
                        }
                        return false;
                    },
                    Some(idx) => {
                        let found = &copy.0[idx];
                        assert(copy@[idx as int] == found@);
                        if found.sum.checked_add(e.sum).is_none() || found.count.checked_add(
                            e.count,
                        ).is_none() {
                            proof {
                                lemma_merge_slots_none_extends(self@, other@, i as int + 1);
                            }
                            return false;
                        }
                    },
                }
                copy.merge_one(e);
            }
            i = i + 1;
        }
        assert(other@.take(i as int) =~= other@);
        true
    }

    /// Merges every occupied slot of `other` into this table, in slot order.
    pub fn merge(&mut self, other: Measurements<'a>)
        requires
            old(self)@.len() == NUM_BUCKETS,
            merge_slots(old(self)@, other@) is Some,
        ensures
            final(self)@ == merge_slots(old(self)@, other@)->Some_0,
            table_wf(old(self)@) && table_wf(other@) ==> table_wf(final(self)@) && table_map(
                final(self)@,
            ) == merge_maps(table_map(old(self)@), table_map(other@)),
    {
        let mut i: usize = 0;
        while i < other.0.len()
            invariant
                i <= other@.len(),
                self@.len() == NUM_BUCKETS,
                merge_slots(old(self)@, other@) is Some,
                merge_slots(old(self)@, other@.take(i as int)) == Some(self@),
            decreases other@.len() - i,
        {
            let e = &other.0[i];
            proof {
                assert(other@.take(i + 1).drop_last() =~= other@.take(i as int));
                assert(other@.take(i + 1).last() == e@);
                lemma_merge_slots_prefix_some(old(self)@, other@, i + 1);
            }
            if !e.is_empty() {
                self.merge_one(e);
            }
            i = i + 1;
        }
        assert(other@.take(i as int) =~= other@);
        proof {
            if table_wf(old(self)@) && table_wf(other@) {
                lemma_merge_slots_map(old(self)@, other@, NUM_BUCKETS as int);
                lemma_map_before_all(other@);
            }
        }
    }

    /// The occupied records, sorted as `derive(Ord)` orders them: by name,
    /// then by the statistics.
    pub fn sorted(self) -> (r: Vec<Record<'a>>)
        ensures
            records_view(r@) == sorted_slots(self@),
    {
        let mut r: Vec<Record<'a>> = Vec::new();
        let mut i: usize = 0;
        proof {
            lemma_slot_le_total_ordering();
            assert(records_view(r@) =~= Seq::<Slot>::empty());
            assert(occupied(self@.take(0)) =~= Seq::<Slot>::empty()) by {
                reveal(Seq::filter);
            }
        }
        while i < self.0.len()
            invariant
                i <= self@.len(),
                vstd::relations::total_ordering(slot_order()),
                sorted_by(records_view(r@), slot_order()),
                records_view(r@).to_multiset() == occupied(self@.take(i as int)).to_multiset(),
            decreases self@.len() - i,
        {
            let x = self.0[i];
            proof {
                broadcast use vstd::seq_lib::group_to_multiset_ensures;
                assert(self@.take(i + 1) =~= self@.take(i as int).push(x@));
                self@.take(i as int).lemma_filter_push(x@, |s: Slot| s.name.len() > 0);
            }
            if !x.is_empty() {
                let mut j: usize = 0;
                while j < r.len() && record_le(&r[j], &x)
                    invariant
                        j <= r@.len(),
                        forall|k: int| 0 <= k < j ==> slot_le(#[trigger] records_view(r@)[k], x@),
                    decreases r@.len() - j,
                {
                    j = j + 1;
                }
                let ghost old_view = records_view(r@);
                r.insert(j, x);
                proof {
                    assert(records_view(r@) =~= old_view.insert(j as int, x@));
                    vstd::seq_lib::to_multiset_insert(old_view, j as int, x@);
                    let nv = records_view(r@);
                    assert forall|a: int, b: int| 0 <= a < b < nv.len() implies #[trigger] (
                    slot_order())(nv[a], nv[b]) by {
                        if j < old_view.len() {
                            assert(!slot_le(old_view[j as int], x@));
                            assert((slot_order())(old_view[j as int], x@) || (slot_order())(
                                x@,
                                old_view[j as int],
                            ));
                        }
                        if a < j && b == j {
                        } else if a < j && b > j {
                            assert((slot_order())(old_view[a], old_view[b - 1]));
                        } else if a == j && b > j {
                            assert((slot_order())(old_view[j as int], old_view[b - 1]) || b - 1
                                == j);
                        } else if a > j {
                            assert((slot_order())(old_view[a - 1], old_view[b - 1]));
                        } else {
                            assert((slot_order())(old_view[a], old_view[b]));
                        }
                    }
                }
            }
            i = i + 1;
        }
        proof {
            assert(self@.take(i as int) =~= self@);
            occupied(self@).lemma_sort_by_ensures(slot_order());
            vstd::seq_lib::lemma_sorted_unique(
                records_view(r@),
                sorted_slots(self@),
                slot_order(),
            );
        }
        r
    }

    /// Searches from `home` for the slot that is free or holds `name`.
    fn probe_from(&self, name: &[u8], home: usize) -> (idx: usize)
        requires
            self@.len() == NUM_BUCKETS,
            home as int == home_slot(name@),
            probe_finds(self@, name@),
        ensures
            idx as int == probe_slot(self@, name@),
    {
        let mut hashed_idx = home;
        let ghost mut k: int = 0;
        proof {
            reveal(home_slot);
        }
        loop
            invariant
                self@.len() == NUM_BUCKETS,
                home as int == home_slot(name@),
                0 <= k < NUM_BUCKETS,
                hashed_idx as int == slot_at(name@, k),
                probe_offset(self@, name@, 0) == probe_offset(self@, name@, k),
                probe_offset(self@, name@, 0) < NUM_BUCKETS,
            ensures
                hashed_idx as int == probe_slot(self@, name@),
            decreases NUM_BUCKETS - k,
        {
            let found = &self.0[hashed_idx];
            assert(self@[hashed_idx as int] == found@);
            if found.is_empty() || same_bytes(found.name, name) {
                break;
            } else {
                proof {
                    lemma_probe_offset_props(self@, name@, k + 1);
                }
                hashed_idx += 1;
                hashed_idx %= NUM_BUCKETS;
                proof {
                    k = k + 1;
                }
            }
        }
        hashed_idx
    }
}

/// When merging a prefix of `rs` fails, merging all of it fails.
proof fn lemma_merge_slots_none_extends(t: Seq<Slot>, rs: Seq<Slot>, n: int)
    requires
        0 <= n <= rs.len(),
        merge_slots(t, rs.take(n)) is None,
    ensures
        merge_slots(t, rs) is None,
{
    if merge_slots(t, rs) is Some {
        lemma_merge_slots_prefix_some(t, rs, n);
    }
}

/// When merging all of `rs` succeeds, merging any prefix of it succeeds.
proof fn lemma_merge_slots_prefix_some(t: Seq<Slot>, rs: Seq<Slot>, n: int)
    requires
        0 <= n <= rs.len(),
        merge_slots(t, rs) is Some,
    ensures
        merge_slots(t, rs.take(n)) is Some,
    decreases rs.len() - n,
{
    if n < rs.len() {
        assert(rs.take(n + 1).drop_last() =~= rs.take(n));
        lemma_merge_slots_prefix_some(t, rs, n + 1);
    } else {
        assert(rs.take(n) =~= rs);
    }
}

pub proof fn lemma_find_byte_at_least(s: Seq<u8>, i: int, c: u8)
    requires
        0 <= i <= s.len(),
    ensures
        i <= find_byte(s, i, c) <= s.len(),
    decreases s.len() - i,
{
    if i < s.len() && s[i] != c {
        lemma_find_byte_at_least(s, i + 1, c);
    }
}

/// The slot where the search for `name` starts: its FNV-1a hash modulo the
/// number of slots.
fn home_of(name: &[u8]) -> (home: usize)
    ensures
        home as int == home_slot(name@),
        home < NUM_BUCKETS,
{
    let mut hash = INITIAL_HASH;
    let mut i: usize = 0;
    while i < name.len()
        invariant
            i <= name.len(),
            hash == fnv_hash(name@.subrange(0, i as int)),
        decreases name.len() - i,
    {
        proof {
            assert(name@.subrange(0, i + 1).drop_last() =~= name@.subrange(0, i as int));
        }
        hash ^= name[i] as u64;
        hash = hash.wrapping_mul(HASH_WRAP_MUL);
        i = i + 1;
    }
    assert(name@.subrange(0, i as int) =~= name@);
    proof {
        reveal(home_slot);
    }
    (hash % Measurements::num_buckets() as u64) as usize
}

/// Whether two byte strings are equal.
fn same_bytes(a: &[u8], b: &[u8]) -> (r: bool)
    ensures
        r == (a@ == b@),
{
    if a.len() != b.len() {
        return false;
    }
    let mut i: usize = 0;
    while i < a.len()
        invariant
            i <= a.len(),
            a.len() == b.len(),
            a@.subrange(0, i as int) == b@.subrange(0, i as int),
        decreases a.len() - i,
    {
        if a[i] != b[i] {
            assert(a@[i as int] != b@[i as int]);
            return false;
        }
        assert(a@.subrange(0, i + 1) =~= a@.subrange(0, i as int).push(a@[i as int]));
        assert(b@.subrange(0, i + 1) =~= b@.subrange(0, i as int).push(b@[i as int]));
        i = i + 1;
    }
    assert(a@ =~= a@.subrange(0, i as int));
    assert(b@ =~= b@.subrange(0, i as int));
    true
}

} // verus!
