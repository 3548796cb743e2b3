use vstd::prelude::*;
use std::cmp::Ordering;

verus! {

/// Running statistics of one station: the station's name and the minimum,
/// maximum, sum and number of the temperatures seen for it, each temperature
/// in tenths of a degree. A record with an empty name is a free slot.
#[derive(Debug, Clone, Copy, Ord, Eq, PartialEq, PartialOrd)]
pub struct Record<'a> {
    pub name: &'a [u8],
    pub min: i16,
    pub max: i16,
    pub sum: i64,
    pub count: i64,
}

/// The statistics of a record as mathematical integers.
pub struct Stats {
    pub min: int,
    pub max: int,
    pub sum: int,
    pub count: int,
}

pub open spec fn min_int(a: int, b: int) -> int {
    if a <= b { a } else { b }
}

pub open spec fn max_int(a: int, b: int) -> int {
    if a >= b { a } else { b }
}

/// The statistics of a free slot: no value seen yet.
pub open spec fn empty_stats() -> Stats {
    Stats { min: i16::MAX as int, max: i16::MIN as int, sum: 0, count: 0 }
}

/// The statistics after one more value `v` has been seen.
pub open spec fn add_value(s: Stats, v: int) -> Stats {
    Stats { min: min_int(s.min, v), max: max_int(s.max, v), sum: s.sum + v, count: s.count + 1 }
}

/// The statistics of the values seen by `a` and by `b` together.
pub open spec fn combine(a: Stats, b: Stats) -> Stats {
    Stats {
        min: min_int(a.min, b.min),
        max: max_int(a.max, b.max),
        sum: a.sum + b.sum,
        count: a.count + b.count,
    }
}

/// What a record holds, as mathematical values: the name's bytes and the
/// statistics.
#[verifier::ext_equal]
pub struct Slot {
    pub name: Seq<u8>,
    pub stats: Stats,
}

/// The slot after `b` has been merged into `a`: `b`'s name, both statistics
/// combined.
pub open spec fn merge_slot(a: Slot, b: Slot) -> Slot {
    Slot { name: b.name, stats: combine(a.stats, b.stats) }
}

/// The slot of a station `name` that has seen the single value `v`.
pub open spec fn single_slot(name: Seq<u8>, v: int) -> Slot {
    Slot { name, stats: add_value(empty_stats(), v) }
}

/// Whether `v` fits in an `i64`.
pub open spec fn fits_i64(v: int) -> bool {
    i64::MIN <= v <= i64::MAX
}

/// `a` comes before `b`, or equals it, in the byte-wise lexicographic order,
/// comparing from position `i` on.
pub open spec fn lex_le_from(a: Seq<u8>, b: Seq<u8>, i: int) -> bool
    decreases a.len() - i,
{
    if i < 0 || i >= a.len() {
        true
    } else if i >= b.len() {
        false
    } else if a[i] < b[i] {
        true
    } else if a[i] > b[i] {
        false
    } else {
        lex_le_from(a, b, i + 1)
    }
}

/// `a` comes before `b`, or equals it, in the byte-wise lexicographic order
/// (a proper prefix comes first).
pub open spec fn lex_le(a: Seq<u8>, b: Seq<u8>) -> bool {
    lex_le_from(a, b, 0)
}

/// The order of records that `derive(Ord)` gives `Record`: by name, then by
/// minimum, maximum, sum and count.
pub open spec fn slot_le(a: Slot, b: Slot) -> bool {
    if a.name != b.name {
        lex_le(a.name, b.name)
    } else if a.stats.min != b.stats.min {
        a.stats.min < b.stats.min
    } else if a.stats.max != b.stats.max {
        a.stats.max < b.stats.max
    } else if a.stats.sum != b.stats.sum {
        a.stats.sum < b.stats.sum
    } else {
        a.stats.count <= b.stats.count
    }
}

pub proof fn lemma_lex_le_reflexive(a: Seq<u8>, i: int)
    requires
        0 <= i,
    ensures
        lex_le_from(a, a, i),
    decreases a.len() - i,
{
    if i < a.len() {
        lemma_lex_le_reflexive(a, i + 1);
    }
}

pub proof fn lemma_lex_le_total(a: Seq<u8>, b: Seq<u8>, i: int)
    requires
        0 <= i,
    ensures
        lex_le_from(a, b, i) || lex_le_from(b, a, i),
    decreases a.len() - i,
{
    if i < a.len() && i < b.len() && a[i] == b[i] {
        lemma_lex_le_total(a, b, i + 1);
    }
}

pub proof fn lemma_lex_le_antisymmetric(a: Seq<u8>, b: Seq<u8>, i: int)
    requires
        0 <= i <= a.len(),
        i <= b.len(),
        lex_le_from(a, b, i),
        lex_le_from(b, a, i),
    ensures
        a.len() == b.len(),
        forall|k: int| i <= k < a.len() ==> a[k] == b[k],
    decreases a.len() - i,
{
    if i < a.len() {
        lemma_lex_le_antisymmetric(a, b, i + 1);
    }
}

pub proof fn lemma_lex_le_transitive(a: Seq<u8>, b: Seq<u8>, c: Seq<u8>, i: int)
    requires
        0 <= i,
        lex_le_from(a, b, i),
        lex_le_from(b, c, i),
    ensures
        lex_le_from(a, c, i),
    decreases a.len() - i,
{
    if i < a.len() && i < b.len() && i < c.len() && a[i] == b[i] && b[i] == c[i] {
        lemma_lex_le_transitive(a, b, c, i + 1);
    }
}

/// `slot_le` is a total order.
pub proof fn lemma_slot_le_total_ordering()
    ensures
        vstd::relations::total_ordering(|a: Slot, b: Slot| slot_le(a, b)),
{
    let r = |a: Slot, b: Slot| slot_le(a, b);
    assert forall|x: Slot| #[trigger] r(x, x) by {
        lemma_lex_le_reflexive(x.name, 0);
    }
    assert forall|x: Slot, y: Slot| #[trigger] r(x, y) && #[trigger] r(y, x) implies x == y by {
        if x.name != y.name {
            lemma_lex_le_antisymmetric(x.name, y.name, 0);
            assert(x.name =~= y.name);
        }
        assert(x.stats == y.stats);
    }
    assert forall|x: Slot, y: Slot, z: Slot| #[trigger] r(x, y) && #[trigger] r(y, z) implies r(
        x,
        z,
    ) by {
        if x.name != y.name && y.name != z.name {
            lemma_lex_le_transitive(x.name, y.name, z.name, 0);
            if x.name == z.name {
                lemma_lex_le_antisymmetric(x.name, y.name, 0);
                assert(x.name =~= y.name);
            }
        }
    }
    assert forall|x: Slot, y: Slot| #[trigger] r(x, y) || #[trigger] r(y, x) by {
        lemma_lex_le_total(x.name, y.name, 0);
    }
}

impl<'a> View for Record<'a> {
    type V = Slot;

    open spec fn view(&self) -> Slot {
        Slot { name: self.name@, stats: self.stats() }
    }
}

impl<'a> Record<'a> {
    pub open spec fn stats(self) -> Stats {
        Stats {
            min: self.min as int,
            max: self.max as int,
            sum: self.sum as int,
            count: self.count as int,
        }
    }

    /// Orders two records by their names, byte by byte.
    pub fn cmp(&self, other: &Self) -> (res: Ordering)
        ensures
            (res == Ordering::Equal) == (self.name@ == other.name@),
            (res == Ordering::Less) == (lex_le(self.name@, other.name@) && self.name@ != other.name@),
            (res == Ordering::Greater) == !lex_le(self.name@, other.name@),
    {
        let a = self.name;
        let b = other.name;
        let n = common_prefix_len(a, b);
        proof { lemma_lex_le_at_prefix(a@, b@, n); }
        if n < a.len() && n < b.len() {
            if a[n] < b[n] {
                Ordering::Less
            } else {
                Ordering::Greater
            }
        } else if a.len() == b.len() {
            Ordering::Equal
        } else if a.len() < b.len() {
            Ordering::Less
        } else {
            Ordering::Greater
        }
    }
}

impl<'a> Record<'a> {
    /// Takes one more value into the statistics.
    pub fn process(&mut self, value: i16)
        requires
            fits_i64(old(self).sum + value),
            old(self).count < i64::MAX,
        ensures
            final(self).name == old(self).name,
            final(self).stats() == add_value(old(self).stats(), value as int),
    {
        if value < self.min {
            self.min = value;
        }
        if value > self.max {
            self.max = value;
        }
        self.sum = self.sum + value as i64;
        self.count = self.count + 1;
    }

    /// A record for `name` that has seen the single value `value`.
    pub fn new_with_initial(name: &'a [u8], value: i16) -> (r: Self)
        ensures
            r.name == name,
            r.stats() == add_value(empty_stats(), value as int),
            r.stats() == (Stats { min: value as int, max: value as int, sum: value as int, count: 1 }),
    {
        Self { name, min: value, max: value, sum: value as i64, count: 1 }
    }

    /// The record of a free slot: empty name, no value seen.
    pub fn empty() -> (r: Self)
        ensures
            r.name@.len() == 0,
            r.stats() == empty_stats(),
    {
        let name = "".as_bytes();
        proof {
            reveal_strlit("");
        }
        Self { name, min: i16::MAX, max: i16::MIN, sum: 0, count: 0 }
    }

    /// Whether this record is a free slot (its name is empty).
    pub fn is_empty(&self) -> (b: bool)
        ensures
            b == (self.name@.len() == 0),
    {
        self.name.is_empty()
    }

    /// Whether this record holds a station (its name is not empty).
    pub fn is_full(&self) -> (b: bool)
        ensures
            b == (self.name@.len() > 0),
    {
        !self.is_empty()
    }

    /// Takes over the name of `other` and adds its statistics to these.
    pub fn merge(&mut self, other: &Self)
        requires
            fits_i64(old(self).sum + other.sum),
            fits_i64(old(self).count + other.count),
        ensures
            final(self).name == other.name,
            final(self).stats() == combine(old(self).stats(), other.stats()),
            final(self)@ == merge_slot(old(self)@, other@),
    {
        self.name = other.name;
        if other.max > self.max {
            self.max = other.max;
        }
        if other.min < self.min {
            self.min = other.min;
        }
        self.sum = self.sum + other.sum;
        self.count = self.count + other.count;
    }

    /// Takes one more value into the statistics; the name is left as it is
    /// and `_name` is not read.
    pub fn merge_values(&mut self, _name: &[u8], value: i16)
        requires
            fits_i64(old(self).sum + value),
            old(self).count < i64::MAX,
        ensures
            final(self).name == old(self).name,
            final(self).stats() == add_value(old(self).stats(), value as int),
    {
        if value > self.max {
            self.max = value;
        }
        if value < self.min {
            self.min = value;
        }
        self.sum = self.sum + value as i64;
        self.count = self.count + 1;
    }
}

/// Whether `a` comes before `b`, or equals it, in the order that
/// `derive(Ord)` gives records: by name, then by the statistics.
pub fn record_le(a: &Record, b: &Record) -> (r: bool)
    ensures
        r == slot_le(a@, b@),
{
    match a.cmp(b) {
        Ordering::Less => true,
        Ordering::Greater => false,
        Ordering::Equal => {
            if a.min != b.min {
                a.min < b.min
            } else if a.max != b.max {
                a.max < b.max
            } else if a.sum != b.sum {
                a.sum < b.sum
            } else {
                a.count <= b.count
            }
        },
    }
}

/// The length of the longest common prefix of `a` and `b`.
fn common_prefix_len(a: &[u8], b: &[u8]) -> (n: usize)
    ensures
        n <= a.len(),
        n <= b.len(),
        a@.subrange(0, n as int) == b@.subrange(0, n as int),
        n < a.len() && n < b.len() ==> a@[n as int] != b@[n as int],
{
    let mut i: usize = 0;
    while i < a.len() && i < b.len() && a[i] == b[i]
        invariant
            i <= a.len(),
            i <= b.len(),
            a@.subrange(0, i as int) == b@.subrange(0, i as int),
        decreases a.len() - i,
    {
        assert(a@.subrange(0, i + 1) =~= a@.subrange(0, i as int).push(a@[i as int]));
        assert(b@.subrange(0, i + 1) =~= b@.subrange(0, i as int).push(b@[i as int]));
        i = i + 1;
    }
    i
}

proof fn lemma_lex_le_from_prefix(a: Seq<u8>, b: Seq<u8>, i: int, n: int)
    requires
        0 <= i <= n,
        n <= a.len(),
        n <= b.len(),
        a.subrange(0, n) == b.subrange(0, n),
    ensures
        lex_le_from(a, b, i) == lex_le_from(a, b, n),
    decreases n - i,
{
    if i < n {
        assert(a[i] == a.subrange(0, n)[i]);
        assert(b[i] == b.subrange(0, n)[i]);
        lemma_lex_le_from_prefix(a, b, i + 1, n);
    }
}

/// What the lexicographic order says of two sequences once their longest
/// common prefix is known.
proof fn lemma_lex_le_at_prefix(a: Seq<u8>, b: Seq<u8>, n: usize)
    requires
        n <= a.len(),
        n <= b.len(),
        a.subrange(0, n as int) == b.subrange(0, n as int),
        n < a.len() && n < b.len() ==> a[n as int] != b[n as int],
    ensures
        n < a.len() && n < b.len() ==> lex_le(a, b) == (a[n as int] < b[n as int]) && a != b,
        n == a.len() ==> lex_le(a, b),
        n == b.len() && n < a.len() ==> !lex_le(a, b) && a != b,
        n == a.len() && n == b.len() ==> a == b,
        n == a.len() && n < b.len() ==> a != b,
{
    lemma_lex_le_from_prefix(a, b, 0, n as int);
    if n == a.len() && n == b.len() {
        assert(a =~= a.subrange(0, n as int));
        assert(b =~= b.subrange(0, n as int));
    }
}

} // verus!
