use vstd::prelude::*;
use crate::record::{
    Slot, Stats, add_value, combine, merge_slot, single_slot, lex_le, lemma_slot_le_total_ordering,
};
use crate::table_model::{
    merge_maps, stats_of, table_wf, table_map, names_of, merge_fits, lemma_stats_of_merge,
    lemma_merge_slots_succeeds, lemma_merge_slots_map, lemma_map_before_all,
};
use crate::parse::{
    add_pairs, aggregate, line_ok, line_name, line_value, line_next, SEMICOLON, NEWLINE,
    chunk_lines, lemma_line_next_advances, lemma_line_value_range, chunk_border, borders_ok,
    NUM_CORES,
};
use crate::measurements::{
    NUM_BUCKETS, find_byte, occupied, sorted_slots, slot_order, probe_slot, merge_slots,
    lemma_find_byte_at_least,
};
use crate::output::decimal_bytes;
use crate::generate::measurement_bytes;

verus! {

/// Every value of `pairs` fits in an `i16`.
pub open spec fn values_in_i16(pairs: Seq<(Seq<u8>, int)>) -> bool {
    forall|i: int| 0 <= i < pairs.len() ==> i16::MIN <= (#[trigger] pairs[i]).1 <= i16::MAX
}

/// Every minimum and maximum of `m` fits in an `i16`.
pub open spec fn bounds_in_i16(m: Map<Seq<u8>, Stats>) -> bool {
    forall|k: Seq<u8>|
        #[trigger] m.contains_key(k) ==> i16::MIN <= m[k].min <= i16::MAX && i16::MIN <= m[k].max
            <= i16::MAX
}

proof fn lemma_add_pairs_append(m: Map<Seq<u8>, Stats>, a: Seq<(Seq<u8>, int)>, b: Seq<(Seq<u8>, int)>)
    ensures
        add_pairs(m, a + b) == add_pairs(add_pairs(m, a), b),
    decreases a.len(),
{
    if a.len() > 0 {
        let (n, v) = a[0];
        assert((a + b)[0] == a[0]);
        assert((a + b).drop_first() =~= a.drop_first() + b);
        lemma_add_pairs_append(m.insert(n, add_value(stats_of(m, n), v)), a.drop_first(), b);
    } else {
        assert(a + b =~= b);
    }
}

proof fn lemma_add_pairs_bounds(m: Map<Seq<u8>, Stats>, a: Seq<(Seq<u8>, int)>)
    requires
        bounds_in_i16(m),
        values_in_i16(a),
    ensures
        bounds_in_i16(add_pairs(m, a)),
    decreases a.len(),
{
    if a.len() > 0 {
        let (n, v) = a[0];
        assert(i16::MIN <= a[0].1 <= i16::MAX);
        let m2 = m.insert(n, add_value(stats_of(m, n), v));
        assert(bounds_in_i16(m2));
        assert(values_in_i16(a.drop_first())) by {
            assert forall|i: int| 0 <= i < a.drop_first().len() implies i16::MIN <= (
            #[trigger] a.drop_first()[i]).1 <= i16::MAX by {
                assert(a.drop_first()[i] == a[i + 1]);
            }
        }
        lemma_add_pairs_bounds(m2, a.drop_first());
    }
}

proof fn lemma_add_pairs_merge(a: Map<Seq<u8>, Stats>, b: Map<Seq<u8>, Stats>, p: Seq<(Seq<u8>, int)>)
    ensures
        add_pairs(merge_maps(a, b), p) == merge_maps(a, add_pairs(b, p)),
    decreases p.len(),
{
    if p.len() > 0 {
        let (n, v) = p[0];
        let b2 = b.insert(n, add_value(stats_of(b, n), v));
        let ab = merge_maps(a, b);
        lemma_stats_of_merge(a, b, n);
        assert(ab.insert(n, add_value(stats_of(ab, n), v)) =~= merge_maps(a, b2));
        lemma_add_pairs_merge(a, b2, p.drop_first());
    }
}

/// Splitting the lines in two, aggregating each part and merging the two
/// results gives the aggregate of all the lines: the statistics do not
/// depend on how the input is cut into chunks.
pub proof fn law_aggregate_split(a: Seq<(Seq<u8>, int)>, b: Seq<(Seq<u8>, int)>)
    requires
        values_in_i16(a),
    ensures
        aggregate(a + b) == merge_maps(aggregate(a), aggregate(b)),
{
    let e = Map::<Seq<u8>, Stats>::empty();
    lemma_add_pairs_append(e, a, b);
    lemma_add_pairs_bounds(e, a);
    let ma = aggregate(a);
    assert(merge_maps(ma, e) =~= ma) by {
        assert forall|k: Seq<u8>| #[trigger] ma.contains_key(k) implies merge_maps(ma, e)[k]
            == ma[k] by {
        }
    }
    lemma_add_pairs_merge(ma, e, b);
}

/// The first `c` of `s` at or after `i` is at `k` when `s[i..k]` holds no
/// `c` and `s[k]` is `c`.
proof fn lemma_find_byte_at(s: Seq<u8>, i: int, k: int, c: u8)
    requires
        0 <= i <= k < s.len(),
        s[k] == c,
        forall|j: int| i <= j < k ==> s[j] != c,
    ensures
        find_byte(s, i, c) == k,
    decreases k - i,
{
    if i < k {
        lemma_find_byte_at(s, i + 1, k, c);
    }
}

/// The digits of a value from -999 to 999 as `decimal_bytes` writes them.
proof fn lemma_decimal_digits(v: int)
    requires
        -999 <= v <= 999,
    ensures
        ({
            let a = if v < 0 { -v } else { v };
            &&& (a / 100) % 256 == a / 100
            &&& 0 <= a / 100 <= 9
            &&& a >= 10 ==> a == (a / 100) * 100 + ((a / 10) % 10) * 10 + a % 10
            &&& a < 10 ==> a == ((a / 10) % 10) * 10 + a % 10
        }),
{
    let a = if v < 0 { -v } else { v };
    assert(0 <= a <= 999);
    assert(a == (a / 100) * 100 + ((a / 10) % 10) * 10 + a % 10) by (nonlinear_arith)
        requires
            0 <= a <= 999,
    ;
}

/// A line `name;value\n` whose value was written by `write_n` reads back as
/// the same name and value, and the next line starts right after it.
pub proof fn law_written_value_reads_back(name: Seq<u8>, v: int)
    requires
        -999 <= v <= 999,
        !name.contains(SEMICOLON),
    ensures
        ({
            let line = name + seq![SEMICOLON] + decimal_bytes(v) + seq![NEWLINE];
            &&& line_ok(line, 0)
            &&& line_name(line, 0) == name
            &&& line_value(line, 0) == v
            &&& line_next(line, 0) == line.len()
        }),
{
    let d = decimal_bytes(v);
    let line = name + seq![SEMICOLON] + d + seq![NEWLINE];
    let n = name.len() as int;
    assert forall|j: int| 0 <= j < n implies line[j] != SEMICOLON by {
        assert(line[j] == name[j]);
    }
    lemma_find_byte_at(line, 0, n, SEMICOLON);
    assert(line.subrange(0, n) =~= name);
    lemma_decimal_digits(v);
    assert forall|j: int| 0 <= j < d.len() implies line[n + 1 + j] == d[j] by {}
    assert(line[n + 1 + d.len()] == NEWLINE);
}

/// A line written by the generator reads back as its station and its value
/// in tenths, and the next line starts right after it.
pub proof fn law_generated_line_reads_back(
    city: Seq<u8>,
    is_negative: bool,
    whole_part: u8,
    decimal_part: u8,
)
    requires
        whole_part < 99,
        decimal_part <= 9,
        !city.contains(SEMICOLON),
    ensures
        ({
            let line = measurement_bytes(city, is_negative, whole_part, decimal_part);
            let magnitude = whole_part * 10 + decimal_part;
            &&& line_ok(line, 0)
            &&& line_name(line, 0) == city
            &&& line_value(line, 0) == if is_negative { -magnitude } else { magnitude }
            &&& line_next(line, 0) == line.len()
        }),
{
    let line = measurement_bytes(city, is_negative, whole_part, decimal_part);
    assert forall|j: int| 0 <= j < city.len() implies line[j] != SEMICOLON by {
        assert(line[j] == city[j]);
    }
    lemma_find_byte_at(line, 0, city.len() as int, SEMICOLON);
    assert(line.subrange(0, city.len() as int) =~= city);
}

/// Taking one value into a record gives the statistics of merging into it a
/// record that has seen only that value.
pub proof fn law_add_value_is_merge_of_single(r: Slot, n: Seq<u8>, v: int)
    requires
        i16::MIN <= v <= i16::MAX,
    ensures
        merge_slot(r, single_slot(n, v)).stats == add_value(r.stats, v),
        merge_slot(r, single_slot(n, v)).name == n,
{
}

/// In a well-formed table two occupied slots with the same name are the same
/// slot.
proof fn lemma_wf_names_distinct(t: Seq<Slot>, p: int, q: int)
    requires
        table_wf(t),
        0 <= p < t.len(),
        0 <= q < t.len(),
        t[p].name.len() > 0,
        t[p].name == t[q].name,
    ensures
        p == q,
{
    assert(probe_slot(t, t[p].name) == p);
    assert(probe_slot(t, t[q].name) == q);
}

/// The occupied slots of the first `k` slots of a well-formed table occur
/// once each, and each is one of those slots.
proof fn lemma_occupied_prefix(t: Seq<Slot>, k: int)
    requires
        table_wf(t),
        0 <= k <= t.len(),
    ensures
        occupied(t.take(k)).no_duplicates(),
        forall|y: Slot| #[trigger] occupied(t.take(k)).contains(y) ==> exists|p: int|
            0 <= p < k && t[p] == y && y.name.len() > 0,
    decreases k,
{
    if k == 0 {
        assert(occupied(t.take(0)) =~= Seq::<Slot>::empty()) by {
            reveal(Seq::filter);
        }
    } else {
        lemma_occupied_prefix(t, k - 1);
        let x = t[k - 1];
        assert(t.take(k) =~= t.take(k - 1).push(x));
        t.take(k - 1).lemma_filter_push(x, |s: Slot| s.name.len() > 0);
        let prev = occupied(t.take(k - 1));
        if x.name.len() > 0 {
            assert(!prev.contains(x)) by {
                if prev.contains(x) {
                    let p = choose|p: int| 0 <= p < k - 1 && t[p] == x && x.name.len() > 0;
                    lemma_wf_names_distinct(t, p, k - 1);
                }
            }
            assert forall|y: Slot| #[trigger] occupied(t.take(k)).contains(y) implies exists|p: int|
                0 <= p < k && t[p] == y && y.name.len() > 0 by {
                if y != x {
                    let i = choose|i: int| 0 <= i < occupied(t.take(k)).len() && occupied(t.take(k))[i] == y;
                    assert(prev.contains(y)) by {
                        assert(prev[i] == y);
                    }
                } else {
                    assert(t[k - 1] == y);
                }
            }
        } else {
            assert forall|y: Slot| #[trigger] occupied(t.take(k)).contains(y) implies exists|p: int|
                0 <= p < k && t[p] == y && y.name.len() > 0 by {
                assert(prev.contains(y));
            }
        }
    }
}

/// The records of a well-formed table come out of `sorted` with strictly
/// increasing names: no station appears twice, and the order is that of the
/// names alone.
pub proof fn law_sorted_names_strictly_increasing(t: Seq<Slot>)
    requires
        table_wf(t),
    ensures
        forall|i: int, j: int|
            0 <= i < j < sorted_slots(t).len() ==> lex_le(
                #[trigger] sorted_slots(t)[i].name,
                #[trigger] sorted_slots(t)[j].name,
            ) && sorted_slots(t)[i].name != sorted_slots(t)[j].name,
{
    broadcast use vstd::seq_lib::group_to_multiset_ensures;
    lemma_slot_le_total_ordering();
    lemma_occupied_prefix(t, t.len() as int);
    assert(t.take(t.len() as int) =~= t);
    let occ = occupied(t);
    let srt = sorted_slots(t);
    occ.lemma_sort_by_ensures(slot_order());
    occ.lemma_multiset_has_no_duplicates();
    srt.lemma_multiset_has_no_duplicates_conv();
    assert forall|i: int, j: int| 0 <= i < j < srt.len() implies lex_le(
        #[trigger] srt[i].name,
        #[trigger] srt[j].name,
    ) && srt[i].name != srt[j].name by {
        assert((slot_order())(srt[i], srt[j]));
        assert(srt[i] != srt[j]);
        assert(srt.to_multiset().count(srt[i]) > 0);
        assert(srt.to_multiset().count(srt[j]) > 0);
        assert(occ.contains(srt[i]));
        assert(occ.contains(srt[j]));
        if srt[i].name == srt[j].name {
            let p = choose|p: int| 0 <= p < t.len() && t[p] == srt[i] && srt[i].name.len() > 0;
            let q = choose|q: int| 0 <= q < t.len() && t[q] == srt[j] && srt[j].name.len() > 0;
            lemma_wf_names_distinct(t, p, q);
        }
    }
}

/// Reading lines from `a` on, one after the other, reaches position `b`
/// exactly.
pub open spec fn reaches(s: Seq<u8>, a: int, b: int) -> bool
    decreases s.len() + 2 - a,
{
    if a == b {
        true
    } else if a > b || !line_ok(s, a) {
        false
    } else {
        proof {
            lemma_line_next_advances(s, a);
        }
        reaches(s, line_next(s, a), b)
    }
}

proof fn lemma_chunk_lines_split(s: Seq<u8>, a: int, b: int, c: int)
    requires
        reaches(s, a, b),
        b <= c,
    ensures
        chunk_lines(s, a, c) == chunk_lines(s, a, b) + chunk_lines(s, b, c),
    decreases s.len() + 2 - a,
{
    if a == b {
        assert(chunk_lines(s, a, b) =~= Seq::<(Seq<u8>, int)>::empty());
        assert(chunk_lines(s, a, c) =~= chunk_lines(s, a, b) + chunk_lines(s, b, c));
    } else {
        lemma_line_next_advances(s, a);
        lemma_chunk_lines_split(s, line_next(s, a), b, c);
        let head = seq![(line_name(s, a), line_value(s, a))];
        assert(chunk_lines(s, a, c) =~= head + chunk_lines(s, line_next(s, a), c));
        assert(chunk_lines(s, a, b) =~= head + chunk_lines(s, line_next(s, a), b));
        assert(chunk_lines(s, a, c) =~= chunk_lines(s, a, b) + chunk_lines(s, b, c));
    }
}

proof fn lemma_chunk_lines_in_i16(s: Seq<u8>, a: int, b: int)
    ensures
        values_in_i16(chunk_lines(s, a, b)),
    decreases s.len() + 2 - a,
{
    if a < b && line_ok(s, a) {
        lemma_line_next_advances(s, a);
        lemma_line_value_range(s, a);
        lemma_chunk_lines_in_i16(s, line_next(s, a), b);
        let rest = chunk_lines(s, line_next(s, a), b);
        let all = chunk_lines(s, a, b);
        assert forall|i: int| 0 <= i < all.len() implies i16::MIN <= (#[trigger] all[i]).1
            <= i16::MAX by {
            if i > 0 {
                assert(all[i] == rest[i - 1]);
            }
        }
    }
}

/// When the lines read from `a` reach `b` exactly, aggregating the lines
/// from `a` to `b` and those from `b` to `c` separately and merging the two
/// gives the aggregate of the lines from `a` to `c`: reading an input in
/// chunks cut at line starts gives the statistics of reading it at once.
pub proof fn law_chunks_merge_to_whole(s: Seq<u8>, a: int, b: int, c: int)
    requires
        reaches(s, a, b),
        b <= c,
    ensures
        aggregate(chunk_lines(s, a, c)) == merge_maps(
            aggregate(chunk_lines(s, a, b)),
            aggregate(chunk_lines(s, b, c)),
        ),
{
    lemma_chunk_lines_split(s, a, b, c);
    lemma_chunk_lines_in_i16(s, a, b);
    law_aggregate_split(chunk_lines(s, a, b), chunk_lines(s, b, c));
}

/// Merging two sets of statistics does not depend on their order.
pub proof fn law_merge_maps_commutative(a: Map<Seq<u8>, Stats>, b: Map<Seq<u8>, Stats>)
    ensures
        merge_maps(a, b) == merge_maps(b, a),
{
    assert(merge_maps(a, b) =~= merge_maps(b, a));
}

/// Merging three sets of statistics does not depend on their grouping.
pub proof fn law_merge_maps_associative(
    a: Map<Seq<u8>, Stats>,
    b: Map<Seq<u8>, Stats>,
    c: Map<Seq<u8>, Stats>,
)
    ensures
        merge_maps(merge_maps(a, b), c) == merge_maps(a, merge_maps(b, c)),
{
    assert forall|k: Seq<u8>| true implies stats_of(merge_maps(a, b), k) == combine(
        stats_of(a, k),
        stats_of(b, k),
    ) && stats_of(merge_maps(b, c), k) == combine(stats_of(b, k), stats_of(c, k)) by {
        lemma_stats_of_merge(a, b, k);
        lemma_stats_of_merge(b, c, k);
    }
    assert(merge_maps(merge_maps(a, b), c) =~= merge_maps(a, merge_maps(b, c)));
}

} // verus!

verus! {

/// Two well-formed tables that hold at most `NUM_BUCKETS` names together,
/// and whose shared stations keep their sums and counts within `i64` when
/// added, can be merged either way round, and both merges hold the same
/// stations with the same statistics (the slots may differ).
pub proof fn law_merge_tables_commutative(a: Seq<Slot>, b: Seq<Slot>)
    requires
        table_wf(a),
        table_wf(b),
        names_of(a).union(names_of(b)).len() <= NUM_BUCKETS,
        merge_fits(table_map(a), table_map(b)),
    ensures
        merge_slots(a, b) is Some,
        merge_slots(b, a) is Some,
        table_wf(merge_slots(a, b)->Some_0),
        table_wf(merge_slots(b, a)->Some_0),
        table_map(merge_slots(a, b)->Some_0) == table_map(merge_slots(b, a)->Some_0),
{
    assert(a.take(NUM_BUCKETS as int) =~= a);
    assert(b.take(NUM_BUCKETS as int) =~= b);
    assert(names_of(b).union(names_of(a)) =~= names_of(a).union(names_of(b)));
    assert(merge_fits(table_map(b), table_map(a)));
    lemma_merge_slots_succeeds(a, b, NUM_BUCKETS as int);
    lemma_merge_slots_succeeds(b, a, NUM_BUCKETS as int);
    lemma_merge_slots_map(a, b, NUM_BUCKETS as int);
    lemma_merge_slots_map(b, a, NUM_BUCKETS as int);
    lemma_map_before_all(a);
    lemma_map_before_all(b);
    law_merge_maps_commutative(table_map(a), table_map(b));
}

/// The line at `a` can be read, the next line starts right after its
/// newline, and no other newline stands in it.
pub open spec fn line_ends_at_newline(s: Seq<u8>, a: int) -> bool {
    &&& line_ok(s, a)
    &&& line_next(s, a) <= s.len()
    &&& s[line_next(s, a) - 1] == NEWLINE
    &&& forall|j: int| a <= j < line_next(s, a) - 1 ==> s[j] != NEWLINE
}

/// Every line read from the start of `s` can be read and ends with its own
/// newline.
pub open spec fn input_well_formed(s: Seq<u8>) -> bool {
    forall|a: int| #[trigger] reaches(s, 0, a) && a < s.len() ==> line_ends_at_newline(s, a)
}

proof fn lemma_reaches_step(s: Seq<u8>, x: int, a: int)
    requires
        reaches(s, x, a),
        line_ok(s, a),
    ensures
        reaches(s, x, line_next(s, a)),
    decreases s.len() + 2 - x,
{
    lemma_line_next_advances(s, a);
    if x == a {
        assert(reaches(s, line_next(s, a), line_next(s, a)));
    } else {
        lemma_line_next_advances(s, x);
        lemma_reaches_step(s, line_next(s, x), a);
    }
}

proof fn lemma_reaches_between(s: Seq<u8>, a: int, x: int, y: int)
    requires
        reaches(s, a, x),
        reaches(s, a, y),
        x <= y,
    ensures
        reaches(s, x, y),
    decreases s.len() + 2 - a,
{
    if a != x {
        lemma_line_next_advances(s, a);
        lemma_reaches_between(s, line_next(s, a), x, y);
    }
}

proof fn lemma_find_byte_monotone(s: Seq<u8>, x: int, y: int, c: u8)
    requires
        0 <= x <= y,
    ensures
        find_byte(s, x, c) <= find_byte(s, y, c),
    decreases y - x,
{
    if x < y && x < s.len() {
        if s[x] == c {
            if y <= s.len() {
                lemma_find_byte_at_least(s, y, c);
            }
        } else {
            lemma_find_byte_monotone(s, x + 1, y, c);
        }
    }
}

/// In a well-formed input, the position after the first newline at or after
/// `x` is the start of a line read from the beginning.
proof fn lemma_newline_reached(s: Seq<u8>, a: int, x: int)
    requires
        input_well_formed(s),
        reaches(s, 0, a),
        0 <= a <= x,
        find_byte(s, x, NEWLINE) < s.len(),
    ensures
        reaches(s, 0, find_byte(s, x, NEWLINE) + 1),
    decreases s.len() - a,
{
    if x >= s.len() {
        assert(find_byte(s, x, NEWLINE) == s.len());
    }
    assert(line_ends_at_newline(s, a));
    let nx = line_next(s, a);
    lemma_line_next_advances(s, a);
    lemma_reaches_step(s, 0, a);
    if x < nx {
        lemma_find_byte_at(s, x, nx - 1, NEWLINE);
    } else {
        lemma_newline_reached(s, nx, x);
    }
}

proof fn lemma_reaches_end(s: Seq<u8>, a: int)
    requires
        input_well_formed(s),
        reaches(s, 0, a),
        0 <= a <= s.len(),
    ensures
        reaches(s, 0, s.len() as int),
    decreases s.len() - a,
{
    if a < s.len() {
        assert(line_ends_at_newline(s, a));
        lemma_line_next_advances(s, a);
        lemma_reaches_step(s, 0, a);
        lemma_reaches_end(s, line_next(s, a));
    }
}

/// In a well-formed input that can be cut into chunks, every border between
/// chunks is the start of a line read from the beginning, and the borders
/// come in order.
pub proof fn law_chunk_borders_at_lines(s: Seq<u8>, k: int)
    requires
        input_well_formed(s),
        borders_ok(s),
        0 <= k < NUM_CORES,
    ensures
        reaches(s, 0, chunk_border(s, k)),
        chunk_border(s, k) <= chunk_border(s, k + 1),
        reaches(s, chunk_border(s, k), chunk_border(s, k + 1)),
{
    let q = s.len() as int / NUM_CORES as int;
    assert(reaches(s, 0, 0));
    assert forall|j: int| 0 <= j <= NUM_CORES implies #[trigger] reaches(s, 0, chunk_border(s, j))
        && chunk_border(s, j) <= s.len() by {
        if j == NUM_CORES {
            lemma_reaches_end(s, 0);
        } else if j > 0 {
            assert(0 <= j * q) by (nonlinear_arith)
                requires
                    0 <= j,
                    0 <= q,
            ;
            assert(find_byte(s, j * q, NEWLINE) < s.len());
            lemma_newline_reached(s, 0, j * q);
        }
    }
    if 0 < k {
        assert(k * q <= (k + 1) * q) by (nonlinear_arith)
            requires
                0 <= q,
        ;
        assert(0 <= k * q) by (nonlinear_arith)
            requires
                0 <= k,
                0 <= q,
        ;
        lemma_find_byte_monotone(s, k * q, (k + 1) * q, NEWLINE);
    }
    assert(reaches(s, 0, chunk_border(s, k)));
    assert(reaches(s, 0, chunk_border(s, k + 1)));
    lemma_reaches_between(s, 0, chunk_border(s, k), chunk_border(s, k + 1));
}

/// The aggregate of the lines of chunk `k`.
pub open spec fn chunk_aggregate(s: Seq<u8>, k: int) -> Map<Seq<u8>, Stats> {
    aggregate(chunk_lines(s, chunk_border(s, k), chunk_border(s, k + 1)))
}

/// In a well-formed input that can be cut into chunks, merging the tables of
/// the chunks (the last one first, then the others in order) gives the
/// aggregate of all the lines of the input.
pub proof fn law_chunks_aggregate_whole(s: Seq<u8>)
    requires
        input_well_formed(s),
        borders_ok(s),
    ensures
        aggregate(chunk_lines(s, 0, s.len() as int)) == merge_maps(
            merge_maps(merge_maps(chunk_aggregate(s, 3), chunk_aggregate(s, 0)), chunk_aggregate(s, 1)),
            chunk_aggregate(s, 2),
        ),
{
    law_chunk_borders_at_lines(s, 0);
    law_chunk_borders_at_lines(s, 1);
    law_chunk_borders_at_lines(s, 2);
    law_chunk_borders_at_lines(s, 3);
    let b0 = chunk_border(s, 0);
    let b1 = chunk_border(s, 1);
    let b2 = chunk_border(s, 2);
    let b3 = chunk_border(s, 3);
    let len = s.len() as int;
    assert(b0 == 0 && chunk_border(s, 4) == len);
    law_chunks_merge_to_whole(s, b0, b1, len);
    law_chunks_merge_to_whole(s, b1, b2, len);
    law_chunks_merge_to_whole(s, b2, b3, len);
    let a0 = chunk_aggregate(s, 0);
    let a1 = chunk_aggregate(s, 1);
    let a2 = chunk_aggregate(s, 2);
    let a3 = chunk_aggregate(s, 3);
    // whole == m(a0, m(a1, m(a2, a3)))
    law_merge_maps_associative(a3, a0, a1);
    law_merge_maps_associative(a3, merge_maps(a0, a1), a2);
    law_merge_maps_associative(a0, a1, a2);
    law_merge_maps_commutative(a3, merge_maps(a0, merge_maps(a1, a2)));
    law_merge_maps_associative(a0, merge_maps(a1, a2), a3);
    law_merge_maps_associative(a1, a2, a3);
}

} // verus!
