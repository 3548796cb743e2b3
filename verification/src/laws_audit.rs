use vstd::prelude::*;
use crate::record::{Slot, Stats, add_value, single_slot};
use crate::table_model::stats_of;
use crate::measurements::{can_insert, slot_insert, find_byte};
use crate::parse::{
    add_pairs, aggregate, chunk_lines, run_chunk, line_ok, line_name, line_value, line_next,
    chunk_border, borders_ok, NUM_CORES, AVG_CITY_NAME_LEN, NEWLINE, lemma_line_next_advances,
};
use crate::output::{record_bytes, div_toward_zero, EQUALS};

verus! {

/// A line that can be read at a position before `end` is the first line of
/// the chunk from that position, with its name and value, whether or not it
/// ends with a newline; the chunk then goes on from the next line.
pub proof fn law_chunk_reads_every_readable_line(s: Seq<u8>, start: int, end: int)
    requires
        0 <= start < end,
        line_ok(s, start),
    ensures
        chunk_lines(s, start, end).len() >= 1,
        chunk_lines(s, start, end)[0] == (line_name(s, start), line_value(s, start)),
        chunk_lines(s, start, end).drop_first() == chunk_lines(s, line_next(s, start), end),
{
    lemma_line_next_advances(s, start);
    let rest = chunk_lines(s, line_next(s, start), end);
    assert((seq![(line_name(s, start), line_value(s, start))] + rest).drop_first() =~= rest);
}

/// Reading a chunk adds a readable line before `end` to the table before it
/// goes on, whether or not the line ends with a newline.
pub proof fn law_run_chunk_adds_every_readable_line(t: Seq<Slot>, s: Seq<u8>, start: int, end: int)
    requires
        0 <= start < end,
        line_ok(s, start),
        can_insert(t, single_slot(line_name(s, start), line_value(s, start))),
    ensures
        run_chunk(t, s, start, end) == run_chunk(
            slot_insert(t, single_slot(line_name(s, start), line_value(s, start))),
            s,
            line_next(s, start),
            end,
        ),
{
}

/// The test that a pair is named `n`.
pub open spec fn is_named(n: Seq<u8>) -> spec_fn((Seq<u8>, int)) -> bool {
    |x: (Seq<u8>, int)| x.0 == n
}

/// The number of pairs of `p` named `n`.
pub open spec fn pairs_named(p: Seq<(Seq<u8>, int)>, n: Seq<u8>) -> nat {
    p.filter(is_named(n)).len()
}

proof fn lemma_add_pairs_count(m: Map<Seq<u8>, Stats>, p: Seq<(Seq<u8>, int)>, n: Seq<u8>)
    ensures
        stats_of(add_pairs(m, p), n).count == stats_of(m, n).count + pairs_named(p, n),
    decreases p.len(),
{
    let f = is_named(n);
    if p.len() == 0 {
        assert(p.filter(f) =~= Seq::<(Seq<u8>, int)>::empty()) by {
            reveal(Seq::filter);
        }
    } else {
        let (k, v) = p[0];
        let m2 = m.insert(k, add_value(stats_of(m, k), v));
        lemma_add_pairs_count(m2, p.drop_first(), n);
        assert(p =~= seq![p[0]] + p.drop_first());
        p.drop_first().lemma_filter_prepend(p[0], f);
        if k == n {
            assert(stats_of(m2, n).count == stats_of(m, n).count + 1);
        } else {
            assert(stats_of(m2, n) == stats_of(m, n));
        }
    }
}

/// After aggregating pairs, each station has been counted once for every pair
/// that names it.
pub proof fn law_aggregate_counts_every_pair(p: Seq<(Seq<u8>, int)>, n: Seq<u8>)
    ensures
        stats_of(aggregate(p), n).count == pairs_named(p, n),
{
    lemma_add_pairs_count(Map::empty(), p, n);
}

/// The bytes written for a record start with its whole name, followed by `=`.
pub proof fn law_record_bytes_start_with_whole_name(s: Slot)
    ensures
        record_bytes(s).len() > s.name.len(),
        record_bytes(s).subrange(0, s.name.len() as int) == s.name,
        record_bytes(s)[s.name.len() as int] == EQUALS,
{
    assert(record_bytes(s).subrange(0, s.name.len() as int) =~= s.name);
}

/// The mean is the quotient of the whole sum by the count, rounded toward
/// zero: it times the count is within one count of the sum, on the side of
/// zero.
pub proof fn law_mean_is_truncated_quotient(sum: int, count: int)
    requires
        count >= 1,
    ensures
        sum >= 0 ==> div_toward_zero(sum, count) * count <= sum < (div_toward_zero(sum, count) + 1)
            * count,
        sum < 0 ==> (div_toward_zero(sum, count) - 1) * count < sum <= div_toward_zero(sum, count)
            * count,
{
    let q = div_toward_zero(sum, count);
    if sum >= 0 {
        vstd::arithmetic::div_mod::lemma_fundamental_div_mod(sum, count);
        assert(q == sum / count);
        assert(0 <= sum % count < count);
        assert(q * count <= sum < (q + 1) * count) by (nonlinear_arith)
            requires
                sum == count * q + sum % count,
                0 <= sum % count < count,
        ;
    } else {
        let a = -sum;
        vstd::arithmetic::div_mod::lemma_fundamental_div_mod(a, count);
        assert(0 <= a % count < count);
        assert(q == -(a / count));
        assert((q - 1) * count < sum <= q * count) by (nonlinear_arith)
            requires
                a == count * (a / count) + a % count,
                0 <= a % count < count,
                q == -(a / count),
                sum == -a,
        ;
    }
}

/// A mean lies between the minimum and the maximum: when the sum of `count`
/// values lies between `count` times the minimum and `count` times the
/// maximum, so does `count` times the mean, and as an `i16` the mean keeps
/// its value.
pub proof fn law_mean_between_min_and_max(sum: int, count: int, lo: int, hi: int)
    requires
        count >= 1,
        lo * count <= sum <= hi * count,
        i16::MIN <= lo,
        hi <= i16::MAX,
    ensures
        lo <= div_toward_zero(sum, count) <= hi,
        div_toward_zero(sum, count) as i16 as int == div_toward_zero(sum, count),
{
    law_mean_is_truncated_quotient(sum, count);
    let q = div_toward_zero(sum, count);
    if sum >= 0 {
        assert(lo <= q <= hi) by (nonlinear_arith)
            requires
                count >= 1,
                q * count <= sum < (q + 1) * count,
                lo * count <= sum <= hi * count,
        ;
    } else {
        assert(lo <= q <= hi) by (nonlinear_arith)
            requires
                count >= 1,
                (q - 1) * count < sum <= q * count,
                lo * count <= sum <= hi * count,
        ;
    }
}

/// `s` has a newline at or after position `i`.
pub open spec fn newline_at_or_after(s: Seq<u8>, i: int) -> bool {
    exists|j: int| i <= j < s.len() && s[j] == NEWLINE
}

proof fn lemma_find_byte_found(s: Seq<u8>, i: int, c: u8)
    requires
        0 <= i,
    ensures
        (find_byte(s, i, c) < s.len()) == (exists|j: int| i <= j < s.len() && s[j] == c),
        find_byte(s, i, c) < s.len() ==> s[find_byte(s, i, c)] == c && i <= find_byte(s, i, c)
            && forall|j: int| i <= j < find_byte(s, i, c) ==> s[j] != c,
    decreases s.len() - i,
{
    if i < s.len() && s[i] != c {
        lemma_find_byte_found(s, i + 1, c);
        if exists|j: int| i <= j < s.len() && s[j] == c {
            let j = choose|j: int| i <= j < s.len() && s[j] == c;
            assert(i + 1 <= j);
        }
    }
}

/// An input can be cut into chunks exactly when it is longer than
/// `NUM_CORES * (AVG_CITY_NAME_LEN + 5)` bytes and a newline stands at or
/// after each inner cut point; nothing else about it, such as its last byte,
/// matters.
pub proof fn law_borders_ok_exactly(s: Seq<u8>)
    ensures
        borders_ok(s) == (s.len() > NUM_CORES * (AVG_CITY_NAME_LEN + 5) && forall|k: int|
            1 <= k < NUM_CORES ==> #[trigger] newline_at_or_after(
                s,
                k * (s.len() as int / NUM_CORES as int),
            )),
{
    let q = s.len() as int / NUM_CORES as int;
    assert forall|k: int| 1 <= k < NUM_CORES implies (find_byte(s, k * q, NEWLINE) < s.len())
        == #[trigger] newline_at_or_after(s, k * q) by {
        assert(0 <= k * q) by (nonlinear_arith)
            requires
                1 <= k,
                0 <= q,
        ;
        lemma_find_byte_found(s, k * q, NEWLINE);
    }
    if borders_ok(s) {
        assert forall|k: int| 1 <= k < NUM_CORES implies #[trigger] newline_at_or_after(s, k * q) by {
            assert(find_byte(s, k * q, NEWLINE) < s.len());
        }
    }
    if s.len() > NUM_CORES * (AVG_CITY_NAME_LEN + 5) && forall|k: int|
        1 <= k < NUM_CORES ==> #[trigger] newline_at_or_after(s, k * q) {
        assert forall|k: int| 1 <= k < NUM_CORES implies #[trigger] find_byte(s, k * q, NEWLINE)
            < s.len() by {
            assert(newline_at_or_after(s, k * q));
        }
    }
}

/// Each inner border comes right after the first newline at or after its cut
/// point.
pub proof fn law_chunk_border_after_first_newline(s: Seq<u8>, k: int)
    requires
        borders_ok(s),
        1 <= k < NUM_CORES,
    ensures
        ({
            let cut = k * (s.len() as int / NUM_CORES as int);
            let b = chunk_border(s, k);
            &&& cut < b <= s.len()
            &&& s[b - 1] == NEWLINE
            &&& forall|j: int| cut <= j < b - 1 ==> s[j] != NEWLINE
        }),
{
    let q = s.len() as int / NUM_CORES as int;
    assert(0 <= k * q) by (nonlinear_arith)
        requires
            1 <= k,
            0 <= q,
    ;
    assert(find_byte(s, k * q, NEWLINE) < s.len());
    lemma_find_byte_found(s, k * q, NEWLINE);
}

} // verus!
