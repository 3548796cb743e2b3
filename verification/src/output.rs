use vstd::prelude::*;
use crate::record::{Record, Slot};
use crate::measurements::{Measurements, NUM_BUCKETS, sorted_slots, occupied, records_view, slot_order};
use crate::parse::{DOT, MINUS, ZERO};

verus! {

/// Integer division rounding toward zero, as Rust's `/` does.
pub open spec fn div_toward_zero(a: int, b: int) -> int {
    if a == 0 {
        0
    } else if a > 0 && b > 0 {
        a / b
    } else if a < 0 && b < 0 {
        (-a) / (-b)
    } else if a < 0 {
        -((-a) / b)
    } else {
        -(a / (-b))
    }
}

/// The mean of `count` values summing to `sum`, rounded toward zero, in
/// tenths; the quotient is truncated to its low 16 bits.
pub fn mean(sum: i64, count: i64) -> (m: i16)
    requires
        count != 0,
        !(sum == i64::MIN && count == -1),
    ensures
        m == div_toward_zero(sum as int, count as int) as i16,
{
    let q = match sum.checked_div(count) {
        Some(q) => q,
        None => 0,
    };
    assert(q as int == div_toward_zero(sum as int, count as int)) by {
        assert(i64::MIN <= div_toward_zero(sum as int, count as int) <= i64::MAX) by (nonlinear_arith)
            requires
                count != 0,
                !(sum == i64::MIN && count == -1),
                i64::MIN <= sum <= i64::MAX;
    }
    #[verifier::truncate]
    (q as i16)
}

/// The absolute value of `v`.
pub open spec fn abs(v: int) -> int {
    if v < 0 {
        -v
    } else {
        v
    }
}

/// `v` tenths written as a decimal: a `-` when negative, then, for an
/// absolute value of at least 10, the byte `b'0'` plus the hundreds (taken
/// modulo 256), then the tens digit, a `.` and the units digit. Values from
/// -999 to 999 come out as `[-]X.Y` or `[-]XY.Z` with a leading `0` for
/// values from 10 to 99.
pub open spec fn decimal_bytes(v: int) -> Seq<u8> {
    let a = abs(v);
    let sign: Seq<u8> = if v < 0 { seq![MINUS] } else { seq![] };
    let lead: Seq<u8> = if a >= 10 { seq![((a / 100) % 256 + 48) as u8] } else { seq![] };
    sign + lead + seq![((a / 10) % 10 + 48) as u8, DOT, (a % 10 + 48) as u8]
}

/// `v` can be written by `write_n` without an overflow: it is not
/// `i16::MIN`, and the byte of the hundreds does not pass 255.
pub open spec fn writable(v: int) -> bool {
    &&& i16::MIN < v <= i16::MAX
    &&& (abs(v) / 100) % 256 + 48 <= 255
}

/// Appends the decimal form of `value` tenths to `buffer` (see
/// `decimal_bytes`).
pub fn write_n(buffer: &mut Vec<u8>, value: i16)
    requires
        writable(value as int),
    ensures
        final(buffer)@ == old(buffer)@ + decimal_bytes(value as int),
{
    let ghost v = value as int;
    if value < 0 {
        buffer.push(MINUS)
    }
    let value = if value < 0 { -value } else { value };
    if value >= 10 {
        let q = value / 100;
        assert(0 <= q ==> (q as u8) == (q % 256) as u8) by (bit_vector);
        buffer.push((value / 100) as u8 + ZERO);
    }
    buffer.push(((value / 10) % 10) as u8 + ZERO);
    buffer.push(DOT);
    buffer.push((value % 10) as u8 + ZERO);
    assert(buffer@ =~= old(buffer)@ + decimal_bytes(v));
}

/// The byte `=`.
pub const EQUALS: u8 = 61;
/// The byte `/`.
pub const SLASH: u8 = 47;
/// The byte `,`.
pub const COMMA: u8 = 44;
/// The byte `{`.
pub const OPEN_BRACE: u8 = 123;
/// The byte `}`.
pub const CLOSE_BRACE: u8 = 125;

/// The mean of a slot, as `mean` computes it.
pub open spec fn slot_mean(s: Slot) -> int {
    div_toward_zero(s.stats.sum, s.stats.count) as i16 as int
}

/// A slot can be written by `write_record` without a panic.
pub open spec fn slot_writable(s: Slot) -> bool {
    &&& s.stats.count != 0
    &&& !(s.stats.sum == i64::MIN && s.stats.count == -1)
    &&& writable(s.stats.min)
    &&& writable(s.stats.max)
    &&& writable(slot_mean(s))
}

/// `name=min/max/mean,` with the three numbers written by `decimal_bytes`.
pub open spec fn record_bytes(s: Slot) -> Seq<u8> {
    s.name + seq![EQUALS] + decimal_bytes(s.stats.min) + seq![SLASH] + decimal_bytes(s.stats.max)
        + seq![SLASH] + decimal_bytes(slot_mean(s)) + seq![COMMA]
}

/// Appends `name=min/max/mean,` for `record` to `buff`.
pub fn write_record(buff: &mut Vec<u8>, record: Record)
    requires
        slot_writable(record@),
    ensures
        final(buff)@ == old(buff)@ + record_bytes(record@),
{
    let Record { min, max, sum, count, .. } = record;
    buff.extend_from_slice(record.name);
    assert(buff@ =~= old(buff)@ + record.name@);
    buff.push(EQUALS);
    write_n(buff, min);
    buff.push(SLASH);
    write_n(buff, max);
    buff.push(SLASH);
    write_n(buff, mean(sum, count));
    buff.push(COMMA);
    assert(buff@ =~= old(buff)@ + record_bytes(record@));
}

/// Whether `v` can be written by `write_n` (see `writable`).
pub fn is_writable(v: i16) -> (b: bool)
    ensures
        b == writable(v as int),
{
    if v == i16::MIN {
        return false;
    }
    let a: i32 = if v < 0 { -(v as i32) } else { v as i32 };
    (a / 100) % 256 + 48 <= 255
}

/// Whether `record` can be written by `write_record` (see `slot_writable`).
pub fn record_writable(record: &Record) -> (b: bool)
    ensures
        b == slot_writable(record@),
{
    if record.count == 0 || (record.sum == i64::MIN && record.count == -1) {
        return false;
    }
    is_writable(record.min) && is_writable(record.max) && is_writable(mean(record.sum, record.count))
}

/// The records one after the other, each as `name=min/max/mean,`.
pub open spec fn records_bytes(rs: Seq<Slot>) -> Seq<u8>
    decreases rs.len(),
{
    if rs.len() == 0 {
        Seq::empty()
    } else {
        records_bytes(rs.drop_last()) + record_bytes(rs.last())
    }
}

/// `{name=min/max/mean,...}`: the records between braces, without the comma
/// after the last one; `}` alone when there is no record.
pub open spec fn results_bytes(rs: Seq<Slot>) -> Seq<u8> {
    (seq![OPEN_BRACE] + records_bytes(rs)).drop_last().push(CLOSE_BRACE)
}

/// Every slot of `sorted_slots(t)` is occupied.
pub proof fn lemma_sorted_slots_occupied(t: Seq<Slot>)
    ensures
        forall|i: int|
            0 <= i < sorted_slots(t).len() ==> (#[trigger] sorted_slots(t)[i]).name.len() > 0,
{
    crate::record::lemma_slot_le_total_ordering();
    occupied(t).lemma_sort_by_ensures(slot_order());
    assert forall|i: int| 0 <= i < sorted_slots(t).len() implies (
    #[trigger] sorted_slots(t)[i]).name.len() > 0 by {
        let x = sorted_slots(t)[i];
        assert(sorted_slots(t).contains(x));
        assert(occupied(t).contains(x));
        let j = choose|j: int| 0 <= j < occupied(t).len() && occupied(t)[j] == x;
        t.lemma_filter_pred(|s: Slot| s.name.len() > 0, j);
    }
}

/// The results of the table: its occupied records sorted as `derive(Ord)`
/// orders them, written as `{name=min/max/mean,...}`. `None` when one of them
/// cannot be written (see `slot_writable`).
pub fn format_results(measurements: Measurements) -> (out: Option<Vec<u8>>)
    ensures
        out is Some <==> forall|i: int|
            0 <= i < sorted_slots(measurements@).len() ==> slot_writable(
                #[trigger] sorted_slots(measurements@)[i],
            ),
        out matches Some(v) ==> v@ == results_bytes(sorted_slots(measurements@)),
{
    let ghost t = measurements@;
    let mut result_buffer: Vec<u8> = Vec::with_capacity(NUM_BUCKETS * 15);
    result_buffer.push(OPEN_BRACE);
    let sorted = measurements.sorted();
    proof {
        lemma_sorted_slots_occupied(t);
    }
    let mut i: usize = 0;
    while i < sorted.len()
        invariant
            i <= sorted@.len(),
            t == measurements@,
            records_view(sorted@) == sorted_slots(t),
            forall|k: int| 0 <= k < i ==> slot_writable(#[trigger] sorted_slots(t)[k]),
            forall|k: int| 0 <= k < sorted_slots(t).len() ==> (#[trigger] sorted_slots(t)[k]).name.len() > 0,
            result_buffer@ == seq![OPEN_BRACE] + records_bytes(sorted_slots(t).take(i as int)),
        decreases sorted@.len() - i,
    {
        let r = sorted[i];
        assert(r@ == sorted_slots(t)[i as int]);
        assert(sorted_slots(t).take(i + 1).drop_last() =~= sorted_slots(t).take(i as int));
        if !r.is_empty() {
            if !record_writable(&r) {
                assert(!slot_writable(sorted_slots(t)[i as int]));
                return None;
            }
            write_record(&mut result_buffer, r);
        }
        i = i + 1;
        assert(result_buffer@ =~= seq![OPEN_BRACE] + records_bytes(sorted_slots(t).take(i as int)));
    }
    assert(sorted_slots(t).take(i as int) =~= sorted_slots(t));
    result_buffer.pop();
    result_buffer.push(CLOSE_BRACE);
    assert(result_buffer@ =~= results_bytes(sorted_slots(t)));
    Some(result_buffer)
}

} // verus!
