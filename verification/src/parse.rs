use vstd::prelude::*;
use crate::record::{Slot, Stats, add_value, single_slot, combine};
use crate::measurements::{
    Measurements, NUM_BUCKETS, can_insert, empty_table, find_byte, slot_insert, lemma_find_byte_at_least,
};
use crate::table_model::{
    table_wf, table_map, stats_of, lemma_insert, lemma_table_map_in_range,
    lemma_empty_table,
};

verus! {

/// The byte `;`, which ends a station's name.
pub const SEMICOLON: u8 = 59;
/// The byte `-`.
pub const MINUS: u8 = 45;
/// The byte `.`.
pub const DOT: u8 = 46;
/// The byte `0`.
pub const ZERO: u8 = 48;
/// The byte `\n`.
pub const NEWLINE: u8 = 10;

/// The value of a decimal digit byte.
pub open spec fn digit(b: u8) -> int {
    b - 48
}

/// Where the number of the line at `start` begins: after the `;` that ends
/// the name, and after a `-` when there is one.
pub open spec fn number_start(s: Seq<u8>, start: int) -> int {
    let i0 = find_byte(s, start, SEMICOLON) + 1;
    if s[i0] == MINUS {
        i0 + 1
    } else {
        i0
    }
}

/// The line at `start` can be read: it has a `;`, a number after it, and
/// every byte read as a digit is at least `b'0'`.
pub open spec fn line_ok(s: Seq<u8>, start: int) -> bool {
    let e = find_byte(s, start, SEMICOLON);
    let i = number_start(s, start);
    &&& 0 <= start
    &&& e + 1 < s.len()
    &&& i + 1 < s.len()
    &&& if s[i + 1] == DOT {
        i + 2 < s.len() && s[i] >= 48 && s[i + 2] >= 48
    } else {
        &&& i + 2 < s.len()
        &&& s[i + 2] == DOT ==> i + 3 < s.len() && s[i] >= 48 && s[i + 1] >= 48 && s[i + 3] >= 48
    }
}

/// The name of the line at `start`: the bytes up to the `;`.
pub open spec fn line_name(s: Seq<u8>, start: int) -> Seq<u8> {
    s.subrange(start, find_byte(s, start, SEMICOLON))
}

/// The value of the line at `start`, in tenths: `X.Y` and `XY.Z` are read
/// digit by digit, any other shape gives 0; a leading `-` negates it.
pub open spec fn line_value(s: Seq<u8>, start: int) -> int {
    let i = number_start(s, start);
    let magnitude = if s[i + 1] == DOT {
        digit(s[i]) * 10 + digit(s[i + 2])
    } else if s[i + 2] == DOT {
        digit(s[i]) * 100 + digit(s[i + 1]) * 10 + digit(s[i + 3])
    } else {
        0
    };
    if s[find_byte(s, start, SEMICOLON) + 1] == MINUS {
        -magnitude
    } else {
        magnitude
    }
}

/// Where the line after the one at `start` begins: one byte after the last
/// digit of `X.Y` or `XY.Z`, taken to be the line's `\n`.
pub open spec fn line_next(s: Seq<u8>, start: int) -> int {
    let i = number_start(s, start);
    if s[i + 1] == DOT {
        i + 4
    } else if s[i + 2] == DOT {
        i + 5
    } else {
        i + 2
    }
}

/// A line that can be read starts before the next one.
pub proof fn lemma_line_next_advances(s: Seq<u8>, start: int)
    requires
        line_ok(s, start),
    ensures
        start < line_next(s, start) <= s.len() + 1,
        start <= find_byte(s, start, SEMICOLON) < s.len(),
{
    if start > s.len() {
        assert(find_byte(s, start, SEMICOLON) == s.len());
    }
    lemma_find_byte_at_least(s, start, SEMICOLON);
}

/// `t` after the lines of `s` from `start` up to `end` have been added to it
/// one after the other; `None` when one of them cannot be read or added.
pub open spec fn run_chunk(t: Seq<Slot>, s: Seq<u8>, start: int, end: int) -> Option<Seq<Slot>>
    decreases s.len() + 2 - start,
{
    if start >= end {
        Some(t)
    } else if !line_ok(s, start) {
        None
    } else {
        let r = single_slot(line_name(s, start), line_value(s, start));
        if can_insert(t, r) {
            proof {
                lemma_line_next_advances(s, start);
            }
            run_chunk(slot_insert(t, r), s, line_next(s, start), end)
        } else {
            None
        }
    }
}

/// The (name, value) pairs of the lines of `s` from `start` up to `end`,
/// as far as they can be read.
pub open spec fn chunk_lines(s: Seq<u8>, start: int, end: int) -> Seq<(Seq<u8>, int)>
    decreases s.len() + 2 - start,
{
    if start >= end || !line_ok(s, start) {
        Seq::empty()
    } else {
        proof {
            lemma_line_next_advances(s, start);
        }
        seq![(line_name(s, start), line_value(s, start))] + chunk_lines(s, line_next(s, start), end)
    }
}

/// `m` after each pair of `pairs` has been added to it, in order.
pub open spec fn add_pairs(m: Map<Seq<u8>, Stats>, pairs: Seq<(Seq<u8>, int)>) -> Map<Seq<u8>, Stats>
    decreases pairs.len(),
{
    if pairs.len() == 0 {
        m
    } else {
        let (n, v) = pairs[0];
        add_pairs(m.insert(n, add_value(stats_of(m, n), v)), pairs.drop_first())
    }
}

/// The statistics of every station of `pairs`: its minimum, maximum, sum and
/// number of values.
pub open spec fn aggregate(pairs: Seq<(Seq<u8>, int)>) -> Map<Seq<u8>, Stats> {
    add_pairs(Map::empty(), pairs)
}

/// No pair has an empty name.
pub open spec fn names_non_empty(pairs: Seq<(Seq<u8>, int)>) -> bool {
    forall|i: int| 0 <= i < pairs.len() ==> (#[trigger] pairs[i]).0.len() > 0
}

/// A readable line's value lies between -22977 and 22977.
pub proof fn lemma_line_value_range(s: Seq<u8>, start: int)
    requires
        line_ok(s, start),
    ensures
        -22977 <= line_value(s, start) <= 22977,
{
}

/// Adding the lines of a chunk one after the other to a well-formed table
/// keeps it well formed, and adds their values to the statistics of their
/// names.
pub proof fn lemma_run_chunk_map(t: Seq<Slot>, s: Seq<u8>, start: int, end: int)
    requires
        table_wf(t),
        run_chunk(t, s, start, end) is Some,
        names_non_empty(chunk_lines(s, start, end)),
    ensures
        table_wf(run_chunk(t, s, start, end)->Some_0),
        table_map(run_chunk(t, s, start, end)->Some_0) == add_pairs(
            table_map(t),
            chunk_lines(s, start, end),
        ),
    decreases s.len() + 2 - start,
{
    if start < end {
        let n = line_name(s, start);
        let v = line_value(s, start);
        let r = single_slot(n, v);
        let lines = chunk_lines(s, start, end);
        lemma_line_next_advances(s, start);
        lemma_line_value_range(s, start);
        let rest = chunk_lines(s, line_next(s, start), end);
        assert(lines[0] == (n, v));
        assert(lines.drop_first() =~= rest);
        assert(names_non_empty(rest)) by {
            assert forall|i: int| 0 <= i < rest.len() implies (#[trigger] rest[i]).0.len() > 0 by {
                assert(rest[i] == lines[i + 1]);
            }
        }
        lemma_insert(t, r);
        lemma_table_map_in_range(t, n);
        lemma_run_chunk_map(slot_insert(t, r), s, line_next(s, start), end);
    }
}

/// The position of the first `c` at or after `start` in `s`; `s.len()` when
/// there is none.
pub fn find_byte_from(s: &[u8], start: usize, c: u8) -> (e: usize)
    requires
        start <= s@.len(),
    ensures
        e as int == find_byte(s@, start as int, c),
{
    let mut j = start;
    while j < s.len() && s[j] != c
        invariant
            start <= j <= s@.len(),
            find_byte(s@, start as int, c) == find_byte(s@, j as int, c),
        decreases s@.len() - j,
    {
        j = j + 1;
    }
    j
}

/// Whether the line at `start` can be read (see `line_ok`).
pub fn line_ok_at(s: &[u8], start: usize) -> (b: bool)
    requires
        s@.len() <= isize::MAX,
    ensures
        b == line_ok(s@, start as int),
{
    if start >= s.len() {
        proof {
            if start as int > s@.len() {
                assert(find_byte(s@, start as int, SEMICOLON) == s@.len());
            }
        }
        return false;
    }
    let e = find_byte_from(s, start, SEMICOLON);
    proof {
        lemma_find_byte_at_least(s@, start as int, SEMICOLON);
    }
    if e + 1 >= s.len() {
        return false;
    }
    let i0 = e + 1;
    let i = if s[i0] == MINUS { i0 + 1 } else { i0 };
    if i + 1 >= s.len() {
        return false;
    }
    if s[i + 1] == DOT {
        i + 2 < s.len() && s[i] >= ZERO && s[i + 2] >= ZERO
    } else {
        if i + 2 >= s.len() {
            return false;
        }
        s[i + 2] != DOT || (i + 3 < s.len() && s[i] >= ZERO && s[i + 1] >= ZERO && s[i + 3] >= ZERO)
    }
}

/// Reads the lines of `source` from `start` while the position is before
/// `end` into a new table. `None` when a line cannot be read, or its value
/// cannot be added (the table is full, or a sum or count would leave `i64`).
pub fn parse_chunk<'a>(source: &'a [u8], start: usize, end: usize) -> (res: Option<Measurements<'a>>)
    requires
        source@.len() <= isize::MAX,
    ensures
        res is Some <==> run_chunk(empty_table(), source@, start as int, end as int) is Some,
        res matches Some(m) ==> m@ == run_chunk(empty_table(), source@, start as int, end as int)->Some_0,
        res matches Some(m) ==> (names_non_empty(chunk_lines(source@, start as int, end as int))
            ==> table_wf(m@) && table_map(m@) == aggregate(chunk_lines(source@, start as int, end as int))),
{
    let mut measurements = Measurements::new();
    let mut pos = start;
    while pos < end
        invariant
            source@.len() <= isize::MAX,
            measurements@.len() == NUM_BUCKETS,
            run_chunk(empty_table(), source@, start as int, end as int) == run_chunk(
                measurements@,
                source@,
                pos as int,
                end as int,
            ),
        decreases source@.len() + 2 - pos,
    {
        if !line_ok_at(source, pos) {
            assert(run_chunk(measurements@, source@, pos as int, end as int) is None);
            return None;
        }
        let e = find_byte_from(source, pos, SEMICOLON);
        proof {
            lemma_line_next_advances(source@, pos as int);
        }
        let i0 = e + 1;
        let i = if source[i0] == MINUS { i0 + 1 } else { i0 };
        let value = line_value_at(source, pos, e, i);
        if !measurements.can_take(&source[pos..e], value) {
            return None;
        }
        pos = fast_hash(source, pos, &mut measurements);
    }
    proof {
        if names_non_empty(chunk_lines(source@, start as int, end as int)) {
            lemma_empty_table(empty_table());
            lemma_run_chunk_map(empty_table(), source@, start as int, end as int);
        }
    }
    Some(measurements)
}

/// The value of the line at `start`, given the position `e` of its `;` and
/// the position `i` where its number begins.
fn line_value_at(s: &[u8], start: usize, e: usize, i: usize) -> (v: i16)
    requires
        s@.len() <= isize::MAX,
        line_ok(s@, start as int),
        e as int == find_byte(s@, start as int, SEMICOLON),
        i as int == number_start(s@, start as int),
    ensures
        v as int == line_value(s@, start as int),
{
    assert(i + 1 < s@.len());
    let mut value: i16 = 0;
    if s[i + 1] == DOT {
        value = (s[i] - ZERO) as i16 * 10 + (s[i + 2] - ZERO) as i16;
    } else if s[i + 2] == DOT {
        value = (s[i] - ZERO) as i16 * 100 + (s[i + 1] - ZERO) as i16 * 10 + (s[i + 3] - ZERO) as i16;
    }
    if s[e + 1] == MINUS {
        value = -value;
    }
    value
}

/// The number of chunks the input is cut into.
pub const NUM_CORES: usize = 4;

/// The expected length of a station's name, used to tell whether an input is
/// long enough to be cut into chunks.
pub const AVG_CITY_NAME_LEN: usize = 15;

/// The `k`-th border between chunks of `s`: 0, then for each following
/// chunk the position after the first newline at or after `k` times a
/// quarter of the length, then the length.
pub open spec fn chunk_border(s: Seq<u8>, k: int) -> int {
    if k <= 0 {
        0
    } else if k >= NUM_CORES {
        s.len() as int
    } else {
        find_byte(s, k * (s.len() as int / NUM_CORES as int), NEWLINE) + 1
    }
}

/// `s` can be cut into chunks: it is long enough, and a newline follows each
/// inner cut point.
pub open spec fn borders_ok(s: Seq<u8>) -> bool {
    &&& s.len() > NUM_CORES * (AVG_CITY_NAME_LEN + 5)
    &&& forall|k: int|
        1 <= k < NUM_CORES ==> #[trigger] find_byte(s, k * (s.len() as int / NUM_CORES as int), NEWLINE)
            < s.len()
}

/// Cuts `source` into `NUM_CORES` chunks that end at line ends: the pairs
/// (start, end) of consecutive borders. `None` when the source is too short
/// or a cut point has no newline after it.
pub fn chunk_borders(source: &[u8]) -> (res: Option<Vec<(usize, usize)>>)
    ensures
        res is Some <==> borders_ok(source@),
        res matches Some(v) ==> v@.len() == NUM_CORES && forall|k: int|
            0 <= k < NUM_CORES ==> #[trigger] v@[k] == (
                chunk_border(source@, k) as usize,
                chunk_border(source@, k + 1) as usize,
            ),
{
    let file_len = source.len();
    if file_len <= NUM_CORES * (AVG_CITY_NAME_LEN + 5) {
        return None;
    }
    let chunk_size = file_len / NUM_CORES;
    let mut borders: Vec<usize> = Vec::new();
    borders.push(0);
    let mut i: usize = 1;
    while i < NUM_CORES
        invariant
            1 <= i <= NUM_CORES,
            file_len == source@.len(),
            chunk_size == source@.len() as int / NUM_CORES as int,
            borders@.len() == i,
            forall|k: int| 0 <= k < i ==> #[trigger] borders@[k] as int == chunk_border(source@, k),
            forall|k: int| 1 <= k < i ==> #[trigger] find_byte(source@, k * chunk_size, NEWLINE) < source@.len(),
        decreases NUM_CORES - i,
    {
        assert(i * chunk_size <= file_len) by (nonlinear_arith)
            requires
                i < NUM_CORES,
                chunk_size == file_len as int / NUM_CORES as int,
        ;
        let p = i * chunk_size;
        let e = find_byte_from(source, p, NEWLINE);
        if e >= file_len {
            assert(find_byte(source@, i * chunk_size, NEWLINE) >= source@.len());
            return None;
        }
        borders.push(e + 1);
        i = i + 1;
    }
    borders.push(file_len);
    let mut res: Vec<(usize, usize)> = Vec::new();
    let mut k: usize = 0;
    while k < NUM_CORES
        invariant
            k <= NUM_CORES,
            borders@.len() == NUM_CORES + 1,
            forall|j: int| 0 <= j <= NUM_CORES ==> #[trigger] borders@[j] as int == chunk_border(source@, j),
            res@.len() == k,
            forall|j: int| 0 <= j < k ==> #[trigger] res@[j] == (
                chunk_border(source@, j) as usize,
                chunk_border(source@, j + 1) as usize,
            ),
        decreases NUM_CORES - k,
    {
        res.push((borders[k], borders[k + 1]));
        k = k + 1;
    }
    Some(res)
}

/// Reads the line of `s` that begins at `start` ("name;value\n"), adds its
/// value to the slot for its name, and returns where the next line begins.
/// A line with an empty name is read too: its value goes to a free slot,
/// which keeps its empty name, so that a later name that stops there takes
/// those statistics over. The clauses on the table's stations therefore speak
/// only of lines with a non-empty name.
pub fn fast_hash<'a>(s: &'a [u8], start: usize, measurements: &mut Measurements<'a>) -> (next: usize)
    requires
        s@.len() <= isize::MAX,
        old(measurements)@.len() == NUM_BUCKETS,
        line_ok(s@, start as int),
        can_insert(old(measurements)@, single_slot(line_name(s@, start as int), line_value(s@, start as int))),
    ensures
        next as int == line_next(s@, start as int),
        final(measurements)@ == slot_insert(
            old(measurements)@,
            single_slot(line_name(s@, start as int), line_value(s@, start as int)),
        ),
        table_wf(old(measurements)@) && line_name(s@, start as int).len() > 0 ==> table_wf(
            final(measurements)@,
        ) && table_map(final(measurements)@) == table_map(old(measurements)@).insert(
            line_name(s@, start as int),
            add_value(
                stats_of(table_map(old(measurements)@), line_name(s@, start as int)),
                line_value(s@, start as int),
            ),
        ),
{
    proof {
        if start as int > s@.len() {
            assert(find_byte(s@, start as int, SEMICOLON) == s@.len());
        }
        lemma_find_byte_at_least(s@, start as int, SEMICOLON);
    }
    let (hashed_idx, city_name_end) = measurements.hash_until_char(s, start, SEMICOLON);
    let mut i = city_name_end + 1;

    // skip '-', if it exists
    let is_negative = s[i] == MINUS;
    if is_negative {
        i += 1
    }

    let mut value: i16 = 0;
    if s[i + 1] == DOT {
        // X.Y
        value = (s[i] - 48) as i16 * 10;
        i += 2;
        value += (s[i] - 48) as i16;
        assert(0 <= value <= 2277);
    } else if s[i + 2] == DOT {
        // XY.Z
        value = (s[i] - 48) as i16 * 100;
        i += 1;
        value += (s[i] - 48) as i16 * 10;
        i += 2;
        value += (s[i] - 48) as i16;
        assert(0 <= value <= 22977);
    }

    if is_negative {
        value *= -1;
    }
    assert(value as int == line_value(s@, start as int));

    let ghost old_m = measurements@;
    measurements.process_at(hashed_idx, &s[start..city_name_end], value);
    proof {
        let r = single_slot(line_name(s@, start as int), value as int);
        assert(measurements@ =~= slot_insert(old_m, r));
        if table_wf(old_m) && r.name.len() > 0 {
            lemma_insert(old_m, r);
            assert(combine(stats_of(table_map(old_m), r.name), r.stats) == add_value(
                stats_of(table_map(old_m), r.name),
                value as int,
            ));
        }
    }
    // skip the last digit and the newline
    i + 2
}

} // verus!
