use vstd::prelude::*;
use rand::Rng;
use rand::rngs::ThreadRng;
use crate::parse::{SEMICOLON, MINUS, DOT, NEWLINE};

verus! {

#[verifier::external_type_specification]
#[verifier::external_body]
pub struct ExThreadRng(rand::rngs::ThreadRng);

/// Calls `Rng::gen::<bool>` on the thread's generator. Nothing is claimed of
/// the result: it is a random boolean.
#[verifier::external_body]
fn random_bool(rng: &mut ThreadRng) -> bool {
    rng.gen::<bool>()
}

/// Calls `Rng::gen_range(low..high)` on the thread's generator, which panics
/// on an empty range and otherwise returns a value of the range.
#[verifier::external_body]
fn random_in_range(rng: &mut ThreadRng, low: u8, high: u8) -> (r: u8)
    requires
        low < high,
    ensures
        low <= r < high,
{
    rng.gen_range(low..high)
}

/// The line `city;[-][X]Y.Z\n` for a whole part `whole_part` (its tens digit
/// `X` written only when it is above 9) and a decimal `decimal_part`.
pub open spec fn measurement_bytes(city: Seq<u8>, is_negative: bool, whole_part: u8, decimal_part: u8) -> Seq<u8> {
    let sign: Seq<u8> = if is_negative { seq![MINUS] } else { seq![] };
    let tens: Seq<u8> = if whole_part > 9 { seq![(48 + whole_part / 10) as u8] } else { seq![] };
    city + seq![SEMICOLON] + sign + tens + seq![
        (48 + whole_part % 10) as u8,
        DOT,
        (48 + decimal_part) as u8,
        NEWLINE,
    ]
}

/// Appends the line `city;[-][X]Y.Z\n` to `buff`.
pub fn write_measurement(
    buff: &mut Vec<u8>,
    city: &[u8],
    is_negative: bool,
    whole_part: u8,
    decimal_part: u8,
)
    requires
        decimal_part <= 207,
    ensures
        final(buff)@ == old(buff)@ + measurement_bytes(city@, is_negative, whole_part, decimal_part),
{
    buff.extend_from_slice(city);
    buff.push(SEMICOLON);
    if is_negative {
        buff.push(MINUS);
    }
    if whole_part > 9 {
        buff.push(48 + whole_part / 10);
    }
    buff.push(48 + whole_part % 10);
    buff.push(DOT);
    buff.push(48 + decimal_part);
    buff.push(NEWLINE);
    assert(buff@ =~= old(buff)@ + measurement_bytes(city@, is_negative, whole_part, decimal_part));
}

/// Appends a random measurement of `city` to `buff`: a random sign, a whole
/// part below 99 and a decimal digit.
pub fn add_measurement(buff: &mut Vec<u8>, rng: &mut ThreadRng, city: &[u8])
    ensures
        exists|is_negative: bool, whole_part: u8, decimal_part: u8|
            whole_part < 99 && decimal_part <= 9 && #[trigger] measurement_bytes(
                city@,
                is_negative,
                whole_part,
                decimal_part,
            ) == final(buff)@.subrange(old(buff)@.len() as int, final(buff)@.len() as int)
                && final(buff)@.subrange(0, old(buff)@.len() as int) == old(buff)@,
{
    let is_negative = random_bool(rng);
    let whole_part = random_in_range(rng, 0, 99);
    let decimal_part = random_in_range(rng, 0, 10);
    let ghost before = buff@;
    write_measurement(buff, city, is_negative, whole_part, decimal_part);
    assert(buff@.subrange(before.len() as int, buff@.len() as int) =~= measurement_bytes(
        city@,
        is_negative,
        whole_part,
        decimal_part,
    ));
    assert(buff@.subrange(0, before.len() as int) =~= before);
}

/// The sum of a sequence of sizes.
pub open spec fn total(s: Seq<usize>) -> int
    decreases s.len(),
{
    if s.len() == 0 {
        0
    } else {
        total(s.drop_last()) + s.last()
    }
}

/// How `n` lines are shared among `num_threads` writers: each gets
/// `n / num_threads`, the last one also the remainder.
pub fn batch_sizes(n: usize, num_threads: usize) -> (sizes: Vec<usize>)
    requires
        num_threads >= 1,
    ensures
        sizes@.len() == num_threads,
        forall|t: int| 0 <= t < num_threads - 1 ==> #[trigger] sizes@[t] == n / num_threads,
        sizes@[num_threads - 1] == n - (num_threads - 1) * (n / num_threads),
        total(sizes@) == n,
{
    let mut batch_size = n / num_threads;
    let mut sizes: Vec<usize> = Vec::new();
    let mut t: usize = 0;
    proof {
        assert((num_threads - 1) * (n / num_threads) <= n) by (nonlinear_arith)
            requires
                num_threads >= 1,
        ;
    }
    while t < num_threads
        invariant
            num_threads >= 1,
            t < num_threads,
            batch_size == n / num_threads,
            (num_threads - 1) * (n / num_threads) <= n,
            sizes@.len() == t,
            forall|k: int| 0 <= k < t ==> #[trigger] sizes@[k] == n / num_threads,
            total(sizes@) == t * (n / num_threads),
        decreases num_threads - t,
    {
        if t == num_threads - 1 {
            let last = n - t * batch_size;
            let ghost prev = sizes@;
            sizes.push(last);
            assert(sizes@.drop_last() =~= prev);
            assert(total(sizes@) == n);
            return sizes;
        }
        proof {
            assert((t + 1) * (n / num_threads) == t * (n / num_threads) + n / num_threads) by (nonlinear_arith);
        }
        let ghost prev = sizes@;
        sizes.push(batch_size);
        assert(sizes@.drop_last() =~= prev);
        t = t + 1;
    }
    sizes
}

} // verus!
