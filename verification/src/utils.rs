//! A small xorshift128+ generator and enumeration of bit strings.
use vstd::prelude::*;

verus! {

/// A xorshift128+ pseudo-random generator.
#[derive(Clone, Copy)]
pub struct Rng {
    state: (u64, u64),
}

/// `std::time::SystemTimeError`, the error of a clock that reads before the time asked for.
#[verifier::external_type_specification]
#[verifier::external_body]
pub struct ExSystemTimeError(std::time::SystemTimeError);

/// The time elapsed since the Unix epoch by the system clock (`SystemTime::elapsed` on
/// `UNIX_EPOCH`), or the clock's error when it reads before the epoch. Trusted: nothing is
/// promised of the value, which depends on the clock.
#[verifier::external_body]
fn time_since_epoch() -> (r: Result<std::time::Duration, std::time::SystemTimeError>) {
    std::time::UNIX_EPOCH.elapsed()
}

/// The whole nanoseconds of a duration (`Duration::as_nanos`). Trusted: the duration is opaque
/// here, so nothing is stated of the number.
#[verifier::external_body]
fn duration_nanos(d: &std::time::Duration) -> (r: u128) {
    d.as_nanos()
}

/// The state after one xorshift128+ step.
pub open spec fn next_state(s: (u64, u64)) -> (u64, u64) {
    let x0 = s.0;
    let y = s.1;
    let x = x0 ^ (x0 << 23u64);
    (y, x ^ y ^ (x >> 17u64) ^ (y >> 26u64))
}

/// The number produced by one step from state `s`.
pub open spec fn output(s: (u64, u64)) -> u64 {
    vstd::wrapping::u64_specs::wrapping_add(next_state(s).1, s.1)
}

impl Rng {
    pub closed spec fn state_view(&self) -> (u64, u64) {
        self.state
    }

    /// A generator seeded from the clock (with seed 0 when the clock reads before the epoch):
    /// its state is that of `from_seed` for some seed.
    pub fn new() -> (r: Rng)
        ensures
            exists|seed: u64| r.state_view() == (seed ^ 0xf4dbdf2183dcefb7u64, seed ^ 0x1ad5be0d6dd28e9bu64),
    {
        let seed = match time_since_epoch() {
            Ok(elapsed) => (duration_nanos(&elapsed) % 0x1_0000_0000_0000_0000u128) as u64,
            Err(_) => 0,
        };
        Rng::from_seed(seed)
    }

    /// A generator with a fixed seed.
    pub fn from_seed(seed: u64) -> (r: Rng)
        ensures
            r.state_view() == (seed ^ 0xf4dbdf2183dcefb7u64, seed ^ 0x1ad5be0d6dd28e9bu64),
    {
        Self { state: (seed ^ 0xf4dbdf2183dcefb7u64, seed ^ 0x1ad5be0d6dd28e9bu64) }
    }

    fn rand_u64(&mut self) -> (r: u64)
        ensures
            final(self).state_view() == next_state(old(self).state_view()),
            r == output(old(self).state_view()),
    {
        let (mut x, y) = self.state;
        self.state.0 = y;
        x = x ^ (x << 23u64);
        self.state.1 = x ^ y ^ (x >> 17u64) ^ (y >> 26u64);
        self.state.1.wrapping_add(y)
    }

    /// The next pseudo-random number.
    pub fn rand_usize(&mut self) -> (r: usize)
        ensures
            final(self).state_view() == next_state(old(self).state_view()),
            r == output(old(self).state_view()) as usize,
    {
        self.rand_u64() as usize
    }
}

/// The `n` bits of `value`, most significant first.
pub open spec fn bits_msb_first(value: u32, n: nat) -> Seq<bool> {
    Seq::new(n, |j: int| ((value >> ((n - 1 - j) as u32)) & 1u32) != 0u32)
}

/// Every bit string of length `n`, in increasing order of the number it spells (most
/// significant bit first). Lengths up to 30 are enumerated; for 31 the count `1 << 31`
/// overflows the signed 32-bit count and nothing is produced.
pub fn bitstring_permutations(n: usize) -> (r: Vec<Vec<bool>>)
    requires
        n <= 31,
    ensures
        n == 31 ==> r@.len() == 0,
        n < 31 ==> r@.len() == (1u32 << n) as nat,
        n < 31 ==> forall|k: int| 0 <= k < r@.len() ==> (#[trigger] r@[k])@ == bits_msb_first(
            k as u32,
            n as nat,
        ),
{
    let mut result: Vec<Vec<bool>> = Vec::new();
    if n == 31 {
        return result;
    }
    let two_pow_n: u32 = 1u32 << (n as u32);
    let mut value: u32 = 0;
    while value < two_pow_n
        invariant
            n < 31,
            two_pow_n == (1u32 << n),
            value <= two_pow_n,
            result@.len() == value,
            forall|k: int| 0 <= k < value ==> (#[trigger] result@[k])@ == bits_msb_first(
                k as u32,
                n as nat,
            ),
        decreases two_pow_n - value,
    {
        let mut bits: Vec<bool> = Vec::new();
        let mut j: usize = 0;
        while j < n
            invariant
                n < 31,
                j <= n,
                bits@.len() == j,
                forall|i: int| 0 <= i < j ==> bits@[i] == (((value >> ((n - 1 - i) as u32)) & 1u32)
                    != 0u32),
            decreases n - j,
        {
            let bit_to_extract = (n - 1 - j) as u32;
            let extracted_bit = value >> bit_to_extract;
            bits.push((extracted_bit & 1u32) != 0u32);
            j = j + 1;
        }
        proof {
            assert(bits@ =~= bits_msb_first(value, n as nat));
        }
        result.push(bits);
        value = value + 1;
    }
    result
}

} // verus!
