//! The digital side of the modem: how bytes become bits and bits become
//! symbols, where each symbol lies in the sample stream, and which bins of
//! the spectrum decide a symbol. The samples themselves are the caller's:
//! this module says where they go and how many there are.

use crate::error::{config_failure, decoding_failure, UshError, UshResult};
use crate::text::{append_decimal, decimal_chars};
use vstd::prelude::*;
use vstd::string::*;

verus! {

/// The fewest samples that a symbol may have.
pub const MIN_SAMPLES_PER_SYMBOL: usize = 8;

/// How many bins on each side of a tone's bin are searched for its power.
pub const SEARCH_RANGE: usize = 3;

/// The fewest bins that must lie between the bins of the two tones.
pub const MIN_BIN_DISTANCE: usize = 2;

/// The length of the window whose energy the signal detector measures.
pub const DETECTION_WINDOW: usize = 512;

/// The bit of `byte` at `index`, counted from the most significant.
pub open spec fn bit_of(byte: u8, index: int) -> bool {
    (byte as int / pow2((7 - index) as nat) as int) % 2 == 1
}

/// Two to the power `k`.
pub open spec fn pow2(k: nat) -> nat
    decreases k,
{
    if k == 0 {
        1
    } else {
        2 * pow2((k - 1) as nat)
    }
}

/// The bits of `data`: eight for each byte, most significant first.
pub open spec fn bits_of(data: Seq<u8>) -> Seq<bool> {
    Seq::new(8 * data.len(), |i: int| bit_of(data[i / 8], i % 8))
}

/// The byte whose bits are the eight at the front of `bits`, most
/// significant first.
pub open spec fn byte_of(bits: Seq<bool>) -> u8 {
    ((if bits[0] { 128int } else { 0 }) + (if bits[1] { 64int } else { 0 }) + (if bits[2] {
        32int
    } else {
        0
    }) + (if bits[3] { 16int } else { 0 }) + (if bits[4] { 8int } else { 0 }) + (if bits[5] {
        4int
    } else {
        0
    }) + (if bits[6] { 2int } else { 0 }) + (if bits[7] { 1int } else { 0 })) as u8
}

/// The bytes that `bits` spell, eight bits to the byte.
pub open spec fn bytes_of(bits: Seq<bool>) -> Seq<u8> {
    Seq::new(bits.len() / 8, |i: int| byte_of(bits.subrange(8 * i, 8 * i + 8)))
}

/// The complaint about a number of bits that is no whole number of bytes.
pub open spec fn ragged_bits_complaint(bits: nat) -> Seq<char> {
    "Bit count "@ + decimal_chars(bits) + " is not a multiple of 8"@
}

/// The complaint about a number of samples that is no whole number of
/// symbols.
pub open spec fn ragged_samples_complaint(samples: nat, samples_per_symbol: nat) -> Seq<char> {
    "Sample length "@ + decimal_chars(samples) + " is not a multiple of symbol length "@
        + decimal_chars(samples_per_symbol)
}

proof fn lemma_pow2_values()
    ensures
        pow2(0) == 1,
        pow2(1) == 2,
        pow2(2) == 4,
        pow2(3) == 8,
        pow2(4) == 16,
        pow2(5) == 32,
        pow2(6) == 64,
        pow2(7) == 128,
{
    reveal_with_fuel(pow2, 8);
}

/// The bit of `byte` at `index` is what is left in the lowest place after
/// the byte is shifted down by the places that follow it.
proof fn lemma_bit_of(byte: u8, index: int)
    requires
        0 <= index < 8,
    ensures
        bit_of(byte, index) == ((byte >> ((7 - index) as u8)) & 1u8 == 1u8),
{
    lemma_pow2_values();
    let b = byte;
    if index == 0 {
        assert(((b >> 7u8) & 1u8 == 1u8) == ((b as int / 128) % 2 == 1)) by (bit_vector);
    } else if index == 1 {
        assert(((b >> 6u8) & 1u8 == 1u8) == ((b as int / 64) % 2 == 1)) by (bit_vector);
    } else if index == 2 {
        assert(((b >> 5u8) & 1u8 == 1u8) == ((b as int / 32) % 2 == 1)) by (bit_vector);
    } else if index == 3 {
        assert(((b >> 4u8) & 1u8 == 1u8) == ((b as int / 16) % 2 == 1)) by (bit_vector);
    } else if index == 4 {
        assert(((b >> 3u8) & 1u8 == 1u8) == ((b as int / 8) % 2 == 1)) by (bit_vector);
    } else if index == 5 {
        assert(((b >> 2u8) & 1u8 == 1u8) == ((b as int / 4) % 2 == 1)) by (bit_vector);
    } else if index == 6 {
        assert(((b >> 1u8) & 1u8 == 1u8) == ((b as int / 2) % 2 == 1)) by (bit_vector);
    } else {
        assert(((b >> 0u8) & 1u8 == 1u8) == ((b as int / 1) % 2 == 1)) by (bit_vector);
    }
}

/// Expands bytes to bits, most significant bit first.
pub fn bytes_to_bits(data: &[u8]) -> (bits: Vec<bool>)
    ensures
        bits@ == bits_of(data@),
{
    let mut bits: Vec<bool> = Vec::new();
    let mut i: usize = 0;
    while i < data.len()
        invariant
            i <= data@.len(),
            bits@.len() == 8 * i,
            forall|k: int| 0 <= k < 8 * i ==> bits@[k] == bit_of(data@[k / 8], k % 8),
        decreases data@.len() - i,
    {
        let byte = data[i];
        let mut j: u8 = 0;
        while j < 8
            invariant
                j <= 8,
                i < data@.len(),
                byte == data@[i as int],
                bits@.len() == 8 * i + j,
                forall|k: int| 0 <= k < 8 * i + j ==> bits@[k] == bit_of(data@[k / 8], k % 8),
            decreases 8 - j,
        {
            proof {
                lemma_bit_of(byte, j as int);
            }
            bits.push((byte >> (7 - j)) & 1 == 1);
            j += 1;
        }
        i += 1;
    }
    assert(bits@ =~= bits_of(data@));
    bits
}

/// Packs bits into bytes, most significant bit first. A number of bits that
/// is no multiple of eight is refused.
pub fn bits_to_bytes(bits: &[bool]) -> (res: UshResult<Vec<u8>>)
    ensures
        bits@.len() % 8 == 0 ==> res is Ok && res->Ok_0@ == bytes_of(bits@),
        bits@.len() % 8 != 0 ==> decoding_failure(res, ragged_bits_complaint(bits@.len())),
{
    let n = bits.len();
    if n % 8 != 0 {
        let mut message = String::from_str("Bit count ");
        append_decimal(&mut message, n as u64);
        message.append(" is not a multiple of 8");
        return Err(UshError::Decoding { message });
    }
    let count = n / 8;
    let mut bytes: Vec<u8> = Vec::new();
    let mut i: usize = 0;
    while i < count
        invariant
            n == bits@.len(),
            count == n / 8,
            n % 8 == 0,
            i <= count,
            bytes@.len() == i,
            forall|k: int|
                0 <= k < i ==> bytes@[k] == byte_of(#[trigger] bits@.subrange(8 * k, 8 * k + 8)),
        decreases count - i,
    {
        let at = 8 * i;
        let ghost chunk = bits@.subrange(8 * i as int, 8 * i + 8);
        let mut byte: u8 = 0;
        if bits[at] {
            byte += 128;
        }
        if bits[at + 1] {
            byte += 64;
        }
        if bits[at + 2] {
            byte += 32;
        }
        if bits[at + 3] {
            byte += 16;
        }
        if bits[at + 4] {
            byte += 8;
        }
        if bits[at + 5] {
            byte += 4;
        }
        if bits[at + 6] {
            byte += 2;
        }
        if bits[at + 7] {
            byte += 1;
        }
        assert(byte == byte_of(chunk));
        bytes.push(byte);
        i += 1;
    }
    assert(bytes@ =~= bytes_of(bits@));
    Ok(bytes)
}

/// Packing the bits of bytes gives the bytes back.
pub proof fn lemma_bits_round_trip(data: Seq<u8>)
    ensures
        bits_of(data).len() == 8 * data.len(),
        bytes_of(bits_of(data)) == data,
{
    let bits = bits_of(data);
    lemma_pow2_values();
    assert forall|i: int| 0 <= i < data.len() implies bytes_of(bits)[i] == data[i] by {
        let chunk = bits.subrange(8 * i, 8 * i + 8);
        let b = data[i];
        assert forall|j: int| 0 <= j < 8 implies chunk[j] == bit_of(b, j) by {
            assert(chunk[j] == bits[8 * i + j]);
            assert((8 * i + j) / 8 == i);
            assert((8 * i + j) % 8 == j);
        }
        assert(chunk[0] == bit_of(b, 0));
        assert(chunk[1] == bit_of(b, 1));
        assert(chunk[2] == bit_of(b, 2));
        assert(chunk[3] == bit_of(b, 3));
        assert(chunk[4] == bit_of(b, 4));
        assert(chunk[5] == bit_of(b, 5));
        assert(chunk[6] == bit_of(b, 6));
        assert(chunk[7] == bit_of(b, 7));
        lemma_byte_from_bits(b);
    }
    assert(bytes_of(bits) =~= data);
}

/// A byte is the sum of the weights of its bits.
proof fn lemma_byte_from_bits(b: u8)
    ensures
        b == (if bit_of(b, 0) { 128int } else { 0 }) + (if bit_of(b, 1) { 64int } else { 0 }) + (
        if bit_of(b, 2) {
            32int
        } else {
            0
        }) + (if bit_of(b, 3) { 16int } else { 0 }) + (if bit_of(b, 4) { 8int } else { 0 }) + (
        if bit_of(b, 5) {
            4int
        } else {
            0
        }) + (if bit_of(b, 6) { 2int } else { 0 }) + (if bit_of(b, 7) { 1int } else { 0 }),
{
    lemma_pow2_values();
    let n = b as int;
    assert(n == 128 * (n / 128) + n % 128);
    assert(n % 128 == 64 * ((n / 64) % 2) + n % 64);
    assert(n % 64 == 32 * ((n / 32) % 2) + n % 32);
    assert(n % 32 == 16 * ((n / 16) % 2) + n % 16);
    assert(n % 16 == 8 * ((n / 8) % 2) + n % 8);
    assert(n % 8 == 4 * ((n / 4) % 2) + n % 4);
    assert(n % 4 == 2 * ((n / 2) % 2) + n % 2);
    assert(n / 128 == (n / 128) % 2);
    assert(n / 1 == n);
}

/// The least power of two that is at least `n`, found by doubling `p`.
pub open spec fn doubled_up_to(n: nat, p: nat) -> nat
    decreases
            (if p < n {
                n - p
            } else {
                0
            }),
{
    if p >= n || p == 0 {
        p
    } else {
        doubled_up_to(n, 2 * p)
    }
}

/// The least power of two that is at least `n`: the length of the transform
/// that takes a symbol of `n` samples.
pub open spec fn next_power_of_two(n: nat) -> nat {
    doubled_up_to(n, 1)
}

/// The bin of a transform of `fft_size` points that lies nearest to `freq`,
/// at `sample_rate` samples a second: `freq * fft_size / sample_rate`,
/// rounded to the nearest whole number, a half rounded up.
pub open spec fn nearest_bin(freq: nat, fft_size: nat, sample_rate: nat) -> nat {
    if sample_rate == 0 {
        0
    } else {
        (2 * freq * fft_size + sample_rate) / (2 * sample_rate)
    }
}

/// The parameters of the modem, as numbers.
pub struct SymbolPlanView {
    /// Samples a second.
    pub sample_rate: nat,
    /// The tone for a 0 bit, in hertz.
    pub freq_0: nat,
    /// The tone for a 1 bit, in hertz.
    pub freq_1: nat,
    /// How many samples make one symbol.
    pub samples_per_symbol: nat,
    /// Over how many samples the first symbol rises and the last one falls.
    pub ramp_samples: nat,
}

impl SymbolPlanView {
    /// The length of the transform that decides a symbol.
    pub open spec fn fft_size(self) -> nat {
        next_power_of_two(self.samples_per_symbol)
    }

    /// The bin of the tone for a 0 bit.
    pub open spec fn bin_0(self) -> nat {
        nearest_bin(self.freq_0, self.fft_size(), self.sample_rate)
    }

    /// The bin of the tone for a 1 bit.
    pub open spec fn bin_1(self) -> nat {
        nearest_bin(self.freq_1, self.fft_size(), self.sample_rate)
    }

    /// What is wrong with the parameters, if anything is: the first of the
    /// rules that they break.
    pub open spec fn complaint(self) -> Option<Seq<char>> {
        if self.freq_0 == 0 {
            Some("freq_0 must be positive"@)
        } else if self.freq_0 >= self.freq_1 {
            Some("freq_0 must be less than freq_1"@)
        } else if 2 * self.freq_1 > self.sample_rate {
            Some("freq_1 must not exceed half the sample rate"@)
        } else if self.samples_per_symbol < MIN_SAMPLES_PER_SYMBOL {
            Some("A symbol must have at least 8 samples"@)
        } else if 2 * self.ramp_samples >= self.samples_per_symbol {
            Some("The ramp must be shorter than half a symbol"@)
        } else if self.fft_size() > usize::MAX {
            Some("A symbol is too long for a transform"@)
        } else if self.bin_1() < self.bin_0() + MIN_BIN_DISTANCE {
            Some("The tones are too close to tell apart"@)
        } else {
            None
        }
    }

    /// Whether the parameters keep every rule.
    pub open spec fn well_formed(self) -> bool {
        self.complaint() is None
    }
}

/// The weight of the sample at `index` of a symbol while the first symbol
/// of a transmission rises, in parts of `ramp_samples`; nothing where the
/// sample has its full weight.
pub open spec fn rise_weight(plan: SymbolPlanView, index: nat, is_first: bool) -> Option<nat> {
    if is_first && index < plan.ramp_samples {
        Some(index)
    } else {
        None
    }
}

/// The weight of the sample at `index` of a symbol while the last symbol of
/// a transmission falls, in parts of `ramp_samples`; nothing where the
/// sample has its full weight, or lies beyond the symbol.
pub open spec fn fall_weight(plan: SymbolPlanView, index: nat, is_last: bool) -> Option<nat> {
    if is_last && plan.samples_per_symbol - plan.ramp_samples <= index < plan.samples_per_symbol {
        Some((plan.samples_per_symbol - index) as nat)
    } else {
        None
    }
}

/// A transmission that has a ramp begins with weight nothing and ends with
/// one part of the ramp; a sample is never in both ramps at once.
pub proof fn lemma_ramp_ends(plan: SymbolPlanView)
    requires
        plan.well_formed(),
        plan.ramp_samples > 0,
    ensures
        rise_weight(plan, 0, true) == Some(0nat),
        fall_weight(plan, (plan.samples_per_symbol - 1) as nat, true) == Some(1nat),
        forall|index: nat|
            !(rise_weight(plan, index, true) is Some && fall_weight(plan, index, true) is Some),
{
}

/// The parameters of the modem, checked, with what follows from them.
#[derive(Debug, Clone, Copy)]
pub struct SymbolPlan {
    sample_rate: u32,
    freq_0: u32,
    freq_1: u32,
    samples_per_symbol: usize,
    ramp_samples: usize,
    fft_size: usize,
    bin_0: usize,
    bin_1: usize,
}

impl View for SymbolPlan {
    type V = SymbolPlanView;

    closed spec fn view(&self) -> SymbolPlanView {
        SymbolPlanView {
            sample_rate: self.sample_rate as nat,
            freq_0: self.freq_0 as nat,
            freq_1: self.freq_1 as nat,
            samples_per_symbol: self.samples_per_symbol as nat,
            ramp_samples: self.ramp_samples as nat,
        }
    }
}

/// Doubling from a power of two reaches a power of two that is at least `n`
/// and less than twice `n`.
pub proof fn lemma_doubled_up_to(n: nat, p: nat)
    requires
        1 <= p,
        p < 2 * n || p == 1,
    ensures
        doubled_up_to(n, p) >= n,
        doubled_up_to(n, p) >= p,
        doubled_up_to(n, p) < 2 * n || doubled_up_to(n, p) == 1,
        (exists|k: nat| p == pow2(k)) ==> exists|k: nat| doubled_up_to(n, p) == pow2(k),
    decreases
            (if p < n {
                n - p
            } else {
                0
            }),
{
    if p < n {
        lemma_doubled_up_to(n, 2 * p);
        if exists|k: nat| p == pow2(k) {
            let k = choose|k: nat| p == pow2(k);
            assert(2 * p == pow2(k + 1));
        }
    }
}

/// The length of the transform is a power of two, takes a whole symbol, and
/// is the least such number: half of it would not take the symbol.
pub proof fn lemma_next_power_of_two(n: nat)
    ensures
        exists|k: nat| next_power_of_two(n) == pow2(k),
        next_power_of_two(n) >= n,
        next_power_of_two(n) >= 1,
        next_power_of_two(n) > 1 ==> next_power_of_two(n) / 2 < n,
{
    assert(1 == pow2(0));
    lemma_doubled_up_to(n, 1);
}

/// The nearest bin is off the tone by at most half a bin.
pub proof fn lemma_nearest_bin(freq: nat, fft_size: nat, sample_rate: nat)
    requires
        sample_rate > 0,
    ensures
        ({
            let bin = nearest_bin(freq, fft_size, sample_rate);
            2 * bin * sample_rate - sample_rate <= 2 * freq * fft_size < 2 * bin * sample_rate
                + sample_rate
        }),
{
    let x = (2 * freq * fft_size + sample_rate) as int;
    let d = (2 * sample_rate) as int;
    assert(x == d * (x / d) + x % d && 0 <= x % d < d) by (nonlinear_arith)
        requires
            d > 0,
    ;
    assert(d * (x / d) == 2 * (x / d) * sample_rate) by (nonlinear_arith)
        requires
            d == 2 * sample_rate,
    ;
}

/// The least power of two that is at least `n`, if the machine can hold it.
pub fn checked_next_power_of_two(n: usize) -> (res: Option<usize>)
    ensures
        next_power_of_two(n as nat) <= usize::MAX ==> res == Some(
            next_power_of_two(n as nat) as usize,
        ),
        next_power_of_two(n as nat) > usize::MAX ==> res is None,
{
    let mut p: usize = 1;
    while p < n
        invariant
            1 <= p,
            doubled_up_to(n as nat, p as nat) == next_power_of_two(n as nat),
        decreases
                (if p < n {
                    n - p
                } else {
                    0
                }),
    {
        if p > usize::MAX / 2 {
            proof {
                lemma_doubled_up_to(n as nat, 2 * p as nat);
            }
            return None;
        }
        p = p * 2;
    }
    Some(p)
}

/// The bin nearest to `freq`.
fn bin_of(freq: u32, fft_size: usize, sample_rate: u32) -> (bin: usize)
    requires
        2 * freq <= sample_rate,
        sample_rate > 0,
    ensures
        bin == nearest_bin(freq as nat, fft_size as nat, sample_rate as nat),
        bin <= fft_size / 2 + 1,
{
    assert(2 * (freq as int) * (fft_size as int) <= 0x2_0000_0000 * 0x1_0000_0000_0000_0000)
        by (nonlinear_arith)
        requires
            0 <= freq as int <= 0xFFFF_FFFF,
            0 <= fft_size as int <= 0xFFFF_FFFF_FFFF_FFFF,
    ;
    let scaled: u128 = 2 * (freq as u128) * (fft_size as u128) + sample_rate as u128;
    let bin: u128 = scaled / (2 * (sample_rate as u128));
    proof {
        let f = freq as int;
        let n = fft_size as int;
        let r = sample_rate as int;
        assert(2 * f * n + r <= r * n + r) by (nonlinear_arith)
            requires
                2 * f <= r,
                n >= 0,
        ;
        assert((r * n + r) / (2 * r) <= n / 2 + 1) by (nonlinear_arith)
            requires
                r > 0,
                n >= 0,
        ;
        assert((2 * f * n + r) / (2 * r) <= (r * n + r) / (2 * r)) by (nonlinear_arith)
            requires
                2 * f * n + r <= r * n + r,
                r > 0,
        ;
    }
    bin as usize
}

impl SymbolPlan {
    #[verifier::type_invariant]
    spec fn consistent(self) -> bool {
        &&& self@.well_formed()
        &&& self.fft_size == self@.fft_size()
        &&& self.bin_0 == self@.bin_0()
        &&& self.bin_1 == self@.bin_1()
    }

    /// Checks the parameters and derives the rest from them. Parameters that
    /// break a rule are a configuration failure that names the first rule
    /// broken.
    pub fn new(
        sample_rate: u32,
        freq_0: u32,
        freq_1: u32,
        samples_per_symbol: usize,
        ramp_samples: usize,
    ) -> (res: UshResult<SymbolPlan>)
        ensures
            ({
                let wanted = SymbolPlanView {
                    sample_rate: sample_rate as nat,
                    freq_0: freq_0 as nat,
                    freq_1: freq_1 as nat,
                    samples_per_symbol: samples_per_symbol as nat,
                    ramp_samples: ramp_samples as nat,
                };
                match wanted.complaint() {
                    Some(text) => config_failure(res, text),
                    None => res is Ok && res->Ok_0@ == wanted,
                }
            }),
    {
        if freq_0 == 0 {
            return Err(UshError::Config { message: String::from_str("freq_0 must be positive") });
        }
        if freq_0 >= freq_1 {
            return Err(
                UshError::Config { message: String::from_str("freq_0 must be less than freq_1") },
            );
        }
        if freq_1 as u64 * 2 > sample_rate as u64 {
            return Err(
                UshError::Config {
                    message: String::from_str("freq_1 must not exceed half the sample rate"),
                },
            );
        }
        if samples_per_symbol < MIN_SAMPLES_PER_SYMBOL {
            return Err(
                UshError::Config {
                    message: String::from_str("A symbol must have at least 8 samples"),
                },
            );
        }
        if ramp_samples >= samples_per_symbol || ramp_samples >= samples_per_symbol
            - ramp_samples {
            return Err(
                UshError::Config {
                    message: String::from_str("The ramp must be shorter than half a symbol"),
                },
            );
        }
        let fft_size = match checked_next_power_of_two(samples_per_symbol) {
            Some(fft_size) => fft_size,
            None => {
                return Err(
                    UshError::Config {
                        message: String::from_str("A symbol is too long for a transform"),
                    },
                );
            },
        };
        let bin_0 = bin_of(freq_0, fft_size, sample_rate);
        let bin_1 = bin_of(freq_1, fft_size, sample_rate);
        if bin_1 < bin_0 + MIN_BIN_DISTANCE {
            return Err(
                UshError::Config {
                    message: String::from_str("The tones are too close to tell apart"),
                },
            );
        }
        Ok(
            SymbolPlan {
                sample_rate,
                freq_0,
                freq_1,
                samples_per_symbol,
                ramp_samples,
                fft_size,
                bin_0,
                bin_1,
            },
        )
    }

    /// Samples a second.
    pub fn sample_rate(&self) -> (n: u32)
        ensures
            n == self@.sample_rate,
    {
        self.sample_rate
    }

    /// The tone for a 0 bit, in hertz.
    pub fn freq_0(&self) -> (n: u32)
        ensures
            n == self@.freq_0,
    {
        self.freq_0
    }

    /// The tone for a 1 bit, in hertz.
    pub fn freq_1(&self) -> (n: u32)
        ensures
            n == self@.freq_1,
    {
        self.freq_1
    }

    /// How many samples make one symbol: at least eight.
    pub fn samples_per_symbol(&self) -> (n: usize)
        ensures
            n == self@.samples_per_symbol,
            n >= MIN_SAMPLES_PER_SYMBOL,
    {
        proof {
            use_type_invariant(self);
        }
        self.samples_per_symbol
    }

    /// Over how many samples the first symbol rises and the last one falls:
    /// fewer than half a symbol.
    pub fn ramp_samples(&self) -> (n: usize)
        ensures
            n == self@.ramp_samples,
            2 * n < self@.samples_per_symbol,
    {
        proof {
            use_type_invariant(self);
        }
        self.ramp_samples
    }

    /// The length of the transform that decides a symbol: the least power of
    /// two that takes a whole symbol.
    pub fn fft_size(&self) -> (n: usize)
        ensures
            n == self@.fft_size(),
            n >= self@.samples_per_symbol,
    {
        proof {
            use_type_invariant(self);
            lemma_doubled_up_to(self@.samples_per_symbol, 1);
        }
        self.fft_size
    }

    /// The bin of the tone for a 0 bit.
    pub fn bin_0(&self) -> (n: usize)
        ensures
            n == self@.bin_0(),
            n + MIN_BIN_DISTANCE <= self@.bin_1(),
    {
        proof {
            use_type_invariant(self);
        }
        self.bin_0
    }

    /// The bin of the tone for a 1 bit.
    pub fn bin_1(&self) -> (n: usize)
        ensures
            n == self@.bin_1(),
            self@.bin_0() + MIN_BIN_DISTANCE <= n,
    {
        proof {
            use_type_invariant(self);
        }
        self.bin_1
    }

    /// How many samples carry `bits` bits: one symbol for each. There is no
    /// answer where the machine cannot hold the number.
    pub fn sample_count(&self, bits: usize) -> (res: Option<usize>)
        ensures
            bits * self@.samples_per_symbol <= usize::MAX ==> res == Some(
                (bits * self@.samples_per_symbol) as usize,
            ),
            bits * self@.samples_per_symbol > usize::MAX ==> res is None,
    {
        bits.checked_mul(self.samples_per_symbol)
    }

    /// How many samples carry `bytes` bytes: eight symbols for each. There
    /// is no answer where the machine cannot hold the number.
    pub fn modulated_length(&self, bytes: usize) -> (res: Option<usize>)
        ensures
            8 * bytes * self@.samples_per_symbol <= usize::MAX ==> res == Some(
                (8 * bytes * self@.samples_per_symbol) as usize,
            ),
            8 * bytes * self@.samples_per_symbol > usize::MAX ==> res is None,
    {
        proof {
            use_type_invariant(self);
            assert(8 * bytes * self@.samples_per_symbol >= 8 * bytes) by (nonlinear_arith)
                requires
                    self@.samples_per_symbol >= 1,
            ;
        }
        match bytes.checked_mul(8) {
            Some(bits) => self.sample_count(bits),
            None => None,
        }
    }

    /// How many symbols `samples` samples are. A number of samples that is
    /// no whole number of symbols is refused.
    pub fn symbol_count(&self, samples: usize) -> (res: UshResult<usize>)
        ensures
            samples % self@.samples_per_symbol as usize == 0 ==> res is Ok && res->Ok_0 == samples
                / self@.samples_per_symbol as usize,
            samples % self@.samples_per_symbol as usize != 0 ==> decoding_failure(
                res,
                ragged_samples_complaint(samples as nat, self@.samples_per_symbol),
            ),
    {
        proof {
            use_type_invariant(self);
        }
        if samples % self.samples_per_symbol != 0 {
            let mut message = String::from_str("Sample length ");
            append_decimal(&mut message, samples as u64);
            message.append(" is not a multiple of symbol length ");
            append_decimal(&mut message, self.samples_per_symbol as u64);
            return Err(UshError::Decoding { message });
        }
        Ok(samples / self.samples_per_symbol)
    }

    /// How many bytes `samples` samples decode to. Refused are a number of
    /// samples that is no whole number of symbols and, after that, a number
    /// of symbols that is no whole number of bytes.
    pub fn decoded_length(&self, samples: usize) -> (res: UshResult<usize>)
        ensures
            ({
                let symbol = self@.samples_per_symbol as usize;
                if samples % symbol != 0 {
                    decoding_failure(
                        res,
                        ragged_samples_complaint(samples as nat, self@.samples_per_symbol),
                    )
                } else if (samples / symbol) % 8 != 0 {
                    decoding_failure(res, ragged_bits_complaint((samples / symbol) as nat))
                } else {
                    res is Ok && res->Ok_0 == samples / symbol / 8
                }
            }),
    {
        let symbols = match self.symbol_count(samples) {
            Ok(symbols) => symbols,
            Err(error) => {
                return Err(error);
            },
        };
        if symbols % 8 != 0 {
            let mut message = String::from_str("Bit count ");
            append_decimal(&mut message, symbols as u64);
            message.append(" is not a multiple of 8");
            return Err(UshError::Decoding { message });
        }
        Ok(symbols / 8)
    }

    /// Where the symbol number `index` lies among `samples` samples: from
    /// its first sample up to, not including, the first of the next symbol.
    /// There is no such place where the samples end before the symbol does.
    pub fn symbol_window(&self, index: usize, samples: usize) -> (res: Option<(usize, usize)>)
        ensures
            (index + 1) * self@.samples_per_symbol <= samples ==> res == Some(
                (
                    (index * self@.samples_per_symbol) as usize,
                    ((index + 1) * self@.samples_per_symbol) as usize,
                ),
            ),
            (index + 1) * self@.samples_per_symbol > samples ==> res is None,
    {
        proof {
            use_type_invariant(self);
            assert((index + 1) * self@.samples_per_symbol == index * self@.samples_per_symbol
                + self@.samples_per_symbol) by (nonlinear_arith);
        }
        let start = match index.checked_mul(self.samples_per_symbol) {
            Some(start) => start,
            None => {
                return None;
            },
        };
        if start > samples || samples - start < self.samples_per_symbol {
            return None;
        }
        Some((start, start + self.samples_per_symbol))
    }

    /// The bins that are searched for the power of the tone at `bin`: three
    /// to each side, as far as the transform has them. Both ends belong to
    /// the search.
    pub fn search_window(&self, bin: usize) -> (res: (usize, usize))
        ensures
            res.0 == if bin >= SEARCH_RANGE {
                bin - SEARCH_RANGE
            } else {
                0
            },
            res.1 == if bin + SEARCH_RANGE <= self@.fft_size() - 1 {
                bin + SEARCH_RANGE
            } else {
                self@.fft_size() - 1
            },
    {
        proof {
            use_type_invariant(self);
            lemma_doubled_up_to(self@.samples_per_symbol, 1);
        }
        let low = if bin >= SEARCH_RANGE {
            bin - SEARCH_RANGE
        } else {
            0
        };
        let last = self.fft_size - 1;
        let high = if bin <= last && last - bin >= SEARCH_RANGE {
            bin + SEARCH_RANGE
        } else {
            last
        };
        (low, high)
    }

    /// The weight of the sample at `index` of the first symbol of a
    /// transmission while it rises, in parts of `ramp_samples`; nothing
    /// where the sample has its full weight.
    pub fn rise(&self, index: usize, is_first: bool) -> (res: Option<usize>)
        ensures
            match res {
                Some(parts) => rise_weight(self@, index as nat, is_first) == Some(parts as nat),
                None => rise_weight(self@, index as nat, is_first) is None,
            },
    {
        if is_first && index < self.ramp_samples {
            Some(index)
        } else {
            None
        }
    }

    /// The weight of the sample at `index` of the last symbol of a
    /// transmission while it falls, in parts of `ramp_samples`; nothing
    /// where the sample has its full weight, or lies beyond the symbol.
    pub fn fall(&self, index: usize, is_last: bool) -> (res: Option<usize>)
        ensures
            match res {
                Some(parts) => fall_weight(self@, index as nat, is_last) == Some(parts as nat),
                None => fall_weight(self@, index as nat, is_last) is None,
            },
    {
        proof {
            use_type_invariant(self);
        }
        if is_last && index >= self.samples_per_symbol - self.ramp_samples && index
            < self.samples_per_symbol {
            Some(self.samples_per_symbol - index)
        } else {
            None
        }
    }
}

/// How many windows the signal detector measures in `samples` samples: one
/// for each place at which a whole window begins, none in fewer samples than
/// a window has.
pub fn detection_windows(samples: usize) -> (count: usize)
    ensures
        count == if samples >= DETECTION_WINDOW {
            samples - DETECTION_WINDOW + 1
        } else {
            0
        },
{
    if samples >= DETECTION_WINDOW {
        samples - DETECTION_WINDOW + 1
    } else {
        0
    }
}

} // verus!
