//! Bit-level reading of NAL payloads: emulation-prevention removal and unsigned
//! Exp-Golomb codes.

use vstd::arithmetic::div_mod;
use vstd::arithmetic::power2;
use vstd::prelude::*;

verus! {

/// Bit `i` of `bytes`, counting from the most significant bit of the first byte.
pub open spec fn bit_at(bytes: Seq<u8>, i: int) -> u8 {
    (bytes[i / 8] >> ((7 - i % 8) as u8)) & 1
}

/// The number of bits of `bytes`.
pub open spec fn bit_len(bytes: Seq<u8>) -> int {
    8 * bytes.len() as int
}

/// How many zero bits stand at bit `from` and directly after it.
pub open spec fn zero_run(bytes: Seq<u8>, from: int) -> nat
    decreases bit_len(bytes) - from,
{
    if 0 <= from < bit_len(bytes) && bit_at(bytes, from) == 0 {
        1 + zero_run(bytes, from + 1)
    } else {
        0
    }
}

/// The `count` bits from bit `start` on, read as a binary number.
pub open spec fn bits_value(bytes: Seq<u8>, start: int, count: nat) -> nat
    decreases count,
{
    if count == 0 {
        0
    } else {
        2 * bits_value(bytes, start, (count - 1) as nat) + bit_at(bytes, start + count - 1) as nat
    }
}

/// The unsigned Exp-Golomb code at the start of `bytes`: `k` zero bits, a one bit and
/// `k` further bits of value `x` stand for `2^k + x - 1`. Codes with more than 63
/// leading zeros, and codes that `bytes` does not hold in full, have no value.
pub open spec fn exp_golomb(bytes: Seq<u8>) -> Option<nat> {
    let k = zero_run(bytes, 0);
    if k > 63 || 2 * k + 1 > bit_len(bytes) {
        None
    } else {
        Some((power2::pow2(k) + bits_value(bytes, k as int + 1, k) - 1) as nat)
    }
}

/// Byte `i` of an encapsulated payload only keeps two zero bytes from being taken for
/// a start code.
pub open spec fn is_emulation_prevention(payload: Seq<u8>, i: int) -> bool {
    i >= 2 && payload[i] == 3 && payload[i - 1] == 0 && payload[i - 2] == 0
}

/// `payload` without its emulation-prevention bytes.
pub open spec fn rbsp(payload: Seq<u8>) -> Seq<u8>
    decreases payload.len(),
{
    if payload.len() == 0 {
        Seq::empty()
    } else {
        let before = rbsp(payload.drop_last());
        if is_emulation_prevention(payload, payload.len() - 1) {
            before
        } else {
            before.push(payload.last())
        }
    }
}

/// Removes the emulation-prevention bytes from `payload`.
pub fn h264_ebsp_to_rbsp(payload: &[u8]) -> (out: Vec<u8>)
    ensures
        out@ == rbsp(payload@),
{
    let mut out: Vec<u8> = Vec::with_capacity(payload.len());
    let mut i: usize = 0;
    assert(payload@.take(0) =~= Seq::<u8>::empty());
    while i < payload.len()
        invariant
            i <= payload@.len(),
            out@ == rbsp(payload@.take(i as int)),
        decreases payload@.len() - i,
    {
        let byte: u8 = payload[i];
        proof {
            assert(payload@.take(i + 1).drop_last() =~= payload@.take(i as int));
            assert(payload@.take(i + 1).last() == byte);
        }
        let guarded = i >= 2 && byte == 3 && payload[i - 1] == 0 && payload[i - 2] == 0;
        if !guarded {
            out.push(byte);
        }
        i = i + 1;
    }
    assert(payload@.take(payload@.len() as int) =~= payload@);
    out
}

/// Reads the bits of a byte slice from the most significant bit on.
pub struct BitReader<'a> {
    bytes: &'a [u8],
    bit_index: usize,
}

impl<'a> BitReader<'a> {
    /// The bytes being read.
    pub closed spec fn source(&self) -> Seq<u8> {
        self.bytes@
    }

    /// How many bits have been read.
    pub closed spec fn position(&self) -> int {
        self.bit_index as int
    }

    /// A reader at the first bit of `bytes`.
    pub fn new(bytes: &'a [u8]) -> (reader: Self)
        ensures
            reader.source() == bytes@,
            reader.position() == 0,
    {
        BitReader { bytes, bit_index: 0 }
    }

    /// Reads the next bit, or gives `None` where no bit is left.
    pub fn read_bit(&mut self) -> (bit: Option<u8>)
        requires
            old(self).position() < usize::MAX,
        ensures
            final(self).source() == old(self).source(),
            old(self).position() < bit_len(old(self).source()) ==> {
                &&& bit == Some(bit_at(old(self).source(), old(self).position()))
                &&& final(self).position() == old(self).position() + 1
            },
            old(self).position() >= bit_len(old(self).source()) ==> {
                &&& bit is None
                &&& final(self).position() == old(self).position()
            },
    {
        if self.bit_index / 8 >= self.bytes.len() {
            return None;
        }
        let byte: u8 = self.bytes[self.bit_index / 8];
        let shift: u8 = (7 - self.bit_index % 8) as u8;
        self.bit_index = self.bit_index + 1;
        Some((byte >> shift) & 1)
    }
}

proof fn lemma_zero_run(bytes: Seq<u8>, k: nat)
    requires
        k <= bit_len(bytes),
        forall|i: int| 0 <= i < k ==> bit_at(bytes, i) == 0,
    ensures
        zero_run(bytes, 0) == k + zero_run(bytes, k as int),
    decreases k,
{
    if k > 0 {
        lemma_zero_run(bytes, (k - 1) as nat);
        assert(bit_at(bytes, k - 1) == 0);
    }
}

proof fn lemma_bit_range(bytes: Seq<u8>, i: int)
    ensures
        bit_at(bytes, i) <= 1,
{
    let byte = bytes[i / 8];
    let shift = (7 - i % 8) as u8;
    assert((byte >> shift) & 1 <= 1) by (bit_vector);
}

proof fn lemma_bits_value_bound(bytes: Seq<u8>, start: int, count: nat)
    ensures
        bits_value(bytes, start, count) < power2::pow2(count),
    decreases count,
{
    power2::lemma_pow2_pos(count);
    if count > 0 {
        lemma_bits_value_bound(bytes, start, (count - 1) as nat);
        power2::lemma_pow2_unfold(count);
        lemma_bit_range(bytes, start + count - 1);
    }
}

proof fn lemma_pow2_monotone(a: nat, b: nat)
    requires
        a <= b,
    ensures
        power2::pow2(a) <= power2::pow2(b),
    decreases b - a,
{
    if a < b {
        lemma_pow2_monotone(a, (b - 1) as nat);
        power2::lemma_pow2_unfold(b);
        power2::lemma_pow2_pos((b - 1) as nat);
    }
}

/// Reads the unsigned Exp-Golomb code at the start of `payload`.
pub fn read_unsigned_exp_golomb(payload: &[u8]) -> (value: Option<u64>)
    ensures
        match value {
            Some(v) => exp_golomb(payload@) == Some(v as nat),
            None => exp_golomb(payload@) is None,
        },
{
    let mut reader = BitReader::new(payload);
    let mut leading_zero_bits: u32 = 0;
    loop
        invariant_except_break
            leading_zero_bits <= 63,
            reader.position() == leading_zero_bits,
            leading_zero_bits <= bit_len(payload@),
            forall|i: int| 0 <= i < leading_zero_bits ==> bit_at(payload@, i) == 0,
        invariant
            reader.source() == payload@,
        ensures
            leading_zero_bits <= 63,
            reader.position() == leading_zero_bits + 1,
            leading_zero_bits < bit_len(payload@),
            zero_run(payload@, 0) == leading_zero_bits,
        decreases 64 - leading_zero_bits,
    {
        proof {
            lemma_zero_run(payload@, leading_zero_bits as nat);
            lemma_bit_range(payload@, leading_zero_bits as int);
        }
        match reader.read_bit() {
            None => {
                return None;
            },
            Some(bit) => {
                if bit != 0 {
                    break;
                }
            },
        }
        leading_zero_bits = leading_zero_bits + 1;
        if leading_zero_bits > 63 {
            proof {
                lemma_zero_run(payload@, leading_zero_bits as nat);
            }
            return None;
        }
    }
    let ghost k = leading_zero_bits as nat;
    let mut value: u64 = 1;
    let mut count: u32 = 0;
    proof {
        power2::lemma2_to64();
        power2::lemma2_to64_rest();
    }
    while count < leading_zero_bits
        invariant
            count <= leading_zero_bits <= 63,
            k == leading_zero_bits,
            zero_run(payload@, 0) == k,
            reader.source() == payload@,
            reader.position() == k + 1 + count,
            reader.position() <= bit_len(payload@),
            value == power2::pow2(count as nat) + bits_value(payload@, k as int + 1, count as nat),
            power2::pow2(63) == 0x8000_0000_0000_0000,
        decreases leading_zero_bits - count,
    {
        match reader.read_bit() {
            None => {
                return None;
            },
            Some(bit) => {
                proof {
                    lemma_bit_range(payload@, k + 1 + count);
                    lemma_bits_value_bound(payload@, k as int + 1, count as nat);
                    lemma_pow2_monotone(count as nat + 1, 63);
                    power2::lemma_pow2_unfold(count as nat + 1);
                    assert(value < 0x8000_0000_0000_0000);
                    let before = value;
                    let b = bit as u64;
                    assert((before << 1) | b == 2 * before + b) by (bit_vector)
                        requires
                            before < 0x8000_0000_0000_0000,
                            b <= 1,
                    ;
                }
                value = (value << 1) | (bit as u64);
            },
        }
        count = count + 1;
    }
    proof {
        power2::lemma_pow2_pos(k);
    }
    Some(value - 1)
}

// Laws

/// A payload in which no two zero bytes are followed by a three is its own content.
pub proof fn law_unguarded_payload_is_unchanged(payload: Seq<u8>)
    requires
        forall|i: int| 0 <= i < payload.len() ==> !#[trigger] is_emulation_prevention(payload, i),
    ensures
        rbsp(payload) == payload,
    decreases payload.len(),
{
    if payload.len() > 0 {
        let before = payload.drop_last();
        assert forall|i: int| 0 <= i < before.len() implies !#[trigger] is_emulation_prevention(
            before,
            i,
        ) by {
            assert(!is_emulation_prevention(payload, i));
        }
        law_unguarded_payload_is_unchanged(before);
        assert(!is_emulation_prevention(payload, payload.len() - 1));
        assert(before.push(payload.last()) =~= payload);
    } else {
        assert(payload =~= Seq::<u8>::empty());
    }
}

/// An Exp-Golomb code stands for zero exactly where it begins with a one bit.
pub proof fn law_zero_is_a_single_one_bit(bytes: Seq<u8>)
    ensures
        exp_golomb(bytes) == Some(0nat) <==> bytes.len() > 0 && bit_at(bytes, 0) == 1,
{
    let k = zero_run(bytes, 0);
    lemma_bit_range(bytes, 0);
    power2::lemma_pow2_pos(k);
    if k > 0 {
        power2::lemma_pow2_unfold(k);
        power2::lemma_pow2_pos((k - 1) as nat);
    } else {
        power2::lemma2_to64();
    }
}

/// Byte by byte, a payload's content is what it says, but for each 3 that stands behind two
/// zeros.
pub proof fn law_content_is_all_but_guards(payload: Seq<u8>, byte: u8)
    ensures
        rbsp(Seq::empty()) == Seq::<u8>::empty(),
        rbsp(payload.push(byte)) == if payload.len() >= 2 && byte == 3 && payload[payload.len() - 1]
            == 0 && payload[payload.len() - 2] == 0 {
            rbsp(payload)
        } else {
            rbsp(payload).push(byte)
        },
{
    assert(payload.push(byte).drop_last() =~= payload);
}

/// The number that bytes stand for, the first one being the most significant.
pub open spec fn number_of(bytes: Seq<u8>) -> nat
    decreases bytes.len(),
{
    if bytes.len() == 0 {
        0
    } else {
        256 * number_of(bytes.drop_last()) + bytes.last() as nat
    }
}

proof fn lemma_bits_of_front(bytes: Seq<u8>, n: nat)
    requires
        bytes.len() > 0,
        n <= 8 * (bytes.len() - 1),
    ensures
        bits_value(bytes, 0, n) == bits_value(bytes.drop_last(), 0, n),
    decreases n,
{
    if n > 0 {
        lemma_bits_of_front(bytes, (n - 1) as nat);
        assert((n - 1) / 8 < bytes.len() - 1);
    }
}

proof fn lemma_bits_of_byte(bytes: Seq<u8>, base: nat)
    requires
        bytes.len() > 0,
        base == 8 * (bytes.len() - 1),
    ensures
        bits_value(bytes, 0, base + 8) == 256 * bits_value(bytes, 0, base) + bytes.last() as nat,
{
    let byte = bytes.last();
    assert forall|r: int| 0 <= r < 8 implies #[trigger] bit_at(bytes, base as int + r) == (byte >> ((7
        - r) as u8)) & 1 by {
        assert((base + r) / 8 == bytes.len() - 1);
        assert((base + r) % 8 == r);
    }
    let b0 = bit_at(bytes, base as int + 0);
    let b1 = bit_at(bytes, base as int + 1);
    let b2 = bit_at(bytes, base as int + 2);
    let b3 = bit_at(bytes, base as int + 3);
    let b4 = bit_at(bytes, base as int + 4);
    let b5 = bit_at(bytes, base as int + 5);
    let b6 = bit_at(bytes, base as int + 6);
    let b7 = bit_at(bytes, base as int + 7);
    assert(bits_value(bytes, 0, base + 1) == 2 * bits_value(bytes, 0, base) + b0);
    assert(bits_value(bytes, 0, base + 2) == 2 * bits_value(bytes, 0, base + 1) + b1);
    assert(bits_value(bytes, 0, base + 3) == 2 * bits_value(bytes, 0, base + 2) + b2);
    assert(bits_value(bytes, 0, base + 4) == 2 * bits_value(bytes, 0, base + 3) + b3);
    assert(bits_value(bytes, 0, base + 5) == 2 * bits_value(bytes, 0, base + 4) + b4);
    assert(bits_value(bytes, 0, base + 6) == 2 * bits_value(bytes, 0, base + 5) + b5);
    assert(bits_value(bytes, 0, base + 7) == 2 * bits_value(bytes, 0, base + 6) + b6);
    assert(bits_value(bytes, 0, base + 8) == 2 * bits_value(bytes, 0, base + 7) + b7);
    assert(byte as u32 == 128 * ((byte >> 7u8) & 1) as u32 + 64 * ((byte >> 6u8) & 1) as u32 + 32
        * ((byte >> 5u8) & 1) as u32 + 16 * ((byte >> 4u8) & 1) as u32 + 8 * ((byte >> 3u8) & 1)
        as u32 + 4 * ((byte >> 2u8) & 1) as u32 + 2 * ((byte >> 1u8) & 1) as u32 + ((byte >> 0u8)
        & 1) as u32) by (bit_vector);
}

proof fn lemma_all_bits(bytes: Seq<u8>)
    ensures
        bits_value(bytes, 0, 8 * bytes.len()) == number_of(bytes),
    decreases bytes.len(),
{
    if bytes.len() > 0 {
        let base = (8 * (bytes.len() - 1)) as nat;
        lemma_all_bits(bytes.drop_last());
        lemma_bits_of_front(bytes, base);
        lemma_bits_of_byte(bytes, base);
        assert(base + 8 == 8 * bytes.len());
    }
}

/// The first bits of bytes, read as a number, are what is left of the bytes' number when
/// the other bits are divided away.
proof fn lemma_first_bits(bytes: Seq<u8>, n: nat)
    requires
        n <= 8 * bytes.len(),
    ensures
        bits_value(bytes, 0, n) == number_of(bytes) as int / power2::pow2(
            (8 * bytes.len() - n) as nat,
        ) as int,
    decreases 8 * bytes.len() - n,
{
    let rest = (8 * bytes.len() - n) as nat;
    if rest == 0 {
        lemma_all_bits(bytes);
        power2::lemma2_to64();
        div_mod::lemma_div_by_self(1);
        assert(number_of(bytes) as int / 1 == number_of(bytes));
    } else {
        lemma_first_bits(bytes, n + 1);
        lemma_bit_range(bytes, n as int);
        let more = bits_value(bytes, 0, n + 1);
        assert(more == 2 * bits_value(bytes, 0, n) + bit_at(bytes, n as int));
        assert(bits_value(bytes, 0, n) == more as int / 2);
        power2::lemma_pow2_unfold(rest);
        power2::lemma_pow2_pos((rest - 1) as nat);
        div_mod::lemma_div_denominator(
            number_of(bytes) as int,
            power2::pow2((rest - 1) as nat) as int,
            2,
        );
        assert(power2::pow2((rest - 1) as nat) * 2 == power2::pow2(rest));
    }
}

proof fn lemma_bits_in_two(bytes: Seq<u8>, a: nat, n: nat)
    ensures
        bits_value(bytes, 0, a + n) == bits_value(bytes, 0, a) * power2::pow2(n) + bits_value(
            bytes,
            a as int,
            n,
        ),
    decreases n,
{
    let front = bits_value(bytes, 0, a);
    if n == 0 {
        power2::lemma2_to64();
        assert(front * 1 == front);
    } else {
        lemma_bits_in_two(bytes, a, (n - 1) as nat);
        power2::lemma_pow2_unfold(n);
        let half = power2::pow2((n - 1) as nat);
        assert(front * (2 * half) == 2 * (front * half)) by (nonlinear_arith);
        assert(bits_value(bytes, 0, a + n) == 2 * bits_value(bytes, 0, (a + n - 1) as nat)
            + bit_at(bytes, 0 + (a + n) as int - 1));
    }
}

proof fn lemma_zero_bits(bytes: Seq<u8>, k: nat)
    ensures
        bits_value(bytes, 0, k) == 0 <==> forall|i: int| 0 <= i < k ==> bit_at(bytes, i) == 0,
    decreases k,
{
    if k > 0 {
        lemma_zero_bits(bytes, (k - 1) as nat);
        lemma_bit_range(bytes, k - 1);
        if bits_value(bytes, 0, k) == 0 {
            assert forall|i: int| 0 <= i < k implies bit_at(bytes, i) == 0 by {
                if i == k - 1 {
                    assert(bit_at(bytes, k - 1) == 0);
                }
            }
        } else if forall|i: int| 0 <= i < k ==> bit_at(bytes, i) == 0 {
            assert(bit_at(bytes, k - 1) == 0);
            assert(forall|i: int| 0 <= i < k - 1 ==> bit_at(bytes, i) == 0);
        }
    }
}

proof fn lemma_run_is_zero(bytes: Seq<u8>, from: int, i: int)
    requires
        0 <= from <= i < from + zero_run(bytes, from),
    ensures
        bit_at(bytes, i) == 0,
        from + zero_run(bytes, from) <= bit_len(bytes),
    decreases bit_len(bytes) - from,
{
    if i > from {
        lemma_run_is_zero(bytes, from + 1, i);
    } else if zero_run(bytes, from + 1) > 0 {
        lemma_run_is_zero(bytes, from + 1, from + 1);
    }
}

proof fn lemma_run_stops(bytes: Seq<u8>, from: int)
    requires
        0 <= from,
        from + zero_run(bytes, from) < bit_len(bytes),
    ensures
        bit_at(bytes, from + zero_run(bytes, from)) == 1,
    decreases bit_len(bytes) - from,
{
    lemma_bit_range(bytes, from);
    if bit_at(bytes, from) == 0 {
        lemma_run_stops(bytes, from + 1);
    }
}

/// An Exp-Golomb code of `2 k + 1` bits, for any `k` up to 63, stands for one less than what
/// its bits read as a number are, which takes `k + 1` bits to write. A payload begins with
/// such a code, or has no value.
pub proof fn law_exp_golomb_codes(bytes: Seq<u8>)
    ensures
        forall|k: nat|
            #![trigger power2::pow2((8 * bytes.len() - 2 * k - 1) as nat)]
            k <= 63 && 2 * k + 1 <= 8 * bytes.len() && ({
                let number = number_of(bytes) as int / power2::pow2(
                    (8 * bytes.len() - 2 * k - 1) as nat,
                ) as int;
                power2::pow2(k) <= number < power2::pow2(k + 1)
            }) ==> exp_golomb(bytes) == Some(
                (number_of(bytes) as int / power2::pow2(
                    (8 * bytes.len() - 2 * k - 1) as nat,
                ) as int - 1) as nat,
            ),
        exp_golomb(bytes) is Some ==> exists|k: nat|
            #![trigger power2::pow2((8 * bytes.len() - 2 * k - 1) as nat)]
            k <= 63 && 2 * k + 1 <= 8 * bytes.len() && ({
                let number = number_of(bytes) as int / power2::pow2(
                    (8 * bytes.len() - 2 * k - 1) as nat,
                ) as int;
                power2::pow2(k) <= number < power2::pow2(k + 1)
            }),
{
    assert forall|k: nat|
        #![trigger power2::pow2((8 * bytes.len() - 2 * k - 1) as nat)]
        k <= 63 && 2 * k + 1 <= 8 * bytes.len() && ({
            let number = number_of(bytes) as int / power2::pow2(
                (8 * bytes.len() - 2 * k - 1) as nat,
            ) as int;
            power2::pow2(k) <= number < power2::pow2(k + 1)
        }) implies exp_golomb(bytes) == Some(
        (number_of(bytes) as int / power2::pow2((8 * bytes.len() - 2 * k - 1) as nat) as int
            - 1) as nat,
    ) by {
        let n = 2 * k + 1;
        let number = bits_value(bytes, 0, n);
        lemma_first_bits(bytes, n);
        lemma_bits_in_two(bytes, k, k + 1);
        lemma_bits_in_two(bytes, k + 1, k);
        lemma_bits_value_bound(bytes, k as int + 1, k);
        let front = bits_value(bytes, 0, k);
        power2::lemma_pow2_pos(k + 1);
        if front > 0 {
            assert(front * power2::pow2(k + 1) >= power2::pow2(k + 1)) by (nonlinear_arith)
                requires
                    front >= 1,
            ;
        }
        lemma_zero_bits(bytes, k);
        assert(bits_value(bytes, 0, k + 1) == 2 * front + bit_at(bytes, k as int));
        lemma_bit_range(bytes, k as int);
        let one = bit_at(bytes, k as int);
        if one == 0 {
            assert(0 * power2::pow2(k) == 0) by (nonlinear_arith);
        } else {
            assert(1 * power2::pow2(k) == power2::pow2(k)) by (nonlinear_arith);
        }
        lemma_zero_run(bytes, k);
        assert(zero_run(bytes, k as int) == 0);
    }
    if exp_golomb(bytes) is Some {
        let k = zero_run(bytes, 0);
        let n = 2 * k + 1;
        lemma_first_bits(bytes, n);
        lemma_bits_in_two(bytes, k + 1, k);
        lemma_bits_value_bound(bytes, k as int + 1, k);
        assert forall|i: int| 0 <= i < k implies bit_at(bytes, i) == 0 by {
            lemma_run_is_zero(bytes, 0, i);
        }
        lemma_zero_bits(bytes, k);
        lemma_run_stops(bytes, 0);
        assert(bits_value(bytes, 0, k + 1) == 2 * bits_value(bytes, 0, k) + bit_at(
            bytes,
            k as int,
        ));
        assert(1 * power2::pow2(k) == power2::pow2(k)) by (nonlinear_arith);
        power2::lemma_pow2_unfold(k + 1);
        assert((8 * bytes.len() - 2 * k - 1) as nat == (8 * bytes.len() - n) as nat);
        let number = number_of(bytes) as int / power2::pow2(
            (8 * bytes.len() - 2 * k - 1) as nat,
        ) as int;
        assert(power2::pow2(k) <= number < power2::pow2(k + 1));
    }
}

} // verus!
