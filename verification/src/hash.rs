//! Deterministic hashing for the per-tick determinism check: FNV-1a, 64 bit.
//!
//! Owned rather than depended on, so that the constants are fixed and the
//! value is the same on every platform and toolchain. The job is
//! fingerprinting runs that are either identical or different, not security.
//! Byte-at-a-time streaming fits the conductor's incremental absorption, and
//! chaining ticks is resuming from the previous digest.
use vstd::prelude::*;

verus! {

pub const FNV_OFFSET_BASIS: u64 = 0xcbf2_9ce4_8422_2325;

pub const FNV_PRIME: u64 = 0x0000_0100_0000_01b3;

/// The running state of an FNV-1a hash.
#[derive(Debug, Clone, Copy)]
pub struct HashFnv1a64(pub u64);

/// One byte absorbed into a hash state.
pub open spec fn absorb(state: u64, byte: u8) -> u64 {
    (state ^ (byte as u64)).wrapping_mul(FNV_PRIME)
}

/// A run of bytes absorbed into a hash state, in order.
pub open spec fn fnv(state: u64, bytes: Seq<u8>) -> u64
    decreases bytes.len(),
{
    if bytes.len() == 0 {
        state
    } else {
        absorb(fnv(state, bytes.drop_last()), bytes.last())
    }
}

/// The hash of a run of bytes on its own.
pub open spec fn hash_of(bytes: Seq<u8>) -> u64 {
    fnv(FNV_OFFSET_BASIS, bytes)
}

/// The eight bytes of a `u64`, least significant first.
pub open spec fn le_bytes(value: u64) -> Seq<u8> {
    seq![
        (value & 0xff) as u8,
        ((value >> 8) & 0xff) as u8,
        ((value >> 16) & 0xff) as u8,
        ((value >> 24) & 0xff) as u8,
        ((value >> 32) & 0xff) as u8,
        ((value >> 40) & 0xff) as u8,
        ((value >> 48) & 0xff) as u8,
        ((value >> 56) & 0xff) as u8,
    ]
}

/// A hash starts from the offset basis, and one more byte folds into it and
/// multiplies it by the prime, modulo two to the sixty-fourth.
pub proof fn law_what_one_more_byte_does(state: u64, bytes: Seq<u8>, byte: u8)
    ensures
        hash_of(Seq::<u8>::empty()) == 0xcbf2_9ce4_8422_2325,
        fnv(state, Seq::<u8>::empty()) == state,
        fnv(state, bytes.push(byte)) == ((fnv(state, bytes) ^ (byte as u64)) as int
            * 0x100_0000_01b3) % 0x1_0000_0000_0000_0000,
{
    assert(bytes.push(byte).drop_last() =~= bytes);
}

/// A number is its eight bytes, the first of them the least.
pub proof fn law_a_number_is_its_bytes(value: u64)
    ensures
        le_bytes(value).len() == 8,
        ({
            let b = le_bytes(value);
            value == (b[0] as u64) | ((b[1] as u64) << 8) | ((b[2] as u64) << 16) | ((b[3] as u64)
                << 24) | ((b[4] as u64) << 32) | ((b[5] as u64) << 40) | ((b[6] as u64) << 48) | ((
            b[7] as u64) << 56)
        }),
{
    assert(value == ((value & 0xff) as u8 as u64) | ((((value >> 8) & 0xff) as u8 as u64) << 8) | ((
    ((value >> 16) & 0xff) as u8 as u64) << 16) | ((((value >> 24) & 0xff) as u8 as u64) << 24) | ((
    ((value >> 32) & 0xff) as u8 as u64) << 32) | ((((value >> 40) & 0xff) as u8 as u64) << 40) | ((
    ((value >> 48) & 0xff) as u8 as u64) << 48) | ((((value >> 56) & 0xff) as u8 as u64) << 56))
        by (bit_vector);
}

/// Absorbing two runs of bytes one after the other is absorbing them as one
/// run: how a stream is cut into writes does not reach the hash.
pub proof fn law_incremental_equals_one_shot(state: u64, first: Seq<u8>, second: Seq<u8>)
    ensures
        fnv(fnv(state, first), second) == fnv(state, first + second),
    decreases second.len(),
{
    if second.len() == 0 {
        assert(first + second =~= first);
    } else {
        law_incremental_equals_one_shot(state, first, second.drop_last());
        assert((first + second).drop_last() =~= first + second.drop_last());
        assert((first + second).last() == second.last());
    }
}

/// Multiplying by the FNV prime loses nothing.
proof fn lemma_prime_is_invertible(a: u64, b: u64)
    requires
        a.wrapping_mul(FNV_PRIME) == b.wrapping_mul(FNV_PRIME),
    ensures
        a == b,
{
    crate::random::lemma_odd_factor_is_invertible(a, b, FNV_PRIME, 0xce96_5057_aff6_957b);
}

/// Different states stay different when they absorb the same bytes, so runs
/// that have diverged do not come back together by hashing alike.
pub proof fn law_different_states_stay_different(a: u64, b: u64, bytes: Seq<u8>)
    requires
        a != b,
    ensures
        fnv(a, bytes) != fnv(b, bytes),
    decreases bytes.len(),
{
    if bytes.len() > 0 {
        let front = bytes.drop_last();
        law_different_states_stay_different(a, b, front);
        let x = fnv(a, front);
        let y = fnv(b, front);
        let byte = bytes.last() as u64;
        if absorb(x, bytes.last()) == absorb(y, bytes.last()) {
            lemma_prime_is_invertible(x ^ byte, y ^ byte);
            assert(x == y) by (bit_vector)
                requires
                    x ^ byte == y ^ byte,
            ;
        }
    }
}

/// Changing one byte of what was hashed changes the hash.
pub proof fn law_one_changed_byte_changes_the_hash(
    state: u64,
    bytes: Seq<u8>,
    position: int,
    byte: u8,
)
    requires
        0 <= position < bytes.len(),
        byte != bytes[position],
    ensures
        fnv(state, bytes.update(position, byte)) != fnv(state, bytes),
{
    let changed = bytes.update(position, byte);
    let head = bytes.take(position);
    let tail = bytes.skip(position + 1);
    let x = fnv(state, head);
    assert(bytes =~= head.push(bytes[position]) + tail);
    assert(changed =~= head.push(byte) + tail);
    law_incremental_equals_one_shot(state, head.push(bytes[position]), tail);
    law_incremental_equals_one_shot(state, head.push(byte), tail);
    assert(head.push(byte).drop_last() =~= head);
    assert(head.push(bytes[position]).drop_last() =~= head);
    let old_byte = bytes[position];
    if absorb(x, byte) == absorb(x, old_byte) {
        lemma_prime_is_invertible(x ^ (byte as u64), x ^ (old_byte as u64));
        assert(byte == old_byte) by (bit_vector)
            requires
                x ^ (byte as u64) == x ^ (old_byte as u64),
        ;
    }
    law_different_states_stay_different(
        fnv(state, head.push(byte)),
        fnv(state, head.push(old_byte)),
        tail,
    );
}

/// Eight bytes carry a `u64` without loss.
pub proof fn lemma_le_bytes_injective(a: u64, b: u64)
    requires
        le_bytes(a) == le_bytes(b),
    ensures
        a == b,
{
    let x = le_bytes(a);
    let y = le_bytes(b);
    assert(x[0] == y[0] && x[1] == y[1] && x[2] == y[2] && x[3] == y[3] && x[4] == y[4] && x[5]
        == y[5] && x[6] == y[6] && x[7] == y[7]);
    assert(a == b) by (bit_vector)
        requires
            (a & 0xff) as u8 == (b & 0xff) as u8,
            ((a >> 8) & 0xff) as u8 == ((b >> 8) & 0xff) as u8,
            ((a >> 16) & 0xff) as u8 == ((b >> 16) & 0xff) as u8,
            ((a >> 24) & 0xff) as u8 == ((b >> 24) & 0xff) as u8,
            ((a >> 32) & 0xff) as u8 == ((b >> 32) & 0xff) as u8,
            ((a >> 40) & 0xff) as u8 == ((b >> 40) & 0xff) as u8,
            ((a >> 48) & 0xff) as u8 == ((b >> 48) & 0xff) as u8,
            ((a >> 56) & 0xff) as u8 == ((b >> 56) & 0xff) as u8,
    ;
}

impl HashFnv1a64 {
    /// A hash that has absorbed nothing.
    pub fn new() -> (h: Self)
        ensures
            h.0 == FNV_OFFSET_BASIS,
    {
        HashFnv1a64(FNV_OFFSET_BASIS)
    }

    /// Resumes hashing from a previous hash value, which chains the running
    /// world hash across ticks.
    pub fn resume(hash: u64) -> (h: Self)
        ensures
            h.0 == hash,
    {
        HashFnv1a64(hash)
    }

    /// Absorbs a run of bytes.
    pub fn write(&mut self, bytes: &[u8])
        ensures
            final(self).0 == fnv(old(self).0, bytes@),
    {
        let mut h: u64 = self.0;
        let mut i: usize = 0;
        while i < bytes.len()
            invariant
                0 <= i <= bytes@.len(),
                h == fnv(self.0, bytes@.take(i as int)),
            decreases bytes@.len() - i,
        {
            proof {
                assert(bytes@.take(i + 1).drop_last() =~= bytes@.take(i as int));
                assert(bytes@.take(i + 1).last() == bytes@[i as int]);
            }
            h = (h ^ (bytes[i] as u64)).wrapping_mul(FNV_PRIME);
            i += 1;
        }
        proof {
            assert(bytes@.take(i as int) =~= bytes@);
        }
        self.0 = h;
    }

    /// Absorbs the eight bytes of a `u64`, least significant first.
    pub fn write_u64(&mut self, value: u64)
        ensures
            final(self).0 == fnv(old(self).0, le_bytes(value)),
    {
        let bytes: Vec<u8> = u64_bytes(value);
        self.write(bytes.as_slice());
    }

    /// Absorbs the eight bytes of an `i64` in two's complement, least
    /// significant first.
    pub fn write_i64(&mut self, value: i64)
        ensures
            final(self).0 == fnv(old(self).0, le_bytes(value as u64)),
    {
        self.write_u64(value as u64);
    }

    /// The hash of everything absorbed.
    pub fn finish(self) -> (hash: u64)
        ensures
            hash == self.0,
    {
        self.0
    }
}

impl Default for HashFnv1a64 {
    fn default() -> (h: Self)
        ensures
            h.0 == FNV_OFFSET_BASIS,
    {
        Self::new()
    }
}

/// The eight bytes of a `u64`, least significant first.
pub fn u64_bytes(value: u64) -> (bytes: Vec<u8>)
    ensures
        bytes@ == le_bytes(value),
{
    let bytes: Vec<u8> = vec![
        (value & 0xff) as u8,
        ((value >> 8) & 0xff) as u8,
        ((value >> 16) & 0xff) as u8,
        ((value >> 24) & 0xff) as u8,
        ((value >> 32) & 0xff) as u8,
        ((value >> 40) & 0xff) as u8,
        ((value >> 48) & 0xff) as u8,
        ((value >> 56) & 0xff) as u8,
    ];
    proof {
        assert(bytes@ =~= le_bytes(value));
    }
    bytes
}

/// One-shot convenience.
pub fn hash_bytes(bytes: &[u8]) -> (hash: u64)
    ensures
        hash == hash_of(bytes@),
{
    let mut h = HashFnv1a64::new();
    h.write(bytes);
    h.finish()
}

// ---------------------------------------------------------------------------
// Hex text
// ---------------------------------------------------------------------------

/// The character of a hex digit, in lower case.
pub open spec fn hex_digit(d: int) -> char {
    if d == 10 {
        'a'
    } else if d == 11 {
        'b'
    } else if d == 12 {
        'c'
    } else if d == 13 {
        'd'
    } else if d == 14 {
        'e'
    } else if d == 15 {
        'f'
    } else {
        crate::text::digit(d)
    }
}

/// The number that a hex digit of either case stands for; `None` for any
/// other character.
pub open spec fn hex_digit_value(c: char) -> Option<int> {
    if '0' <= c && c <= '9' {
        Some(c as int - '0' as int)
    } else if 'a' <= c && c <= 'f' {
        Some(c as int - 'a' as int + 10)
    } else if 'A' <= c && c <= 'F' {
        Some(c as int - 'A' as int + 10)
    } else {
        None
    }
}

/// The low `width` hex digits of `n`, zero-filled on the left.
pub open spec fn fixed_hex(n: nat, width: nat) -> Seq<char>
    decreases width,
{
    if width == 0 {
        Seq::empty()
    } else {
        fixed_hex(n / 16, (width - 1) as nat).push(hex_digit((n % 16) as int))
    }
}

/// The number that a run of hex digits stands for, or `None` where a
/// character is not a hex digit.
pub open spec fn hex_value(digits: Seq<char>) -> Option<int>
    decreases digits.len(),
{
    if digits.len() == 0 {
        Some(0)
    } else {
        match (hex_value(digits.drop_last()), hex_digit_value(digits.last())) {
            (Some(front), Some(d)) => Some(front * 16 + d),
            _ => None,
        }
    }
}

/// What hex text reads as: an optional `+`, then at least one hex digit, with
/// a value that fits in 64 bits.
pub open spec fn parse_hex_spec(text: Seq<char>) -> Option<u64> {
    let digits = if text.len() > 0 && text[0] == '+' {
        text.drop_first()
    } else {
        text
    };
    match hex_value(digits) {
        Some(value) => if digits.len() > 0 && value <= u64::MAX {
            Some(value as u64)
        } else {
            None
        },
        None => None,
    }
}

/// Sixteen to the power `n`.
pub open spec fn sixteen_to(n: nat) -> int
    decreases n,
{
    if n == 0 {
        1
    } else {
        sixteen_to((n - 1) as nat) * 16
    }
}

/// Hex digits stand for the number they were written from.
proof fn lemma_fixed_hex_value(n: nat, width: nat)
    requires
        n < sixteen_to(width),
    ensures
        hex_value(fixed_hex(n, width)) == Some(n as int),
        fixed_hex(n, width).len() == width,
        width > 0 ==> fixed_hex(n, width)[0] != '+',
    decreases width,
{
    if width > 0 {
        lemma_fixed_hex_value(n / 16, (width - 1) as nat);
        let text = fixed_hex(n, width);
        assert(text.drop_last() =~= fixed_hex(n / 16, (width - 1) as nat));
        if width > 1 {
            assert(text[0] == fixed_hex(n / 16, (width - 1) as nat)[0]);
        }
    }
}

/// Reading the fixed-width hex text of a hash gives the hash back.
pub proof fn law_parse_hex_undoes_hex(value: u64)
    ensures
        parse_hex_spec(fixed_hex(value as nat, 16)) == Some(value),
{
    assert(sixteen_to(16) == 0x1_0000_0000_0000_0000) by {
        reveal_with_fuel(sixteen_to, 17);
    }
    lemma_fixed_hex_value(value as nat, 16);
}

/// A run of hex digits is worth sixteen times what is in front of its last
/// digit, and that digit; the letters of either case are worth ten to
/// fifteen, and a run with any other character is worth nothing.
pub proof fn law_what_hex_digits_are_worth(digits: Seq<char>, c: char)
    ensures
        hex_value(Seq::<char>::empty()) == Some(0int),
        hex_value(digits) is Some && '0' <= c <= '9' ==> hex_value(digits.push(c)) == Some(
            16 * hex_value(digits)->0 + (c as int - 48),
        ),
        hex_value(digits) is Some && 'a' <= c <= 'f' ==> hex_value(digits.push(c)) == Some(
            16 * hex_value(digits)->0 + (c as int - 87),
        ),
        hex_value(digits) is Some && 'A' <= c <= 'F' ==> hex_value(digits.push(c)) == Some(
            16 * hex_value(digits)->0 + (c as int - 55),
        ),
        hex_value(digits) is None || !('0' <= c <= '9' || 'a' <= c <= 'f' || 'A' <= c <= 'F')
            ==> hex_value(digits.push(c)) is None,
{
    assert(digits.push(c).drop_last() =~= digits);
}

/// Hex text reads as what its digits are worth, with or without a `+` in
/// front, where that fits 64 bits; no digits read as nothing.
pub proof fn law_what_hex_text_reads_as(digits: Seq<char>)
    requires
        digits.len() > 0,
        digits[0] != '+',
    ensures
        parse_hex_spec(digits) == (match hex_value(digits) {
            Some(value) => if value <= u64::MAX {
                Some(value as u64)
            } else {
                None
            },
            None => None,
        }),
        parse_hex_spec(seq!['+'] + digits) == parse_hex_spec(digits),
        parse_hex_spec(Seq::<char>::empty()) is None,
{
    assert((seq!['+'] + digits).drop_first() =~= digits);
}

/// A hash is written with sixteen digits, none of them an upper-case letter.
pub proof fn law_a_hash_is_written_with_sixteen_digits(value: u64)
    ensures
        fixed_hex(value as nat, 16).len() == 16,
        forall|i: int|
            0 <= i < 16 ==> '0' <= (#[trigger] fixed_hex(value as nat, 16)[i]) <= '9' || 'a'
                <= fixed_hex(value as nat, 16)[i] <= 'f',
{
    lemma_hex_digits(value as nat, 16);
}

proof fn lemma_hex_digits(n: nat, width: nat)
    ensures
        fixed_hex(n, width).len() == width,
        forall|i: int|
            0 <= i < width ==> '0' <= (#[trigger] fixed_hex(n, width)[i]) <= '9' || 'a'
                <= fixed_hex(n, width)[i] <= 'f',
    decreases width,
{
    if width > 0 {
        let front = fixed_hex(n / 16, (width - 1) as nat);
        lemma_hex_digits(n / 16, (width - 1) as nat);
        assert forall|i: int| 0 <= i < width implies '0' <= (#[trigger] fixed_hex(n, width)[i])
            <= '9' || 'a' <= fixed_hex(n, width)[i] <= 'f' by {
            if i < width - 1 {
                assert(fixed_hex(n, width)[i] == front[i]);
            }
        }
    }
}

/// A `u64` as a fixed-width hex text of sixteen characters, such as
/// `cbf29ce484222325`: human-scannable in logs and immune to any reader that
/// treats JSON numbers as floats.
pub fn hex_text(value: u64) -> (text: String)
    ensures
        text@ == fixed_hex(value as nat, 16),
{
    let mut text = String::new();
    push_fixed_hex(&mut text, value, 16);
    proof {
        assert(text@ =~= fixed_hex(value as nat, 16));
    }
    text
}

/// Appends the low `width` hex digits of `n`.
pub fn push_fixed_hex(text: &mut String, n: u64, width: u64)
    ensures
        final(text)@ == old(text)@ + fixed_hex(n as nat, width as nat),
    decreases width,
{
    if width > 0 {
        push_fixed_hex(text, n / 16, width - 1);
        let d: u64 = n % 16;
        let c = match d {
            10 => 'a',
            11 => 'b',
            12 => 'c',
            13 => 'd',
            14 => 'e',
            15 => 'f',
            _ => crate::text::digit_char(d),
        };
        text.push(c);
    }
    proof {
        assert(text@ =~= old(text)@ + fixed_hex(n as nat, width as nat));
    }
}

/// A hash read back from its hex text, or `None` where the text is not the
/// hex form of a 64-bit number.
pub fn parse_hex(text: &str) -> (value: Option<u64>)
    ensures
        value == parse_hex_spec(text@),
{
    let chars = crate::text::chars_of(text);
    let start: usize = if chars.len() > 0 && chars[0] == '+' {
        1
    } else {
        0
    };
    let ghost digits = chars@.skip(start as int);
    proof {
        if start == 1 {
            assert(digits =~= text@.drop_first());
        } else {
            assert(digits =~= text@);
        }
        assert(digits.take(0) =~= Seq::<char>::empty());
    }
    let mut value: u64 = 0;
    let mut over: bool = false;
    let mut i: usize = start;
    while i < chars.len()
        invariant
            start <= i <= chars@.len(),
            digits == chars@.skip(start as int),
            digits == (if text@.len() > 0 && text@[0] == '+' {
                text@.drop_first()
            } else {
                text@
            }),
            hex_value(digits.take(i - start)) is Some,
            !over ==> hex_value(digits.take(i - start)) == Some(value as int),
            over ==> hex_value(digits.take(i - start))->0 > u64::MAX,
        decreases chars@.len() - i,
    {
        let c = chars[i];
        proof {
            assert(digits.take(i - start + 1).drop_last() =~= digits.take(i - start));
            assert(digits.take(i - start + 1).last() == c);
        }
        let d: u64 = if '0' <= c && c <= '9' {
            (c as u32 - '0' as u32) as u64
        } else if 'a' <= c && c <= 'f' {
            (c as u32 - 'a' as u32 + 10) as u64
        } else if 'A' <= c && c <= 'F' {
            (c as u32 - 'A' as u32 + 10) as u64
        } else {
            proof {
                lemma_hex_value_prefix(digits, i - start + 1);
            }
            return None;
        };
        if !over {
            if value > (u64::MAX - d) / 16 {
                over = true;
            } else {
                value = value * 16 + d;
            }
        }
        i += 1;
    }
    proof {
        assert(digits.take(i - start) =~= digits);
    }
    if i == start || over {
        None
    } else {
        Some(value)
    }
}

/// Digits that read as a number have no prefix that does not.
proof fn lemma_hex_value_prefix(digits: Seq<char>, count: int)
    requires
        0 <= count <= digits.len(),
        hex_value(digits.take(count)) is None,
    ensures
        hex_value(digits) is None,
    decreases digits.len() - count,
{
    if count == digits.len() {
        assert(digits.take(count) =~= digits);
    } else {
        assert(digits.take(count + 1).drop_last() =~= digits.take(count));
        lemma_hex_value_prefix(digits, count + 1);
    }
}

} // verus!
