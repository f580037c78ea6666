//! Variable-length integers: the length and id prefixes of the wire protocol.
//!
//! A value is stored least-significant group first, seven bits per byte; the
//! high bit of a byte says that another byte follows. A 32-bit value needs at
//! most five bytes; a fifth byte with its continuation bit set is malformed.

use vstd::prelude::*;

verus! {

/// Outcome of reading a variable-length integer at the head of a byte
/// sequence.
pub enum VarIntParse {
    /// The sequence ended before a byte without the continuation bit.
    Incomplete,
    /// Five bytes were seen and each had its continuation bit set.
    TooLong,
    /// The decoded low 32 bits and the count of bytes the integer occupies.
    Parsed { value: u32, size: int },
}

/// How many bytes the integer at the head of `s` occupies: `-1` when `s` ends
/// too early, `-2` when `budget` bytes pass without a terminating byte.
pub open spec fn varint_size_rec(s: Seq<u8>, budget: nat) -> int
    decreases budget,
{
    if budget == 0 {
        -2
    } else if s.len() == 0 {
        -1
    } else if s[0] < 128 {
        1
    } else {
        let r = varint_size_rec(s.skip(1), (budget - 1) as nat);
        if r >= 0 {
            r + 1
        } else {
            r
        }
    }
}

/// Size of the integer at the head of `s` under the five-byte cap.
pub open spec fn varint_size(s: Seq<u8>) -> int {
    varint_size_rec(s, 5)
}

/// 128 raised to `k`.
pub open spec fn pow128(k: nat) -> nat
    decreases k,
{
    if k == 0 {
        1
    } else {
        128 * pow128((k - 1) as nat)
    }
}

/// The value of the first `k` seven-bit groups of `s`, least significant
/// group first.
pub open spec fn varint_nat(s: Seq<u8>, k: int) -> nat
    decreases k,
{
    if k <= 0 {
        0
    } else {
        (s[0] as nat) % 128 + 128 * varint_nat(s.skip(1), k - 1)
    }
}

/// Reading a variable-length integer at the head of `s`: its value is the
/// low 32 bits of the encoded number.
pub open spec fn spec_parse_varint(s: Seq<u8>) -> VarIntParse {
    let k = varint_size(s);
    if k == -1 {
        VarIntParse::Incomplete
    } else if k == -2 {
        VarIntParse::TooLong
    } else {
        VarIntParse::Parsed { value: (varint_nat(s, k) % 0x1_0000_0000) as u32, size: k }
    }
}

/// The canonical encoding of `v`, least significant group first.
pub open spec fn varint_bytes(v: nat) -> Seq<u8>
    decreases v,
{
    if v < 128 {
        seq![v as u8]
    } else {
        seq![(v % 128 + 128) as u8] + varint_bytes(v / 128)
    }
}

/// The first few powers of 128, written out.
proof fn lemma_pow128_values()
    ensures
        pow128(0) == 1,
        pow128(1) == 128,
        pow128(2) == 0x4000,
        pow128(3) == 0x20_0000,
        pow128(4) == 0x1000_0000,
        pow128(5) == 0x8_0000_0000,
{
    assert(pow128(0) == 1);
    assert(pow128(1) == 128);
    assert(pow128(2) == 0x4000);
    assert(pow128(3) == 0x20_0000);
    assert(pow128(4) == 0x1000_0000);
    assert(pow128(5) == 0x8_0000_0000);
}

/// Powers of 128 grow with the exponent.
proof fn lemma_pow128_monotone(a: nat, b: nat)
    requires
        a <= b,
    ensures
        pow128(a) <= pow128(b),
    decreases b,
{
    if a < b {
        lemma_pow128_monotone(a, (b - 1) as nat);
        assert(pow128(b) == 128 * pow128((b - 1) as nat));
        assert(pow128((b - 1) as nat) <= 128 * pow128((b - 1) as nat));
    }
}

/// `k` groups are worth less than the weight of group `k`.
proof fn lemma_varint_nat_bound(s: Seq<u8>, k: int)
    requires
        0 <= k,
    ensures
        varint_nat(s, k) < pow128(k as nat),
    decreases k,
{
    if k == 0 {
    } else {
        let t = s.skip(1);
        lemma_varint_nat_bound(t, k - 1);
        assert(128 * varint_nat(t, k - 1) <= 128 * (pow128((k - 1) as nat) - 1))
            by (nonlinear_arith)
            requires
                varint_nat(t, k - 1) <= pow128((k - 1) as nat) - 1,
        ;
        assert(pow128(k as nat) == 128 * pow128((k - 1) as nat));
    }
}

/// Adding one more group extends the value by that group's weight.
proof fn lemma_varint_nat_extend(s: Seq<u8>, k: int)
    requires
        0 <= k,
        k < s.len(),
    ensures
        varint_nat(s, k + 1) == varint_nat(s, k) + ((s[k] as nat) % 128) * pow128(k as nat),
    decreases k,
{
    if k == 0 {
        assert(varint_nat(s, 1) == (s[0] as nat) % 128 + 128 * varint_nat(s.skip(1), 0));
        assert(pow128(0) == 1);
        assert(((s[0] as nat) % 128) * 1 == (s[0] as nat) % 128) by (nonlinear_arith);
    } else {
        let t = s.skip(1);
        lemma_varint_nat_extend(t, k - 1);
        assert(t[k - 1] == s[k]);
        let g = (s[k] as nat) % 128;
        let p = pow128((k - 1) as nat);
        assert(varint_nat(t, k) == varint_nat(t, k - 1) + g * p);
        assert(varint_nat(s, k + 1) == (s[0] as nat) % 128 + 128 * varint_nat(t, k));
        assert(varint_nat(s, k) == (s[0] as nat) % 128 + 128 * varint_nat(t, k - 1));
        assert(128 * (varint_nat(t, k - 1) + g * p) == 128 * varint_nat(t, k - 1) + 128 * (g
            * p)) by (nonlinear_arith);
        assert(128 * (g * p) == g * (128 * p)) by (nonlinear_arith);
        assert(pow128(k as nat) == 128 * p);
    }
}

/// When the first `i` bytes carry the continuation bit and byte `i` does not,
/// the integer occupies `i + 1` bytes.
proof fn lemma_varint_size_terminated(s: Seq<u8>, i: int, budget: nat)
    requires
        0 <= i < budget,
        i < s.len(),
        forall|j: int| 0 <= j < i ==> s[j] >= 128,
        s[i] < 128,
    ensures
        varint_size_rec(s, budget) == i + 1,
    decreases i,
{
    if i == 0 {
    } else {
        let t = s.skip(1);
        assert(forall|j: int| 0 <= j < i - 1 ==> t[j] == s[j + 1] && t[j] >= 128);
        assert(t[i - 1] == s[i]);
        lemma_varint_size_terminated(t, i - 1, (budget - 1) as nat);
    }
}

/// When every byte available carries the continuation bit and fewer than
/// `budget` bytes are available, the integer is incomplete.
proof fn lemma_varint_size_incomplete(s: Seq<u8>, budget: nat)
    requires
        s.len() < budget,
        forall|j: int| 0 <= j < s.len() ==> s[j] >= 128,
    ensures
        varint_size_rec(s, budget) == -1,
    decreases budget,
{
    if s.len() == 0 {
    } else {
        let t = s.skip(1);
        assert(forall|j: int| 0 <= j < t.len() ==> t[j] == s[j + 1] && t[j] >= 128);
        lemma_varint_size_incomplete(t, (budget - 1) as nat);
    }
}

/// When the first `budget` bytes all carry the continuation bit, the integer
/// is over-long.
proof fn lemma_varint_size_too_long(s: Seq<u8>, budget: nat)
    requires
        budget <= s.len(),
        forall|j: int| 0 <= j < budget ==> s[j] >= 128,
    ensures
        varint_size_rec(s, budget) == -2,
    decreases budget,
{
    if budget == 0 {
    } else {
        let t = s.skip(1);
        assert(forall|j: int| 0 <= j < budget - 1 ==> t[j] == s[j + 1] && t[j] >= 128);
        lemma_varint_size_too_long(t, (budget - 1) as nat);
    }
}

/// The encoding of a value below the weight of group `k` takes between one
/// and `k` bytes.
proof fn lemma_varint_bytes_len(v: nat, k: nat)
    requires
        v < pow128(k),
        k >= 1,
    ensures
        1 <= varint_bytes(v).len() <= k,
    decreases v,
{
    if v < 128 {
    } else {
        assert(pow128(k) == 128 * pow128((k - 1) as nat));
        assert(v / 128 < pow128((k - 1) as nat)) by (nonlinear_arith)
            requires
                v < 128 * pow128((k - 1) as nat),
        ;
        if k == 1 {
            assert(pow128(1) == 128) by {
                lemma_pow128_values();
            }
        }
        lemma_varint_bytes_len(v / 128, (k - 1) as nat);
    }
}

/// Parsing an encoding at the head of a longer sequence finds exactly the
/// encoded value and consumes exactly the encoding.
proof fn lemma_varint_encode_parse(v: nat, rest: Seq<u8>, budget: nat)
    requires
        v < pow128(budget),
        budget >= 1,
    ensures
        varint_size_rec(varint_bytes(v) + rest, budget) == varint_bytes(v).len(),
        varint_nat(varint_bytes(v) + rest, varint_bytes(v).len() as int) == v,
    decreases v,
{
    let s = varint_bytes(v) + rest;
    if v < 128 {
        assert(varint_bytes(v) == seq![v as u8]);
        assert(s[0] == v as u8);
        assert(varint_nat(s, 1) == (s[0] as nat) % 128 + 128 * varint_nat(s.skip(1), 0));
    } else {
        let b0: u8 = (v % 128 + 128) as u8;
        assert(varint_bytes(v) == seq![b0] + varint_bytes(v / 128));
        assert(s[0] == b0 && b0 >= 128);
        assert(pow128(budget) == 128 * pow128((budget - 1) as nat));
        assert(v / 128 < pow128((budget - 1) as nat)) by (nonlinear_arith)
            requires
                v < 128 * pow128((budget - 1) as nat),
        ;
        if budget == 1 {
            assert(pow128(1) == 128) by {
                lemma_pow128_values();
            }
            assert(false);
        }
        lemma_varint_encode_parse(v / 128, rest, (budget - 1) as nat);
        assert(s.skip(1) =~= varint_bytes(v / 128) + rest);
        let kk = varint_bytes(v / 128).len() as int;
        assert(varint_size_rec(s.skip(1), (budget - 1) as nat) == kk);
        assert(varint_size_rec(s, budget) == kk + 1);
        assert(varint_nat(s, kk + 1) == (b0 as nat) % 128 + 128 * varint_nat(s.skip(1), kk));
        assert((b0 as nat) % 128 == v % 128);
        assert(varint_nat(s, kk + 1) == v % 128 + 128 * (v / 128));
    }
}

/// Reading back the encoding of a 32-bit value, with anything after it, gives
/// exactly that value and consumes exactly the encoding.
pub proof fn lemma_parse_varint_of_encoding(v: u32, rest: Seq<u8>)
    ensures
        spec_parse_varint(varint_bytes(v as nat) + rest) == (VarIntParse::Parsed {
            value: v,
            size: varint_bytes(v as nat).len() as int,
        }),
        1 <= varint_bytes(v as nat).len() <= 5,
{
    lemma_pow128_values();
    lemma_varint_encode_parse(v as nat, rest, 5);
    lemma_varint_bytes_len(v as nat, 5);
    let s = varint_bytes(v as nat) + rest;
    let k = varint_bytes(v as nat).len() as int;
    assert(varint_size(s) == k);
    assert(varint_nat(s, k) == v as nat);
    assert((v as nat) % 0x1_0000_0000 == v as nat);
}

/// Result of an attempt to read a variable-length integer from a byte slice.
pub enum VarIntResult {
    /// More bytes must arrive first.
    Incomplete,
    /// The encoding is over-long and the stream is malformed.
    TooLong,
    /// The value and the number of bytes consumed.
    Done(u32, usize),
}

/// Reads the variable-length integer that starts at `start`.
pub fn read_varint(bytes: &[u8], start: usize) -> (r: VarIntResult)
    requires
        start <= bytes@.len(),
    ensures
        ({
            let p = spec_parse_varint(bytes@.skip(start as int));
            match r {
                VarIntResult::Incomplete => p is Incomplete,
                VarIntResult::TooLong => p is TooLong,
                VarIntResult::Done(v, n) => p matches VarIntParse::Parsed { value, size }
                    && v == value && n == size && 1 <= n <= 5 && n
                    <= bytes@.len() - start,
            }
        }),
{
    let ghost s = bytes@.skip(start as int);
    let len: usize = bytes.len();
    let avail: usize = len - start;
    let mut i: usize = 0;
    let mut acc: u64 = 0;
    let mut factor: u64 = 1;
    proof {
        lemma_pow128_values();
    }
    while i < 5
        invariant
            0 <= i <= 5,
            start <= bytes@.len(),
            len == bytes@.len(),
            avail == bytes@.len() - start,
            s == bytes@.skip(start as int),
            forall|j: int| 0 <= j < i ==> s[j] >= 128,
            i <= avail,
            acc == varint_nat(s, i as int),
            i < 5 ==> factor == pow128(i as nat),
        decreases 5 - i,
    {
        if i == avail {
            proof {
                lemma_varint_size_incomplete(s, 5);
            }
            return VarIntResult::Incomplete;
        }
        let b = bytes[start + i];
        let group = b % 128;
        proof {
            lemma_pow128_values();
            lemma_pow128_monotone(i as nat, 4);
            lemma_pow128_monotone((i + 1) as nat, 5);
            lemma_varint_nat_extend(s, i as int);
            lemma_varint_nat_bound(s, i as int + 1);
            assert((group as nat) * (factor as nat) < 0x8_0000_0000) by (nonlinear_arith)
                requires
                    group < 128,
                    (factor as nat) <= 0x1000_0000,
            ;
        }
        acc = acc + (group as u64) * factor;
        if b < 128 {
            proof {
                lemma_varint_size_terminated(s, i as int, 5);
            }
            return VarIntResult::Done((acc % 0x1_0000_0000) as u32, i + 1);
        }
        if i < 4 {
            proof {
                lemma_pow128_values();
                lemma_pow128_monotone(i as nat, 3);
                assert(128 * pow128(i as nat) == pow128((i + 1) as nat));
            }
            factor = factor * 128;
        }
        i = i + 1;
    }
    proof {
        lemma_varint_size_too_long(s, 5);
    }
    VarIntResult::TooLong
}

/// Appends the canonical encoding of `v` to `out`.
pub fn write_varint(out: &mut Vec<u8>, v: u32)
    ensures
        final(out)@ == old(out)@ + varint_bytes(v as nat),
{
    let mut cur: u32 = v;
    while cur >= 128
        invariant
            out@ + varint_bytes(cur as nat) == old(out)@ + varint_bytes(v as nat),
        decreases cur,
    {
        let b: u8 = (cur % 128 + 128) as u8;
        let ghost n = cur as nat;
        let ghost before = out@;
        out.push(b);
        cur = cur / 128;
        proof {
            assert(varint_bytes(n) == seq![b] + varint_bytes(n / 128));
            assert(out@ + varint_bytes(cur as nat) =~= before + varint_bytes(n));
        }
    }
    let ghost before = out@;
    out.push(cur as u8);
    proof {
        assert(varint_bytes(cur as nat) == seq![cur as u8]);
        assert(out@ =~= before + varint_bytes(cur as nat));
    }
}

} // verus!
