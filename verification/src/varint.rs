//! Unsigned variable-length integer codec: seven data bits per byte, high
//! continuation bit on every byte but the last, minimal length.
use vstd::prelude::*;

verus! {

/// The byte sequence of the minimal varint encoding of `v`.
pub open spec fn varint_bytes(v: u64) -> Seq<u8>
    decreases v,
{
    if v < 128 {
        seq![v as u8]
    } else {
        seq![((v % 128) + 128) as u8] + varint_bytes(v / 128)
    }
}

/// Number of bytes of the minimal varint encoding of `v`.
pub open spec fn varint_len(v: u64) -> int {
    varint_bytes(v).len() as int
}

/// A byte sequence shaped like one varint: nonempty, every byte but the
/// last carries the continuation bit, the last one does not.
pub open spec fn varint_shape(s: Seq<u8>) -> bool {
    &&& s.len() >= 1
    &&& forall|i: int| 0 <= i < s.len() - 1 ==> s[i] >= 128
    &&& s.last() < 128
}

/// The unsigned value denoted by the data bits of a byte sequence,
/// least-significant group first.
pub open spec fn varint_value(s: Seq<u8>) -> int
    decreases s.len(),
{
    if s.len() == 0 {
        0
    } else {
        (s[0] % 128) + 128 * varint_value(s.drop_first())
    }
}

/// The minimal encoding of `v` stands in `s` at `offset`.
pub open spec fn varint_at(s: Seq<u8>, offset: int, v: u64) -> bool {
    &&& 0 <= offset
    &&& offset + varint_len(v) <= s.len()
    &&& s.subrange(offset, offset + varint_len(v)) == varint_bytes(v)
}

/// 128 to the power `k`.
pub open spec fn pow128(k: nat) -> int
    decreases k,
{
    if k == 0 {
        1
    } else {
        128 * pow128((k - 1) as nat)
    }
}

proof fn lemma_pow128_values()
    ensures
        pow128(0) == 1,
        pow128(1) == 0x80,
        pow128(2) == 0x4000,
        pow128(3) == 0x20_0000,
        pow128(4) == 0x1000_0000,
        pow128(5) == 0x8_0000_0000,
        pow128(6) == 0x400_0000_0000,
        pow128(7) == 0x2_0000_0000_0000,
        pow128(8) == 0x100_0000_0000_0000,
        pow128(9) == 0x8000_0000_0000_0000,
        pow128(10) == 0x4_0000_0000_0000_0000_0,
{
    assert(pow128(0) == 1);
    assert(pow128(1) == 0x80);
    assert(pow128(2) == 0x4000);
    assert(pow128(3) == 0x20_0000);
    assert(pow128(4) == 0x1000_0000);
    assert(pow128(5) == 0x8_0000_0000);
    assert(pow128(6) == 0x400_0000_0000);
    assert(pow128(7) == 0x2_0000_0000_0000);
    assert(pow128(8) == 0x100_0000_0000_0000);
    assert(pow128(9) == 0x8000_0000_0000_0000);
    assert(pow128(10) == 0x4_0000_0000_0000_0000_0);
}

/// Shape and value of the minimal encoding, with the position of its most
/// significant data group.
proof fn lemma_varint_structure(v: u64)
    ensures
        varint_shape(varint_bytes(v)),
        varint_value(varint_bytes(v)) == v,
        varint_bytes(v).last() == v as int / pow128((varint_len(v) - 1) as nat),
        varint_len(v) >= 2 ==> v as int >= pow128((varint_len(v) - 1) as nat),
    decreases v,
{
    if v < 128 {
        assert(varint_bytes(v) == seq![v as u8]);
        assert(varint_value(varint_bytes(v)) == v) by {
            assert(varint_bytes(v).drop_first().len() == 0);
            assert(varint_value(varint_bytes(v).drop_first()) == 0);
        }
        assert(pow128(0) == 1);
        assert(varint_bytes(v).last() == v as int / 1);
    } else {
        let rest = varint_bytes(v / 128);
        let whole = varint_bytes(v);
        lemma_varint_structure(v / 128);
        assert(whole == seq![((v % 128) + 128) as u8] + rest);
        assert(whole.drop_first() =~= rest);
        assert(varint_value(whole) == (v % 128) + 128 * varint_value(rest));
        assert(v == 128 * (v as int / 128) + v as int % 128) by {
            vstd::arithmetic::div_mod::lemma_fundamental_div_mod(v as int, 128);
        }
        let k = (varint_len(v / 128) - 1) as nat;
        assert(whole.last() == rest.last());
        assert(rest.last() == (v as int / 128) / pow128(k));
        assert((v as int / 128) / pow128(k) == v as int / (128 * pow128(k))) by {
            assert(pow128(k) > 0) by {
                lemma_pow128_positive(k);
            }
            vstd::arithmetic::div_mod::lemma_div_denominator(v as int, 128, pow128(k));
        }
        assert(pow128((k + 1) as nat) == 128 * pow128(k));
        assert(varint_len(v) == 1 + varint_len(v / 128));
        assert((varint_len(v) - 1) as nat == (k + 1) as nat);
        assert(whole.last() == v as int / pow128((k + 1) as nat));
        assert(varint_value(whole) == v);
        assert(varint_shape(whole)) by {
            assert(whole[0] >= 128);
            assert(forall|i: int|
                1 <= i < whole.len() - 1 ==> whole[i] == rest[i - 1] && rest[i - 1] >= 128);
            assert(whole.last() == rest.last());
        }
        // minimality
        if varint_len(v / 128) == 1 {
            assert(v as int >= pow128(1)) by {
                lemma_pow128_values();
            }
        } else {
            assert(v as int / 128 >= pow128(k));
            assert(v as int >= 128 * (v as int / 128));
            assert(128 * (v as int / 128) >= 128 * pow128(k)) by (nonlinear_arith)
                requires
                    v as int / 128 >= pow128(k),
            ;
        }
    }
}

proof fn lemma_pow128_positive(k: nat)
    ensures
        pow128(k) >= 1,
    decreases k,
{
    if k > 0 {
        lemma_pow128_positive((k - 1) as nat);
    }
}

/// Every minimal encoding has one to ten bytes; a ten-byte one ends in 1.
proof fn lemma_varint_len_bound(v: u64)
    ensures
        1 <= varint_len(v) <= 10,
        varint_len(v) == 10 ==> varint_bytes(v).last() == 1,
{
    lemma_varint_structure(v);
    lemma_pow128_values();
    if varint_len(v) > 10 {
        let k = (varint_len(v) - 1) as nat;
        assert(pow128(k) >= 128 * pow128(10)) by {
            lemma_pow128_monotonic(10nat, (k - 1) as nat);
        }
    }
    if varint_len(v) == 10 {
        assert(varint_bytes(v).last() == v as int / pow128(9));
        assert(v as int >= pow128(9));
        assert(v as int / 0x8000_0000_0000_0000 == 1);
    }
}

proof fn lemma_pow128_monotonic(a: nat, b: nat)
    requires
        a <= b,
    ensures
        pow128(a) <= pow128(b),
    decreases b,
{
    if a < b {
        lemma_pow128_monotonic(a, (b - 1) as nat);
        lemma_pow128_positive((b - 1) as nat);
    }
}

/// Law: decoding inverts encoding. Any varint-shaped window over a buffer
/// that holds the minimal encoding of `v` at `offset` has exactly the
/// encoding's length and denotes `v`.
pub proof fn lemma_varint_round_trip(s: Seq<u8>, offset: int, v: u64, n: int)
    requires
        varint_at(s, offset, v),
        1 <= n,
        offset + n <= s.len(),
        varint_shape(s.subrange(offset, offset + n)),
    ensures
        n == varint_len(v),
        varint_value(s.subrange(offset, offset + n)) == v,
{
    lemma_varint_structure(v);
    lemma_varint_len_bound(v);
    let lv = varint_len(v);
    let enc = s.subrange(offset, offset + lv);
    let win = s.subrange(offset, offset + n);
    if n < lv {
        assert(win.last() == s[offset + n - 1]);
        assert(enc[n - 1] == s[offset + n - 1]);
        assert(enc[n - 1] >= 128);
        assert(false);
    }
    if n > lv {
        assert(enc.last() == s[offset + lv - 1]);
        assert(win[lv - 1] == s[offset + lv - 1]);
        assert(win[lv - 1] >= 128);
        assert(false);
    }
    assert(win =~= enc);
}

/// Law: the encoding of `v` is varint-shaped and denotes `v`, and its
/// byte count is `varint_len(v)`.
pub proof fn lemma_varint_encoding_decodes(v: u64)
    ensures
        varint_shape(varint_bytes(v)),
        varint_value(varint_bytes(v)) == v,
        1 <= varint_bytes(v).len() <= 10,
{
    lemma_varint_structure(v);
    lemma_varint_len_bound(v);
}

/// Appending one byte adds its data bits at the next power of 128.
proof fn lemma_varint_value_push(s: Seq<u8>, b: u8)
    ensures
        varint_value(s.push(b)) == varint_value(s) + (b % 128) * pow128(s.len()),
    decreases s.len(),
{
    if s.len() == 0 {
        assert(s.push(b)[0] == b);
        assert(s.push(b).drop_first().len() == 0);
        assert(varint_value(s.push(b).drop_first()) == 0);
        assert(varint_value(s) == 0);
        assert(pow128(0) == 1);
        assert((b % 128) * pow128(s.len()) == b % 128);
    } else {
        lemma_varint_value_push(s.drop_first(), b);
        assert(s.push(b).drop_first() =~= s.drop_first().push(b));
        assert(s.push(b)[0] == s[0]);
        assert(s.push(b).len() > 0);
        assert(varint_value(s.push(b)) == (s[0] % 128) + 128 * varint_value(
            s.drop_first().push(b),
        ));
        assert(varint_value(s.drop_first().push(b)) == varint_value(s.drop_first()) + (b % 128)
            * pow128(s.drop_first().len()));
        assert(varint_value(s) == (s[0] % 128) + 128 * varint_value(s.drop_first()));
        assert(128 * (varint_value(s.drop_first()) + (b % 128) * pow128(s.drop_first().len()))
            == 128 * varint_value(s.drop_first()) + 128 * ((b % 128) * pow128(
            s.drop_first().len(),
        )));
        assert(128 * ((b % 128) * pow128(s.drop_first().len())) == (b % 128) * (128 * pow128(
            s.drop_first().len(),
        ))) by (nonlinear_arith);
        assert(pow128(s.len()) == 128 * pow128(s.drop_first().len()));
    }
}

/// Number of bytes that the varint encoding of `v` occupies.
pub fn length(v: u64) -> (n: usize)
    ensures
        n == varint_len(v),
{
    proof {
        lemma_varint_len_bound(v);
    }
    let mut x: u64 = v;
    let mut n: usize = 1;
    while x >= 128
        invariant
            1 <= n,
            n + varint_len(x) == 1 + varint_len(v),
            1 <= varint_len(x),
            varint_len(v) <= 10,
        decreases x,
    {
        proof {
            assert(varint_bytes(x) == seq![((x % 128) + 128) as u8] + varint_bytes(x / 128));
            lemma_varint_len_bound(x / 128);
        }
        x = x / 128;
        n = n + 1;
    }
    proof {
        assert(varint_bytes(x) == seq![x as u8]);
    }
    n
}

/// Writes the varint encoding of `v` into `buf` starting at `offset`;
/// returns the number of bytes written and leaves every other byte as it
/// was.
pub fn encode_with_offset(v: u64, buf: &mut Vec<u8>, offset: usize) -> (n: usize)
    requires
        offset + varint_len(v) <= old(buf)@.len(),
    ensures
        n == varint_len(v),
        final(buf)@.len() == old(buf)@.len(),
        final(buf)@.subrange(offset as int, offset + n) == varint_bytes(v),
        forall|k: int|
            0 <= k < old(buf)@.len() && !(offset <= k < offset + n) ==> final(buf)@[k] == old(
                buf,
            )@[k],
{
    proof {
        lemma_varint_len_bound(v);
    }
    let ghost buf0 = old(buf)@;
    let blen: usize = buf.len();
    let mut x: u64 = v;
    let mut i: usize = offset;
    while x >= 128
        invariant
            offset <= i,
            i - offset + varint_len(x) == varint_len(v),
            1 <= varint_len(x),
            offset + varint_len(v) <= buf@.len(),
            buf@.len() == blen,
            buf@.len() == buf0.len(),
            varint_bytes(v) == buf@.subrange(offset as int, i as int) + varint_bytes(x),
            forall|k: int| 0 <= k < buf0.len() && !(offset <= k < i) ==> buf@[k] == buf0[k],
        decreases x,
    {
        proof {
            assert(varint_bytes(x) == seq![((x % 128) + 128) as u8] + varint_bytes(x / 128));
            lemma_varint_len_bound(x / 128);
        }
        let ghost pre = buf@;
        let b: u8 = ((x % 128) + 128) as u8;
        buf[i] = b;
        proof {
            assert(buf@.subrange(offset as int, i + 1) =~= pre.subrange(offset as int, i as int)
                + seq![b]);
            assert(varint_bytes(v) =~= buf@.subrange(offset as int, i + 1) + varint_bytes(
                x / 128,
            ));
        }
        x = x / 128;
        i = i + 1;
    }
    proof {
        assert(varint_bytes(x) == seq![x as u8]);
    }
    let ghost pre = buf@;
    buf[i] = x as u8;
    proof {
        assert(buf@.subrange(offset as int, i + 1) =~= pre.subrange(offset as int, i as int)
            + seq![x as u8]);
        assert(buf@.subrange(offset as int, i + 1) =~= varint_bytes(v));
    }
    i + 1 - offset
}

/// Reads one varint from `buf` at `offset`. Returns the value and the
/// number of bytes consumed, or `None` when no minimal encoding of any
/// 64-bit value stands there.
pub fn decode_with_offset(buf: &Vec<u8>, offset: usize) -> (r: Option<(u64, usize)>)
    requires
        offset <= buf@.len(),
    ensures
        match r {
            Some(p) => {
                &&& 1 <= p.1
                &&& offset + p.1 <= buf@.len()
                &&& varint_shape(buf@.subrange(offset as int, offset + p.1))
                &&& p.0 == varint_value(buf@.subrange(offset as int, offset + p.1))
            },
            None => forall|v: u64| !varint_at(buf@, offset as int, v),
        },
{
    proof {
        lemma_pow128_values();
    }
    let mut value: u64 = 0;
    let mut mult: u64 = 1;
    let mut i: usize = offset;
    while i < buf.len()
        invariant
            offset <= i <= buf@.len(),
            i - offset <= 9,
            mult == pow128((i - offset) as nat),
            value < mult,
            value == varint_value(buf@.subrange(offset as int, i as int)),
            forall|k: int| offset <= k < i ==> buf@[k] >= 128,
        decreases buf@.len() - i,
    {
        proof {
            lemma_pow128_values();
        }
        let b = buf[i];
        if i - offset == 9 && b >= 2 {
            proof {
                assert forall|v: u64| !varint_at(buf@, offset as int, v) by {
                    if varint_at(buf@, offset as int, v) {
                        lemma_varint_len_bound(v);
                        lemma_varint_structure(v);
                        let lv = varint_len(v);
                        let enc = buf@.subrange(offset as int, offset as int + lv);
                        assert(enc.last() == buf@[offset + lv - 1]);
                        if lv <= 9 {
                            assert(buf@[offset + lv - 1] >= 128);
                        } else {
                            assert(enc.last() == 1);
                            assert(buf@[offset + 9] == 1);
                        }
                    }
                }
            }
            return None;
        }
        let low = b % 128;
        proof {
            lemma_varint_value_push(buf@.subrange(offset as int, i as int), b);
            assert(buf@.subrange(offset as int, i + 1) =~= buf@.subrange(
                offset as int,
                i as int,
            ).push(b));
            if i - offset < 9 {
                lemma_pow128_monotonic((i - offset) as nat, 8nat);
                assert((low as int) * (mult as int) <= 127 * pow128(8)) by (nonlinear_arith)
                    requires
                        low <= 127,
                        0 < mult as int <= pow128(8),
                        pow128(8) > 0,
                ;
            } else {
                assert(low <= 1);
                assert((low as int) * (mult as int) <= pow128(9)) by (nonlinear_arith)
                    requires
                        low as int <= 1,
                        0 < mult as int <= pow128(9),
                ;
            }
        }
        value = value + (low as u64) * mult;
        if b < 128 {
            proof {
                assert(buf@.subrange(offset as int, i + 1).last() == b);
            }
            return Some((value, i + 1 - offset));
        }
        proof {
            assert(i - offset < 9);
            lemma_pow128_monotonic((i - offset) as nat, 8nat);
            assert(value < 128 * mult) by (nonlinear_arith)
                requires
                    value as int - (low as int) * (mult as int) < mult as int,
                    low <= 127,
                    mult >= 1,
            ;
        }
        i = i + 1;
        mult = mult * 128;
    }
    proof {
        assert forall|v: u64| !varint_at(buf@, offset as int, v) by {
            if varint_at(buf@, offset as int, v) {
                lemma_varint_len_bound(v);
                lemma_varint_structure(v);
                let lv = varint_len(v);
                let enc = buf@.subrange(offset as int, offset as int + lv);
                assert(enc.last() == buf@[offset + lv - 1]);
                assert(buf@[offset + lv - 1] >= 128);
            }
        }
    }
    None
}




} // verus!
