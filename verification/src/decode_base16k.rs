use vstd::prelude::*;
use vstd::arithmetic::power2::pow2;

verus! {

/// Byte `t` of `s`, or 0 past its end.
pub open spec fn byte_or_zero(s: Seq<u8>, t: int) -> u16 {
    if 0 <= t < s.len() {
        s[t] as u16
    } else {
        0
    }
}

/// The 14-bit payload of code `m` of the encoding of `s`. Every 7 bytes (56 bits) of `s`
/// become 4 codes of 14 bits, most significant bits first; bytes past the end count as 0.
pub open spec fn payload(s: Seq<u8>, m: int) -> u16 {
    let g = 7 * (m / 4);
    let k = m % 4;
    if k == 0 {
        byte_or_zero(s, g) << 6u16 | byte_or_zero(s, g + 1) >> 2u16
    } else if k == 1 {
        (byte_or_zero(s, g + 1) & 3) << 12u16 | byte_or_zero(s, g + 2) << 4u16 | byte_or_zero(s, g + 3) >> 4u16
    } else if k == 2 {
        (byte_or_zero(s, g + 3) & 0xf) << 10u16 | byte_or_zero(s, g + 4) << 2u16 | byte_or_zero(s, g + 5) >> 6u16
    } else {
        (byte_or_zero(s, g + 5) & 0x3f) << 8u16 | byte_or_zero(s, g + 6)
    }
}

/// The offset added to every payload, which keeps the codes among ordinary
/// (non-surrogate) UTF-16 code units.
pub open spec fn code_offset() -> u16 {
    0x5000
}

/// Number of codes that encode `n` bytes: 4 per full group of 7 bytes, and
/// `r / 2 + 1` for a last, partial group of `r` bytes.
pub open spec fn code_count(n: int) -> int {
    4 * (n / 7) + if n % 7 == 0 {
        0
    } else {
        (n % 7) / 2 + 1
    }
}

/// The base-16k encoding of `s`.
pub open spec fn b16k_encode(s: Seq<u8>) -> Seq<u16> {
    Seq::new(code_count(s.len() as int) as nat, |m: int| (payload(s, m) + code_offset()) as u16)
}

/// Codes pushed once the first `n` bytes have been read, before the final partial code.
spec fn pushed_count(n: int) -> int {
    4 * (n / 7) + (n % 7) / 2
}

proof fn lemma_payload_small(s: Seq<u8>, m: int)
    ensures
        payload(s, m) < 0x4000,
{
    let (b0, b1, b2, b3) = (byte_or_zero(s, 7 * (m / 4)), byte_or_zero(s, 7 * (m / 4) + 1), byte_or_zero(s, 7 * (m / 4) + 2), byte_or_zero(s, 7 * (m / 4) + 3));
    let (b4, b5, b6) = (byte_or_zero(s, 7 * (m / 4) + 4), byte_or_zero(s, 7 * (m / 4) + 5), byte_or_zero(s, 7 * (m / 4) + 6));
    assert(b0 < 256 && b1 < 256 && b2 < 256 && b3 < 256 && b4 < 256 && b5 < 256 && b6 < 256);
    assert({
        &&& b0 << 6u16 | b1 >> 2u16 < 0x4000
        &&& (b1 & 3) << 12u16 | b2 << 4u16 | b3 >> 4u16 < 0x4000
        &&& (b3 & 0xf) << 10u16 | b4 << 2u16 | b5 >> 6u16 < 0x4000
        &&& (b5 & 0x3f) << 8u16 | b6 < 0x4000
    }) by (bit_vector)
        requires
            b0 < 256 && b1 < 256 && b2 < 256 && b3 < 256 && b4 < 256 && b5 < 256 && b6 < 256,
    ;
}

/// How the partial code grows as the bytes of a group arrive one by one.
proof fn lemma_code_steps(a: u16, b: u16, c: u16)
    ensures
        a << 6u16 == a << 6u16 | 0u16 >> 2u16,
        (a << 6u16 | 0u16 >> 2u16) | c >> 2u16 == a << 6u16 | c >> 2u16,
        (c & 3) << 12u16 == (c & 3) << 12u16 | 0u16 << 4u16 | 0u16 >> 4u16,
        ((a & 3) << 12u16 | 0u16 << 4u16 | 0u16 >> 4u16) | c << 4u16 == (a & 3) << 12u16 | c << 4u16 | 0u16 >> 4u16,
        ((a & 3) << 12u16 | b << 4u16 | 0u16 >> 4u16) | c >> 4u16 == (a & 3) << 12u16 | b << 4u16 | c >> 4u16,
        (c & 0xf) << 10u16 == (c & 0xf) << 10u16 | 0u16 << 2u16 | 0u16 >> 6u16,
        ((a & 0xf) << 10u16 | 0u16 << 2u16 | 0u16 >> 6u16) | c << 2u16 == (a & 0xf) << 10u16 | c << 2u16 | 0u16 >> 6u16,
        ((a & 0xf) << 10u16 | b << 2u16 | 0u16 >> 6u16) | c >> 6u16 == (a & 0xf) << 10u16 | b << 2u16 | c >> 6u16,
        (c & 0x3f) << 8u16 == (c & 0x3f) << 8u16 | 0u16,
        ((a & 0x3f) << 8u16 | 0u16) | c == (a & 0x3f) << 8u16 | c,
        0u16 == 0u16 << 6u16 | 0u16 >> 2u16,
{
    assert({
        &&& a << 6u16 == a << 6u16 | 0u16 >> 2u16
        &&& (a << 6u16 | 0u16 >> 2u16) | c >> 2u16 == a << 6u16 | c >> 2u16
        &&& (c & 3) << 12u16 == (c & 3) << 12u16 | 0u16 << 4u16 | 0u16 >> 4u16
        &&& ((a & 3) << 12u16 | 0u16 << 4u16 | 0u16 >> 4u16) | c << 4u16 == (a & 3) << 12u16 | c << 4u16 | 0u16 >> 4u16
        &&& ((a & 3) << 12u16 | b << 4u16 | 0u16 >> 4u16) | c >> 4u16 == (a & 3) << 12u16 | b << 4u16 | c >> 4u16
        &&& (c & 0xf) << 10u16 == (c & 0xf) << 10u16 | 0u16 << 2u16 | 0u16 >> 6u16
        &&& ((a & 0xf) << 10u16 | 0u16 << 2u16 | 0u16 >> 6u16) | c << 2u16 == (a & 0xf) << 10u16 | c << 2u16 | 0u16 >> 6u16
        &&& ((a & 0xf) << 10u16 | b << 2u16 | 0u16 >> 6u16) | c >> 6u16 == (a & 0xf) << 10u16 | b << 2u16 | c >> 6u16
        &&& (c & 0x3f) << 8u16 == (c & 0x3f) << 8u16 | 0u16
        &&& ((a & 0x3f) << 8u16 | 0u16) | c == (a & 0x3f) << 8u16 | c
        &&& 0u16 == 0u16 << 6u16 | 0u16 >> 2u16
    }) by (bit_vector);
}

/// Encodes `buffer` as base-16k codes; also returns the number of bytes encoded.
pub fn encode_b16k_bytes(buffer: &[u8]) -> (r: (usize, Vec<u16>))
    ensures
        r.0 == buffer@.len(),
        r.1@ == b16k_encode(buffer@),
{
    let ghost s = buffer@;
    let mut enc: Vec<u16> = Vec::new();
    let mut code: u16 = 0;
    let mut idx: usize = 0;
    proof {
        lemma_code_steps(0, 0, 0);
    }
    while idx < buffer.len()
        invariant
            s == buffer@,
            idx <= s.len(),
            enc.len() == pushed_count(idx as int),
            forall|m: int| 0 <= m < enc.len() ==> #[trigger] enc[m] == (payload(s, m) + code_offset()) as u16,
            code == payload(s.take(idx as int), pushed_count(idx as int)),
        decreases s.len() - idx,
    {
        let byte_value = buffer[idx] as u16;
        let ghost n = idx as int;
        let ghost t = s.take(n + 1);
        let ghost u = s.take(n);
        let ghost g = 7 * (n / 7);
        let ghost m = pushed_count(n);
        let ghost q = n / 7;
        let ghost old_code = code;
        let ghost old_enc = enc@;
        proof {
            lemma_payload_small(s, m);
            assert(byte_value == s[n] as u16);
            assert(n == g + n % 7);
            assert(forall|j: int| 0 <= j < n ==> byte_or_zero(u, j) == byte_or_zero(s, j) && byte_or_zero(t, j) == byte_or_zero(s, j));
            assert(forall|j: int| n < j ==> byte_or_zero(u, j) == 0 && byte_or_zero(t, j) == 0);
            assert(byte_or_zero(u, n) == 0 && byte_or_zero(t, n) == byte_value && byte_or_zero(s, n) == byte_value);
            lemma_code_steps(byte_or_zero(s, n - 2), byte_or_zero(s, n - 1), byte_value);
            lemma_code_steps(byte_or_zero(s, n - 1), byte_or_zero(s, n - 1), byte_value);
            lemma_code_steps(byte_value, byte_value, byte_value);
        }
        match idx % 7 {
            0 => {
                code = byte_value << 6u16;
                assert(m == 4 * q && (m / 4) == q && m % 4 == 0);
                assert(pushed_count(n + 1) == m);
                assert(7 * (m / 4) == n);
                assert(byte_or_zero(t, n + 1) == 0);
                assert(code == payload(t, m));
            },
            1 => {
                assert(m == 4 * q && (m / 4) == q && m % 4 == 0);
                code |= byte_value >> 2u16;
                assert(code == payload(s, m));
                code += 0x5000;
                enc.push(code);
                code = (byte_value & 3) << 12u16;
                assert((m + 1) / 4 == q && (m + 1) % 4 == 1);
                assert(pushed_count(n + 1) == m + 1);
                assert(code == payload(t, m + 1));
            },
            2 => {
                assert(m == 4 * q + 1 && (m / 4) == q && m % 4 == 1);
                code |= byte_value << 4u16;
                assert(pushed_count(n + 1) == m);
                assert(code == payload(t, m));
            },
            3 => {
                assert(m == 4 * q + 1 && (m / 4) == q && m % 4 == 1);
                code |= byte_value >> 4u16;
                assert(code == payload(s, m));
                code += 0x5000;
                enc.push(code);
                code = (byte_value & 0xf) << 10u16;
                assert((m + 1) / 4 == q && (m + 1) % 4 == 2);
                assert(pushed_count(n + 1) == m + 1);
                assert(code == payload(t, m + 1));
            },
            4 => {
                assert(m == 4 * q + 2 && (m / 4) == q && m % 4 == 2);
                code |= byte_value << 2u16;
                assert(pushed_count(n + 1) == m);
                assert(code == payload(t, m));
            },
            5 => {
                assert(m == 4 * q + 2 && (m / 4) == q && m % 4 == 2);
                code |= byte_value >> 6u16;
                assert(code == payload(s, m));
                code += 0x5000;
                enc.push(code);
                code = (byte_value & 0x3f) << 8u16;
                assert((m + 1) / 4 == q && (m + 1) % 4 == 3);
                assert(pushed_count(n + 1) == m + 1);
                assert(code == payload(t, m + 1));
            },
            _ => {
                assert(m == 4 * q + 3 && (m / 4) == q && m % 4 == 3);
                code |= byte_value;
                assert(code == payload(s, m));
                code += 0x5000;
                enc.push(code);
                code = 0;
                assert((m + 1) / 4 == q + 1 && (m + 1) % 4 == 0);
                assert(pushed_count(n + 1) == m + 1);
                assert(code == payload(t, m + 1));
            },
        }
        assert forall|k: int| 0 <= k < enc.len() implies #[trigger] enc[k] == (payload(s, k) + code_offset()) as u16 by {
            if k < old_enc.len() {
                assert(enc[k] == old_enc[k]);
            }
        }
        idx += 1;
    }
    if buffer.len() % 7 > 0 {
        proof {
            lemma_payload_small(s, pushed_count(s.len() as int));
            assert(s.take(s.len() as int) =~= s);
        }
        code += 0x5000;
        enc.push(code);
    }
    proof {
        assert(s.take(s.len() as int) =~= s);
    }
    assert(enc@ =~= b16k_encode(s));
    (buffer.len(), enc)
}

/// The 14-bit payload carried by code unit `m` of `chars`.
pub open spec fn unit_payload(chars: Seq<u16>, m: int) -> u16 {
    (chars[m] - code_offset()) as u16
}

/// Byte `t` of the decoding of `chars`: byte `i` of group `t / 7` is cut out of the
/// payloads of the group's four code units.
pub open spec fn decoded_byte(chars: Seq<u16>, t: int) -> u8 {
    let g = 4 * (t / 7);
    let i = t % 7;
    let c0 = unit_payload(chars, g);
    let c1 = unit_payload(chars, g + 1);
    let c2 = unit_payload(chars, g + 2);
    let c3 = unit_payload(chars, g + 3);
    if i == 0 {
        (c0 >> 6u16) as u8
    } else if i == 1 {
        (((c0 & 0x3f) << 2u16) as u8) | ((c1 >> 12u16) as u8)
    } else if i == 2 {
        ((c1 >> 4u16) & 0xff) as u8
    } else if i == 3 {
        (((c1 & 0xf) << 4u16) as u8) | ((c2 >> 10u16) as u8)
    } else if i == 4 {
        ((c2 >> 2u16) & 0xff) as u8
    } else if i == 5 {
        (((c2 & 3) << 6u16) as u8) | ((c3 >> 8u16) as u8)
    } else {
        (c3 & 0xff) as u8
    }
}

/// The first `n` bytes that the base-16k code units `chars` decode to.
pub open spec fn b16k_decode(chars: Seq<u16>, n: int) -> Seq<u8> {
    Seq::new(n as nat, |t: int| decoded_byte(chars, t))
}

/// The code units that decoding `n` bytes reads are present and carry the offset.
pub open spec fn decodable(chars: Seq<u16>, n: int) -> bool {
    &&& code_count(n) <= chars.len()
    &&& forall|m: int| 0 <= m < code_count(n) ==> #[trigger] chars[m] >= code_offset()
}

proof fn lemma_code_count_step(t: int)
    requires
        t >= 0,
    ensures
        code_count(t + 1) == code_count(t) + if t % 7 == 0 || t % 7 == 1 || t % 7 == 3 || t % 7 == 5 {
            1int
        } else {
            0int
        },
{
    if t % 7 == 6 {
        assert((t + 1) / 7 == t / 7 + 1 && (t + 1) % 7 == 0);
    } else {
        assert((t + 1) / 7 == t / 7 && (t + 1) % 7 == t % 7 + 1);
    }
}

proof fn lemma_code_count_mono(a: int, b: int)
    requires
        0 <= a <= b,
    ensures
        code_count(a) <= code_count(b),
    decreases b - a,
{
    if a < b {
        lemma_code_count_step(a);
        lemma_code_count_mono(a + 1, b);
    }
}

/// Decodes `length` bytes from the base-16k code units `chars`.
pub fn decode_b16k_units(chars: &[u16], length: usize) -> (r: Vec<u8>)
    requires
        decodable(chars@, length as int),
    ensures
        r@ == b16k_decode(chars@, length as int),
{
    let ghost cs = chars@;
    let mut remaining = length;
    let mut i: u32 = 0;
    let mut code: u16 = 0;
    let mut byte_value: u8 = 0;
    let mut pos: usize = 0;
    let mut out: Vec<u8> = Vec::new();
    while remaining > 0
        invariant
            cs == chars@,
            decodable(cs, length as int),
            remaining <= length,
            out.len() == length - remaining,
            i == out.len() % 7,
            pos == code_count(out.len() as int),
            pos > 0 ==> code == unit_payload(cs, pos - 1),
            i == 1 ==> byte_value == ((code & 0x3f) << 2u16) as u8,
            i == 3 ==> byte_value == ((code & 0xf) << 4u16) as u8,
            i == 5 ==> byte_value == ((code & 3) << 6u16) as u8,
            forall|t: int| 0 <= t < out.len() ==> #[trigger] out[t] == decoded_byte(cs, t),
        decreases remaining,
    {
        let ghost t = out.len() as int;
        let ghost q = t / 7;
        proof {
            lemma_code_count_step(t);
            lemma_code_count_mono(t + 1, length as int);
            let ii = i;
            assert(((1u32 << ii) & 0x2b != 0) <==> (ii == 0 || ii == 1 || ii == 3 || ii == 5)) by (bit_vector)
                requires
                    ii < 7,
            ;
            assert(t == 7 * q + i);
            assert(code_count(t) == 4 * q + if i == 0 { 0int } else { i / 2 + 1 });
        }
        remaining -= 1;
        if ((1u32 << i) & 0x2b) != 0 {
            code = chars[pos] - 0x5000;
            pos += 1;
        }
        match i % 7 {
            0 => {
                byte_value = (code >> 6u16) as u8;
                out.push(byte_value);
                byte_value = ((code & 0x3f) << 2u16) as u8;
            },
            1 => {
                byte_value |= (code >> 12u16) as u8;
                out.push(byte_value);
            },
            2 => {
                byte_value = ((code >> 4u16) & 0xff) as u8;
                out.push(byte_value);
                byte_value = ((code & 0xf) << 4u16) as u8;
            },
            3 => {
                byte_value |= (code >> 10u16) as u8;
                out.push(byte_value);
            },
            4 => {
                byte_value = ((code >> 2u16) & 0xff) as u8;
                out.push(byte_value);
                byte_value = ((code & 3) << 6u16) as u8;
            },
            5 => {
                byte_value |= (code >> 8u16) as u8;
                out.push(byte_value);
            },
            _ => {
                byte_value = (code & 0xff) as u8;
                out.push(byte_value);
            },
        }
        assert(out[t] == decoded_byte(cs, t));
        i = (i + 1) % 7;
    }
    assert(out@ =~= b16k_decode(cs, length as int));
    out
}

proof fn lemma_group_roundtrip(b0: u16, b1: u16, b2: u16, b3: u16, b4: u16, b5: u16, b6: u16)
    requires
        b0 < 256 && b1 < 256 && b2 < 256 && b3 < 256 && b4 < 256 && b5 < 256 && b6 < 256,
    ensures
        ({
            let c0 = b0 << 6u16 | b1 >> 2u16;
            let c1 = (b1 & 3) << 12u16 | b2 << 4u16 | b3 >> 4u16;
            let c2 = (b3 & 0xf) << 10u16 | b4 << 2u16 | b5 >> 6u16;
            let c3 = (b5 & 0x3f) << 8u16 | b6;
            &&& (c0 >> 6u16) as u8 == b0
            &&& (((c0 & 0x3f) << 2u16) as u8) | ((c1 >> 12u16) as u8) == b1
            &&& ((c1 >> 4u16) & 0xff) as u8 == b2
            &&& (((c1 & 0xf) << 4u16) as u8) | ((c2 >> 10u16) as u8) == b3
            &&& ((c2 >> 2u16) & 0xff) as u8 == b4
            &&& (((c2 & 3) << 6u16) as u8) | ((c3 >> 8u16) as u8) == b5
            &&& (c3 & 0xff) as u8 == b6
        }),
{
    assert({
        let c0 = b0 << 6u16 | b1 >> 2u16;
        let c1 = (b1 & 3) << 12u16 | b2 << 4u16 | b3 >> 4u16;
        let c2 = (b3 & 0xf) << 10u16 | b4 << 2u16 | b5 >> 6u16;
        let c3 = (b5 & 0x3f) << 8u16 | b6;
        &&& (c0 >> 6u16) as u8 == b0
        &&& (((c0 & 0x3f) << 2u16) as u8) | ((c1 >> 12u16) as u8) == b1
        &&& ((c1 >> 4u16) & 0xff) as u8 == b2
        &&& (((c1 & 0xf) << 4u16) as u8) | ((c2 >> 10u16) as u8) == b3
        &&& ((c2 >> 2u16) & 0xff) as u8 == b4
        &&& (((c2 & 3) << 6u16) as u8) | ((c3 >> 8u16) as u8) == b5
        &&& (c3 & 0xff) as u8 == b6
    }) by (bit_vector)
        requires
            b0 < 256 && b1 < 256 && b2 < 256 && b3 < 256 && b4 < 256 && b5 < 256 && b6 < 256,
    ;
}

/// Decoding the encoding of a byte string, for as many bytes as it holds, gives the string back;
/// and the encoding holds every code unit that this decoding reads.
pub proof fn lemma_b16k_roundtrip(s: Seq<u8>)
    ensures
        decodable(b16k_encode(s), s.len() as int),
        b16k_decode(b16k_encode(s), s.len() as int) == s,
{
    let enc = b16k_encode(s);
    let n = s.len() as int;
    assert forall|m: int| 0 <= m < code_count(n) implies #[trigger] enc[m] >= code_offset()
        && unit_payload(enc, m) == payload(s, m) by {
        lemma_payload_small(s, m);
    }
    assert forall|t: int| 0 <= t < n implies #[trigger] decoded_byte(enc, t) == s[t] by {
        let q = t / 7;
        let i = t % 7;
        let g = 7 * q;
        lemma_code_count_step(t);
        lemma_code_count_mono(t + 1, n);
        assert(t == 7 * q + i);
        assert(code_count(t + 1) == 4 * q + (i + 1) / 2 + 1) by {
            if i == 6 {
                assert((t + 1) / 7 == q + 1 && (t + 1) % 7 == 0);
            } else {
                assert((t + 1) / 7 == q && (t + 1) % 7 == i + 1);
            }
        }
        assert forall|k: int| 0 <= k < 4 implies (#[trigger] ((4 * q + k) / 4)) == q && (4 * q + k) % 4 == k by {}
        lemma_group_roundtrip(
            byte_or_zero(s, g),
            byte_or_zero(s, g + 1),
            byte_or_zero(s, g + 2),
            byte_or_zero(s, g + 3),
            byte_or_zero(s, g + 4),
            byte_or_zero(s, g + 5),
            byte_or_zero(s, g + 6),
        );
        assert(byte_or_zero(s, t) == s[t] as u16);
        assert(unit_payload(enc, 4 * q) == payload(s, 4 * q));
        if i >= 1 {
            assert(unit_payload(enc, 4 * q + 1) == payload(s, 4 * q + 1));
        }
        if i >= 3 {
            assert(unit_payload(enc, 4 * q + 2) == payload(s, 4 * q + 2));
        }
        if i >= 5 {
            assert(unit_payload(enc, 4 * q + 3) == payload(s, 4 * q + 3));
        }
    }
    assert(b16k_decode(enc, n) =~= s);
}

/// Every code of an encoding lies in `0x5000 .. 0x9000`, among the ordinary (non-surrogate)
/// UTF-16 code units, so the codes always form a valid UTF-16 string.
pub proof fn lemma_b16k_codes_in_range(s: Seq<u8>)
    ensures
        forall|m: int| 0 <= m < b16k_encode(s).len() ==> 0x5000 <= #[trigger] b16k_encode(s)[m] < 0x9000,
{
    assert forall|m: int| 0 <= m < b16k_encode(s).len() implies 0x5000 <= #[trigger] b16k_encode(s)[m] < 0x9000 by {
        lemma_payload_small(s, m);
    }
}

/// The UTF-16 code units of one character: one unit inside the basic multilingual plane,
/// a surrogate pair above it.
pub open spec fn char_utf16(c: char) -> Seq<u16> {
    let v = c as int;
    if v < 0x10000 {
        seq![v as u16]
    } else {
        seq![(0xD800 + (v - 0x10000) / 0x400) as u16, (0xDC00 + (v - 0x10000) % 0x400) as u16]
    }
}

/// The UTF-16 encoding of a string.
pub open spec fn utf16_of(s: Seq<char>) -> Seq<u16>
    decreases s.len(),
{
    if s.len() == 0 {
        Seq::empty()
    } else {
        char_utf16(s[0]) + utf16_of(s.drop_first())
    }
}

/// Trusted: collects std's `str::encode_utf16`, which yields the string's UTF-16 code units
/// in order.
#[verifier::external_body]
fn utf16_units(text: &str) -> (r: Vec<u16>)
    ensures
        r@ == utf16_of(text@),
{
    text.encode_utf16().collect()
}

/// Decodes `length` bytes from a string whose UTF-16 code units are base-16k codes.
pub fn decode_b16k(text: &str, length: usize) -> (r: Vec<u8>)
    requires
        decodable(utf16_of(text@), length as int),
    ensures
        r@ == b16k_decode(utf16_of(text@), length as int),
{
    let chars = utf16_units(text);
    decode_b16k_units(chars.as_slice(), length)
}

/// Number of code units that decoding `length` bytes reads.
fn units_needed(length: usize) -> (r: usize)
    ensures
        r == code_count(length as int),
{
    let q = length / 7;
    let rest = length % 7;
    assert(4 * q <= length - rest) by (nonlinear_arith)
        requires
            q == length / 7,
            rest == length % 7,
    ;
    if rest == 0 {
        4 * q
    } else {
        assert(rest <= 6);
        4 * q + rest / 2 + 1
    }
}

/// Whether `chars` holds every code unit that decoding `length` bytes reads, each carrying
/// the offset.
pub fn is_decodable(chars: &[u16], length: usize) -> (r: bool)
    ensures
        r == decodable(chars@, length as int),
{
    let need = units_needed(length);
    if need > chars.len() {
        return false;
    }
    let mut m: usize = 0;
    while m < need
        invariant
            m <= need,
            need == code_count(length as int),
            need <= chars.len(),
            forall|j: int| 0 <= j < m ==> #[trigger] chars@[j] >= code_offset(),
        decreases need - m,
    {
        if chars[m] < 0x5000 {
            assert(!(chars@[m as int] >= code_offset()));
            return false;
        }
        m += 1;
    }
    true
}

/// Decodes `length` bytes from a string of base-16k codes, or gives `None` when the string's
/// UTF-16 code units do not hold all the codes that `length` bytes need.
pub fn decode_b16k_checked(text: &str, length: usize) -> (r: Option<Vec<u8>>)
    ensures
        r is Some <==> decodable(utf16_of(text@), length as int),
        r matches Some(v) ==> v@ == b16k_decode(utf16_of(text@), length as int),
{
    let chars = utf16_units(text);
    if is_decodable(chars.as_slice(), length) {
        Some(decode_b16k_units(chars.as_slice(), length))
    } else {
        None
    }
}

/// Exponent field of a binary16 bit pattern.
pub open spec fn half_exponent(h: u16) -> u16 {
    (h >> 10u16) & 0x1f
}

/// Mantissa field of a binary16 bit pattern.
pub open spec fn half_mantissa(h: u16) -> u16 {
    h & 0x3ff
}

/// Exponent field of a binary32 bit pattern.
pub open spec fn single_exponent(r: u32) -> u32 {
    (r >> 23u32) & 0xff
}

/// Mantissa field of a binary32 bit pattern.
pub open spec fn single_mantissa(r: u32) -> u32 {
    r & 0x7fffff
}

proof fn lemma_assemble(s: u32, e: u32, m: u32)
    requires
        s == 0 || s == 0x8000_0000,
        e < 256,
        m < 0x800000,
    ensures
        (s | (e << 23u32) | m) >> 31u32 == s >> 31u32,
        single_exponent(s | (e << 23u32) | m) == e,
        single_mantissa(s | (e << 23u32) | m) == m,
{
    assert({
        &&& (s | (e << 23u32) | m) >> 31u32 == s >> 31u32
        &&& ((s | (e << 23u32) | m) >> 23u32) & 0xff == e
        &&& (s | (e << 23u32) | m) & 0x7fffff == m
    }) by (bit_vector)
        requires
            s == 0 || s == 0x8000_0000,
            e < 256,
            m < 0x800000,
    ;
}

/// The binary32 bit pattern of the value of the binary16 bit pattern `i`: zeros, infinities
/// and normal numbers keep their fields (the exponent rebiased from 15 to 127), NaNs become
/// quiet NaNs that keep their payload, and subnormal numbers are normalized.
pub fn f16_to_f32_bits(i: u16) -> (r: u32)
    ensures
        r >> 31u32 == (i >> 15u16) as u32,
        i & 0x7fff == 0 ==> single_exponent(r) == 0 && single_mantissa(r) == 0,
        half_exponent(i) == 0x1f && half_mantissa(i) == 0 ==> single_exponent(r) == 0xff && single_mantissa(r) == 0,
        half_exponent(i) == 0x1f && half_mantissa(i) != 0 ==> single_exponent(r) == 0xff
            && single_mantissa(r) == 0x400000 | ((half_mantissa(i) as u32) << 13u32),
        0 < half_exponent(i) < 0x1f ==> single_exponent(r) == half_exponent(i) + 112
            && single_mantissa(r) == (half_mantissa(i) as u32) << 13u32,
        half_exponent(i) == 0 && half_mantissa(i) != 0 ==> 1 <= single_exponent(r) < 0xff
            && 0x800000 + single_mantissa(r) == half_mantissa(i) * pow2((126 - single_exponent(r)) as nat),
{
    assert({
        &&& ((i & 0x8000) as u32) << 16u32 == 0 || ((i & 0x8000) as u32) << 16u32 == 0x8000_0000
        &&& (((i & 0x8000) as u32) << 16u32) >> 31u32 == (i >> 15u16) as u32
        &&& ((i & 0x7C00) as u32 == 0x7C00) == ((i >> 10u16) & 0x1f == 0x1f)
        &&& ((i & 0x7C00) as u32 == 0) == ((i >> 10u16) & 0x1f == 0)
        &&& ((i & 0x7C00) as u32) >> 10u32 == ((i >> 10u16) & 0x1f) as u32
        &&& (i & 0x03FF) as u32 == (i & 0x3ff) as u32 && (i & 0x03FF) as u32 <= 0x3ff
        &&& ((i & 0x03FF) as u32) << 13u32 < 0x800000
        &&& (i & 0x7fff == 0) ==> ((i as u32) << 16u32 == ((i & 0x8000) as u32) << 16u32)
        &&& (i & 0x7fff == 0) ==> ((i >> 10u16) & 0x1f == 0 && i & 0x3ff == 0)
        &&& (i & 0x7fff != 0 && (i & 0x7C00) == 0) ==> i & 0x3ff != 0
    }) by (bit_vector);
    if i & 0x7FFF == 0 {
        proof {
            lemma_assemble(((i & 0x8000) as u32) << 16u32, 0, 0);
            let x = ((i & 0x8000) as u32) << 16u32;
            assert(x | (0u32 << 23u32) | 0u32 == x) by (bit_vector);
        }
        return (i as u32) << 16;
    }
    let half_sign = (i & 0x8000) as u32;
    let half_exp = (i & 0x7C00) as u32;
    let half_man = (i & 0x03FF) as u32;
    let sign = half_sign << 16u32;
    if half_exp == 0x7C00 {
        if half_man == 0 {
            proof {
                lemma_assemble(sign, 0xff, 0);
                assert(sign | (0xffu32 << 23u32) | 0u32 == sign | 0x7F80_0000u32) by (bit_vector);
            }
            return sign | 0x7F80_0000;
        } else {
            proof {
                assert((0x400000 | (half_man << 13u32)) < 0x800000) by (bit_vector)
                    requires
                        half_man <= 0x3ff,
                ;
                lemma_assemble(sign, 0xff, 0x400000 | (half_man << 13u32));
                assert(sign | (0xffu32 << 23u32) | (0x400000 | (half_man << 13u32)) == sign | 0x7FC0_0000u32
                    | (half_man << 13u32)) by (bit_vector);
            }
            return sign | 0x7FC0_0000 | (half_man << 13u32);
        }
    }
    assert(((half_exp as i32) >> 10u32) as u32 == half_exp >> 10u32 && half_exp >> 10u32 <= 0x1f) by (bit_vector)
        requires
            half_exp == (i & 0x7C00) as u32,
    ;
    let unbiased_exp = ((half_exp as i32) >> 10u32) - 15;
    if half_exp == 0 {
        let lz = (half_man as u16).leading_zeros();
        proof {
            let m16 = half_man as u16;
            assert(m16 != 0 && m16 == half_mantissa(i));
            vstd::std_specs::bits::axiom_u16_leading_zeros(m16);
            let l = lz as u16;
            assert(l >= 6) by (bit_vector)
                requires
                    l < 16,
                    (m16 >> (15 - l) as u16) & 1u16 != 0u16,
                    m16 <= 0x3ff,
            ;
        }
        let e = lz - 6;
        let exp = (127 - 15 - e) << 23u32;
        let man = (half_man << (14 + e)) & 0x7F_FF_FF;
        proof {
            let m16 = half_man as u16;
            let l = lz;
            let sh = (8 + l) as u32;
            let ee = e;
            assert(man + 0x800000 == half_man << sh && half_man <= 0xffff_ffffu32 >> sh && man < 0x800000) by (bit_vector)
                requires
                    6 <= l < 16,
                    ee == l - 6,
                    sh == l + 8,
                    m16 >> (16 - l) as u16 == 0,
                    (m16 >> (15 - l) as u16) & 1u16 != 0u16,
                    half_man == m16 as u32,
                    man == (half_man << (14 + ee) as u32) & 0x7F_FF_FF,
            ;
            vstd::bits::lemma_u32_mul_pow2_le_max_iff_max_shr(half_man, sh, 0xffff_ffffu32);
            vstd::bits::lemma_u32_shl_is_mul(half_man, sh);
            lemma_assemble(sign, (112 - e) as u32, man);
        }
        return sign | exp | man;
    }
    let exp = ((unbiased_exp + 127) as u32) << 23u32;
    let man = (half_man & 0x03FF) << 13u32;
    proof {
        assert(half_man & 0x03FF == half_man) by (bit_vector)
            requires
                half_man <= 0x3ff,
        ;
        lemma_assemble(sign, (unbiased_exp + 127) as u32, man);
    }
    sign | exp | man
}

} // verus!
