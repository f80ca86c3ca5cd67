//! RFC 4648 base64 decoding, as used by `data:` URLs.

use vstd::prelude::*;
use vstd::arithmetic::power2::{pow2, lemma_pow2_pos, lemma_pow2_adds, lemma2_to64};
use vstd::arithmetic::div_mod::{
    lemma_fundamental_div_mod, lemma_div_denominator, lemma_mod_mod, lemma_div_pos_is_pos,
    lemma_mod_bound, lemma_div_plus_one, lemma_mod_breakdown, lemma_div_is_ordered, lemma_small_mod,
};
use vstd::arithmetic::mul::{lemma_mul_is_associative, lemma_mul_strictly_positive};
use vstd::bits::{lemma_u32_shr_is_div, lemma_u32_shl_is_mul, lemma_u32_low_bits_mask_is_mod, low_bits_mask};
use crate::text::chars_of;

verus! {

/// ASCII whitespace as `u8::is_ascii_whitespace` defines it.
pub open spec fn is_ascii_ws(c: char) -> bool {
    c == ' ' || c == '\t' || c == '\n' || c == '\x0C' || c == '\r'
}

/// `s` with its ASCII whitespace removed.
pub open spec fn strip_ws(s: Seq<char>) -> Seq<char>
    decreases s.len(),
{
    if s.len() == 0 {
        s
    } else {
        let r = strip_ws(s.drop_last());
        if is_ascii_ws(s.last()) {
            r
        } else {
            r.push(s.last())
        }
    }
}

/// The 6-bit value of a base64 alphabet character, or `-1`.
pub open spec fn sextet(c: char) -> int {
    if 'A' <= c && c <= 'Z' {
        c as int - 'A' as int
    } else if 'a' <= c && c <= 'z' {
        c as int - 'a' as int + 26
    } else if '0' <= c && c <= '9' {
        c as int - '0' as int + 52
    } else if c == '+' {
        62
    } else if c == '/' {
        63
    } else {
        -1
    }
}

pub open spec fn is_b64(c: char) -> bool {
    sextet(c) >= 0
}

/// `w` is `k` alphabet characters followed by `=` padding only.
pub open spec fn b64_split(w: Seq<char>, k: int) -> bool {
    &&& 0 <= k <= w.len()
    &&& forall|j: int| 0 <= j < k ==> is_b64(#[trigger] w[j])
    &&& forall|j: int| k <= j < w.len() ==> #[trigger] w[j] == '='
}

/// A well-formed base64 text (whitespace already removed): alphabet
/// characters, then at most two `=`, with a length divisible by four.
pub open spec fn b64_valid(w: Seq<char>) -> bool {
    &&& w.len() % 4 == 0
    &&& exists|k: int| b64_split(w, k) && w.len() - k <= 2
}

/// The number of alphabet characters of a valid text.
pub open spec fn b64_data_len(w: Seq<char>) -> int {
    choose|k: int| b64_split(w, k)
}

/// The big-endian number whose base-64 digits are the sextets of `s`.
pub open spec fn sextet_value(s: Seq<char>) -> nat
    decreases s.len(),
{
    if s.len() == 0 {
        0
    } else {
        sextet_value(s.drop_last()) * 64 + sextet(s.last()) as nat
    }
}

/// The bytes carried by the sextets of `s`: the `6n / 8` leading octets of
/// its `6n`-bit big-endian bit string.
pub open spec fn decoded_bytes(s: Seq<char>) -> Seq<u8> {
    let n = s.len();
    Seq::new(
        (6 * n / 8) as nat,
        |k: int| ((sextet_value(s) / pow2((6 * n - 8 * k - 8) as nat)) % 256) as u8,
    )
}

/// What base64 decoding of `s` yields: `None` when the text is malformed.
pub open spec fn base64_decode(s: Seq<char>) -> Option<Seq<u8>> {
    let w = strip_ws(s);
    if b64_valid(w) {
        Some(decoded_bytes(w.take(b64_data_len(w))))
    } else {
        None
    }
}

proof fn lemma_split_unique(w: Seq<char>, k: int)
    requires
        b64_split(w, k),
    ensures
        b64_data_len(w) == k,
{
    let k2 = b64_data_len(w);
    assert(b64_split(w, k2));
    if k2 < k {
        assert(is_b64(w[k2]));
    } else if k < k2 {
        assert(is_b64(w[k]));
    }
}

/// Whitespace removal of a prefix is a prefix of the whitespace removal.
proof fn lemma_strip_prefix(s: Seq<char>, i: int)
    requires
        0 <= i <= s.len(),
    ensures
        strip_ws(s.take(i)).len() <= strip_ws(s).len(),
        forall|j: int|
            0 <= j < strip_ws(s.take(i)).len() ==> #[trigger] strip_ws(s.take(i))[j]
                == strip_ws(s)[j],
    decreases s.len(),
{
    if i == s.len() {
        assert(s.take(i) =~= s);
    } else {
        assert(s.take(i) =~= s.drop_last().take(i));
        lemma_strip_prefix(s.drop_last(), i);
    }
}

proof fn lemma_strip_len(s: Seq<char>)
    ensures
        strip_ws(s).len() <= s.len(),
    decreases s.len(),
{
    if s.len() > 0 {
        lemma_strip_len(s.drop_last());
    }
}

proof fn lemma_strip_step(s: Seq<char>, i: int)
    requires
        0 <= i < s.len(),
    ensures
        strip_ws(s.take(i + 1)) == if is_ascii_ws(s[i]) {
            strip_ws(s.take(i))
        } else {
            strip_ws(s.take(i)).push(s[i])
        },
{
    assert(s.take(i + 1).drop_last() =~= s.take(i));
}

/// One sextet step of the bit buffer.
proof fn lemma_push_sextet(v: nat, s: nat, b: nat)
    requires
        s < 64,
        b < 8,
    ensures
        (v % pow2(b)) * 64 + s == (v * 64 + s) % pow2(b + 6),
        (v % pow2(b)) * 64 + s < pow2(b + 6),
{
    lemma_pow2_pos(b);
    lemma_pow2_adds(b, 6);
    lemma2_to64();
    let m = pow2(b);
    lemma_fundamental_div_mod(v as int, m as int);
    let q = v / m;
    let r = v % m;
    assert(v * 64 + s == (q * m) * 64 + (r * 64 + s)) by (nonlinear_arith)
        requires
            v == m * q + r,
    ;
    assert((q * m) * 64 == q * (m * 64)) by (nonlinear_arith);
    assert(r * 64 + s < m * 64) by (nonlinear_arith)
        requires
            r < m,
            s < 64,
    ;
    lemma_mod_breakdown_add(q as int, (m * 64) as int, (r * 64 + s) as int);
}

proof fn lemma_mod_breakdown_add(q: int, d: int, r: int)
    requires
        d > 0,
        0 <= r < d,
        q >= 0,
    ensures
        (q * d + r) % d == r,
        (q * d + r) / d == q,
{
    vstd::arithmetic::div_mod::lemma_fundamental_div_mod_converse(q * d + r, d, q, r);
}

/// Taking the low bits and then the top byte of them.
proof fn lemma_extract_byte(x: nat, e: nat)
    ensures
        (x % pow2(e + 8)) / pow2(e) == (x / pow2(e)) % 256,
        (x % pow2(e + 8)) % pow2(e) == x % pow2(e),
{
    lemma_pow2_pos(e);
    lemma_pow2_adds(e, 8);
    lemma2_to64();
    let d = pow2(e) as int;
    assert(pow2(e + 8) == d * 256);
    lemma_fundamental_div_mod(x as int, d * 256);
    let q = (x as int) / (d * 256);
    let r = (x as int) % (d * 256);
    lemma_fundamental_div_mod(r, d);
    let t = r / d;
    let u = r % d;
    assert(0 <= t < 256) by (nonlinear_arith)
        requires
            r == d * t + u,
            0 <= u < d,
            0 <= r < d * 256,
    ;
    assert(x == d * (q * 256 + t) + u) by (nonlinear_arith)
        requires
            x == (d * 256) * q + r,
            r == d * t + u,
    ;
    assert(q >= 0) by (nonlinear_arith)
        requires
            x == (d * 256) * q + r,
            0 <= r < d * 256,
            x >= 0,
    ;
    vstd::arithmetic::div_mod::lemma_fundamental_div_mod_converse(x as int, d, q * 256 + t, u);
    vstd::arithmetic::div_mod::lemma_fundamental_div_mod_converse(
        q * 256 + t,
        256,
        q,
        t,
    );
    assert(d * t + u == r);
    vstd::arithmetic::div_mod::lemma_fundamental_div_mod_converse(r, d, t, u);
}

/// Dropping a trailing sextet does not change the earlier bytes.
proof fn lemma_shift_away(v: nat, s: nat, e: nat)
    requires
        s < 64,
    ensures
        (v * 64 + s) / pow2(e + 6) == v / pow2(e),
{
    lemma_pow2_pos(e);
    lemma_pow2_adds(e, 6);
    lemma2_to64();
    let d = pow2(e) as int;
    lemma_div_denominator((v * 64 + s) as int, 64, d);
    lemma_mod_breakdown_add(v as int, 64, s as int);
    assert(64 * d == d * 64) by (nonlinear_arith);
}

fn sextet_of(c: char) -> (r: Option<u32>)
    ensures
        match r {
            Some(v) => is_b64(c) && v as int == sextet(c),
            None => !is_b64(c),
        },
{
    if 'A' <= c && c <= 'Z' {
        Some((c as u32) - ('A' as u32))
    } else if 'a' <= c && c <= 'z' {
        Some((c as u32) - ('a' as u32) + 26)
    } else if '0' <= c && c <= '9' {
        Some((c as u32) - ('0' as u32) + 52)
    } else if c == '+' {
        Some(62)
    } else if c == '/' {
        Some(63)
    } else {
        None
    }
}

fn is_whitespace(c: char) -> (r: bool)
    ensures
        r == is_ascii_ws(c),
{
    c == ' ' || c == '\t' || c == '\n' || c == '\x0C' || c == '\r'
}

/// RFC 4648 base64 decode. Skips ASCII whitespace so multi-line payloads
/// decode cleanly; rejects out-of-alphabet characters and a misaligned
/// length.
pub fn decode_base64(input: &str) -> (r: Option<Vec<u8>>)
    ensures
        match r {
            Some(v) => base64_decode(input@) == Some(v@),
            None => base64_decode(input@) is None,
        },
{
    let cs = chars_of(input);
    let mut out: Vec<u8> = Vec::new();
    let mut buffer: u32 = 0;
    let mut bits_collected: u32 = 0;
    let mut padding_seen: usize = 0;
    let mut sextets_seen: usize = 0;
    let ghost mut k: int = 0;
    let mut i: usize = 0;
    proof {
        assert(cs@.take(0) =~= Seq::<char>::empty());
        assert(strip_ws(cs@.take(0)).take(0) =~= Seq::<char>::empty());
        assert(decoded_bytes(Seq::<char>::empty()) =~= Seq::<u8>::empty());
        assert(pow2(0) == 1) by { lemma2_to64(); }
    }
    while i < cs.len()
        invariant
            cs@ == input@,
            i <= cs@.len(),
            b64_split(strip_ws(cs@.take(i as int)), k),
            strip_ws(cs@.take(i as int)).len() - k == padding_seen,
            padding_seen <= 2,
            sextets_seen == strip_ws(cs@.take(i as int)).len(),
            out@ == decoded_bytes(strip_ws(cs@.take(i as int)).take(k)),
            bits_collected < 8,
            bits_collected == 6 * k - 8 * out@.len(),
            buffer as nat == sextet_value(strip_ws(cs@.take(i as int)).take(k)) % pow2(
                bits_collected as nat,
            ),
        decreases cs@.len() - i,
    {
        let c = cs[i];
        let ghost w = strip_ws(cs@.take(i as int));
        proof {
            lemma_strip_step(cs@, i as int);
            lemma_strip_prefix(cs@, i as int + 1);
            lemma_strip_len(cs@.take(i as int + 1));
        }
        let ghost w2 = strip_ws(cs@.take(i as int + 1));
        proof {
            if !is_ascii_ws(c) {
                assert(w2 == w.push(c));
                assert(w2[w.len() as int] == strip_ws(cs@)[w.len() as int]);
                if k < w.len() {
                    assert(w2[k] == strip_ws(cs@)[k]);
                }
                if k + 1 < w.len() {
                    assert(w2[k + 1] == strip_ws(cs@)[k + 1]);
                }
            }
        }
        if is_whitespace(c) {
            i = i + 1;
        } else {
            assert(w2 == w.push(c));
            match sextet_of(c) {
                None => {
                    if c != '=' {
                        proof {
                            assert(strip_ws(cs@)[w.len() as int] == c);
                            assert(!b64_valid(strip_ws(cs@))) by {
                                if b64_valid(strip_ws(cs@)) {
                                    let kk = choose|kk: int| b64_split(strip_ws(cs@), kk) && strip_ws(cs@).len() - kk <= 2;
                                    assert(!is_b64(strip_ws(cs@)[w.len() as int]));
                                }
                            }
                        }
                        return None;
                    }
                    padding_seen = padding_seen + 1;
                    if padding_seen > 2 {
                        proof {
                            let ws = strip_ws(cs@);
                            assert(ws[k] == '=');
                            assert(ws[k + 1] == '=');
                            assert(ws[k + 2] == '=');
                            assert(!b64_valid(ws)) by {
                                if b64_valid(ws) {
                                    let kk = choose|kk: int| b64_split(ws, kk) && ws.len() - kk <= 2;
                                    assert(!is_b64(ws[k]));
                                    assert(kk <= k);
                                }
                            }
                        }
                        return None;
                    }
                    sextets_seen = sextets_seen + 1;
                    i = i + 1;
                    proof {
                        assert(w2.take(k) =~= w.take(k));
                    }
                },
                Some(sx) => {
                    if padding_seen != 0 {
                        proof {
                            let ws = strip_ws(cs@);
                            assert(ws[k] == '=');
                            assert(ws[w.len() as int] == c);
                            assert(!b64_valid(ws)) by {
                                if b64_valid(ws) {
                                    let kk = choose|kk: int| b64_split(ws, kk) && ws.len() - kk <= 2;
                                    assert(!is_b64(ws[k]));
                                    assert(kk <= k);
                                }
                            }
                        }
                        return None;
                    }
                    sextets_seen = sextets_seen + 1;
                    let ghost v_old = sextet_value(w.take(k));
                    let ghost b_old = bits_collected as nat;
                    let ghost len_old = out@.len();
                    proof {
                        assert(w.take(k) =~= w);
                        assert(w2.take(k + 1) =~= w2);
                        assert(w2.drop_last() =~= w);
                        lemma_push_sextet(v_old, sx as nat, b_old);
                        lemma_pow2_pos(b_old);
                        lemma2_to64();
                        assert(pow2(b_old) <= 128) by {
                            vstd::arithmetic::power2::lemma_pow2_strictly_increases(b_old, 7);
                        }
                        assert(buffer * 64 + sx <= 0xffff_ffff);
                        lemma_u32_shl_is_mul(buffer, 6);
                        assert((buffer << 6u32) | sx == (buffer << 6u32) + sx) by (bit_vector)
                            requires
                                sx < 64,
                        ;
                    }
                    buffer = (buffer << 6) | sx;
                    bits_collected = bits_collected + 6;
                    proof {
                        k = k + 1;
                        assert(buffer as nat == sextet_value(w2.take(k)) % pow2(bits_collected as nat));
                    }
                    if bits_collected >= 8 {
                        bits_collected = bits_collected - 8;
                        let ghost e = bits_collected as nat;
                        proof {
                            lemma_u32_shr_is_div(buffer, bits_collected);
                            lemma_extract_byte(sextet_value(w2), e);
                            assert(bits_collected as nat + 8 == e + 8);
                            lemma_pow2_pos(e);
                            lemma_div_is_ordered(buffer as int, pow2(e + 8) as int, pow2(e) as int);
                        }
                        let byte: u8 = (buffer >> bits_collected) as u8;
                        out.push(byte);
                        proof {
                            assert(pow2(0) == 1) by { lemma2_to64(); }
                            lemma_u32_shl_is_mul(1, bits_collected);
                            lemma_u32_low_bits_mask_is_mod(buffer, e);
                        }
                        buffer = buffer & ((1u32 << bits_collected) - 1);
                        proof {
                            assert(low_bits_mask(e) == pow2(e) - 1);
                        }
                    }
                    proof {
                        let n = w2.take(k).len();
                        assert forall|j: int| 0 <= j < len_old implies #[trigger] out@[j]
                            == decoded_bytes(w2.take(k))[j] by {
                            lemma_shift_away(v_old, sx as nat, (6 * (k - 1) - 8 * j - 8) as nat);
                        }
                        assert(out@ =~= decoded_bytes(w2.take(k)));
                    }
                    i = i + 1;
                },
            }
        }
    }
    proof {
        assert(cs@.take(cs@.len() as int) =~= cs@);
    }
    if sextets_seen % 4 != 0 {
        return None;
    }
    proof {
        lemma_split_unique(strip_ws(cs@), k);
    }
    Some(out)
}

} // verus!

verus! {

/// The base64 alphabet character of a sextet.
pub open spec fn b64_char(x: int) -> char {
    if x < 26 {
        (x + 65) as char
    } else if x < 52 {
        (x - 26 + 97) as char
    } else if x < 62 {
        (x - 52 + 48) as char
    } else if x == 62 {
        '+'
    } else {
        '/'
    }
}

/// The last `d` base-64 digits of `v`, most significant first, as alphabet
/// characters.
pub open spec fn b64_digits(v: nat, d: nat) -> Seq<char>
    decreases d,
{
    if d == 0 {
        Seq::empty()
    } else {
        b64_digits(v / 64, (d - 1) as nat).push(b64_char((v % 64) as int))
    }
}

/// The big-endian number whose base-256 digits are `b`.
pub open spec fn bytes_value(b: Seq<u8>) -> nat
    decreases b.len(),
{
    if b.len() == 0 {
        0
    } else {
        bytes_value(b.drop_last()) * 256 + b.last() as nat
    }
}

/// How many alphabet characters encode `n` bytes: `⌈8n / 6⌉`.
pub open spec fn b64_data_chars(n: nat) -> nat {
    (8 * n + 5) / 6
}

/// Standard padded base64 (RFC 4648, section 4) of `b`: the bits of `b`,
/// zero-padded to whole sextets, as alphabet characters, then `=` up to a
/// multiple of four characters.
pub open spec fn base64_encode(b: Seq<u8>) -> Seq<char> {
    let n = b.len();
    let d = b64_data_chars(n);
    b64_digits(bytes_value(b) * pow2((6 * d - 8 * n) as nat), d) + Seq::new(((4 - d % 4) % 4) as nat, |i: int| '=')
}

proof fn lemma_b64_char(x: int)
    requires
        0 <= x < 64,
    ensures
        is_b64(b64_char(x)),
        sextet(b64_char(x)) == x,
{
}

proof fn lemma_digits(v: nat, d: nat)
    ensures
        b64_digits(v, d).len() == d,
        forall|i: int| 0 <= i < d ==> #[trigger] is_b64(b64_digits(v, d)[i]),
        sextet_value(b64_digits(v, d)) == v % pow2(6 * d),
    decreases d,
{
    if d == 0 {
        vstd::arithmetic::power2::lemma2_to64();
    } else {
        let d1 = (d - 1) as nat;
        lemma_digits(v / 64, d1);
        let s = b64_digits(v, d);
        let t = b64_digits(v / 64, d1);
        lemma_b64_char((v % 64) as int);
        assert(s.drop_last() =~= t);
        assert forall|i: int| 0 <= i < d implies #[trigger] is_b64(s[i]) by {
            if i < d1 {
                assert(s[i] == t[i]);
            }
        }
        lemma2_to64();
        lemma_pow2_pos(6 * d1);
        lemma_pow2_adds(6, 6 * d1);
        assert(6 * d == 6 + 6 * d1);
        lemma_mod_breakdown(v as int, 64, pow2(6 * d1) as int);
        assert(64 * pow2(6 * d1) == pow2(6 * d));
        assert(sextet_value(s) == sextet_value(t) * 64 + (v % 64));
        assert(sextet_value(s) == ((v / 64) % pow2(6 * d1)) * 64 + v % 64);
        assert(((v / 64) % pow2(6 * d1)) * 64 == 64 * ((v / 64) % pow2(6 * d1))) by (nonlinear_arith);
    }
}

proof fn lemma_bytes_value(b: Seq<u8>, k: int)
    requires
        0 <= k < b.len(),
    ensures
        bytes_value(b) < pow2(8 * b.len()),
        (bytes_value(b) / pow2((8 * (b.len() - 1 - k)) as nat)) % 256 == b[k],
    decreases b.len(),
{
    let n = b.len();
    let b1 = b.drop_last();
    let v1 = bytes_value(b1);
    lemma2_to64();
    lemma_pow2_adds((8 * (n - 1)) as nat, 8);
    assert(8 * n == 8 * (n - 1) + 8);
    if n == 1 {
        assert(b1.len() == 0);
        assert(v1 == 0);
        assert(pow2(0) == 1) by {
            vstd::arithmetic::power2::lemma2_to64();
        }
        lemma_mod_breakdown_add(0, 256, b[0] as int);
        assert(bytes_value(b) == b[0] as nat);
        assert((8 * (n - 1 - k)) as nat == 0);
        assert(bytes_value(b) / 1 == bytes_value(b));
        assert(pow2(8) == 256);
    } else {
        lemma_bytes_value(b1, if k < n - 1 { k } else { 0 });
        let m = pow2((8 * (n - 1)) as nat);
        assert(v1 * 256 + b.last() < m * 256) by (nonlinear_arith)
            requires
                v1 < m,
                b.last() < 256,
        ;
        let x: nat = (v1 * 256 + b.last()) as nat;
        assert(bytes_value(b) == x);
        lemma_mod_breakdown_add(v1 as int, 256, b.last() as int);
        if k == n - 1 {
            assert(pow2(0) == 1);
            assert((8 * (n - 1 - k)) as nat == 0);
            assert(x / 1 == x);
            assert(x % 256 == b.last());
            assert(b.last() == b[k]);
        } else {
            let e = (8 * (n - 2 - k)) as nat;
            lemma_pow2_pos(e);
            lemma_pow2_adds(8, e);
            assert((8 * (n - 1 - k)) as nat == 8 + e);
            assert(pow2(8 + e) == 256 * pow2(e));
            lemma_div_denominator(x as int, 256, pow2(e) as int);
            assert(x / pow2(8 + e) == (x / 256) / pow2(e));
            assert(x / 256 == v1);
            assert(b1[k] == b[k]);
            assert((8 * (b1.len() - 1 - k)) as nat == e);
            assert((v1 / pow2(e)) % 256 == b1[k]);
        }
    }
}

proof fn lemma_shift_div(x: nat, p: nat, q: nat)
    ensures
        (x * pow2(p)) / pow2(p + q) == x / pow2(q),
{
    lemma_pow2_pos(p);
    lemma_pow2_pos(q);
    lemma_pow2_adds(p, q);
    lemma_div_denominator((x * pow2(p)) as int, pow2(p) as int, pow2(q) as int);
    vstd::arithmetic::div_mod::lemma_div_multiples_vanish(x as int, pow2(p) as int);
    assert(x * pow2(p) == pow2(p) * x) by (nonlinear_arith);
}

/// Decoding inverts encoding: the standard base64 of any bytes, with ASCII
/// whitespace inserted anywhere, decodes to those bytes.
pub proof fn lemma_base64_round_trip(b: Seq<u8>, w: Seq<char>)
    requires
        strip_ws(w) == base64_encode(b),
    ensures
        base64_decode(w) == Some(b),
{
    let n = b.len();
    let d = b64_data_chars(n);
    let m = n / 3;
    let r = n % 3;
    lemma_fundamental_div_mod(n as int, 3);
    assert(8 * n + 5 == 24 * m + 8 * r + 5);
    let p: nat;
    let pad: nat;
    if r == 0 {
        lemma_mod_breakdown_add((4 * m) as int, 6, 5);
        assert(d == 4 * m);
        p = 0;
        pad = 0;
    } else if r == 1 {
        lemma_mod_breakdown_add((4 * m + 2) as int, 6, 1);
        assert(d == 4 * m + 2);
        p = 4;
        pad = 2;
    } else {
        lemma_mod_breakdown_add((4 * m + 3) as int, 6, 3);
        assert(d == 4 * m + 3);
        p = 2;
        pad = 1;
    }
    assert(6 * d == 8 * n + p);
    assert((4 - d % 4) % 4 == pad) by {
        lemma_mod_breakdown_add(m as int, 4, (d - 4 * m) as int);
    }
    let bv = bytes_value(b);
    let v = bv * pow2(p);
    let digits = b64_digits(v, d);
    let e = base64_encode(b);
    assert(e == digits + Seq::new(pad, |i: int| '='));
    lemma_digits(v, d);
    assert(e.len() == d + pad);
    assert(e.len() % 4 == 0) by {
        lemma_mod_breakdown_add((m + if r == 0 { 0nat } else { 1nat }) as int, 4, 0);
    }
    assert(b64_split(e, d as int)) by {
        assert forall|j: int| 0 <= j < d implies is_b64(#[trigger] e[j]) by {
            assert(e[j] == digits[j]);
        }
    }
    assert(b64_valid(e));
    lemma_split_unique(e, d as int);
    assert(e.take(d as int) =~= digits);
    // The sextets carry exactly the padded value.
    if n > 0 {
        lemma_bytes_value(b, 0);
    }
    assert(bv < pow2(8 * n)) by {
        if n == 0 {
            lemma2_to64();
        }
    }
    lemma_pow2_pos(p);
    lemma_pow2_adds(8 * n, p);
    assert(v < pow2(6 * d)) by (nonlinear_arith)
        requires
            bv < pow2(8 * n),
            v == bv * pow2(p),
            pow2(p) > 0,
            pow2(8 * n) * pow2(p) == pow2(6 * d),
    ;
    lemma_small_mod(v, pow2(6 * d));
    assert(sextet_value(digits) == v);
    let out = decoded_bytes(digits);
    lemma_mod_breakdown_add(n as int, 8, p as int);
    assert(6 * d / 8 == n);
    assert forall|k: int| 0 <= k < n implies #[trigger] out[k] == b[k] by {
        lemma_bytes_value(b, k);
        let q = (8 * (n - 1 - k)) as nat;
        assert((6 * d - 8 * k - 8) as nat == p + q);
        lemma_shift_div(bv, p, q);
    }
    assert(out =~= b);
}

} // verus!
