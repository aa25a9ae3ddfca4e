//! Byte-level encoders shared by the ledger: lower-case hex, decimal
//! integers, and JSON string escaping.
//!
//! These are the building bricks of the canonical block serialization; each
//! executable encoder is proved to produce exactly the byte sequence its spec
//! function describes.

use vstd::prelude::*;
use vstd::string::StringExecFns;

verus! {

/// One hexadecimal digit, lower case, for a nibble value.
pub open spec fn hex_digit(n: u8) -> char {
    if n == 0 {
        '0'
    } else if n == 1 {
        '1'
    } else if n == 2 {
        '2'
    } else if n == 3 {
        '3'
    } else if n == 4 {
        '4'
    } else if n == 5 {
        '5'
    } else if n == 6 {
        '6'
    } else if n == 7 {
        '7'
    } else if n == 8 {
        '8'
    } else if n == 9 {
        '9'
    } else if n == 10 {
        'a'
    } else if n == 11 {
        'b'
    } else if n == 12 {
        'c'
    } else if n == 13 {
        'd'
    } else if n == 14 {
        'e'
    } else {
        'f'
    }
}

/// The i-th nibble (half byte) of a byte sequence, high half of each byte
/// first, as it appears in the byte's hex rendering.
pub open spec fn nibble(bytes: Seq<u8>, i: int) -> u8 {
    if i % 2 == 0 {
        bytes[i / 2] / 16
    } else {
        bytes[i / 2] % 16
    }
}

/// Lower-case hex encoding of a byte sequence, two digits per byte.
pub open spec fn hex_of(bytes: Seq<u8>) -> Seq<char> {
    Seq::new(bytes.len() * 2, |i: int| hex_digit(nibble(bytes, i)))
}

/// The 64 hex digits of a 32-byte digest. Written over a fixed length so
/// that the length is known even where the digest itself is only a name;
/// on digests of 32 bytes it coincides with `hex_of`.
pub open spec fn hex64(bytes: Seq<u8>) -> Seq<char> {
    Seq::new(64, |i: int| hex_digit(nibble(bytes, i)))
}

fn hex_digit_str(n: u8) -> (r: &'static str)
    requires
        n < 16,
    ensures
        r@ == seq![hex_digit(n)],
{
    proof {
        reveal_strlit("0");
        reveal_strlit("1");
        reveal_strlit("2");
        reveal_strlit("3");
        reveal_strlit("4");
        reveal_strlit("5");
        reveal_strlit("6");
        reveal_strlit("7");
        reveal_strlit("8");
        reveal_strlit("9");
        reveal_strlit("a");
        reveal_strlit("b");
        reveal_strlit("c");
        reveal_strlit("d");
        reveal_strlit("e");
        reveal_strlit("f");
    }
    if n == 0 {
        "0"
    } else if n == 1 {
        "1"
    } else if n == 2 {
        "2"
    } else if n == 3 {
        "3"
    } else if n == 4 {
        "4"
    } else if n == 5 {
        "5"
    } else if n == 6 {
        "6"
    } else if n == 7 {
        "7"
    } else if n == 8 {
        "8"
    } else if n == 9 {
        "9"
    } else if n == 10 {
        "a"
    } else if n == 11 {
        "b"
    } else if n == 12 {
        "c"
    } else if n == 13 {
        "d"
    } else if n == 14 {
        "e"
    } else {
        "f"
    }
}

/// Render a byte string as lower-case hex, two digits per byte.
pub fn to_hex(bytes: &[u8]) -> (r: String)
    ensures
        r@ == hex_of(bytes@),
{
    let mut out = String::new();
    let n: usize = bytes.len();
    let mut i: usize = 0;
    while i < n
        invariant
            i <= n,
            n == bytes@.len(),
            out@ == hex_of(bytes@).take(2 * (i as int)),
        decreases n - i,
    {
        let b = bytes[i];
        out.append(hex_digit_str(b / 16));
        out.append(hex_digit_str(b % 16));
        proof {
            assert(nibble(bytes@, 2 * (i as int)) == b / 16);
            assert(nibble(bytes@, 2 * (i as int) + 1) == b % 16);
            assert(out@ =~= hex_of(bytes@).take(2 * ((i + 1) as int)));
        }
        i = i + 1;
    }
    proof {
        assert(hex_of(bytes@).take(2 * (n as int)) =~= hex_of(bytes@));
    }
    out
}

/// Append every byte of `bytes` to `out`, in order.
pub(crate) fn push_bytes(out: &mut Vec<u8>, bytes: &[u8])
    ensures
        final(out)@ == old(out)@ + bytes@,
{
    let ghost orig = out@;
    let n: usize = bytes.len();
    let mut i: usize = 0;
    while i < n
        invariant
            i <= n,
            n == bytes@.len(),
            out@ == orig + bytes@.take(i as int),
        decreases n - i,
    {
        out.push(bytes[i]);
        proof {
            assert(bytes@.take(i as int).push(bytes@[i as int]) =~= bytes@.take(i + 1));
        }
        i = i + 1;
    }
    proof {
        assert(bytes@.take(n as int) =~= bytes@);
    }
}

/// Decimal digits of a non-negative integer, most significant first, as
/// ASCII bytes, with no leading zeros (a single `0` for zero).
pub open spec fn dec_digits(n: nat) -> Seq<u8>
    decreases n,
{
    if n < 10 {
        seq![(48 + n) as u8]
    } else {
        dec_digits(n / 10).push((48 + n % 10) as u8)
    }
}

/// Decimal rendering of an integer as ASCII bytes: a leading `-` for
/// negative values, then the digits.
pub open spec fn dec_bytes(n: int) -> Seq<u8> {
    if n >= 0 {
        dec_digits(n as nat)
    } else {
        seq![45u8] + dec_digits((-n) as nat)
    }
}

fn push_dec_u64(out: &mut Vec<u8>, m: u64)
    ensures
        final(out)@ == old(out)@ + dec_digits(m as nat),
    decreases m,
{
    if m < 10 {
        out.push(48 + (m as u8));
        proof {
            assert(out@ =~= old(out)@ + dec_digits(m as nat));
        }
    } else {
        push_dec_u64(out, m / 10);
        out.push(48 + ((m % 10) as u8));
        proof {
            assert((m / 10) as nat == (m as nat) / 10);
            assert((m % 10) as nat == (m as nat) % 10);
            assert(out@ =~= old(out)@ + dec_digits(m as nat));
        }
    }
}

/// Append the decimal rendering of `n` to `out`.
pub(crate) fn push_dec_i64(out: &mut Vec<u8>, n: i64)
    ensures
        final(out)@ == old(out)@ + dec_bytes(n as int),
{
    if n >= 0 {
        push_dec_u64(out, n as u64);
    } else {
        let ghost orig = out@;
        out.push(45u8);
        let wide: i128 = n as i128;
        let m: u64 = (-wide) as u64;
        proof {
            assert(0 < -wide <= u64::MAX);
        }
        push_dec_u64(out, m);
        proof {
            assert(m as nat == (-(n as int)) as nat);
            assert(out@ =~= orig + dec_bytes(n as int));
        }
    }
}

proof fn lemma_dec_digits_len_pos(n: nat)
    ensures
        dec_digits(n).len() >= 1,
    decreases n,
{
    if n >= 10 {
        lemma_dec_digits_len_pos(n / 10);
    }
}

proof fn lemma_dec_digits_first(n: nat)
    ensures
        48 <= dec_digits(n)[0] <= 57,
    decreases n,
{
    if n >= 10 {
        lemma_dec_digits_first(n / 10);
        lemma_dec_digits_len_pos(n / 10);
        assert(dec_digits(n)[0] == dec_digits(n / 10)[0]);
    }
}

/// Two different non-negative integers never share a decimal rendering.
proof fn lemma_dec_digits_injective(a: nat, b: nat)
    requires
        dec_digits(a) == dec_digits(b),
    ensures
        a == b,
    decreases a,
{
    lemma_dec_digits_len_pos(a);
    lemma_dec_digits_len_pos(b);
    if a < 10 && b < 10 {
        assert(dec_digits(a)[0] == 48 + a);
        assert(dec_digits(b)[0] == 48 + b);
    } else if a < 10 {
        lemma_dec_digits_len_pos(b / 10);
        assert(dec_digits(b).len() >= 2);
    } else if b < 10 {
        lemma_dec_digits_len_pos(a / 10);
        assert(dec_digits(a).len() >= 2);
    } else {
        assert(dec_digits(a).last() == 48 + a % 10);
        assert(dec_digits(b).last() == 48 + b % 10);
        assert(dec_digits(a).drop_last() =~= dec_digits(a / 10));
        assert(dec_digits(b).drop_last() =~= dec_digits(b / 10));
        lemma_dec_digits_injective(a / 10, b / 10);
    }
}

/// Two different integers never share a decimal rendering.
pub proof fn lemma_dec_bytes_injective(x: int, y: int)
    requires
        dec_bytes(x) == dec_bytes(y),
    ensures
        x == y,
{
    lemma_dec_digits_len_pos(if x >= 0 { x as nat } else { (-x) as nat });
    lemma_dec_digits_len_pos(if y >= 0 { y as nat } else { (-y) as nat });
    if x >= 0 && y >= 0 {
        lemma_dec_digits_injective(x as nat, y as nat);
    } else if x < 0 && y < 0 {
        assert(dec_bytes(x).drop_first() =~= dec_digits((-x) as nat));
        assert(dec_bytes(y).drop_first() =~= dec_digits((-y) as nat));
        lemma_dec_digits_injective((-x) as nat, (-y) as nat);
    } else if x >= 0 {
        lemma_dec_digits_first(x as nat);
        assert(dec_bytes(x)[0] == dec_digits(x as nat)[0]);
        assert(dec_bytes(y)[0] == 45);
    } else {
        lemma_dec_digits_first(y as nat);
        assert(dec_bytes(y)[0] == dec_digits(y as nat)[0]);
        assert(dec_bytes(x)[0] == 45);
    }
}

/// The bytes a decimal rendering can hold: the minus sign and the digits.
pub open spec fn is_dec_byte(b: u8) -> bool {
    b == 45 || (48 <= b && b <= 57)
}

proof fn lemma_dec_digits_range(n: nat)
    ensures
        forall|i: int| 0 <= i < dec_digits(n).len() ==> is_dec_byte(#[trigger] dec_digits(n)[i]),
    decreases n,
{
    if n >= 10 {
        lemma_dec_digits_range(n / 10);
        assert forall|i: int| 0 <= i < dec_digits(n).len() implies is_dec_byte(
            #[trigger] dec_digits(n)[i],
        ) by {
            if i < dec_digits(n).len() - 1 {
                assert(dec_digits(n)[i] == dec_digits(n / 10)[i]);
            } else {
                assert(dec_digits(n)[i] == 48 + n % 10);
            }
        }
    }
}

proof fn lemma_dec_bytes_range(x: int)
    ensures
        forall|i: int| 0 <= i < dec_bytes(x).len() ==> is_dec_byte(#[trigger] dec_bytes(x)[i]),
{
    if x >= 0 {
        lemma_dec_digits_range(x as nat);
    } else {
        lemma_dec_digits_range((-x) as nat);
        assert forall|i: int| 0 <= i < dec_bytes(x).len() implies is_dec_byte(
            #[trigger] dec_bytes(x)[i],
        ) by {
            if i > 0 {
                assert(dec_bytes(x)[i] == dec_digits((-x) as nat)[i - 1]);
            }
        }
    }
}

/// Strip one shared prefix from an equation of concatenations.
pub proof fn lemma_strip_prefix(p: Seq<u8>, x: Seq<u8>, y: Seq<u8>)
    requires
        p + x == p + y,
    ensures
        x == y,
{
    assert((p + x).len() == p.len() + x.len());
    assert((p + y).len() == p.len() + y.len());
    assert forall|k: int| 0 <= k < x.len() implies x[k] == y[k] by {
        assert((p + x)[p.len() + k] == x[k]);
        assert((p + y)[p.len() + k] == y[k]);
    }
    assert(x =~= y);
}

/// A decimal rendering that a non-decimal byte follows is read back
/// unambiguously: the renderings and the remainders agree.
pub proof fn lemma_dec_prefix(x: int, y: int, u: Seq<u8>, v: Seq<u8>)
    requires
        dec_bytes(x) + u == dec_bytes(y) + v,
        u.len() > 0,
        v.len() > 0,
        !is_dec_byte(u[0]),
        !is_dec_byte(v[0]),
    ensures
        x == y,
        u == v,
{
    let dx = dec_bytes(x);
    let dy = dec_bytes(y);
    lemma_dec_bytes_range(x);
    lemma_dec_bytes_range(y);
    assert((dx + u).len() == dx.len() + u.len());
    assert((dy + v).len() == dy.len() + v.len());
    if dx.len() < dy.len() {
        assert((dx + u)[dx.len() as int] == u[0]);
        assert((dy + v)[dx.len() as int] == dy[dx.len() as int]);
        assert(false);
    }
    if dy.len() < dx.len() {
        assert((dy + v)[dy.len() as int] == v[0]);
        assert((dx + u)[dy.len() as int] == dx[dy.len() as int]);
        assert(false);
    }
    assert forall|k: int| 0 <= k < dx.len() implies dx[k] == dy[k] by {
        assert((dx + u)[k] == dx[k]);
        assert((dy + v)[k] == dy[k]);
    }
    assert(dx =~= dy);
    lemma_dec_bytes_injective(x, y);
    lemma_strip_prefix(dx, u, v);
}

proof fn lemma_esc_byte_head(a: u8)
    ensures
        esc_byte(a).len() == 1 || esc_byte(a).len() == 2 || esc_byte(a).len() == 6,
        esc_byte(a)[0] != 34,
        esc_byte(a).len() == 1 ==> esc_byte(a)[0] == a && a != 92 && a != 34,
        esc_byte(a).len() >= 2 ==> esc_byte(a)[0] == 92,
{
}

/// One escaped byte is read back unambiguously from the escape stream.
proof fn lemma_esc_byte_unit(a: u8, b: u8, u: Seq<u8>, v: Seq<u8>)
    requires
        esc_byte(a) + u == esc_byte(b) + v,
    ensures
        a == b,
        u == v,
{
    let ea = esc_byte(a);
    let eb = esc_byte(b);
    lemma_esc_byte_head(a);
    lemma_esc_byte_head(b);
    assert((ea + u)[0] == ea[0]);
    assert((eb + v)[0] == eb[0]);
    if ea.len() == 1 || eb.len() == 1 {
        assert(a == b);
    } else {
        assert((ea + u)[1] == ea[1]);
        assert((eb + v)[1] == eb[1]);
        assert(ea[1] == eb[1]);
        if ea.len() == 6 && eb.len() == 6 {
            assert((ea + u)[4] == ea[4]);
            assert((eb + v)[4] == eb[4]);
            assert((ea + u)[5] == ea[5]);
            assert((eb + v)[5] == eb[5]);
            assert(hex_digit_byte(a / 16) == hex_digit_byte(b / 16));
            assert(hex_digit_byte(a % 16) == hex_digit_byte(b % 16));
            assert(a == b);
        } else {
            assert(a == b);
        }
    }
    lemma_strip_prefix(ea, u, v);
}

proof fn lemma_json_escape_unfold(x: Seq<u8>, t: Seq<u8>)
    requires
        x.len() > 0,
    ensures
        json_escape(x) + t == esc_byte(x[0]) + (json_escape(x.drop_first()) + t),
{
    assert(json_escape(x) + t =~= esc_byte(x[0]) + (json_escape(x.drop_first()) + t));
}

/// An escape stream closed by an unescaped quote is read back
/// unambiguously: the source bytes and the remainders agree.
proof fn lemma_esc_terminated(x: Seq<u8>, y: Seq<u8>, u: Seq<u8>, v: Seq<u8>)
    requires
        json_escape(x) + (seq![34u8] + u) == json_escape(y) + (seq![34u8] + v),
    ensures
        x == y,
        u == v,
    decreases x.len(),
{
    if x.len() == 0 && y.len() == 0 {
        lemma_strip_prefix(seq![34u8], u, v);
        assert(x =~= y);
    } else if x.len() == 0 {
        lemma_esc_byte_head(y[0]);
        lemma_json_escape_unfold(y, seq![34u8] + v);
        assert((json_escape(x) + (seq![34u8] + u))[0] == 34);
        assert((esc_byte(y[0]) + (json_escape(y.drop_first()) + (seq![34u8] + v)))[0]
            == esc_byte(y[0])[0]);
        assert(false);
    } else if y.len() == 0 {
        lemma_esc_byte_head(x[0]);
        lemma_json_escape_unfold(x, seq![34u8] + u);
        assert((json_escape(y) + (seq![34u8] + v))[0] == 34);
        assert((esc_byte(x[0]) + (json_escape(x.drop_first()) + (seq![34u8] + u)))[0]
            == esc_byte(x[0])[0]);
        assert(false);
    } else {
        lemma_json_escape_unfold(x, seq![34u8] + u);
        lemma_json_escape_unfold(y, seq![34u8] + v);
        lemma_esc_byte_unit(
            x[0],
            y[0],
            json_escape(x.drop_first()) + (seq![34u8] + u),
            json_escape(y.drop_first()) + (seq![34u8] + v),
        );
        lemma_esc_terminated(x.drop_first(), y.drop_first(), u, v);
        assert(x.len() == y.len());
        assert forall|k: int| 0 <= k < x.len() implies x[k] == y[k] by {
            if k > 0 {
                assert(x[k] == x.drop_first()[k - 1]);
                assert(y[k] == y.drop_first()[k - 1]);
            }
        }
        assert(x =~= y);
    }
}

/// A JSON string literal is read back unambiguously from a byte stream: the
/// source strings and the remainders agree.
pub proof fn lemma_json_string_prefix(s: Seq<char>, t: Seq<char>, u: Seq<u8>, v: Seq<u8>)
    requires
        json_string_bytes(s) + u == json_string_bytes(t) + v,
    ensures
        s == t,
        u == v,
{
    let es = vstd::utf8::encode_utf8(s);
    let et = vstd::utf8::encode_utf8(t);
    assert(json_string_bytes(s) + u =~= seq![34u8] + (json_escape(es) + (seq![34u8] + u)));
    assert(json_string_bytes(t) + v =~= seq![34u8] + (json_escape(et) + (seq![34u8] + v)));
    lemma_strip_prefix(
        seq![34u8],
        json_escape(es) + (seq![34u8] + u),
        json_escape(et) + (seq![34u8] + v),
    );
    lemma_esc_terminated(es, et, u, v);
    vstd::utf8::encode_utf8_decode_utf8(s);
    vstd::utf8::encode_utf8_decode_utf8(t);
}

/// Lower-case hex digit of a nibble value, as an ASCII byte.
pub open spec fn hex_digit_byte(n: u8) -> u8 {
    if n < 10 {
        (48 + n) as u8
    } else {
        (87 + n) as u8
    }
}

/// How one byte of a string appears inside a JSON string literal: quote and
/// backslash get a backslash escape, the named control characters get their
/// short escapes, the remaining control characters become `\u00` plus two
/// lower-case hex digits, and every other byte stands for itself.
pub open spec fn esc_byte(b: u8) -> Seq<u8> {
    if b == 34 {
        seq![92u8, 34u8]
    } else if b == 92 {
        seq![92u8, 92u8]
    } else if b == 8 {
        seq![92u8, 98u8]
    } else if b == 9 {
        seq![92u8, 116u8]
    } else if b == 10 {
        seq![92u8, 110u8]
    } else if b == 12 {
        seq![92u8, 102u8]
    } else if b == 13 {
        seq![92u8, 114u8]
    } else if b < 32 {
        seq![92u8, 117u8, 48u8, 48u8, hex_digit_byte(b / 16), hex_digit_byte(b % 16)]
    } else {
        seq![b]
    }
}

/// JSON escaping of a whole byte string.
pub open spec fn json_escape(bytes: Seq<u8>) -> Seq<u8>
    decreases bytes.len(),
{
    if bytes.len() == 0 {
        Seq::empty()
    } else {
        esc_byte(bytes[0]) + json_escape(bytes.drop_first())
    }
}

proof fn lemma_json_escape_push(s: Seq<u8>, b: u8)
    ensures
        json_escape(s.push(b)) == json_escape(s) + esc_byte(b),
    decreases s.len(),
{
    if s.len() == 0 {
        assert(s.push(b)[0] == b);
        assert(s.push(b).drop_first() =~= Seq::<u8>::empty());
        assert(json_escape(s.push(b)) == esc_byte(b) + json_escape(Seq::<u8>::empty()));
        assert(json_escape(s.push(b)) =~= json_escape(s) + esc_byte(b));
    } else {
        assert(s.push(b)[0] == s[0]);
        assert(s.push(b).drop_first() =~= s.drop_first().push(b));
        lemma_json_escape_push(s.drop_first(), b);
        assert(json_escape(s.push(b)) == esc_byte(s[0]) + (json_escape(s.drop_first()) + esc_byte(b)));
        assert(json_escape(s.push(b)) =~= json_escape(s) + esc_byte(b));
    }
}

/// The bytes of a string as it appears inside the canonical serialization: a
/// JSON string literal holding the UTF-8 bytes of the string, escaped.
pub open spec fn json_string_bytes(s: Seq<char>) -> Seq<u8> {
    seq![34u8] + json_escape(vstd::utf8::encode_utf8(s)) + seq![34u8]
}

fn push_esc_byte(out: &mut Vec<u8>, b: u8)
    ensures
        final(out)@ == old(out)@ + esc_byte(b),
{
    if b == 34 {
        out.push(92);
        out.push(34);
    } else if b == 92 {
        out.push(92);
        out.push(92);
    } else if b == 8 {
        out.push(92);
        out.push(98);
    } else if b == 9 {
        out.push(92);
        out.push(116);
    } else if b == 10 {
        out.push(92);
        out.push(110);
    } else if b == 12 {
        out.push(92);
        out.push(102);
    } else if b == 13 {
        out.push(92);
        out.push(114);
    } else if b < 32 {
        out.push(92);
        out.push(117);
        out.push(48);
        out.push(48);
        let hi = b / 16;
        let lo = b % 16;
        out.push(if hi < 10 { 48 + hi } else { 87 + hi });
        out.push(if lo < 10 { 48 + lo } else { 87 + lo });
    } else {
        out.push(b);
    }
    proof {
        assert(out@ =~= old(out)@ + esc_byte(b));
    }
}

/// Append the canonical JSON string literal for `s` to `out`.
pub(crate) fn push_json_string(out: &mut Vec<u8>, s: &str)
    ensures
        final(out)@ == old(out)@ + json_string_bytes(s@),
{
    let ghost orig = out@;
    let bytes: &[u8] = s.as_bytes();
    proof {
        assert(bytes@ == vstd::utf8::encode_utf8(s@));
    }
    out.push(34);
    let n: usize = bytes.len();
    let mut i: usize = 0;
    while i < n
        invariant
            i <= n,
            n == bytes@.len(),
            out@ == orig + seq![34u8] + json_escape(bytes@.take(i as int)),
        decreases n - i,
    {
        let b = bytes[i];
        push_esc_byte(out, b);
        proof {
            assert(bytes@.take(i as int).push(b) =~= bytes@.take(i + 1));
            lemma_json_escape_push(bytes@.take(i as int), b);
        }
        i = i + 1;
    }
    out.push(34);
    proof {
        assert(bytes@.take(n as int) =~= bytes@);
        assert(out@ =~= orig + json_string_bytes(s@));
    }
}

} // verus!
