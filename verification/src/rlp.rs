//! The recursive length-prefixed binary container format used by the
//! header-extra field: byte-strings and lists, each introduced by a tag byte
//! that carries or announces the payload length.
//!
//! A byte below 0x80 stands for itself; 0x80..=0xb7 introduce a short string,
//! 0xb8..=0xbf a long string whose big-endian length follows; 0xc0..=0xf7
//! introduce a short list payload, 0xf8..=0xff a long one. The parsers reject
//! non-canonical forms: a single byte below 0x80 wrapped in a string header,
//! a long form for a length of 55 or less, and a length with a leading zero
//! byte. Unsigned integers travel as minimal big-endian strings.
//!
//! Every parser has a specification-level twin, and the encoding lemmas prove
//! that parsing an encoded value at its position recovers it exactly.

use vstd::prelude::*;

verus! {

/// 256 to the power `k`: the number of values of a `k`-byte big-endian
/// string.
pub open spec fn pow256(k: nat) -> nat
    decreases k,
{
    if k == 0 {
        1
    } else {
        256 * pow256((k - 1) as nat)
    }
}

pub proof fn lemma_pow256_values()
    ensures
        pow256(0) == 1,
        pow256(1) == 0x100,
        pow256(2) == 0x10000,
        pow256(3) == 0x1000000,
        pow256(4) == 0x100000000,
        pow256(5) == 0x10000000000,
        pow256(6) == 0x1000000000000,
        pow256(7) == 0x100000000000000,
        pow256(8) == 0x10000000000000000,
{
    assert(pow256(0) == 1);
    assert(pow256(1) == 0x100);
    assert(pow256(2) == 0x10000);
    assert(pow256(3) == 0x1000000);
    assert(pow256(4) == 0x100000000);
    assert(pow256(5) == 0x10000000000);
    assert(pow256(6) == 0x1000000000000);
    assert(pow256(7) == 0x100000000000000);
    assert(pow256(8) == 0x10000000000000000);
}

pub proof fn lemma_pow256_mono(a: nat, b: nat)
    requires
        a <= b,
    ensures
        pow256(a) <= pow256(b),
    decreases b,
{
    if a < b && b > 0 {
        lemma_pow256_mono(a, (b - 1) as nat);
    }
}

/// The minimal big-endian representation of an unsigned integer: empty for
/// zero, and never with a leading zero byte.
pub open spec fn spec_be_bytes(n: nat) -> Seq<u8>
    decreases n,
{
    if n == 0 {
        Seq::empty()
    } else {
        spec_be_bytes(n / 256).push((n % 256) as u8)
    }
}

/// The unsigned integer denoted by a big-endian byte string.
pub open spec fn spec_be_value(s: Seq<u8>) -> nat
    decreases s.len(),
{
    if s.len() == 0 {
        0
    } else {
        spec_be_value(s.drop_last()) * 256 + s.last() as nat
    }
}

/// Law: the big-endian representation of any integer evaluates back to it,
/// is nonempty exactly for nonzero integers, and has no leading zero.
pub proof fn lemma_be_bytes_value(n: nat)
    ensures
        spec_be_value(spec_be_bytes(n)) == n,
        spec_be_bytes(n).len() == 0 <==> n == 0,
        n > 0 ==> spec_be_bytes(n)[0] != 0,
    decreases n,
{
    if n > 0 {
        lemma_be_bytes_value(n / 256);
        let prefix = spec_be_bytes(n / 256);
        let whole = prefix.push((n % 256) as u8);
        assert(whole.drop_last() =~= prefix);
        assert(whole.last() == (n % 256) as u8);
        assert(spec_be_value(whole) == (n / 256) * 256 + n % 256);
        if n / 256 > 0 {
            assert(whole[0] == prefix[0]);
        }
    }
}

/// An integer below `256^k` needs at most `k` big-endian bytes.
pub proof fn lemma_be_bytes_len(n: nat, k: nat)
    requires
        n < pow256(k),
    ensures
        spec_be_bytes(n).len() <= k,
    decreases k,
{
    if n > 0 {
        assert(k > 0);
        assert(n == 256 * (n / 256) + n % 256);
        assert(n / 256 < pow256((k - 1) as nat));
        lemma_be_bytes_len(n / 256, (k - 1) as nat);
    }
}

/// A `k`-byte big-endian string denotes an integer below `256^k`.
pub proof fn lemma_be_value_bound(s: Seq<u8>)
    ensures
        spec_be_value(s) < pow256(s.len()),
    decreases s.len(),
{
    if s.len() > 0 {
        lemma_be_value_bound(s.drop_last());
    }
}

/// Parse a byte-string item at position `i`: the string and the number of
/// bytes consumed, or nothing if the bytes there do not form a canonical
/// string item lying entirely inside `s`.
pub open spec fn spec_parse_string(s: Seq<u8>, i: int) -> Option<(Seq<u8>, int)> {
    if i < 0 || i >= s.len() {
        None
    } else {
        let b = s[i];
        if b < 0x80 {
            Some((seq![b], 1int))
        } else if b <= 0xb7 {
            let len = b as int - 0x80;
            if i + 1 + len <= s.len() {
                if len == 1 && s[i + 1] < 0x80 {
                    None
                } else {
                    Some((s.subrange(i + 1, i + 1 + len), 1 + len))
                }
            } else {
                None
            }
        } else if b <= 0xbf {
            let lol = b as int - 0xb7;
            if i + 1 + lol <= s.len() {
                let len = spec_be_value(s.subrange(i + 1, i + 1 + lol)) as int;
                if s[i + 1] != 0 && len > 55 && i + 1 + lol + len <= s.len() {
                    Some((s.subrange(i + 1 + lol, i + 1 + lol + len), 1 + lol + len))
                } else {
                    None
                }
            } else {
                None
            }
        } else {
            None
        }
    }
}

/// Parse a list header at position `i`: the payload length and the header
/// length, or nothing if the bytes there do not announce a canonical list
/// whose payload lies entirely inside `s`.
pub open spec fn spec_parse_list_header(s: Seq<u8>, i: int) -> Option<(int, int)> {
    if i < 0 || i >= s.len() {
        None
    } else {
        let b = s[i];
        if b < 0xc0 {
            None
        } else if b <= 0xf7 {
            let len = b as int - 0xc0;
            if i + 1 + len <= s.len() {
                Some((len, 1int))
            } else {
                None
            }
        } else {
            let lol = b as int - 0xf7;
            if i + 1 + lol <= s.len() {
                let len = spec_be_value(s.subrange(i + 1, i + 1 + lol)) as int;
                if s[i + 1] != 0 && len > 55 && i + 1 + lol + len <= s.len() {
                    Some((len, 1 + lol))
                } else {
                    None
                }
            } else {
                None
            }
        }
    }
}

/// Interpret a string payload as an unsigned integer of at most `width`
/// bytes: minimal big-endian, so a leading zero byte is rejected.
pub open spec fn spec_parse_scalar(s: Seq<u8>, width: int) -> Option<nat> {
    if s.len() <= width && (s.len() == 0 || s[0] != 0) {
        Some(spec_be_value(s))
    } else {
        None
    }
}

/// Parse a whole payload as a sequence of byte-string items, in order,
/// consuming it exactly.
pub open spec fn spec_parse_str_seq(s: Seq<u8>) -> Option<Seq<Seq<u8>>>
    decreases s.len(),
{
    if s.len() == 0 {
        Some(Seq::empty())
    } else {
        match spec_parse_string(s, 0) {
            None => None,
            Some((v, n)) => if 1 <= n <= s.len() {
                match spec_parse_str_seq(s.skip(n)) {
                    None => None,
                    Some(rest) => Some(seq![v] + rest),
                }
            } else {
                None
            },
        }
    }
}

/// The header introducing a payload of `len` bytes; `offset` is 0x80 for
/// strings and 0xc0 for lists.
pub open spec fn spec_len_header(len: nat, offset: u8) -> Seq<u8> {
    if len <= 55 {
        seq![(offset + len) as u8]
    } else {
        seq![(offset as nat + 55 + spec_be_bytes(len).len()) as u8] + spec_be_bytes(len)
    }
}

/// Encode a byte-string item.
pub open spec fn spec_enc_str(s: Seq<u8>) -> Seq<u8> {
    if s.len() == 1 && s[0] < 0x80 {
        s
    } else {
        spec_len_header(s.len(), 0x80) + s
    }
}

/// Encode a list item around an already encoded payload.
pub open spec fn spec_enc_list(payload: Seq<u8>) -> Seq<u8> {
    spec_len_header(payload.len(), 0xc0) + payload
}

/// Encode an unsigned integer as a minimal big-endian string item.
pub open spec fn spec_enc_scalar(n: nat) -> Seq<u8> {
    spec_enc_str(spec_be_bytes(n))
}

/// Encode a sequence of byte-strings as a concatenated payload.
pub open spec fn spec_enc_str_seq(xs: Seq<Seq<u8>>) -> Seq<u8>
    decreases xs.len(),
{
    if xs.len() == 0 {
        Seq::empty()
    } else {
        spec_enc_str(xs[0]) + spec_enc_str_seq(xs.skip(1))
    }
}

/// A string encoding adds at most nine bytes of framing.
pub proof fn lemma_enc_str_len(x: Seq<u8>)
    requires
        x.len() < pow256(8),
    ensures
        spec_enc_str(x).len() <= x.len() + 9,
        spec_enc_str(x).len() >= 1,
{
    if x.len() == 1 && x[0] < 0x80 {
    } else if x.len() <= 55 {
    } else {
        lemma_be_bytes_len(x.len(), 8);
    }
}

/// A list encoding adds at most nine bytes of framing.
pub proof fn lemma_enc_list_len(p: Seq<u8>)
    requires
        p.len() < pow256(8),
    ensures
        spec_enc_list(p).len() <= p.len() + 9,
{
    if p.len() > 55 {
        lemma_be_bytes_len(p.len(), 8);
    }
}

/// A scalar that fits eight bytes encodes into at most nine.
pub proof fn lemma_enc_scalar_len(n: nat)
    requires
        n < pow256(8),
    ensures
        spec_enc_scalar(n).len() <= 9,
        spec_enc_scalar(n).len() >= 1,
{
    lemma_be_bytes_len(n, 8);
    lemma_enc_str_len(spec_be_bytes(n));
}

/// A parsed string is no longer than the bytes it was parsed from.
pub proof fn lemma_parse_string_value_len(s: Seq<u8>, i: int)
    requires
        spec_parse_string(s, i) is Some,
    ensures
        spec_parse_string(s, i)->Some_0.0.len() <= spec_parse_string(s, i)->Some_0.1,
        i + spec_parse_string(s, i)->Some_0.1 <= s.len(),
        0 <= i,
{
}

/// Every string in a parsed sequence fits inside the payload it came from,
/// and re-encoding the whole sequence grows it by at most a factor of ten.
pub proof fn lemma_parse_str_seq_lens(p: Seq<u8>)
    requires
        p.len() < pow256(8),
        spec_parse_str_seq(p) is Some,
    ensures
        forall|j: int|
            0 <= j < spec_parse_str_seq(p)->Some_0.len() ==> (#[trigger] spec_parse_str_seq(
                p,
            )->Some_0[j]).len() <= p.len(),
        spec_enc_str_seq(spec_parse_str_seq(p)->Some_0).len() <= 10 * p.len(),
    decreases p.len(),
{
    let xs = spec_parse_str_seq(p)->Some_0;
    if p.len() == 0 {
        assert(xs =~= Seq::<Seq<u8>>::empty());
        assert(spec_enc_str_seq(xs).len() == 0);
    } else {
        let vn = spec_parse_string(p, 0)->Some_0;
        let v = vn.0;
        let n = vn.1;
        lemma_parse_string_value_len(p, 0);
        let rest = spec_parse_str_seq(p.skip(n))->Some_0;
        assert(xs == seq![v] + rest);
        lemma_parse_str_seq_lens(p.skip(n));
        lemma_enc_str_len(v);
        assert(spec_enc_str_seq(xs) == spec_enc_str(xs[0]) + spec_enc_str_seq(xs.skip(1)));
        assert(xs[0] == v);
        assert(xs.skip(1) =~= rest);
        assert(spec_enc_str(v).len() <= v.len() + 9 <= n + 9);
        assert(n >= 1);
        assert(spec_enc_str_seq(rest).len() <= 10 * (p.len() - n));
        assert forall|j: int| 0 <= j < xs.len() implies (#[trigger] xs[j]).len() <= p.len() by {
            if j > 0 {
                assert(xs[j] == rest[j - 1]);
            }
        }
    }
}

/// A parsed string item consumes at least one byte and stays in bounds.
pub proof fn lemma_parse_string_bounds(s: Seq<u8>, i: int)
    requires
        spec_parse_string(s, i) is Some,
    ensures
        1 <= spec_parse_string(s, i)->Some_0.1,
        i + spec_parse_string(s, i)->Some_0.1 <= s.len(),
{
}

/// Law: parsing at the position of an encoded string recovers the string
/// and consumes exactly its encoding.
pub proof fn lemma_parse_string_at(s: Seq<u8>, i: int, x: Seq<u8>)
    requires
        x.len() < pow256(8),
        0 <= i,
        i + spec_enc_str(x).len() <= s.len(),
        s.subrange(i, i + spec_enc_str(x).len() as int) == spec_enc_str(x),
    ensures
        spec_parse_string(s, i) == Some((x, spec_enc_str(x).len() as int)),
{
    let e = spec_enc_str(x);
    assert forall|k: int| 0 <= k < e.len() implies s[i + k] == e[k] by {
        assert(s.subrange(i, i + e.len() as int)[k] == s[i + k]);
    }
    if x.len() == 1 && x[0] < 0x80 {
        assert(s[i] == x[0]);
        assert(seq![s[i]] =~= x);
    } else if x.len() <= 55 {
        let h = spec_len_header(x.len(), 0x80);
        assert(e == h + x);
        assert(s[i] == e[0]);
        assert(e[0] == 0x80 + x.len());
        assert forall|k: int| 0 <= k < x.len() implies s[i + 1 + k] == x[k] by {
            assert(e[1 + k] == x[k]);
        }
        assert(s.subrange(i + 1, i + 1 + x.len() as int) =~= x);
        if x.len() == 1 {
            assert(s[i + 1] == x[0]);
        }
    } else {
        lemma_be_bytes_value(x.len());
        lemma_be_bytes_len(x.len(), 8);
        let lb = spec_be_bytes(x.len());
        let lol = lb.len() as int;
        assert(1 <= lol <= 8);
        let h = spec_len_header(x.len(), 0x80);
        assert(h == seq![(0x80 + 55 + lol) as u8] + lb);
        assert(e == h + x);
        assert(s[i] == e[0]);
        assert(e[0] == (0xb7 + lol) as u8);
        assert forall|k: int| 0 <= k < lol implies s[i + 1 + k] == lb[k] by {
            assert(e[1 + k] == (h + x)[1 + k]);
            assert(h[1 + k] == lb[k]);
        }
        assert(s.subrange(i + 1, i + 1 + lol) =~= lb);
        assert(s[i + 1] == lb[0]);
        assert(lb[0] != 0);
        assert forall|k: int| 0 <= k < x.len() implies s[i + 1 + lol + k] == x[k] by {
            assert(e[1 + lol + k] == x[k]);
        }
        assert(s.subrange(i + 1 + lol, i + 1 + lol + x.len() as int) =~= x);
    }
}

/// Law: parsing at the position of an encoded list header yields its
/// payload length and header length.
pub proof fn lemma_parse_list_header_at(s: Seq<u8>, i: int, plen: nat)
    requires
        plen < pow256(8),
        0 <= i,
        i + spec_len_header(plen, 0xc0).len() + plen <= s.len(),
        s.subrange(i, i + spec_len_header(plen, 0xc0).len() as int) == spec_len_header(plen, 0xc0),
    ensures
        spec_parse_list_header(s, i) == Some(
            (plen as int, spec_len_header(plen, 0xc0).len() as int),
        ),
{
    let h = spec_len_header(plen, 0xc0);
    assert forall|k: int| 0 <= k < h.len() implies s[i + k] == h[k] by {
        assert(s.subrange(i, i + h.len() as int)[k] == s[i + k]);
    }
    if plen <= 55 {
        assert(s[i] == h[0]);
        assert(h[0] == 0xc0 + plen);
    } else {
        lemma_be_bytes_value(plen);
        lemma_be_bytes_len(plen, 8);
        let lb = spec_be_bytes(plen);
        let lol = lb.len() as int;
        assert(1 <= lol <= 8);
        assert(s[i] == h[0]);
        assert(h[0] == (0xc0 + 55 + lol) as u8);
        assert forall|k: int| 0 <= k < lol implies s[i + 1 + k] == lb[k] by {
            assert(h[1 + k] == lb[k]);
        }
        assert(s.subrange(i + 1, i + 1 + lol) =~= lb);
        assert(s[i + 1] == lb[0]);
        assert(lb[0] != 0);
    }
}

/// Law: a scalar's minimal big-endian string parses back to it under any
/// width that accommodates it.
pub proof fn lemma_parse_scalar_of_enc(n: nat, width: nat)
    requires
        n < pow256(width),
    ensures
        spec_parse_scalar(spec_be_bytes(n), width as int) == Some(n),
{
    lemma_be_bytes_value(n);
    lemma_be_bytes_len(n, width);
}

/// Law: an encoded sequence of strings parses back to the sequence exactly.
pub proof fn lemma_parse_str_seq_of_enc(xs: Seq<Seq<u8>>)
    requires
        forall|j: int| 0 <= j < xs.len() ==> (#[trigger] xs[j]).len() < pow256(8),
    ensures
        spec_parse_str_seq(spec_enc_str_seq(xs)) == Some(xs),
    decreases xs.len(),
{
    let s = spec_enc_str_seq(xs);
    if xs.len() == 0 {
        assert(s =~= Seq::<u8>::empty());
        assert(Some(Seq::<Seq<u8>>::empty()) =~= Some(xs));
        assert(spec_parse_str_seq(s) == Some(Seq::<Seq<u8>>::empty()));
    } else {
        let e0 = spec_enc_str(xs[0]);
        let rest = spec_enc_str_seq(xs.skip(1));
        assert(s == e0 + rest);
        assert(e0.len() >= 1);
        assert(s.len() >= 1);
        assert(s.subrange(0, e0.len() as int) =~= e0);
        lemma_parse_string_at(s, 0, xs[0]);
        let n = e0.len() as int;
        assert(s.skip(n) =~= rest);
        assert(forall|j: int|
            0 <= j < xs.skip(1).len() ==> (#[trigger] xs.skip(1)[j]).len() < pow256(8));
        lemma_parse_str_seq_of_enc(xs.skip(1));
        assert(spec_parse_str_seq(s) == Some(seq![xs[0]] + xs.skip(1)));
        assert(seq![xs[0]] + xs.skip(1) =~= xs);
    }
}

/// Law: string parsing only looks at the bytes from `i` on, so parsing at
/// `i` equals parsing the suffix at its start.
pub proof fn lemma_parse_string_shift(s: Seq<u8>, i: int)
    requires
        0 <= i <= s.len(),
    ensures
        spec_parse_string(s, i) == spec_parse_string(s.skip(i), 0),
{
    let t = s.skip(i);
    if i < s.len() {
        let b = s[i];
        assert(t[0] == b);
        if b < 0x80 {
        } else if b <= 0xb7 {
            let len = b as int - 0x80;
            if i + 1 + len <= s.len() {
                assert(t.subrange(1, 1 + len) =~= s.subrange(i + 1, i + 1 + len));
                if len >= 1 {
                    assert(t[1] == s[i + 1]);
                }
            }
        } else if b <= 0xbf {
            let lol = b as int - 0xb7;
            if i + 1 + lol <= s.len() {
                assert(t.subrange(1, 1 + lol) =~= s.subrange(i + 1, i + 1 + lol));
                assert(t[1] == s[i + 1]);
                let len = spec_be_value(s.subrange(i + 1, i + 1 + lol)) as int;
                if s[i + 1] != 0 && len > 55 && i + 1 + lol + len <= s.len() {
                    assert(t.subrange(1 + lol, 1 + lol + len) =~= s.subrange(
                        i + 1 + lol,
                        i + 1 + lol + len,
                    ));
                }
            }
        }
    }
}

/// An owned copy of `buf[start .. start + len]`.
pub fn read_bytes(buf: &Vec<u8>, start: usize, len: usize) -> (r: Vec<u8>)
    requires
        start + len <= buf@.len(),
    ensures
        r@ == buf@.subrange(start as int, start as int + len as int),
{
    let total = buf.len();
    let mut r: Vec<u8> = Vec::new();
    let mut k: usize = 0;
    while k < len
        invariant
            total == buf@.len(),
            start + len <= buf@.len(),
            k <= len,
            r@ =~= buf@.subrange(start as int, start as int + k as int),
        decreases len - k,
    {
        let b = buf[start + k];
        proof {
            assert(buf@.subrange(start as int, start as int + k as int + 1) =~= buf@.subrange(
                start as int,
                start as int + k as int,
            ).push(buf@[start as int + k as int]));
        }
        r.push(b);
        k = k + 1;
    }
    r
}

/// The unsigned integer denoted by the big-endian bytes at
/// `buf[start .. start + len]`, for up to eight bytes.
fn read_be_u64(buf: &Vec<u8>, start: usize, len: usize) -> (val: u64)
    requires
        start + len <= buf@.len(),
        len <= 8,
    ensures
        val as nat == spec_be_value(buf@.subrange(start as int, start as int + len as int)),
{
    proof {
        lemma_pow256_values();
    }
    let total = buf.len();
    let mut val: u64 = 0;
    let mut k: usize = 0;
    while k < len
        invariant
            total == buf@.len(),
            start + len <= buf@.len(),
            len <= 8,
            k <= len,
            val as nat == spec_be_value(buf@.subrange(start as int, start as int + k as int)),
            (val as nat) < pow256(k as nat),
            pow256(8) == 0x10000000000000000,
        decreases len - k,
    {
        let b = buf[start + k];
        proof {
            let taken = buf@.subrange(start as int, start as int + k as int + 1);
            assert(taken.drop_last() =~= buf@.subrange(start as int, start as int + k as int));
            assert(taken.last() == buf@[start as int + k as int]);
            lemma_pow256_mono(k as nat + 1, 8);
        }
        val = val * 256 + (b as u64);
        k = k + 1;
    }
    val
}

/// Parse a byte-string item at position `i` of `buf`: the string and the
/// position just past it, exactly as the specification parser does.
pub fn parse_string(buf: &Vec<u8>, i: usize) -> (r: Option<(Vec<u8>, usize)>)
    ensures
        match spec_parse_string(buf@, i as int) {
            Some(vn) => r is Some && r->Some_0.0@ == vn.0 && r->Some_0.1 as int == i + vn.1,
            None => r is None,
        },
{
    if i >= buf.len() {
        return None;
    }
    let b = buf[i];
    if b < 0x80 {
        let mut v: Vec<u8> = Vec::new();
        v.push(b);
        proof {
            assert(v@ =~= seq![buf@[i as int]]);
        }
        Some((v, i + 1))
    } else if b <= 0xb7 {
        let len = (b - 0x80) as usize;
        if buf.len() - i - 1 < len {
            return None;
        }
        if len == 1 && buf[i + 1] < 0x80 {
            return None;
        }
        let v = read_bytes(buf, i + 1, len);
        Some((v, i + 1 + len))
    } else if b <= 0xbf {
        let lol = (b - 0xb7) as usize;
        if buf.len() - i - 1 < lol {
            return None;
        }
        let val = read_be_u64(buf, i + 1, lol);
        if buf[i + 1] == 0 {
            return None;
        }
        if val <= 55 {
            return None;
        }
        let rem = buf.len() - i - 1 - lol;
        if val > rem as u64 {
            return None;
        }
        let len = val as usize;
        let v = read_bytes(buf, i + 1 + lol, len);
        Some((v, i + 1 + lol + len))
    } else {
        None
    }
}

/// Parse a list header at position `i` of `buf`: the position where the
/// payload starts and the payload length, exactly as the specification
/// parser does.
pub fn parse_list_header(buf: &Vec<u8>, i: usize) -> (r: Option<(usize, usize)>)
    ensures
        match spec_parse_list_header(buf@, i as int) {
            Some(ph) => r is Some && r->Some_0.0 as int == i + ph.1 && r->Some_0.1 as int == ph.0,
            None => r is None,
        },
{
    if i >= buf.len() {
        return None;
    }
    let b = buf[i];
    if b < 0xc0 {
        None
    } else if b <= 0xf7 {
        let len = (b - 0xc0) as usize;
        if buf.len() - i - 1 < len {
            return None;
        }
        Some((i + 1, len))
    } else {
        let lol = (b - 0xf7) as usize;
        if buf.len() - i - 1 < lol {
            return None;
        }
        let val = read_be_u64(buf, i + 1, lol);
        if buf[i + 1] == 0 {
            return None;
        }
        if val <= 55 {
            return None;
        }
        let rem = buf.len() - i - 1 - lol;
        if val > rem as u64 {
            return None;
        }
        let len = val as usize;
        Some((i + 1 + lol, len))
    }
}

/// Interpret a string payload as an unsigned integer of at most `width`
/// bytes, exactly as the specification parser does.
pub fn parse_scalar(payload: &Vec<u8>, width: usize) -> (r: Option<u64>)
    requires
        width <= 8,
    ensures
        match spec_parse_scalar(payload@, width as int) {
            Some(n) => r is Some && r->Some_0 as nat == n,
            None => r is None,
        },
{
    if payload.len() > width {
        return None;
    }
    if payload.len() > 0 && payload[0] == 0 {
        return None;
    }
    proof {
        lemma_be_value_bound(payload@);
        lemma_pow256_mono(payload@.len(), 8);
        lemma_pow256_values();
        assert(payload@.subrange(0, payload@.len() as int) =~= payload@);
    }
    let val = read_be_u64(payload, 0, payload.len());
    Some(val)
}

/// Parse a whole payload as a sequence of byte-string items, exactly as the
/// specification parser does.
pub fn parse_str_list(payload: &Vec<u8>) -> (r: Option<Vec<Vec<u8>>>)
    ensures
        match spec_parse_str_seq(payload@) {
            Some(xs) => r is Some && r->Some_0.deep_view() == xs,
            None => r is None,
        },
{
    let mut out: Vec<Vec<u8>> = Vec::new();
    let mut i: usize = 0;
    proof {
        assert(payload@.skip(0) =~= payload@);
        assert(out.deep_view() =~= Seq::<Seq<u8>>::empty());
    }
    while i < payload.len()
        invariant
            i <= payload@.len(),
            match spec_parse_str_seq(payload@.skip(i as int)) {
                Some(rest) => spec_parse_str_seq(payload@) == Some(out.deep_view() + rest),
                None => spec_parse_str_seq(payload@) is None,
            },
        decreases payload@.len() - i,
    {
        let ghost ii = i as int;
        proof {
            lemma_parse_string_shift(payload@, ii);
        }
        match parse_string(payload, i) {
            None => {
                return None;
            },
            Some((v, next)) => {
                proof {
                    let suffix = payload@.skip(ii);
                    let vn = spec_parse_string(payload@, ii)->Some_0;
                    lemma_parse_string_bounds(payload@, ii);
                    assert(1 <= vn.1 && ii + vn.1 <= payload@.len());
                    assert(suffix.skip(vn.1) =~= payload@.skip(ii + vn.1));
                    let before = out.deep_view();
                    assert(spec_parse_str_seq(suffix) == (match spec_parse_str_seq(
                        suffix.skip(vn.1),
                    ) {
                        None => None,
                        Some(rest) => Some(seq![vn.0] + rest),
                    }));
                }
                let ghost before = out.deep_view();
                let ghost velems = v@;
                out.push(v);
                proof {
                    assert(out@[out@.len() - 1].deep_view() =~= velems);
                    assert(out.deep_view() =~= before.push(velems));
                    match spec_parse_str_seq(payload@.skip(next as int)) {
                        Some(rest) => {
                            assert(before + (seq![velems] + rest) =~= before.push(velems) + rest);
                        },
                        None => {},
                    }
                }
                i = next;
            },
        }
    }
    proof {
        assert(payload@.skip(i as int) =~= Seq::<u8>::empty());
        assert(spec_parse_str_seq(Seq::<u8>::empty()) == Some(Seq::<Seq<u8>>::empty()));
        assert(out.deep_view() + Seq::<Seq<u8>>::empty() =~= out.deep_view());
    }
    Some(out)
}

/// Append all of `src` to `out`.
pub fn push_all(out: &mut Vec<u8>, src: &Vec<u8>)
    ensures
        final(out)@ == old(out)@ + src@,
{
    let ghost base = out@;
    let mut k: usize = 0;
    proof {
        assert(base + src@.take(0) =~= base);
    }
    while k < src.len()
        invariant
            k <= src@.len(),
            out@ == base + src@.take(k as int),
        decreases src@.len() - k,
    {
        let b = src[k];
        proof {
            assert(base + src@.take(k as int + 1) =~= (base + src@.take(k as int)).push(
                src@[k as int],
            ));
        }
        out.push(b);
        k = k + 1;
    }
    proof {
        assert(src@.take(src@.len() as int) =~= src@);
    }
}

/// Append the minimal big-endian representation of `n` to `out`.
pub fn push_be_bytes(out: &mut Vec<u8>, n: u64)
    ensures
        final(out)@ == old(out)@ + spec_be_bytes(n as nat),
{
    let mut tmp: Vec<u8> = Vec::new();
    let mut m: u64 = n;
    while m > 0
        invariant
            m > 0 ==> spec_be_bytes(n as nat) == spec_be_bytes(m as nat) + tmp@.reverse(),
            m == 0 ==> spec_be_bytes(n as nat) == tmp@.reverse(),
        decreases m,
    {
        let d = (m % 256) as u8;
        proof {
            let old_rev = tmp@.reverse();
            let new_rev = tmp@.push(d).reverse();
            assert(new_rev =~= seq![d] + old_rev);
            assert(spec_be_bytes(m as nat) == spec_be_bytes((m as nat) / 256).push(
                ((m as nat) % 256) as u8,
            ));
            assert(spec_be_bytes((m as nat) / 256) + new_rev =~= spec_be_bytes(m as nat) + old_rev);
        }
        tmp.push(d);
        m = m / 256;
    }
    let ghost base = out@;
    let mut i: usize = tmp.len();
    while i > 0
        invariant
            i <= tmp@.len(),
            out@ =~= base + tmp@.reverse().take(tmp@.len() - i),
        decreases i,
    {
        i = i - 1;
        let b = tmp[i];
        proof {
            let rev = tmp@.reverse();
            let t = tmp@.len();
            assert(rev[t - 1 - i as int] == tmp@[i as int]);
            assert(base + rev.take(t - i as int) =~= (base + rev.take(t - 1 - i as int)).push(
                tmp@[i as int],
            ));
        }
        out.push(b);
    }
    proof {
        assert(tmp@.reverse().take(tmp@.len() as int) =~= tmp@.reverse());
    }
}

/// Append the header that introduces a payload of `len` bytes; `offset` is
/// 0x80 for strings and 0xc0 for lists.
pub fn push_len_header(out: &mut Vec<u8>, len: usize, offset: u8)
    requires
        offset == 0x80 || offset == 0xc0,
    ensures
        final(out)@ == old(out)@ + spec_len_header(len as nat, offset),
{
    if len <= 55 {
        let ghost base = out@;
        out.push(offset + len as u8);
        proof {
            assert(out@ =~= base + spec_len_header(len as nat, offset));
        }
    } else {
        proof {
            lemma_pow256_values();
            lemma_be_bytes_len(len as nat, 8);
            lemma_be_bytes_value(len as nat);
        }
        let mut lb: Vec<u8> = Vec::new();
        push_be_bytes(&mut lb, len as u64);
        let ghost base = out@;
        out.push(offset + 55 + lb.len() as u8);
        push_all(out, &lb);
        proof {
            assert(out@ =~= base + spec_len_header(len as nat, offset));
        }
    }
}

/// Append the encoding of a byte-string item.
pub fn push_enc_str(out: &mut Vec<u8>, s: &Vec<u8>)
    ensures
        final(out)@ == old(out)@ + spec_enc_str(s@),
{
    if s.len() == 1 && s[0] < 0x80 {
        let ghost base = out@;
        out.push(s[0]);
        proof {
            assert(out@ =~= base + s@);
        }
    } else {
        let ghost base = out@;
        push_len_header(out, s.len(), 0x80);
        push_all(out, s);
        proof {
            assert(out@ =~= base + (spec_len_header(s@.len(), 0x80) + s@));
        }
    }
}

/// Append the encoding of an unsigned integer item.
pub fn push_enc_scalar(out: &mut Vec<u8>, n: u64)
    ensures
        final(out)@ == old(out)@ + spec_enc_scalar(n as nat),
{
    let mut tmp: Vec<u8> = Vec::new();
    push_be_bytes(&mut tmp, n);
    push_enc_str(out, &tmp);
}

/// Append the encoding of a list item around an already encoded payload.
pub fn push_enc_list(out: &mut Vec<u8>, payload: &Vec<u8>)
    ensures
        final(out)@ == old(out)@ + spec_enc_list(payload@),
{
    let ghost base = out@;
    push_len_header(out, payload.len(), 0xc0);
    push_all(out, payload);
    proof {
        assert(out@ =~= base + (spec_len_header(payload@.len(), 0xc0) + payload@));
    }
}

/// The concatenated encodings of a sequence of byte-strings, ready to be
/// wrapped in a list header.
pub fn enc_str_list_payload(items: &Vec<Vec<u8>>) -> (r: Vec<u8>)
    ensures
        r@ == spec_enc_str_seq(items.deep_view()),
{
    let ghost dv = items.deep_view();
    let mut r: Vec<u8> = Vec::new();
    let mut j: usize = 0;
    proof {
        assert(dv.skip(0) =~= dv);
        assert(r@ + spec_enc_str_seq(dv) =~= spec_enc_str_seq(dv));
    }
    while j < items.len()
        invariant
            dv == items.deep_view(),
            dv.len() == items@.len(),
            j <= items@.len(),
            r@ + spec_enc_str_seq(dv.skip(j as int)) == spec_enc_str_seq(dv),
        decreases items@.len() - j,
    {
        let ghost jj = j as int;
        proof {
            assert(items@[jj].deep_view() =~= items@[jj]@);
            assert(dv.skip(jj)[0] == dv[jj]);
            assert(dv.skip(jj).skip(1) =~= dv.skip(jj + 1));
            assert(spec_enc_str_seq(dv.skip(jj)) == spec_enc_str(dv[jj]) + spec_enc_str_seq(
                dv.skip(jj + 1),
            ));
        }
        let ghost before = r@;
        push_enc_str(&mut r, &items[j]);
        proof {
            assert(r@ + spec_enc_str_seq(dv.skip(jj + 1)) =~= before + (spec_enc_str(dv[jj])
                + spec_enc_str_seq(dv.skip(jj + 1))));
        }
        j = j + 1;
    }
    proof {
        assert(spec_enc_str_seq(dv.skip(j as int)) =~= Seq::<u8>::empty());
        assert(r@ + Seq::<u8>::empty() =~= r@);
    }
    r
}

} // verus!
