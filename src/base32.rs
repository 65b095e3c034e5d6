//! The label alphabet: five payload bytes become eight symbols `a`-`z`, `2`-`7`.
//! Decoding ignores letter case, since resolvers may change it.

use vstd::prelude::*;

verus! {

/// Number of symbols that encode `n` bytes.
pub open spec fn enc_len(n: nat) -> nat {
    (8 * n + 4) / 5
}

/// Number of bytes that `m` symbols decode to.
pub open spec fn dec_len(m: nat) -> nat {
    (5 * m) / 8
}

/// Byte `i` of `p`, or zero past its end.
pub open spec fn byte_at(p: Seq<u8>, i: int) -> u8 {
    if 0 <= i < p.len() {
        p[i]
    } else {
        0
    }
}

/// Five-bit value `t` (0..8) of a group of five bytes.
pub open spec fn group_sym(b0: u8, b1: u8, b2: u8, b3: u8, b4: u8, t: int) -> u8 {
    if t == 0 {
        b0 >> 3u8
    } else if t == 1 {
        ((b0 & 7u8) << 2u8) | (b1 >> 6u8)
    } else if t == 2 {
        (b1 >> 1u8) & 31u8
    } else if t == 3 {
        ((b1 & 1u8) << 4u8) | (b2 >> 4u8)
    } else if t == 4 {
        ((b2 & 15u8) << 1u8) | (b3 >> 7u8)
    } else if t == 5 {
        (b3 >> 2u8) & 31u8
    } else if t == 6 {
        ((b3 & 3u8) << 3u8) | (b4 >> 5u8)
    } else {
        b4 & 31u8
    }
}

/// Byte `t` (0..5) of a group from its eight five-bit values.
pub open spec fn group_byte(v0: u8, v1: u8, v2: u8, v3: u8, v4: u8, v5: u8, v6: u8, v7: u8, t: int) -> u8 {
    if t == 0 {
        (v0 << 3u8) | (v1 >> 2u8)
    } else if t == 1 {
        ((v1 & 3u8) << 6u8) | (v2 << 1u8) | (v3 >> 4u8)
    } else if t == 2 {
        ((v3 & 15u8) << 4u8) | (v4 >> 1u8)
    } else if t == 3 {
        ((v4 & 1u8) << 7u8) | (v5 << 2u8) | (v6 >> 3u8)
    } else {
        ((v6 & 7u8) << 5u8) | v7
    }
}

/// Five-bit value `j` of the encoding of `p`.
pub open spec fn sym_of(p: Seq<u8>, j: int) -> u8 {
    let g = 5 * (j / 8);
    group_sym(
        byte_at(p, g),
        byte_at(p, g + 1),
        byte_at(p, g + 2),
        byte_at(p, g + 3),
        byte_at(p, g + 4),
        j % 8,
    )
}

pub open spec fn alphabet(v: u8) -> u8 {
    if v < 26 {
        (97 + v) as u8
    } else {
        (50 + v - 26) as u8
    }
}

/// The five-bit value of a symbol, in either case.
pub open spec fn sym_value(c: u8) -> Option<u8> {
    if 97 <= c <= 122 {
        Some((c - 97) as u8)
    } else if 65 <= c <= 90 {
        Some((c - 65) as u8)
    } else if 50 <= c <= 55 {
        Some((c - 50 + 26) as u8)
    } else {
        None
    }
}

/// The symbols that encode `p`.
pub open spec fn encoded(p: Seq<u8>) -> Seq<u8> {
    Seq::new(enc_len(p.len()), |j: int| alphabet(sym_of(p, j)))
}

/// Value of symbol `j` of `s`, or zero past its end.
pub open spec fn val_at(s: Seq<u8>, j: int) -> u8 {
    if 0 <= j < s.len() {
        sym_value(s[j]).unwrap_or(0)
    } else {
        0
    }
}

/// Byte `k` of what `s` decodes to.
pub open spec fn byte_of(s: Seq<u8>, k: int) -> u8 {
    let g = 8 * (k / 5);
    group_byte(
        val_at(s, g),
        val_at(s, g + 1),
        val_at(s, g + 2),
        val_at(s, g + 3),
        val_at(s, g + 4),
        val_at(s, g + 5),
        val_at(s, g + 6),
        val_at(s, g + 7),
        k % 5,
    )
}

/// `s` is a whole encoding: every symbol is in the alphabet and its length
/// is one that some byte count encodes to.
pub open spec fn well_formed(s: Seq<u8>) -> bool {
    &&& forall|j: int| 0 <= j < s.len() ==> (#[trigger] sym_value(s[j])) is Some
    &&& enc_len(dec_len(s.len())) == s.len()
}

/// The bytes that `s` encodes, or `None`.
pub open spec fn decoded(s: Seq<u8>) -> Option<Seq<u8>> {
    if well_formed(s) {
        Some(Seq::new(dec_len(s.len()), |k: int| byte_of(s, k)))
    } else {
        None
    }
}


proof fn lemma_group_round_trip(
    b0: u8,
    b1: u8,
    b2: u8,
    b3: u8,
    b4: u8,
    x0: u8,
    x1: u8,
    x2: u8,
    x3: u8,
    x4: u8,
    x5: u8,
    x6: u8,
    x7: u8,
)
    by (bit_vector)
    ensures
        group_byte(group_sym(b0, b1, b2, b3, b4, 0), group_sym(b0, b1, b2, b3, b4, 1), x2, x3, x4, x5, x6, x7, 0) == b0,
        group_byte(x0, group_sym(b0, b1, b2, b3, b4, 1), group_sym(b0, b1, b2, b3, b4, 2), group_sym(b0, b1, b2, b3, b4, 3), x4, x5, x6, x7, 1) == b1,
        group_byte(x0, x1, x2, group_sym(b0, b1, b2, b3, b4, 3), group_sym(b0, b1, b2, b3, b4, 4), x5, x6, x7, 2) == b2,
        group_byte(x0, x1, x2, x3, group_sym(b0, b1, b2, b3, b4, 4), group_sym(b0, b1, b2, b3, b4, 5), group_sym(b0, b1, b2, b3, b4, 6), x7, 3) == b3,
        group_byte(x0, x1, x2, x3, x4, x5, group_sym(b0, b1, b2, b3, b4, 6), group_sym(b0, b1, b2, b3, b4, 7), 4) == b4,
{
}

proof fn lemma_group_sym_small(b0: u8, b1: u8, b2: u8, b3: u8, b4: u8, t: int)
    ensures
        group_sym(b0, b1, b2, b3, b4, t) < 32,
{
    assert(b0 >> 3u8 < 32) by (bit_vector);
    assert(((b0 & 7u8) << 2u8) | (b1 >> 6u8) < 32) by (bit_vector);
    assert((b1 >> 1u8) & 31u8 < 32) by (bit_vector);
    assert(((b1 & 1u8) << 4u8) | (b2 >> 4u8) < 32) by (bit_vector);
    assert(((b2 & 15u8) << 1u8) | (b3 >> 7u8) < 32) by (bit_vector);
    assert((b3 >> 2u8) & 31u8 < 32) by (bit_vector);
    assert(((b3 & 3u8) << 3u8) | (b4 >> 5u8) < 32) by (bit_vector);
    assert(b4 & 31u8 < 32) by (bit_vector);
}

proof fn lemma_lengths(n: nat)
    ensures
        dec_len(enc_len(n)) == n,
        enc_len(n) >= 8 * (n / 5),
        n % 5 == 1 ==> enc_len(n) == 8 * (n / 5) + 2,
        n % 5 == 2 ==> enc_len(n) == 8 * (n / 5) + 4,
        n % 5 == 3 ==> enc_len(n) == 8 * (n / 5) + 5,
        n % 5 == 4 ==> enc_len(n) == 8 * (n / 5) + 7,
        n % 5 == 0 ==> enc_len(n) == 8 * (n / 5),
{
}

/// Decoding an encoding gives back the bytes.
pub proof fn lemma_round_trip(p: Seq<u8>)
    ensures
        decoded(encoded(p)) == Some(p),
{
    let e = encoded(p);
    let n = p.len();
    lemma_lengths(n);
    assert forall|j: int| 0 <= j < e.len() implies (#[trigger] sym_value(e[j])) == Some(
        sym_of(p, j),
    ) by {
        let g = 5 * (j / 8);
        lemma_group_sym_small(
            byte_at(p, g),
            byte_at(p, g + 1),
            byte_at(p, g + 2),
            byte_at(p, g + 3),
            byte_at(p, g + 4),
            j % 8,
        );
    }
    assert(well_formed(e));
    let d = decoded(e).unwrap();
    assert forall|k: int| 0 <= k < n implies #[trigger] d[k] == p[k] by {
        let q = k / 5;
        let g = 8 * q;
        let b = 5 * q;
        lemma_lengths(k as nat + 1);
        assert(enc_len(n) >= enc_len(k as nat + 1));
        assert forall|i: int| 0 <= i < 8 implies (#[trigger] ((g + i) / 8)) == q && (g + i) % 8
            == i by {}
        assert forall|i: int| 0 <= i < 8 && g + i < e.len() implies #[trigger] val_at(e, g + i)
            == group_sym(
            byte_at(p, b),
            byte_at(p, b + 1),
            byte_at(p, b + 2),
            byte_at(p, b + 3),
            byte_at(p, b + 4),
            i,
        ) by {
            assert((g + i) / 8 == q && (g + i) % 8 == i);
        }
        lemma_group_round_trip(
            byte_at(p, b),
            byte_at(p, b + 1),
            byte_at(p, b + 2),
            byte_at(p, b + 3),
            byte_at(p, b + 4),
            val_at(e, g),
            val_at(e, g + 1),
            val_at(e, g + 2),
            val_at(e, g + 3),
            val_at(e, g + 4),
            val_at(e, g + 5),
            val_at(e, g + 6),
            val_at(e, g + 7),
        );
        assert(k == b + k % 5);
    }
    assert(d =~= p);
}


fn sym_exec(b0: u8, b1: u8, b2: u8, b3: u8, b4: u8, t: usize) -> (r: u8)
    requires
        t < 8,
    ensures
        r == group_sym(b0, b1, b2, b3, b4, t as int),
{
    if t == 0 {
        b0 >> 3u8
    } else if t == 1 {
        ((b0 & 7u8) << 2u8) | (b1 >> 6u8)
    } else if t == 2 {
        (b1 >> 1u8) & 31u8
    } else if t == 3 {
        ((b1 & 1u8) << 4u8) | (b2 >> 4u8)
    } else if t == 4 {
        ((b2 & 15u8) << 1u8) | (b3 >> 7u8)
    } else if t == 5 {
        (b3 >> 2u8) & 31u8
    } else if t == 6 {
        ((b3 & 3u8) << 3u8) | (b4 >> 5u8)
    } else {
        b4 & 31u8
    }
}

fn byte_exec(v0: u8, v1: u8, v2: u8, v3: u8, v4: u8, v5: u8, v6: u8, v7: u8, t: usize) -> (r: u8)
    requires
        t < 5,
    ensures
        r == group_byte(v0, v1, v2, v3, v4, v5, v6, v7, t as int),
{
    if t == 0 {
        (v0 << 3u8) | (v1 >> 2u8)
    } else if t == 1 {
        ((v1 & 3u8) << 6u8) | (v2 << 1u8) | (v3 >> 4u8)
    } else if t == 2 {
        ((v3 & 15u8) << 4u8) | (v4 >> 1u8)
    } else if t == 3 {
        ((v4 & 1u8) << 7u8) | (v5 << 2u8) | (v6 >> 3u8)
    } else {
        ((v6 & 7u8) << 5u8) | v7
    }
}

fn get_or_zero(p: &[u8], i: usize) -> (r: u8)
    ensures
        r == byte_at(p@, i as int),
{
    if i < p.len() {
        p[i]
    } else {
        0
    }
}

fn value_of(c: u8) -> (r: Option<u8>)
    ensures
        r == sym_value(c),
{
    if 97 <= c && c <= 122 {
        Some(c - 97)
    } else if 65 <= c && c <= 90 {
        Some(c - 65)
    } else if 50 <= c && c <= 55 {
        Some(c - 50 + 26)
    } else {
        None
    }
}

fn val_or_zero(s: &[u8], j: usize) -> (r: u8)
    ensures
        r == val_at(s@, j as int),
{
    if j < s.len() {
        match value_of(s[j]) {
            Some(v) => v,
            None => 0,
        }
    } else {
        0
    }
}

/// Encodes `p` in the label alphabet.
pub fn encode(p: &[u8]) -> (r: Vec<u8>)
    requires
        p@.len() <= usize::MAX / 8,
    ensures
        r@ == encoded(p@),
{
    let m = (8 * p.len() + 4) / 5;
    let mut r: Vec<u8> = Vec::with_capacity(m);
    let mut j: usize = 0;
    while j < m
        invariant
            m == enc_len(p@.len()),
            j <= m,
            r@ =~= encoded(p@).subrange(0, j as int),
            m <= usize::MAX / 4,
        decreases m - j,
    {
        let g = 5 * (j / 8);
        let v = sym_exec(
            get_or_zero(p, g),
            get_or_zero(p, g + 1),
            get_or_zero(p, g + 2),
            get_or_zero(p, g + 3),
            get_or_zero(p, g + 4),
            j % 8,
        );
        proof {
            lemma_group_sym_small(
                byte_at(p@, g as int),
                byte_at(p@, g + 1),
                byte_at(p@, g + 2),
                byte_at(p@, g + 3),
                byte_at(p@, g + 4),
                j as int % 8,
            );
        }
        let c = if v < 26 {
            97 + v
        } else {
            50 + v - 26
        };
        r.push(c);
        j += 1;
    }
    r
}

/// Decodes symbols of the label alphabet, in either case; `None` when a
/// symbol is outside the alphabet or the length is not that of an encoding.
pub fn decode(s: &[u8]) -> (r: Option<Vec<u8>>)
    requires
        s@.len() <= usize::MAX / 8,
    ensures
        match decoded(s@) {
            Some(d) => r matches Some(v) && v@ == d,
            None => r is None,
        },
{
    let m = s.len();
    let mut j: usize = 0;
    while j < m
        invariant
            m == s@.len(),
            j <= m,
            forall|i: int| 0 <= i < j ==> (#[trigger] sym_value(s@[i])) is Some,
        decreases m - j,
    {
        if value_of(s[j]).is_none() {
            return None;
        }
        j += 1;
    }
    let n = (5 * m) / 8;
    if (8 * n + 4) / 5 != m {
        return None;
    }
    let mut r: Vec<u8> = Vec::with_capacity(n);
    let mut k: usize = 0;
    while k < n
        invariant
            n == dec_len(m as nat),
            m == s@.len(),
            m <= usize::MAX / 8,
            k <= n,
            well_formed(s@),
            r@ =~= decoded(s@).unwrap().subrange(0, k as int),
        decreases n - k,
    {
        let g = 8 * (k / 5);
        let b = byte_exec(
            val_or_zero(s, g),
            val_or_zero(s, g + 1),
            val_or_zero(s, g + 2),
            val_or_zero(s, g + 3),
            val_or_zero(s, g + 4),
            val_or_zero(s, g + 5),
            val_or_zero(s, g + 6),
            val_or_zero(s, g + 7),
            k % 5,
        );
        r.push(b);
        k += 1;
    }
    Some(r)
}

} // verus!
