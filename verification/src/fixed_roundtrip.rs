use vstd::prelude::*;

use crate::deflate_encode::{
    first_range, fixed_block_bits, fixed_code_len, fixed_symbol_bits, in_range, lemma_first_range_found,
    lemma_lsb_first_bits_value, lemma_match_codes_cover, lemma_packed_bits_read_back, lemma_packed_field_reads_back,
    lsb_first_bits, lsb_value, lz_expand, match_bits, msb_first_bits, packed_lsb, tokens_bits, tokens_valid, LzToken,
};
use crate::inflate::{
    block_walk, canonical_symbols, capacity_error, copy_out, count_len, distance_base_table, distance_extra_table,
    fixed_distance_lengths, fixed_literal_lengths, huff_decode, huff_walk, inflate_walk, kraft_ok, length_base_table,
    length_counts, length_extra_table, lsb_bit, lsb_bits, max_len, read_field, spec_fixed_tables, spec_huffman,
    spec_inflate, symbols_of_len, HuffTable,
};
use vstd::arithmetic::power2::pow2;

verus! {

/// The symbols with fixed literal/length code length `l` among the first `n`.
pub open spec fn fixed_lit_symbols(n: nat, l: nat) -> Seq<u16> {
    if l == 8 {
        Seq::new(if n < 144 { n } else { 144 }, |i: int| i as u16) + Seq::new(
            if n > 280 { (n - 280) as nat } else { 0 },
            |i: int| (280 + i) as u16,
        )
    } else if l == 9 {
        Seq::new(if n <= 144 { 0 } else if n < 256 { (n - 144) as nat } else { 112 }, |i: int| (144 + i) as u16)
    } else if l == 7 {
        Seq::new(if n <= 256 { 0 } else if n < 280 { (n - 256) as nat } else { 24 }, |i: int| (256 + i) as u16)
    } else {
        Seq::empty()
    }
}

proof fn lemma_fixed_lit_symbols(n: nat, l: nat)
    requires
        n <= 288,
    ensures
        symbols_of_len(fixed_literal_lengths(), n, l) == fixed_lit_symbols(n, l),
    decreases n,
{
    if n > 0 {
        lemma_fixed_lit_symbols((n - 1) as nat, l);
        assert(symbols_of_len(fixed_literal_lengths(), n, l) =~= fixed_lit_symbols(n, l));
    }
}

proof fn lemma_count_is_symbols(lengths: Seq<u8>, n: nat, l: nat)
    ensures
        count_len(lengths, n, l) == symbols_of_len(lengths, n, l).len(),
    decreases n,
{
    if n > 0 {
        lemma_count_is_symbols(lengths, (n - 1) as nat, l);
    }
}

proof fn lemma_fixed_lit_max(n: nat)
    requires
        n <= 288,
    ensures
        max_len(fixed_literal_lengths(), n) == if n == 0 { 0nat } else if n <= 144 { 8nat } else { 9nat },
    decreases n,
{
    if n > 0 {
        lemma_fixed_lit_max((n - 1) as nat);
    }
}

/// The fixed literal/length symbols in canonical order: the 24 of length 7
/// (256..279), the 152 of length 8 (0..143, 280..287), the 112 of length 9
/// (144..255).
pub open spec fn fixed_lit_order() -> Seq<u16> {
    Seq::new(288, |i: int| if i < 24 { (256 + i) as u16 } else if i < 168 { (i - 24) as u16 } else if i < 176 {
        (280 + i - 168) as u16
    } else {
        (144 + i - 176) as u16
    })
}

/// The fixed literal/length table.
pub open spec fn fixed_lit_table() -> HuffTable {
    HuffTable { counts: length_counts(fixed_literal_lengths()), symbols: fixed_lit_order(), max_bits: 9 }
}

/// The fixed distance table: 32 codes of five bits.
pub open spec fn fixed_dist_table() -> HuffTable {
    HuffTable { counts: length_counts(fixed_distance_lengths()), symbols: Seq::new(32, |i: int| i as u16), max_bits: 5 }
}

proof fn lemma_fixed_lit_counts()
    ensures
        forall|l: nat| 1 <= l <= 15 ==> #[trigger] count_len(fixed_literal_lengths(), 288, l) == fixed_lit_symbols(288, l).len(),
        length_counts(fixed_literal_lengths())[7] == 24,
        length_counts(fixed_literal_lengths())[8] == 152,
        length_counts(fixed_literal_lengths())[9] == 112,
        forall|l: int| 1 <= l <= 15 && l != 7 && l != 8 && l != 9 ==> #[trigger] length_counts(fixed_literal_lengths())[l] == 0,
{
    assert forall|l: nat| 1 <= l <= 15 implies #[trigger] count_len(fixed_literal_lengths(), 288, l) == fixed_lit_symbols(288, l).len() by {
        lemma_count_is_symbols(fixed_literal_lengths(), 288, l);
        lemma_fixed_lit_symbols(288, l);
    }
    assert(count_len(fixed_literal_lengths(), 288, 7) == 24);
    assert(count_len(fixed_literal_lengths(), 288, 8) == 152);
    assert(count_len(fixed_literal_lengths(), 288, 9) == 112);
    assert forall|l: int| 1 <= l <= 15 && l != 7 && l != 8 && l != 9 implies #[trigger] length_counts(fixed_literal_lengths())[l] == 0 by {
        assert(count_len(fixed_literal_lengths(), 288, l as nat) == fixed_lit_symbols(288, l as nat).len());
    }
}

/// The canonical order of the fixed literal/length symbols with code
/// lengths `1..=l`.
pub open spec fn fixed_lit_canonical(l: nat) -> Seq<u16> {
    (if l >= 7 { fixed_lit_symbols(288, 7) } else { Seq::empty() }) + (if l >= 8 { fixed_lit_symbols(288, 8) } else {
        Seq::empty()
    }) + (if l >= 9 { fixed_lit_symbols(288, 9) } else { Seq::empty() })
}

proof fn lemma_fixed_lit_canonical(l: nat)
    requires
        l <= 15,
    ensures
        canonical_symbols(fixed_literal_lengths(), l) == fixed_lit_canonical(l),
    decreases l,
{
    if l > 0 {
        lemma_fixed_lit_canonical((l - 1) as nat);
        lemma_fixed_lit_symbols(288, l);
        assert(canonical_symbols(fixed_literal_lengths(), l) =~= fixed_lit_canonical(l));
    }
}

/// The fixed literal/length code lengths give the fixed literal table.
pub proof fn lemma_fixed_lit_table()
    ensures
        spec_huffman(fixed_literal_lengths()) == Ok::<HuffTable, crate::error::ErrorKind>(fixed_lit_table()),
{
    let fl = fixed_literal_lengths();
    lemma_fixed_lit_counts();
    lemma_fixed_lit_max(288);
    lemma_fixed_lit_canonical(15);
    assert(fixed_lit_canonical(15) =~= fixed_lit_order());
    assert(!(exists|i: int| 0 <= i < fl.len() && #[trigger] fl[i] > 15));
    let c = length_counts(fl);
    assert(c[1] == 0 && c[2] == 0 && c[3] == 0 && c[4] == 0 && c[5] == 0 && c[6] == 0);
    assert(c[10] == 0 && c[11] == 0 && c[12] == 0 && c[13] == 0 && c[14] == 0 && c[15] == 0);
    reveal_with_fuel(kraft_ok, 16);
    assert(kraft_ok(c, 1, 1));
}

proof fn lemma_fixed_dist_symbols(n: nat, l: nat)
    requires
        n <= 32,
    ensures
        symbols_of_len(fixed_distance_lengths(), n, l) == if l == 5 { Seq::new(n, |i: int| i as u16) } else {
            Seq::<u16>::empty()
        },
        max_len(fixed_distance_lengths(), n) == if n == 0 { 0nat } else { 5nat },
    decreases n,
{
    if n > 0 {
        lemma_fixed_dist_symbols((n - 1) as nat, l);
        assert(symbols_of_len(fixed_distance_lengths(), n, l) =~= if l == 5 { Seq::new(n, |i: int| i as u16) } else {
            Seq::<u16>::empty()
        });
    }
}

proof fn lemma_fixed_dist_canonical(l: nat)
    requires
        l <= 15,
    ensures
        canonical_symbols(fixed_distance_lengths(), l) == if l >= 5 { Seq::new(32, |i: int| i as u16) } else {
            Seq::<u16>::empty()
        },
    decreases l,
{
    if l > 0 {
        lemma_fixed_dist_canonical((l - 1) as nat);
        lemma_fixed_dist_symbols(32, l);
        assert(canonical_symbols(fixed_distance_lengths(), l) =~= if l >= 5 { Seq::new(32, |i: int| i as u16) } else {
            Seq::<u16>::empty()
        });
    }
}

/// The fixed distance code lengths give the fixed distance table.
pub proof fn lemma_fixed_dist_table()
    ensures
        spec_huffman(fixed_distance_lengths()) == Ok::<HuffTable, crate::error::ErrorKind>(fixed_dist_table()),
        length_counts(fixed_distance_lengths())[5] == 32,
        forall|l: int| 1 <= l <= 15 && l != 5 ==> #[trigger] length_counts(fixed_distance_lengths())[l] == 0,
{
    let dl = fixed_distance_lengths();
    assert forall|l: nat| 1 <= l <= 15 implies #[trigger] count_len(dl, 32, l) == (if l == 5 { 32nat } else { 0nat }) by {
        lemma_count_is_symbols(dl, 32, l);
        lemma_fixed_dist_symbols(32, l);
    }
    lemma_fixed_dist_symbols(32, 0);
    lemma_fixed_dist_canonical(15);
    assert(!(exists|i: int| 0 <= i < dl.len() && #[trigger] dl[i] > 15));
    let c = length_counts(dl);
    assert forall|l: int| 1 <= l <= 15 && l != 5 implies #[trigger] c[l] == 0 by {
        assert(count_len(dl, 32, l as nat) == 0);
    }
    assert(c[5] == 32) by {
        assert(count_len(dl, 32, 5) == 32);
    }
    assert(c[1] == 0 && c[2] == 0 && c[3] == 0 && c[4] == 0 && c[6] == 0 && c[7] == 0 && c[8] == 0);
    assert(c[9] == 0 && c[10] == 0 && c[11] == 0 && c[12] == 0 && c[13] == 0 && c[14] == 0 && c[15] == 0);
    reveal_with_fuel(kraft_ok, 16);
    assert(kraft_ok(c, 1, 1));
}

/// The fixed tables of RFC 1951 are the fixed literal and distance tables.
pub proof fn lemma_fixed_tables()
    ensures
        spec_fixed_tables() == Ok::<(HuffTable, HuffTable), crate::error::ErrorKind>((fixed_lit_table(), fixed_dist_table())),
{
    lemma_fixed_lit_table();
    lemma_fixed_dist_table();
}

/// Bit `i` of an `n`-bit code written most significant bit first.
proof fn lemma_msb_bit(code: u16, n: nat, i: nat)
    requires
        i < n <= 16,
    ensures
        msb_first_bits(code, n)[i as int] == ((code as nat / pow2((n - 1 - i) as nat)) % 2 == 1),
{
    let m = (n - 1 - i) as nat;
    let m8 = m as u8;
    let m16 = m as u16;
    assert(code >> m8 == code >> m16) by (bit_vector)
        requires
            m8 as u16 == m16,
            m16 < 16,
    ;
    vstd::bits::lemma_u16_shr_is_div(code, m16);
    let y = code >> m16;
    assert(((y & 1) != 0) == (y % 2 == 1)) by (bit_vector);
}

/// The bits of an `n`-bit code written most significant bit first at bit
/// `p` are what the inflater reads there.
proof fn lemma_code_bits(b: Seq<bool>, p: nat, code: u16, n: nat)
    requires
        n <= 16,
        p + n <= b.len(),
        b.subrange(p as int, (p + n) as int) == msb_first_bits(code, n),
    ensures
        forall|i: nat| i < n ==> #[trigger] lsb_bit(packed_lsb(b), (p + i) as int) == (code as nat / pow2((n - 1 - i) as nat)) % 2,
{
    assert forall|i: nat| i < n implies #[trigger] lsb_bit(packed_lsb(b), (p + i) as int) == (code as nat / pow2(
        (n - 1 - i) as nat,
    )) % 2 by {
        lemma_packed_bits_read_back(b, (p + i) as int);
        lemma_msb_bit(code, n, i);
        assert(b[(p + i) as int] == b.subrange(p as int, (p + n) as int)[i as int]);
    }
}

/// With no codes of lengths `1..=j`, the decoder reads the first `j` bits
/// of a code into its running value.
#[verifier::spinoff_prover]
#[verifier::rlimit(60)]
proof fn lemma_walk_prefix(t: HuffTable, s: Seq<u8>, p: nat, code: nat, n: nat, j: nat)
    requires
        forall|i: nat| i < n ==> #[trigger] lsb_bit(s, (p + i) as int) == (code / pow2((n - 1 - i) as nat)) % 2,
        code < pow2(n),
        n <= 9,
        j < n,
        j < t.max_bits,
        p + n <= 8 * s.len(),
        forall|l: int| 1 <= l <= j ==> #[trigger] t.counts[l] == 0,
    ensures
        huff_walk(t, s, p, 1, 0, 0, 0) == huff_walk(t, s, p + j, j + 1, (2 * (code / pow2((n - j) as nat))) as int, 0, 0),
    decreases j,
{
    vstd::arithmetic::power2::lemma2_to64();
    if j == 0 {
        vstd::arithmetic::div_mod::lemma_basic_div(code as int, pow2(n) as int);
    } else {
        let k = (j - 1) as nat;
        lemma_walk_prefix(t, s, p, code, n, k);
        let a = (n - j) as nat;
        vstd::arithmetic::power2::lemma_pow2_unfold(a + 1);
        vstd::arithmetic::power2::lemma_pow2_pos(a);
        vstd::arithmetic::div_mod::lemma_div_denominator(code as int, pow2(a) as int, 2);
        let y = code / pow2(a);
        vstd::arithmetic::div_mod::lemma_fundamental_div_mod(y as int, 2);
        assert(pow2(a) * 2 == pow2(a + 1));
        assert(code / pow2((n - k) as nat) == y / 2);
        let bit = lsb_bit(s, (p + k) as int);
        assert(bit == y % 2);
        assert(2 * (code / pow2((n - k) as nat)) + bit == y);
        vstd::arithmetic::div_mod::lemma_div_is_ordered_by_denominator(code as int, 1, pow2(a) as int);
        assert(y <= code);
        assert(code < 512) by {
            if n < 9 {
                vstd::arithmetic::power2::lemma_pow2_strictly_increases(n, 9);
            }
        }
        assert(t.counts[j as int] == 0);
    }
}

proof fn lemma_packed_len(b: Seq<bool>)
    ensures
        8 * packed_lsb(b).len() >= b.len(),
{
}

/// The fixed literal/length code of `sym`, written at bit `p`, decodes to
/// `sym` and ends after its code length.
#[verifier::spinoff_prover]
#[verifier::rlimit(60)]
pub proof fn lemma_decode_fixed_symbol(b: Seq<bool>, p: nat, sym: u16)
    requires
        sym <= 287,
        p + fixed_code_len(sym as nat) <= b.len(),
        b.subrange(p as int, (p + fixed_code_len(sym as nat)) as int) == fixed_symbol_bits(sym),
    ensures
        huff_decode(fixed_lit_table(), packed_lsb(b), p) == Ok::<(u16, nat), crate::error::ErrorKind>(
            (sym, p + fixed_code_len(sym as nat)),
        ),
{
    let s = packed_lsb(b);
    let t = fixed_lit_table();
    lemma_packed_len(b);
    lemma_fixed_lit_counts();
    vstd::arithmetic::power2::lemma2_to64();
    assert forall|l: int| 1 <= l <= 6 implies #[trigger] t.counts[l] == 0 by {}
    if sym <= 143 {
        let code = (0x30 + sym) as u16;
        lemma_code_bits(b, p, code, 8);
        lemma_walk_prefix(t, s, p, code as nat, 8, 6);
        let c7 = (code / 2) as int;
        assert(lsb_bit(s, (p + 6) as int) == (code as nat / pow2(1)) % 2);
        assert(lsb_bit(s, (p + 7) as int) == (code as nat / pow2(0)) % 2);
        assert(2 * (code / 4) + (code / 2) % 2 == c7);
        assert(huff_walk(t, s, p + 6, 7, 2 * (code / 4) as int, 0, 0) == huff_walk(t, s, p + 7, 8, 2 * c7, 48, 24));
        assert(2 * c7 + code % 2 == code);
        assert(huff_walk(t, s, p + 7, 8, 2 * c7, 48, 24) == Ok::<(u16, nat), crate::error::ErrorKind>((sym, p + 8)));
    } else if sym <= 255 {
        let code = (0x190 + (sym - 144)) as u16;
        lemma_code_bits(b, p, code, 9);
        lemma_walk_prefix(t, s, p, code as nat, 9, 6);
        let c7 = (code / 4) as int;
        let c8 = (code / 2) as int;
        assert(lsb_bit(s, (p + 6) as int) == (code as nat / pow2(2)) % 2);
        assert(lsb_bit(s, (p + 7) as int) == (code as nat / pow2(1)) % 2);
        assert(lsb_bit(s, (p + 8) as int) == (code as nat / pow2(0)) % 2);
        assert(2 * (code / 8) + (code / 4) % 2 == c7);
        assert(huff_walk(t, s, p + 6, 7, 2 * (code / 8) as int, 0, 0) == huff_walk(t, s, p + 7, 8, 2 * c7, 48, 24));
        assert(2 * c7 + (code / 2) % 2 == c8);
        assert(huff_walk(t, s, p + 7, 8, 2 * c7, 48, 24) == huff_walk(t, s, p + 8, 9, 2 * c8, 400, 176));
        assert(2 * c8 + code % 2 == code);
        assert(huff_walk(t, s, p + 8, 9, 2 * c8, 400, 176) == Ok::<(u16, nat), crate::error::ErrorKind>((sym, p + 9)));
    } else if sym <= 279 {
        let code = (sym - 256) as u16;
        lemma_code_bits(b, p, code, 7);
        lemma_walk_prefix(t, s, p, code as nat, 7, 6);
        assert(lsb_bit(s, (p + 6) as int) == (code as nat / pow2(0)) % 2);
        assert(2 * (code / 2) + code % 2 == code);
        assert(huff_walk(t, s, p + 6, 7, 2 * (code / 2) as int, 0, 0) == Ok::<(u16, nat), crate::error::ErrorKind>(
            (sym, p + 7),
        ));
    } else {
        let code = (0xC0 + (sym - 280)) as u16;
        lemma_code_bits(b, p, code, 8);
        lemma_walk_prefix(t, s, p, code as nat, 8, 6);
        let c7 = (code / 2) as int;
        assert(lsb_bit(s, (p + 6) as int) == (code as nat / pow2(1)) % 2);
        assert(lsb_bit(s, (p + 7) as int) == (code as nat / pow2(0)) % 2);
        assert(2 * (code / 4) + (code / 2) % 2 == c7);
        assert(huff_walk(t, s, p + 6, 7, 2 * (code / 4) as int, 0, 0) == huff_walk(t, s, p + 7, 8, 2 * c7, 48, 24));
        assert(2 * c7 + code % 2 == code);
        assert(huff_walk(t, s, p + 7, 8, 2 * c7, 48, 24) == Ok::<(u16, nat), crate::error::ErrorKind>((sym, p + 8)));
    }
}

/// The five-bit fixed distance code of `d`, written at bit `p`, decodes to
/// `d`.
#[verifier::spinoff_prover]
#[verifier::rlimit(60)]
pub proof fn lemma_decode_fixed_distance(b: Seq<bool>, p: nat, d: u16)
    requires
        d < 30,
        p + 5 <= b.len(),
        b.subrange(p as int, (p + 5) as int) == msb_first_bits(d, 5),
    ensures
        huff_decode(fixed_dist_table(), packed_lsb(b), p) == Ok::<(u16, nat), crate::error::ErrorKind>((d, p + 5)),
{
    let s = packed_lsb(b);
    let t = fixed_dist_table();
    lemma_packed_len(b);
    lemma_fixed_dist_table();
    vstd::arithmetic::power2::lemma2_to64();
    assert forall|l: int| 1 <= l <= 4 implies #[trigger] t.counts[l] == 0 by {}
    lemma_code_bits(b, p, d, 5);
    lemma_walk_prefix(t, s, p, d as nat, 5, 4);
    assert(lsb_bit(s, (p + 4) as int) == (d as nat / pow2(0)) % 2);
    assert(2 * (d / 2) + d % 2 == d);
    assert(huff_walk(t, s, p + 4, 5, 2 * (d / 2) as int, 0, 0) == Ok::<(u16, nat), crate::error::ErrorKind>((d, p + 5)));
}

/// The fixed-code bits of one token.
pub open spec fn token_bits(t: LzToken) -> Seq<bool> {
    match t {
        LzToken::Literal(b) => fixed_symbol_bits(b as u16),
        LzToken::Copy { length, distance } => match match_bits(length, distance) {
            Some(b) => b,
            None => Seq::empty(),
        },
    }
}

/// The output after one token.
pub open spec fn token_step(out: Seq<u8>, t: LzToken) -> Seq<u8> {
    match t {
        LzToken::Literal(b) => out.push(b),
        LzToken::Copy { length, distance } => copy_out(out, distance, length),
    }
}

/// A token the decoder accepts after `out`.
pub open spec fn token_ok(out: Seq<u8>, t: LzToken) -> bool {
    match t {
        LzToken::Literal(_) => true,
        LzToken::Copy { length, distance } => 3 <= length <= 258 && 1 <= distance <= 32768 && distance <= out.len(),
    }
}

pub proof fn lemma_copy_out_len(out: Seq<u8>, d: nat, k: nat)
    ensures
        copy_out(out, d, k).len() == out.len() + k,
    decreases k,
{
    if k > 0 {
        lemma_copy_out_len(out, d, (k - 1) as nat);
    }
}

/// A field of `count` bits written by `lsb_first_bits` at bit `q` reads
/// back as the value, when the value fits.
proof fn lemma_field_at(b: Seq<bool>, q: nat, value: nat, count: nat)
    requires
        count <= 24,
        value < pow2(count),
        q + count <= b.len(),
        b.subrange(q as int, (q + count) as int) == lsb_first_bits(value as u32, count),
    ensures
        read_field(packed_lsb(b), q, count) == Ok::<(nat, nat), crate::error::ErrorKind>((value, q + count)),
{
    lemma_packed_len(b);
    lemma_packed_field_reads_back(b, q as int, count);
    lemma_lsb_first_bits_value(value as u32, count);
    vstd::arithmetic::power2::lemma2_to64();
    vstd::arithmetic::power2::lemma_pow2_strictly_increases(count, 32);
    vstd::arithmetic::div_mod::lemma_small_mod(value, pow2(count));
}

/// One token, written at bit `q`, is decoded back: the decoder moves past
/// its bits and applies it to the output.
#[verifier::spinoff_prover]
#[verifier::rlimit(60)]
proof fn lemma_token_step(b: Seq<bool>, q: nat, t: LzToken, out: Seq<u8>, limit: nat)
    requires
        q + token_bits(t).len() <= b.len(),
        b.subrange(q as int, (q + token_bits(t).len()) as int) == token_bits(t),
        token_ok(out, t),
        token_step(out, t).len() <= limit,
        limit <= usize::MAX,
    ensures
        block_walk(packed_lsb(b), q, fixed_lit_table(), Some(fixed_dist_table()), out, limit) == block_walk(
            packed_lsb(b),
            q + token_bits(t).len(),
            fixed_lit_table(),
            Some(fixed_dist_table()),
            token_step(out, t),
            limit,
        ),
{
    let s = packed_lsb(b);
    let lt = fixed_lit_table();
    let dt = fixed_dist_table();
    match t {
        LzToken::Literal(v) => {
            let sym = v as u16;
            assert(fixed_symbol_bits(sym).len() == fixed_code_len(sym as nat));
            lemma_decode_fixed_symbol(b, q, sym);
        },
        LzToken::Copy { length, distance } => {
            lemma_match_codes_cover(length, distance);
            lemma_first_range_found(length, length_base_table(), length_extra_table(), 0);
            lemma_first_range_found(distance, distance_base_table(), distance_extra_table(), 0);
            let li = first_range(length, length_base_table(), length_extra_table(), 0)->0;
            let di = first_range(distance, distance_base_table(), distance_extra_table(), 0)->0;
            let le = length_extra_table()[li as int];
            let de = distance_extra_table()[di as int];
            let lb = length_base_table()[li as int];
            let db = distance_base_table()[di as int];
            assert forall|j: int| 0 <= j < 29 implies #[trigger] length_extra_table()[j] <= 5 by {
                assert(0 <= j < 29);
            }
            assert forall|j: int| 0 <= j < 30 implies #[trigger] distance_extra_table()[j] <= 13 by {
                assert(0 <= j < 30);
            }
            let sym = (257 + li) as u16;
            let f1 = fixed_symbol_bits(sym);
            let f2 = lsb_first_bits((length - lb) as u32, le);
            let f3 = msb_first_bits(di as u16, 5);
            let f4 = lsb_first_bits((distance - db) as u32, de);
            let tb = token_bits(t);
            assert(tb == f1 + f2 + f3 + f4);
            let n1 = f1.len();
            assert(n1 == fixed_code_len(sym as nat));
            let q1 = q + n1;
            let q2 = q1 + le;
            let q3 = q2 + 5;
            let q4 = q3 + de;
            assert(tb.len() == n1 + le + 5 + de);
            assert(b.subrange(q as int, q1 as int) =~= f1) by {
                assert(b.subrange(q as int, q1 as int) =~= tb.subrange(0, n1 as int));
            }
            assert(b.subrange(q1 as int, q2 as int) =~= f2) by {
                assert(b.subrange(q1 as int, q2 as int) =~= tb.subrange(n1 as int, (n1 + le) as int));
            }
            assert(b.subrange(q2 as int, q3 as int) =~= f3) by {
                assert(b.subrange(q2 as int, q3 as int) =~= tb.subrange((n1 + le) as int, (n1 + le + 5) as int));
            }
            assert(b.subrange(q3 as int, q4 as int) =~= f4) by {
                assert(b.subrange(q3 as int, q4 as int) =~= tb.subrange((n1 + le + 5) as int, tb.len() as int));
            }
            lemma_decode_fixed_symbol(b, q, sym);
            lemma_field_at(b, q1, (length - lb) as nat, le);
            lemma_decode_fixed_distance(b, q2, di as u16);
            lemma_field_at(b, q3, (distance - db) as nat, de);
            lemma_copy_out_len(out, distance, length);
            assert(block_walk(s, q, lt, Some(dt), out, limit) == block_walk(s, q4, lt, Some(dt), copy_out(out, distance, length), limit));
        },
    }
}

proof fn lemma_tokens_take(ts: Seq<LzToken>, j: nat)
    requires
        j < ts.len(),
    ensures
        tokens_bits(ts.take(j + 1int)) == tokens_bits(ts.take(j as int)) + token_bits(ts[j as int]),
        lz_expand(ts.take(j + 1int)) == token_step(lz_expand(ts.take(j as int)), ts[j as int]),
        tokens_valid(ts.take(j + 1int)) == (tokens_valid(ts.take(j as int)) && token_ok(lz_expand(ts.take(j as int)), ts[j as int])),
{
    assert(ts.take(j + 1int).drop_last() =~= ts.take(j as int));
    assert(ts.take(j + 1int).last() == ts[j as int]);
}

proof fn lemma_tokens_prefix(ts: Seq<LzToken>, j: nat)
    requires
        j <= ts.len(),
    ensures
        tokens_bits(ts.take(j as int)).len() <= tokens_bits(ts).len(),
        tokens_bits(ts).subrange(0, tokens_bits(ts.take(j as int)).len() as int) == tokens_bits(ts.take(j as int)),
        tokens_valid(ts) ==> tokens_valid(ts.take(j as int)),
        lz_expand(ts.take(j as int)).len() <= lz_expand(ts).len(),
    decreases ts.len() - j,
{
    if j == ts.len() {
        assert(ts.take(j as int) =~= ts);
        assert(tokens_bits(ts).subrange(0, tokens_bits(ts).len() as int) =~= tokens_bits(ts));
    } else {
        lemma_tokens_prefix(ts, j + 1);
        lemma_tokens_take(ts, j);
        let a = tokens_bits(ts.take(j as int));
        let c = tokens_bits(ts.take(j + 1int));
        assert(tokens_bits(ts).subrange(0, a.len() as int) =~= c.subrange(0, a.len() as int));
        assert(c.subrange(0, a.len() as int) =~= a);
        match ts[j as int] {
            LzToken::Literal(_) => {},
            LzToken::Copy { length, distance } => {
                lemma_copy_out_len(lz_expand(ts.take(j as int)), distance, length);
            },
        }
    }
}

/// From token `k` on, the block decoder reads back the rest of the parse
/// and the end-of-block code.
#[verifier::spinoff_prover]
#[verifier::rlimit(60)]
proof fn lemma_walk_tokens(ts: Seq<LzToken>, limit: nat, k: nat)
    requires
        tokens_valid(ts),
        lz_expand(ts).len() <= limit,
        limit <= usize::MAX,
        k <= ts.len(),
    ensures
        block_walk(
            packed_lsb(fixed_block_bits(ts)),
            3 + tokens_bits(ts.take(k as int)).len(),
            fixed_lit_table(),
            Some(fixed_dist_table()),
            lz_expand(ts.take(k as int)),
            limit,
        ) == Ok::<(nat, Seq<u8>), crate::error::ErrorKind>((fixed_block_bits(ts).len(), lz_expand(ts))),
    decreases ts.len() - k,
{
    let b = fixed_block_bits(ts);
    let head = lsb_first_bits(1, 1) + lsb_first_bits(1, 2);
    let tb = tokens_bits(ts);
    let e = fixed_symbol_bits(256);
    assert(b == head + tb + e);
    assert(head.len() == 3);
    let q = 3 + tokens_bits(ts.take(k as int)).len();
    lemma_tokens_prefix(ts, k);
    if k == ts.len() {
        assert(ts.take(k as int) =~= ts);
        assert(e.len() == 7);
        assert(b.subrange(q as int, (q + 7) as int) =~= e);
        lemma_decode_fixed_symbol(b, q, 256);
    } else {
        lemma_tokens_take(ts, k);
        lemma_tokens_prefix(ts, k + 1);
        let a = tokens_bits(ts.take(k as int));
        let c = tokens_bits(ts.take(k + 1int));
        let t = ts[k as int];
        assert(c == a + token_bits(t));
        assert(b.subrange(q as int, (q + token_bits(t).len()) as int) =~= c.subrange(a.len() as int, c.len() as int)) by {
            assert(b.subrange(q as int, (q + token_bits(t).len()) as int) =~= tb.subrange(a.len() as int, c.len() as int));
            assert(tb.subrange(a.len() as int, c.len() as int) =~= tb.subrange(0, c.len() as int).subrange(a.len() as int, c.len() as int));
        }
        assert(c.subrange(a.len() as int, c.len() as int) =~= token_bits(t));
        lemma_token_step(b, q, t, lz_expand(ts.take(k as int)), limit);
        lemma_walk_tokens(ts, limit, k + 1);
    }
}

/// A valid parse, packed as one final fixed-code block, inflates back to
/// the bytes it stands for whenever they fit the output limit.
pub proof fn lemma_fixed_block_inflates(ts: Seq<LzToken>, limit: nat)
    requires
        tokens_valid(ts),
        lz_expand(ts).len() <= limit,
        limit <= usize::MAX,
    ensures
        spec_inflate(packed_lsb(fixed_block_bits(ts)), limit) == Ok::<Seq<u8>, crate::error::ErrorKind>(lz_expand(ts)),
{
    let b = fixed_block_bits(ts);
    let s = packed_lsb(b);
    let head = lsb_first_bits(1, 1) + lsb_first_bits(1, 2);
    assert(b == head + tokens_bits(ts) + fixed_symbol_bits(256));
    assert(b.subrange(0, 1) =~= lsb_first_bits(1, 1));
    assert(b.subrange(1, 3) =~= lsb_first_bits(1, 2));
    vstd::arithmetic::power2::lemma2_to64();
    lemma_field_at(b, 0, 1, 1);
    lemma_field_at(b, 1, 1, 2);
    lemma_fixed_tables();
    assert(ts.take(0) =~= Seq::<LzToken>::empty());
    lemma_walk_tokens(ts, limit, 0);
    reveal_with_fuel(inflate_walk, 1);
}

} // verus!
