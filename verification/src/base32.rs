//! Base32 codec over a DNS-label-safe alphabet ('a'..'z' for 0..25,
//! '2'..'7' for 26..31, no padding). Encoding packs 8-bit bytes into 5-bit
//! symbols; decoding reverses it exactly and accepts either letter case.

use vstd::prelude::*;
use crate::text::fold_char;

verus! {

/// Error returned by `decode` when the input holds a character outside the
/// base32 alphabet.
#[derive(Debug, Clone, Copy, PartialEq, Eq, Structural)]
pub struct Base32Error;

/// The character for a 5-bit symbol value: 0..25 map to 'a'..'z',
/// 26..31 map to '2'..'7'.
pub open spec fn sym_char(v: u8) -> char {
    if v < 26 {
        ((v + 97) as u8) as char
    } else {
        ((v + 24) as u8) as char
    }
}

/// Characters accepted by the decoder: both letter cases and '2'..'7'.
pub open spec fn is_sym_char(c: char) -> bool {
    ('a' <= c && c <= 'z') || ('A' <= c && c <= 'Z') || ('2' <= c && c <= '7')
}

/// The 5-bit value of an alphabet character, insensitive to letter case.
pub open spec fn sym_val(c: char) -> u8 {
    if 'a' <= c && c <= 'z' {
        ((c as u32) - 97) as u8
    } else if 'A' <= c && c <= 'Z' {
        ((c as u32) - 65) as u8
    } else {
        ((c as u32) - 24) as u8
    }
}

/// Number of base32 symbols needed for `n` payload bytes: ceil(8n / 5).
pub open spec fn sym_count(n: nat) -> nat {
    if n == 0 {
        0
    } else {
        ((8 * n + 4) / 5) as nat
    }
}

/// Number of whole payload bytes recoverable from `k` symbols: floor(5k / 8).
pub open spec fn byte_count(k: nat) -> nat {
    (5 * k / 8) as nat
}

/// The 5-bit symbols of one block of 1 to 5 payload bytes, missing bytes
/// reading as zero.
pub open spec fn block_syms(b: Seq<u8>) -> Seq<u8> {
    let a0 = b[0];
    let a1: u8 = if b.len() > 1 { b[1] } else { 0 };
    let a2: u8 = if b.len() > 2 { b[2] } else { 0 };
    let a3: u8 = if b.len() > 3 { b[3] } else { 0 };
    let a4: u8 = if b.len() > 4 { b[4] } else { 0 };
    seq![
        a0 >> 3,
        ((a0 & 7) << 2) | (a1 >> 6),
        (a1 >> 1) & 31,
        ((a1 & 1) << 4) | (a2 >> 4),
        ((a2 & 15) << 1) | (a3 >> 7),
        (a3 >> 2) & 31,
        ((a3 & 3) << 3) | (a4 >> 5),
        a4 & 31,
    ].take(sym_count(b.len()) as int)
}

/// The payload bytes carried by one block of 1 to 8 symbols, missing
/// symbols reading as zero.
pub open spec fn block_bytes(vs: Seq<u8>) -> Seq<u8> {
    let v0 = vs[0];
    let v1: u8 = if vs.len() > 1 { vs[1] } else { 0 };
    let v2: u8 = if vs.len() > 2 { vs[2] } else { 0 };
    let v3: u8 = if vs.len() > 3 { vs[3] } else { 0 };
    let v4: u8 = if vs.len() > 4 { vs[4] } else { 0 };
    let v5: u8 = if vs.len() > 5 { vs[5] } else { 0 };
    let v6: u8 = if vs.len() > 6 { vs[6] } else { 0 };
    let v7: u8 = if vs.len() > 7 { vs[7] } else { 0 };
    seq![
        (v0 << 3) | (v1 >> 2),
        ((v1 & 3) << 6) | (v2 << 1) | (v3 >> 4),
        ((v3 & 15) << 4) | (v4 >> 1),
        ((v4 & 1) << 7) | (v5 << 2) | (v6 >> 3),
        ((v6 & 7) << 5) | v7,
    ].take(byte_count(vs.len()) as int)
}

/// The 5-bit symbol sequence encoding a whole payload, block by block.
pub open spec fn enc_syms(p: Seq<u8>) -> Seq<u8>
    decreases p.len(),
{
    if p.len() == 0 {
        Seq::empty()
    } else if p.len() <= 5 {
        block_syms(p)
    } else {
        block_syms(p.take(5)) + enc_syms(p.skip(5))
    }
}

/// The payload bytes recovered from a symbol sequence, block by block.
pub open spec fn dec_syms(vs: Seq<u8>) -> Seq<u8>
    decreases vs.len(),
{
    if vs.len() == 0 {
        Seq::empty()
    } else if vs.len() <= 8 {
        block_bytes(vs)
    } else {
        block_bytes(vs.take(8)) + dec_syms(vs.skip(8))
    }
}

/// What `encode` returns: the base32 text of a payload.
pub open spec fn spec_encode(p: Seq<u8>) -> Seq<char> {
    enc_syms(p).map_values(|v: u8| sym_char(v))
}

/// A string is decodable exactly when every character is in the alphabet.
pub open spec fn spec_valid(s: Seq<char>) -> bool {
    forall|i: int| 0 <= i < s.len() ==> is_sym_char(#[trigger] s[i])
}

/// What `decode` returns on a decodable string.
pub open spec fn spec_decode(s: Seq<char>) -> Seq<u8> {
    dec_syms(s.map_values(|c: char| sym_val(c)))
}

/// Every symbol an encoded block emits is a 5-bit value.
proof fn lemma_block_syms_bound(b: Seq<u8>)
    requires
        1 <= b.len() <= 5,
    ensures
        forall|i: int| 0 <= i < block_syms(b).len() ==> #[trigger] block_syms(b)[i] < 32,
{
    let a0 = b[0];
    let a1: u8 = if b.len() > 1 { b[1] } else { 0 };
    let a2: u8 = if b.len() > 2 { b[2] } else { 0 };
    let a3: u8 = if b.len() > 3 { b[3] } else { 0 };
    let a4: u8 = if b.len() > 4 { b[4] } else { 0 };
    assert((a0 >> 3) < 32 && (((a0 & 7) << 2) | (a1 >> 6)) < 32 && ((a1 >> 1) & 31) < 32
        && ((((a1 & 1) << 4) | (a2 >> 4))) < 32 && ((((a2 & 15) << 1) | (a3 >> 7))) < 32
        && (((a3 >> 2) & 31)) < 32 && ((((a3 & 3) << 3) | (a4 >> 5))) < 32 && ((a4 & 31)) < 32)
        by (bit_vector);
}

/// Decoding the symbols of one block gives back exactly the block's bytes.
proof fn lemma_block_round_trip(b: Seq<u8>)
    requires
        1 <= b.len() <= 5,
    ensures
        block_bytes(block_syms(b)) =~= b,
{
    let a0 = b[0];
    let a1: u8 = if b.len() > 1 { b[1] } else { 0 };
    let a2: u8 = if b.len() > 2 { b[2] } else { 0 };
    let a3: u8 = if b.len() > 3 { b[3] } else { 0 };
    let a4: u8 = if b.len() > 4 { b[4] } else { 0 };
    assert(((a0 >> 3) << 3) | ((((a0 & 7) << 2) | (a1 >> 6)) >> 2) == a0) by (bit_vector);
    assert((((((a0 & 7) << 2) | (a1 >> 6)) & 3) << 6) | (((a1 >> 1) & 31) << 1)
        | ((((a1 & 1) << 4) | (a2 >> 4)) >> 4) == a1) by (bit_vector);
    assert((((((a1 & 1) << 4) | (a2 >> 4)) & 15) << 4) | ((((a2 & 15) << 1) | (a3 >> 7)) >> 1)
        == a2) by (bit_vector);
    assert((((((a2 & 15) << 1) | (a3 >> 7)) & 1) << 7) | (((a3 >> 2) & 31) << 2)
        | ((((a3 & 3) << 3) | (a4 >> 5)) >> 3) == a3) by (bit_vector);
    assert((((((a3 & 3) << 3) | (a4 >> 5)) & 7) << 5) | (a4 & 31) == a4) by (bit_vector);
}

/// An alphabet character round-trips through its 5-bit value, and encoding
/// only ever emits lowercase alphabet characters.
proof fn lemma_sym_round(v: u8)
    requires
        v < 32,
    ensures
        is_sym_char(sym_char(v)),
        sym_val(sym_char(v)) == v,
        fold_char(sym_char(v)) == sym_char(v),
{
}

/// The value and validity of a character are unchanged by case folding.
proof fn lemma_sym_fold(c: char)
    ensures
        is_sym_char(fold_char(c)) == is_sym_char(c),
        is_sym_char(c) ==> sym_val(fold_char(c)) == sym_val(c),
{
}

/// Encoding `n` bytes yields exactly `sym_count(n)` symbols.
pub proof fn lemma_enc_len(p: Seq<u8>)
    ensures
        enc_syms(p).len() == sym_count(p.len()),
    decreases p.len(),
{
    if p.len() == 0 {
    } else if p.len() <= 5 {
        assert(sym_count(p.len()) <= 8);
    } else {
        lemma_enc_len(p.skip(5));
        assert(sym_count(p.take(5).len()) == 8);
        assert(8 * p.len() + 4 == (8 * (p.len() - 5) + 4) + 40);
        assert((8 * (p.len() - 5) + 4 + 40) / 5 == (8 * (p.len() - 5) + 4) / 5 + 8) by {
            vstd::arithmetic::div_mod::lemma_hoist_over_denominator(
                8 * (p.len() - 5) + 4,
                8,
                5nat,
            );
        }
    }
}

/// Decoding the full symbol stream of a payload gives the payload back.
proof fn lemma_dec_enc_syms(p: Seq<u8>)
    ensures
        dec_syms(enc_syms(p)) =~= p,
    decreases p.len(),
{
    lemma_enc_len(p);
    if p.len() == 0 {
    } else if p.len() <= 5 {
        lemma_block_round_trip(p);
    } else {
        let s = enc_syms(p);
        lemma_enc_len(p.skip(5));
        assert(s.len() > 8);
        assert(s.take(8) =~= block_syms(p.take(5)));
        assert(s.skip(8) =~= enc_syms(p.skip(5)));
        lemma_block_round_trip(p.take(5));
        lemma_dec_enc_syms(p.skip(5));
        assert(dec_syms(s) =~= p.take(5) + p.skip(5));
        assert(p.take(5) + p.skip(5) =~= p);
    }
}

/// Round trip: decoding an encoded payload succeeds and recovers the payload
/// exactly, and the encoded text has length `sym_count` of the payload's.
pub proof fn lemma_round_trip(p: Seq<u8>)
    ensures
        spec_valid(spec_encode(p)),
        spec_decode(spec_encode(p)) == p,
        spec_encode(p).len() == sym_count(p.len()),
{
    lemma_enc_len(p);
    lemma_syms_bound(p);
    let vs = enc_syms(p);
    let s = spec_encode(p);
    assert forall|i: int| 0 <= i < s.len() implies is_sym_char(#[trigger] s[i]) by {
        lemma_sym_round(vs[i]);
    }
    assert(s.map_values(|c: char| sym_val(c)) =~= vs) by {
        assert forall|i: int| 0 <= i < s.len() implies sym_val(s[i]) == vs[i] by {
            lemma_sym_round(vs[i]);
        }
    }
    lemma_dec_enc_syms(p);
}

/// Every symbol the encoder emits is a 5-bit value.
proof fn lemma_syms_bound(p: Seq<u8>)
    ensures
        forall|i: int| 0 <= i < enc_syms(p).len() ==> #[trigger] enc_syms(p)[i] < 32,
    decreases p.len(),
{
    if p.len() == 0 {
    } else if p.len() <= 5 {
        lemma_block_syms_bound(p);
    } else {
        lemma_block_syms_bound(p.take(5));
        lemma_syms_bound(p.skip(5));
        let head = block_syms(p.take(5));
        let rest = enc_syms(p.skip(5));
        assert forall|i: int| 0 <= i < enc_syms(p).len() implies #[trigger] enc_syms(p)[i]
            < 32 by {
            if i < head.len() {
                assert(enc_syms(p)[i] == head[i]);
            } else {
                assert(enc_syms(p)[i] == rest[i - head.len()]);
            }
        }
    }
}

/// The encoded text of a payload is unchanged by no character and contains
/// only lowercase alphabet characters; decoding tolerates any case variant:
/// a case-mangled copy of a decodable string is decodable and decodes to the
/// same bytes.
pub proof fn lemma_decode_case_insensitive(s: Seq<char>, t: Seq<char>)
    requires
        crate::text::case_variant(s, t),
    ensures
        spec_valid(s) == spec_valid(t),
        spec_valid(s) ==> spec_decode(s) == spec_decode(t),
{
    assert forall|i: int| 0 <= i < s.len() implies is_sym_char(#[trigger] s[i]) == is_sym_char(
        #[trigger] t[i],
    ) by {
        lemma_sym_fold(s[i]);
        lemma_sym_fold(t[i]);
    }
    if spec_valid(s) {
        assert(spec_valid(t));
        assert(s.map_values(|c: char| sym_val(c)) =~= t.map_values(|c: char| sym_val(c))) by {
            assert forall|i: int| 0 <= i < s.len() implies sym_val(s[i]) == sym_val(t[i]) by {
                lemma_sym_fold(s[i]);
                lemma_sym_fold(t[i]);
            }
        }
    }
}

/// The character for a symbol value, executably.
fn sym_char_exec(v: u8) -> (c: char)
    requires
        v < 32,
    ensures
        c == sym_char(v),
{
    if v < 26 {
        (v + 97) as char
    } else {
        (v + 24) as char
    }
}

/// Encodes a payload as base32 text over the lowercase alphabet, packing
/// each run of up to five bytes into up to eight 5-bit symbols.
pub fn encode(payload: &[u8]) -> (r: String)
    ensures
        r@ == spec_encode(payload@),
{
    let n = payload.len();
    let mut out: Vec<char> = Vec::new();
    let ghost mut gsyms: Seq<u8> = Seq::empty();
    let mut i: usize = 0;
    proof {
        assert(payload@.skip(0) =~= payload@);
        assert(gsyms + enc_syms(payload@) =~= enc_syms(payload@));
    }
    while i < n
        invariant
            n == payload@.len(),
            i <= n,
            out@ == gsyms.map_values(|v: u8| sym_char(v)),
            enc_syms(payload@) == gsyms + enc_syms(payload@.skip(i as int)),
        decreases n - i,
    {
        let rem = n - i;
        let step = if rem > 5 { 5 } else { rem };
        let a0 = payload[i];
        let a1 = if rem > 1 { payload[i + 1] } else { 0 };
        let a2 = if rem > 2 { payload[i + 2] } else { 0 };
        let a3 = if rem > 3 { payload[i + 3] } else { 0 };
        let a4 = if rem > 4 { payload[i + 4] } else { 0 };
        let s0 = a0 >> 3;
        let s1 = ((a0 & 7) << 2) | (a1 >> 6);
        let s2 = (a1 >> 1) & 31;
        let s3 = ((a1 & 1) << 4) | (a2 >> 4);
        let s4 = ((a2 & 15) << 1) | (a3 >> 7);
        let s5 = (a3 >> 2) & 31;
        let s6 = ((a3 & 3) << 3) | (a4 >> 5);
        let s7 = a4 & 31;
        proof {
            assert((a0 >> 3) < 32 && (((a0 & 7) << 2) | (a1 >> 6)) < 32 && ((a1 >> 1) & 31) < 32
                && ((((a1 & 1) << 4) | (a2 >> 4))) < 32 && ((((a2 & 15) << 1) | (a3 >> 7))) < 32
                && (((a3 >> 2) & 31)) < 32 && ((((a3 & 3) << 3) | (a4 >> 5))) < 32
                && ((a4 & 31)) < 32) by (bit_vector);
        }
        let ghost chunk = payload@.skip(i as int).take(step as int);
        let ghost block = block_syms(chunk);
        out.push(sym_char_exec(s0));
        out.push(sym_char_exec(s1));
        if step > 1 {
            out.push(sym_char_exec(s2));
            out.push(sym_char_exec(s3));
        }
        if step > 2 {
            out.push(sym_char_exec(s4));
        }
        if step > 3 {
            out.push(sym_char_exec(s5));
            out.push(sym_char_exec(s6));
        }
        if step > 4 {
            out.push(sym_char_exec(s7));
        }
        proof {
            assert(chunk.len() == step);
            if step > 1 {
                assert(chunk[1] == payload@[i + 1]);
            }
            if step > 2 {
                assert(chunk[2] == payload@[i + 2]);
            }
            if step > 3 {
                assert(chunk[3] == payload@[i + 3]);
            }
            if step > 4 {
                assert(chunk[4] == payload@[i + 4]);
            }
            if step == 1 {
                assert(block =~= seq![s0, s1]);
            } else if step == 2 {
                assert(block =~= seq![s0, s1, s2, s3]);
            } else if step == 3 {
                assert(block =~= seq![s0, s1, s2, s3, s4]);
            } else if step == 4 {
                assert(block =~= seq![s0, s1, s2, s3, s4, s5, s6]);
            } else {
                assert(block =~= seq![s0, s1, s2, s3, s4, s5, s6, s7]);
            }
            let old_syms = gsyms;
            gsyms = gsyms + block;
            assert(out@ =~= gsyms.map_values(|v: u8| sym_char(v)));
            let tail = payload@.skip(i as int);
            if rem <= 5 {
                assert(chunk =~= tail);
                assert(enc_syms(tail) == block);
                assert(payload@.skip(i + step as int) =~= Seq::<u8>::empty());
                assert(enc_syms(payload@) == gsyms + enc_syms(payload@.skip(i + step as int)));
            } else {
                assert(enc_syms(tail) == block_syms(tail.take(5)) + enc_syms(tail.skip(5)));
                assert(tail.skip(5) =~= payload@.skip(i + step as int));
                assert(enc_syms(payload@) == gsyms + enc_syms(payload@.skip(i + step as int)));
            }
        }
        i = i + step;
    }
    proof {
        assert(payload@.skip(n as int) =~= Seq::<u8>::empty());
        assert(enc_syms(payload@) == gsyms);
        assert(out@ =~= spec_encode(payload@));
    }
    crate::text::chars_to_string(&out)
}

/// The symbol value of one character, or an error outside the alphabet.
fn sym_val_exec(c: char) -> (r: Result<u8, Base32Error>)
    ensures
        (r is Ok) == is_sym_char(c),
        r matches Ok(v) ==> v == sym_val(c) && v < 32,
{
    if 'a' <= c && c <= 'z' {
        Ok(((c as u32) - 97) as u8)
    } else if 'A' <= c && c <= 'Z' {
        Ok(((c as u32) - 65) as u8)
    } else if '2' <= c && c <= '7' {
        Ok(((c as u32) - 24) as u8)
    } else {
        Err(Base32Error)
    }
}

/// Decodes base32 text, accepting either letter case; fails exactly when a
/// character outside the alphabet occurs.
pub fn decode(s: &str) -> (r: Result<Vec<u8>, Base32Error>)
    ensures
        (r is Ok) == spec_valid(s@),
        r matches Ok(v) ==> v@ == spec_decode(s@),
{
    let chars = crate::text::str_to_chars(s);
    let n = chars.len();
    let mut vals: Vec<u8> = Vec::new();
    let mut i: usize = 0;
    while i < n
        invariant
            n == chars@.len(),
            chars@ == s@,
            i <= n,
            vals@ == s@.take(i as int).map_values(|c: char| sym_val(c)),
            forall|j: int| 0 <= j < i ==> is_sym_char(#[trigger] s@[j]),
            forall|j: int| 0 <= j < i ==> #[trigger] vals@[j] < 32,
        decreases n - i,
    {
        match sym_val_exec(chars[i]) {
            Ok(v) => {
                vals.push(v);
            },
            Err(e) => {
                return Err(e);
            },
        }
        i = i + 1;
        proof {
            assert(vals@ =~= s@.take(i as int).map_values(|c: char| sym_val(c)));
        }
    }
    proof {
        assert(s@.take(n as int) =~= s@);
    }
    let m = vals.len();
    let mut out: Vec<u8> = Vec::new();
    let ghost all = vals@;
    let mut i: usize = 0;
    proof {
        assert(all.skip(0) =~= all);
        assert(out@ + dec_syms(all) =~= dec_syms(all));
    }
    while i < m
        invariant
            m == vals@.len(),
            vals@ == all,
            i <= m,
            dec_syms(all) == out@ + dec_syms(all.skip(i as int)),
        decreases m - i,
    {
        let rem = m - i;
        let step = if rem > 8 { 8 } else { rem };
        let v0 = vals[i];
        let v1 = if rem > 1 { vals[i + 1] } else { 0 };
        let v2 = if rem > 2 { vals[i + 2] } else { 0 };
        let v3 = if rem > 3 { vals[i + 3] } else { 0 };
        let v4 = if rem > 4 { vals[i + 4] } else { 0 };
        let v5 = if rem > 5 { vals[i + 5] } else { 0 };
        let v6 = if rem > 6 { vals[i + 6] } else { 0 };
        let v7 = if rem > 7 { vals[i + 7] } else { 0 };
        let b0 = (v0 << 3) | (v1 >> 2);
        let b1 = ((v1 & 3) << 6) | (v2 << 1) | (v3 >> 4);
        let b2 = ((v3 & 15) << 4) | (v4 >> 1);
        let b3 = ((v4 & 1) << 7) | (v5 << 2) | (v6 >> 3);
        let b4 = ((v6 & 7) << 5) | v7;
        let ghost chunk = all.skip(i as int).take(step as int);
        let ghost block = block_bytes(chunk);
        let ghost before = out@;
        if step > 1 {
            out.push(b0);
        }
        if step > 3 {
            out.push(b1);
        }
        if step > 4 {
            out.push(b2);
        }
        if step > 6 {
            out.push(b3);
        }
        if step > 7 {
            out.push(b4);
        }
        proof {
            assert(chunk.len() == step);
            if step > 1 {
                assert(chunk[1] == all[i + 1]);
            }
            if step > 2 {
                assert(chunk[2] == all[i + 2]);
            }
            if step > 3 {
                assert(chunk[3] == all[i + 3]);
            }
            if step > 4 {
                assert(chunk[4] == all[i + 4]);
            }
            if step > 5 {
                assert(chunk[5] == all[i + 5]);
            }
            if step > 6 {
                assert(chunk[6] == all[i + 6]);
            }
            if step > 7 {
                assert(chunk[7] == all[i + 7]);
            }
            if step == 1 {
                assert(block =~= Seq::<u8>::empty());
            } else if step == 2 || step == 3 {
                assert(block =~= seq![b0]);
            } else if step == 4 {
                assert(block =~= seq![b0, b1]);
            } else if step == 5 || step == 6 {
                assert(block =~= seq![b0, b1, b2]);
            } else if step == 7 {
                assert(block =~= seq![b0, b1, b2, b3]);
            } else {
                assert(block =~= seq![b0, b1, b2, b3, b4]);
            }
            assert(out@ =~= before + block);
            let tail = all.skip(i as int);
            if rem <= 8 {
                assert(chunk =~= tail);
                assert(dec_syms(tail) == block);
                assert(all.skip(i + step as int) =~= Seq::<u8>::empty());
            } else {
                assert(dec_syms(tail) == block_bytes(tail.take(8)) + dec_syms(tail.skip(8)));
                assert(tail.skip(8) =~= all.skip(i + step as int));
            }
        }
        i = i + step;
    }
    proof {
        assert(all.skip(m as int) =~= Seq::<u8>::empty());
        assert(all =~= s@.map_values(|c: char| sym_val(c)));
    }
    Ok(out)
}

} // verus!
