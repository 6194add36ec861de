//! A deterministic binary encoding for the persisted records, with a proved
//! round trip: decoding an encoded value yields the value back.
//!
//! Integers are written big-endian in eight (or four) bytes; byte strings
//! and lists carry a length prefix; strings are ASCII and are written as
//! their bytes.

use vstd::prelude::*;
use crate::block::BlockV;
use crate::transaction::{TXInput, TXInputV, TXOutput, TXOutputV, Transaction, TransactionV};

verus! {

// ---------------------------------------------------------------------------
// Specification-level encoded forms
// ---------------------------------------------------------------------------

/// Byte `i` (big-endian, from the left) of a 64-bit integer.
#[verifier::opaque]
pub open spec fn be64_byte(v: u64, i: int) -> u8 {
    if i == 0 {
        (v >> 56) as u8
    } else if i == 1 {
        (v >> 48) as u8
    } else if i == 2 {
        (v >> 40) as u8
    } else if i == 3 {
        (v >> 32) as u8
    } else if i == 4 {
        (v >> 24) as u8
    } else if i == 5 {
        (v >> 16) as u8
    } else if i == 6 {
        (v >> 8) as u8
    } else {
        v as u8
    }
}

/// Eight big-endian bytes of a 64-bit integer.
pub open spec fn be64(v: u64) -> Seq<u8> {
    Seq::new(8, |i: int| be64_byte(v, i))
}

/// Byte `i` (big-endian, from the left) of a 32-bit integer.
#[verifier::opaque]
pub open spec fn be32_byte(v: u32, i: int) -> u8 {
    if i == 0 {
        (v >> 24) as u8
    } else if i == 1 {
        (v >> 16) as u8
    } else if i == 2 {
        (v >> 8) as u8
    } else {
        v as u8
    }
}

/// Four big-endian bytes of a 32-bit integer.
pub open spec fn be32(v: u32) -> Seq<u8> {
    Seq::new(4, |i: int| be32_byte(v, i))
}

/// The 64-bit integer read from eight big-endian bytes.
#[verifier::opaque]
pub open spec fn combine64(b: Seq<u8>) -> u64
    recommends
        b.len() == 8,
{
    (b[0] as u64) << 56 | (b[1] as u64) << 48 | (b[2] as u64) << 40 | (b[3] as u64) << 32 | (
    b[4] as u64) << 24 | (b[5] as u64) << 16 | (b[6] as u64) << 8 | (b[7] as u64)
}

/// The 32-bit integer read from four big-endian bytes.
#[verifier::opaque]
pub open spec fn combine32(b: Seq<u8>) -> u32
    recommends
        b.len() == 4,
{
    (b[0] as u32) << 24 | (b[1] as u32) << 16 | (b[2] as u32) << 8 | (b[3] as u32)
}

/// A length-prefixed byte string.
pub open spec fn enc_bytes(b: Seq<u8>) -> Seq<u8> {
    be64(b.len() as u64) + b
}

/// The bytes of an ASCII character sequence, one byte per character.
pub open spec fn ascii_bytes(s: Seq<char>) -> Seq<u8> {
    Seq::new(s.len(), |i: int| s[i] as u8)
}

/// A length-prefixed ASCII string.
pub open spec fn enc_str(s: Seq<char>) -> Seq<u8> {
    be64(s.len() as u64) + ascii_bytes(s)
}

// ---------------------------------------------------------------------------
// Specification-level decoders: each yields the decoded value and how many
// bytes it consumed, or `None` where the input does not parse.
// ---------------------------------------------------------------------------

pub open spec fn sdec_u64(d: Seq<u8>) -> Option<(u64, int)> {
    if d.len() >= 8 {
        Some((combine64(d.take(8)), 8int))
    } else {
        None
    }
}

pub open spec fn sdec_u32(d: Seq<u8>) -> Option<(u32, int)> {
    if d.len() >= 4 {
        Some((combine32(d.take(4)), 4int))
    } else {
        None
    }
}

pub open spec fn sdec_bytes(d: Seq<u8>) -> Option<(Seq<u8>, int)> {
    match sdec_u64(d) {
        Some((n, _c)) => {
            if n <= usize::MAX && 8 + n <= d.len() {
                Some((d.subrange(8, 8 + n), 8 + n as int))
            } else {
                None
            }
        },
        None => None,
    }
}

pub open spec fn sdec_str(d: Seq<u8>) -> Option<(Seq<char>, int)> {
    match sdec_bytes(d) {
        Some((b, c)) => {
            if forall|k: int| 0 <= k < b.len() ==> b[k] < 128 {
                Some((Seq::new(b.len(), |i: int| b[i] as char), c))
            } else {
                None
            }
        },
        None => None,
    }
}

// ---------------------------------------------------------------------------
// Round-trip lemmas for the primitive forms
// ---------------------------------------------------------------------------

pub proof fn lemma_combine64_be64(v: u64)
    ensures
        combine64(be64(v)) == v,
{
    reveal(be64_byte);
    reveal(combine64);
    assert(((((v >> 56) as u8) as u64) << 56 | (((v >> 48) as u8) as u64) << 48 | (((v
        >> 40) as u8) as u64) << 40 | (((v >> 32) as u8) as u64) << 32 | (((v >> 24) as u8) as u64)
        << 24 | (((v >> 16) as u8) as u64) << 16 | (((v >> 8) as u8) as u64) << 8 | ((
    v as u8) as u64)) == v) by (bit_vector);
}

pub proof fn lemma_combine32_be32(v: u32)
    ensures
        combine32(be32(v)) == v,
{
    reveal(be32_byte);
    reveal(combine32);
    assert(((((v >> 24) as u8) as u32) << 24 | (((v >> 16) as u8) as u32) << 16 | (((v
        >> 8) as u8) as u32) << 8 | ((v as u8) as u32)) == v) by (bit_vector);
}

pub proof fn lemma_sdec_u64(v: u64, rest: Seq<u8>)
    ensures
        sdec_u64(be64(v) + rest) == Some((v, 8int)),
{
    let d = be64(v) + rest;
    assert(d.take(8) =~= be64(v));
    lemma_combine64_be64(v);
}

pub proof fn lemma_sdec_u32_first(v: u32, rest: Seq<u8>)
    ensures
        sdec_u32(be32(v) + rest) == Some((v, 4int)),
{
    let d = be32(v) + rest;
    assert(d.take(4) =~= be32(v));
    lemma_combine32_be32(v);
}

pub proof fn lemma_sdec_bytes(b: Seq<u8>, rest: Seq<u8>)
    requires
        b.len() <= usize::MAX,
    ensures
        sdec_bytes(enc_bytes(b) + rest) == Some((b, 8 + b.len() as int)),
{
    let d = enc_bytes(b) + rest;
    assert(d =~= be64(b.len() as u64) + (b + rest));
    lemma_sdec_u64(b.len() as u64, b + rest);
    assert(d.subrange(8, 8 + b.len() as int) =~= b);
}

pub proof fn lemma_sdec_str(s: Seq<char>, rest: Seq<u8>)
    requires
        s.len() <= usize::MAX,
        vstd::utf8::is_ascii_chars(s),
    ensures
        sdec_str(enc_str(s) + rest) == Some((s, 8 + s.len() as int)),
{
    let d = enc_str(s) + rest;
    assert(d =~= enc_bytes(ascii_bytes(s)) + rest);
    lemma_sdec_bytes(ascii_bytes(s), rest);
    let b = ascii_bytes(s);
    assert forall|k: int| 0 <= k < b.len() implies b[k] < 128 by {
        assert('\0' <= s[k] <= '\u{7f}');
    }
    let back = Seq::new(b.len(), |i: int| b[i] as char);
    assert forall|k: int| 0 <= k < s.len() implies back[k] == s[k] by {
        assert('\0' <= s[k] <= '\u{7f}');
        assert(b[k] == s[k] as u8);
    }
    assert(back =~= s);
}

// ---------------------------------------------------------------------------
// Signed values are stored as their unsigned bit patterns
// ---------------------------------------------------------------------------

pub open spec fn u32_of_i32(v: int) -> u32
    recommends
        i32::MIN <= v <= i32::MAX,
{
    if v >= 0 {
        v as u32
    } else {
        (v + 0x1_0000_0000) as u32
    }
}

pub open spec fn i32_of_u32(u: u32) -> int {
    if u < 0x8000_0000 {
        u as int
    } else {
        u as int - 0x1_0000_0000
    }
}

pub open spec fn u64_of_i64(v: int) -> u64
    recommends
        i64::MIN <= v <= i64::MAX,
{
    if v >= 0 {
        v as u64
    } else {
        (v + 0x1_0000_0000_0000_0000) as u64
    }
}

pub open spec fn i64_of_u64(u: u64) -> int {
    if u < 0x8000_0000_0000_0000 {
        u as int
    } else {
        u as int - 0x1_0000_0000_0000_0000
    }
}

pub proof fn lemma_i32_roundtrip(v: int)
    requires
        i32::MIN <= v <= i32::MAX,
    ensures
        i32_of_u32(u32_of_i32(v)) == v,
{
}

pub proof fn lemma_i64_roundtrip(v: int)
    requires
        i64::MIN <= v <= i64::MAX,
    ensures
        i64_of_u64(u64_of_i64(v)) == v,
{
}

pub proof fn lemma_exec_u32_of_i32(x: i32)
    ensures
        x as u32 == u32_of_i32(x as int),
{
    if x < 0 {
        assert((x as u32) as int == x as int + 0x1_0000_0000) by (bit_vector)
            requires
                x < 0,
        ;
    }
}

pub proof fn lemma_exec_i32_of_u32(u: u32)
    ensures
        (u as i32) as int == i32_of_u32(u),
{
    if u >= 0x8000_0000 {
        assert((u as i32) as int == u as int - 0x1_0000_0000) by (bit_vector)
            requires
                u >= 0x8000_0000,
        ;
    }
}

pub proof fn lemma_exec_u64_of_i64(x: i64)
    ensures
        x as u64 == u64_of_i64(x as int),
{
    if x < 0 {
        assert((x as u64) as int == x as int + 0x1_0000_0000_0000_0000) by (bit_vector)
            requires
                x < 0,
        ;
    }
}

pub proof fn lemma_exec_i64_of_u64(u: u64)
    ensures
        (u as i64) as int == i64_of_u64(u),
{
    if u >= 0x8000_0000_0000_0000 {
        assert((u as i64) as int == u as int - 0x1_0000_0000_0000_0000) by (bit_vector)
            requires
                u >= 0x8000_0000_0000_0000,
        ;
    }
}

// ---------------------------------------------------------------------------
// Well-formed values: what any record built from executable vectors
// satisfies, and what the round trip needs.
// ---------------------------------------------------------------------------

pub open spec fn wf_input(i: TXInputV) -> bool {
    &&& i.txid.len() <= usize::MAX
    &&& i.signature.len() <= usize::MAX
    &&& i.pub_key.len() <= usize::MAX
    &&& 0 <= i.vout <= usize::MAX
}

pub open spec fn wf_output(o: TXOutputV) -> bool {
    &&& i32::MIN <= o.value <= i32::MAX
    &&& o.pub_key_hash.len() <= usize::MAX
}

pub open spec fn wf_tx(t: TransactionV) -> bool {
    &&& t.id.len() <= usize::MAX
    &&& t.vin.len() <= usize::MAX
    &&& t.vout.len() <= usize::MAX
    &&& forall|k: int| 0 <= k < t.vin.len() ==> wf_input(#[trigger] t.vin[k])
    &&& forall|k: int| 0 <= k < t.vout.len() ==> wf_output(#[trigger] t.vout[k])
}

pub open spec fn wf_block_rec(b: BlockV) -> bool {
    &&& 0 <= b.timestamp <= u64::MAX
    &&& i64::MIN <= b.nonce <= i64::MAX
    &&& 0 <= b.height <= usize::MAX
    &&& b.pre_block_hash.len() <= usize::MAX
    &&& b.hash.len() <= usize::MAX
    &&& vstd::utf8::is_ascii_chars(b.pre_block_hash)
    &&& vstd::utf8::is_ascii_chars(b.hash)
    &&& b.transactions.len() <= usize::MAX
    &&& forall|k: int| 0 <= k < b.transactions.len() ==> wf_tx(#[trigger] b.transactions[k])
}

// ---------------------------------------------------------------------------
// Encoded forms of the ledger records
// ---------------------------------------------------------------------------

pub open spec fn enc_input(i: TXInputV) -> Seq<u8> {
    enc_bytes(i.txid) + be64(i.vout as u64) + enc_bytes(i.signature) + enc_bytes(i.pub_key)
}

pub open spec fn enc_output(o: TXOutputV) -> Seq<u8> {
    be32(u32_of_i32(o.value)) + enc_bytes(o.pub_key_hash)
}

pub open spec fn enc_inputs_cat(s: Seq<TXInputV>) -> Seq<u8>
    decreases s.len(),
{
    if s.len() == 0 {
        Seq::empty()
    } else {
        enc_input(s[0]) + enc_inputs_cat(s.skip(1))
    }
}

pub open spec fn enc_input_list(s: Seq<TXInputV>) -> Seq<u8> {
    be64(s.len() as u64) + enc_inputs_cat(s)
}

pub open spec fn enc_outputs_cat(s: Seq<TXOutputV>) -> Seq<u8>
    decreases s.len(),
{
    if s.len() == 0 {
        Seq::empty()
    } else {
        enc_output(s[0]) + enc_outputs_cat(s.skip(1))
    }
}

pub open spec fn enc_output_list(s: Seq<TXOutputV>) -> Seq<u8> {
    be64(s.len() as u64) + enc_outputs_cat(s)
}

pub open spec fn enc_tx(t: TransactionV) -> Seq<u8> {
    enc_bytes(t.id) + enc_input_list(t.vin) + enc_output_list(t.vout)
}

pub open spec fn enc_txs_cat(s: Seq<TransactionV>) -> Seq<u8>
    decreases s.len(),
{
    if s.len() == 0 {
        Seq::empty()
    } else {
        enc_tx(s[0]) + enc_txs_cat(s.skip(1))
    }
}

pub open spec fn enc_block(b: BlockV) -> Seq<u8> {
    be64(b.timestamp as u64) + enc_str(b.pre_block_hash) + enc_str(b.hash) + be64(
        u64_of_i64(b.nonce),
    ) + be64(b.height as u64) + be64(b.transactions.len() as u64) + enc_txs_cat(b.transactions)
}

// ---------------------------------------------------------------------------
// Specification decoders for the ledger records
// ---------------------------------------------------------------------------

pub open spec fn sdec_input(d: Seq<u8>) -> Option<(TXInputV, int)> {
    match sdec_bytes(d) {
        Some((txid, c1)) => match sdec_u64(d.skip(c1)) {
            Some((vout, c2)) => {
                if vout <= usize::MAX {
                    match sdec_bytes(d.skip(c1 + c2)) {
                        Some((sig, c3)) => match sdec_bytes(d.skip(c1 + c2 + c3)) {
                            Some((pk, c4)) => Some(
                                (
                                    TXInputV {
                                        txid,
                                        vout: vout as int,
                                        signature: sig,
                                        pub_key: pk,
                                    },
                                    c1 + c2 + c3 + c4,
                                ),
                            ),
                            None => None,
                        },
                        None => None,
                    }
                } else {
                    None
                }
            },
            None => None,
        },
        None => None,
    }
}

pub open spec fn sdec_output(d: Seq<u8>) -> Option<(TXOutputV, int)> {
    match sdec_u32(d) {
        Some((u, c1)) => match sdec_bytes(d.skip(c1)) {
            Some((pkh, c2)) => Some(
                (TXOutputV { value: i32_of_u32(u), pub_key_hash: pkh }, c1 + c2),
            ),
            None => None,
        },
        None => None,
    }
}

pub open spec fn sdec_inputs(d: Seq<u8>, n: int) -> Option<(Seq<TXInputV>, int)>
    decreases n,
{
    if n <= 0 {
        Some((Seq::empty(), 0int))
    } else {
        match sdec_input(d) {
            Some((x, c)) => match sdec_inputs(d.skip(c), n - 1) {
                Some((s, c2)) => Some((seq![x] + s, c + c2)),
                None => None,
            },
            None => None,
        }
    }
}

pub open spec fn sdec_input_list(d: Seq<u8>) -> Option<(Seq<TXInputV>, int)> {
    match sdec_u64(d) {
        Some((n, _c)) => {
            if n <= usize::MAX {
                match sdec_inputs(d.skip(8), n as int) {
                    Some((s, c)) => Some((s, 8 + c)),
                    None => None,
                }
            } else {
                None
            }
        },
        None => None,
    }
}

pub open spec fn sdec_outputs(d: Seq<u8>, n: int) -> Option<(Seq<TXOutputV>, int)>
    decreases n,
{
    if n <= 0 {
        Some((Seq::empty(), 0int))
    } else {
        match sdec_output(d) {
            Some((x, c)) => match sdec_outputs(d.skip(c), n - 1) {
                Some((s, c2)) => Some((seq![x] + s, c + c2)),
                None => None,
            },
            None => None,
        }
    }
}

pub open spec fn sdec_output_list(d: Seq<u8>) -> Option<(Seq<TXOutputV>, int)> {
    match sdec_u64(d) {
        Some((n, _c)) => {
            if n <= usize::MAX {
                match sdec_outputs(d.skip(8), n as int) {
                    Some((s, c)) => Some((s, 8 + c)),
                    None => None,
                }
            } else {
                None
            }
        },
        None => None,
    }
}

pub open spec fn sdec_tx(d: Seq<u8>) -> Option<(TransactionV, int)> {
    match sdec_bytes(d) {
        Some((id, c1)) => match sdec_input_list(d.skip(c1)) {
            Some((vin, c2)) => match sdec_output_list(d.skip(c1 + c2)) {
                Some((vout, c3)) => Some((TransactionV { id, vin, vout }, c1 + c2 + c3)),
                None => None,
            },
            None => None,
        },
        None => None,
    }
}

pub open spec fn sdec_txs(d: Seq<u8>, n: int) -> Option<(Seq<TransactionV>, int)>
    decreases n,
{
    if n <= 0 {
        Some((Seq::empty(), 0int))
    } else {
        match sdec_tx(d) {
            Some((x, c)) => match sdec_txs(d.skip(c), n - 1) {
                Some((s, c2)) => Some((seq![x] + s, c + c2)),
                None => None,
            },
            None => None,
        }
    }
}

pub open spec fn sdec_block(d: Seq<u8>) -> Option<(BlockV, int)> {
    match sdec_u64(d) {
        Some((ts, c1)) => match sdec_str(d.skip(c1)) {
            Some((pre, c2)) => match sdec_str(d.skip(c1 + c2)) {
                Some((hash, c3)) => match sdec_u64(d.skip(c1 + c2 + c3)) {
                    Some((nu, c4)) => match sdec_u64(d.skip(c1 + c2 + c3 + c4)) {
                        Some((hu, c5)) => {
                            if hu <= usize::MAX {
                                match sdec_u64(d.skip(c1 + c2 + c3 + c4 + c5)) {
                                    Some((cnt, c6)) => {
                                        if cnt <= usize::MAX {
                                            match sdec_txs(
                                                d.skip(c1 + c2 + c3 + c4 + c5 + c6),
                                                cnt as int,
                                            ) {
                                                Some((txs, c7)) => Some(
                                                    (
                                                        BlockV {
                                                            timestamp: ts as int,
                                                            pre_block_hash: pre,
                                                            hash: hash,
                                                            transactions: txs,
                                                            nonce: i64_of_u64(nu),
                                                            height: hu as int,
                                                        },
                                                        c1 + c2 + c3 + c4 + c5 + c6 + c7,
                                                    ),
                                                ),
                                                None => None,
                                            }
                                        } else {
                                            None
                                        }
                                    },
                                    None => None,
                                }
                            } else {
                                None
                            }
                        },
                        None => None,
                    },
                    None => None,
                },
                None => None,
            },
            None => None,
        },
        None => None,
    }
}

/// Decodes one block record, demanding that the record is consumed whole.
pub open spec fn spec_decode_block(d: Seq<u8>) -> Option<BlockV> {
    match sdec_block(d) {
        Some((b, c)) => if c == d.len() {
            Some(b)
        } else {
            None
        },
        None => None,
    }
}

/// Decodes one output-list record, demanding that the record is consumed
/// whole.
pub open spec fn spec_decode_outputs(d: Seq<u8>) -> Option<Seq<TXOutputV>> {
    match sdec_output_list(d) {
        Some((s, c)) => if c == d.len() {
            Some(s)
        } else {
            None
        },
        None => None,
    }
}

// ---------------------------------------------------------------------------
// Round-trip lemmas for the ledger records
// ---------------------------------------------------------------------------

#[verifier::rlimit(100)]
pub proof fn lemma_sdec_input(i: TXInputV, rest: Seq<u8>)
    requires
        wf_input(i),
    ensures
        sdec_input(enc_input(i) + rest) == Some((i, enc_input(i).len() as int)),
{
    let e1 = enc_bytes(i.txid);
    let e2 = be64(i.vout as u64);
    let e3 = enc_bytes(i.signature);
    let e4 = enc_bytes(i.pub_key);
    let d = enc_input(i) + rest;
    assert(d =~= e1 + (e2 + (e3 + (e4 + rest))));
    lemma_sdec_bytes(i.txid, e2 + (e3 + (e4 + rest)));
    let c1 = 8 + i.txid.len() as int;
    assert(c1 == e1.len());
    assert(d.skip(c1) =~= e2 + (e3 + (e4 + rest)));
    lemma_sdec_u64(i.vout as u64, e3 + (e4 + rest));
    assert(d.skip(c1 + 8) =~= e3 + (e4 + rest));
    lemma_sdec_bytes(i.signature, e4 + rest);
    let c3 = 8 + i.signature.len() as int;
    assert(d.skip(c1 + 8 + c3) =~= e4 + rest);
    lemma_sdec_bytes(i.pub_key, rest);
    let c4 = 8 + i.pub_key.len() as int;
    let got = (sdec_input(d)->0).0;
    assert(got =~= i);
    assert((sdec_input(d)->0).1 == c1 + 8 + c3 + c4);
    assert(enc_input(i).len() == c1 + 8 + c3 + c4);
}

#[verifier::rlimit(100)]
pub proof fn lemma_sdec_output(o: TXOutputV, rest: Seq<u8>)
    requires
        wf_output(o),
    ensures
        sdec_output(enc_output(o) + rest) == Some((o, enc_output(o).len() as int)),
{
    let e1 = be32(u32_of_i32(o.value));
    let e2 = enc_bytes(o.pub_key_hash);
    let d = enc_output(o) + rest;
    assert(d =~= e1 + (e2 + rest));
    lemma_sdec_u32_first(u32_of_i32(o.value), e2 + rest);
    assert(d.skip(4) =~= e2 + rest);
    lemma_sdec_bytes(o.pub_key_hash, rest);
    lemma_i32_roundtrip(o.value);
    let got = (sdec_output(d)->0).0;
    assert(got =~= o);
}

#[verifier::rlimit(100)]
pub proof fn lemma_sdec_inputs_cat(s: Seq<TXInputV>, rest: Seq<u8>)
    requires
        forall|k: int| 0 <= k < s.len() ==> wf_input(#[trigger] s[k]),
    ensures
        sdec_inputs(enc_inputs_cat(s) + rest, s.len() as int) == Some(
            (s, enc_inputs_cat(s).len() as int),
        ),
    decreases s.len(),
{
    if s.len() == 0 {
        assert(s =~= Seq::<TXInputV>::empty());
    } else {
        let d = enc_inputs_cat(s) + rest;
        assert(d =~= enc_input(s[0]) + (enc_inputs_cat(s.skip(1)) + rest));
        lemma_sdec_input(s[0], enc_inputs_cat(s.skip(1)) + rest);
        let c = enc_input(s[0]).len() as int;
        assert(d.skip(c) =~= enc_inputs_cat(s.skip(1)) + rest);
        assert forall|k: int| 0 <= k < s.skip(1).len() implies wf_input(#[trigger] s.skip(1)[k]) by {
            assert(s.skip(1)[k] == s[k + 1]);
        }
        lemma_sdec_inputs_cat(s.skip(1), rest);
        assert(seq![s[0]] + s.skip(1) =~= s);
        assert(enc_inputs_cat(s).len() == c + enc_inputs_cat(s.skip(1)).len());
    }
}

pub proof fn lemma_sdec_input_list(s: Seq<TXInputV>, rest: Seq<u8>)
    requires
        s.len() <= usize::MAX,
        forall|k: int| 0 <= k < s.len() ==> wf_input(#[trigger] s[k]),
    ensures
        sdec_input_list(enc_input_list(s) + rest) == Some((s, enc_input_list(s).len() as int)),
{
    let d = enc_input_list(s) + rest;
    assert(d =~= be64(s.len() as u64) + (enc_inputs_cat(s) + rest));
    lemma_sdec_u64(s.len() as u64, enc_inputs_cat(s) + rest);
    assert(d.skip(8) =~= enc_inputs_cat(s) + rest);
    lemma_sdec_inputs_cat(s, rest);
}

#[verifier::rlimit(100)]
pub proof fn lemma_sdec_outputs_cat(s: Seq<TXOutputV>, rest: Seq<u8>)
    requires
        forall|k: int| 0 <= k < s.len() ==> wf_output(#[trigger] s[k]),
    ensures
        sdec_outputs(enc_outputs_cat(s) + rest, s.len() as int) == Some(
            (s, enc_outputs_cat(s).len() as int),
        ),
    decreases s.len(),
{
    if s.len() == 0 {
        assert(s =~= Seq::<TXOutputV>::empty());
    } else {
        let d = enc_outputs_cat(s) + rest;
        assert(d =~= enc_output(s[0]) + (enc_outputs_cat(s.skip(1)) + rest));
        lemma_sdec_output(s[0], enc_outputs_cat(s.skip(1)) + rest);
        let c = enc_output(s[0]).len() as int;
        assert(d.skip(c) =~= enc_outputs_cat(s.skip(1)) + rest);
        assert forall|k: int| 0 <= k < s.skip(1).len() implies wf_output(
            #[trigger] s.skip(1)[k],
        ) by {
            assert(s.skip(1)[k] == s[k + 1]);
        }
        lemma_sdec_outputs_cat(s.skip(1), rest);
        assert(seq![s[0]] + s.skip(1) =~= s);
        assert(enc_outputs_cat(s).len() == c + enc_outputs_cat(s.skip(1)).len());
    }
}

pub proof fn lemma_sdec_output_list(s: Seq<TXOutputV>, rest: Seq<u8>)
    requires
        s.len() <= usize::MAX,
        forall|k: int| 0 <= k < s.len() ==> wf_output(#[trigger] s[k]),
    ensures
        sdec_output_list(enc_output_list(s) + rest) == Some((s, enc_output_list(s).len() as int)),
{
    let d = enc_output_list(s) + rest;
    assert(d =~= be64(s.len() as u64) + (enc_outputs_cat(s) + rest));
    lemma_sdec_u64(s.len() as u64, enc_outputs_cat(s) + rest);
    assert(d.skip(8) =~= enc_outputs_cat(s) + rest);
    lemma_sdec_outputs_cat(s, rest);
}

#[verifier::rlimit(100)]
pub proof fn lemma_sdec_tx(t: TransactionV, rest: Seq<u8>)
    requires
        wf_tx(t),
    ensures
        sdec_tx(enc_tx(t) + rest) == Some((t, enc_tx(t).len() as int)),
{
    let e1 = enc_bytes(t.id);
    let e2 = enc_input_list(t.vin);
    let e3 = enc_output_list(t.vout);
    let d = enc_tx(t) + rest;
    assert(d =~= e1 + (e2 + (e3 + rest)));
    lemma_sdec_bytes(t.id, e2 + (e3 + rest));
    let c1 = 8 + t.id.len() as int;
    assert(c1 == e1.len());
    assert(d.skip(c1) =~= e2 + (e3 + rest));
    lemma_sdec_input_list(t.vin, e3 + rest);
    let c2 = e2.len() as int;
    assert(d.skip(c1 + c2) =~= e3 + rest);
    lemma_sdec_output_list(t.vout, rest);
    let got = (sdec_tx(d)->0).0;
    assert(got =~= t);
}

#[verifier::rlimit(100)]
pub proof fn lemma_sdec_txs_cat(s: Seq<TransactionV>, rest: Seq<u8>)
    requires
        forall|k: int| 0 <= k < s.len() ==> wf_tx(#[trigger] s[k]),
    ensures
        sdec_txs(enc_txs_cat(s) + rest, s.len() as int) == Some(
            (s, enc_txs_cat(s).len() as int),
        ),
    decreases s.len(),
{
    if s.len() == 0 {
        assert(s =~= Seq::<TransactionV>::empty());
    } else {
        let d = enc_txs_cat(s) + rest;
        assert(d =~= enc_tx(s[0]) + (enc_txs_cat(s.skip(1)) + rest));
        lemma_sdec_tx(s[0], enc_txs_cat(s.skip(1)) + rest);
        let c = enc_tx(s[0]).len() as int;
        assert(d.skip(c) =~= enc_txs_cat(s.skip(1)) + rest);
        assert forall|k: int| 0 <= k < s.skip(1).len() implies wf_tx(#[trigger] s.skip(1)[k]) by {
            assert(s.skip(1)[k] == s[k + 1]);
        }
        lemma_sdec_txs_cat(s.skip(1), rest);
        assert(seq![s[0]] + s.skip(1) =~= s);
        assert(enc_txs_cat(s).len() == c + enc_txs_cat(s.skip(1)).len());
    }
}

#[verifier::rlimit(100)]
pub proof fn lemma_sdec_block(b: BlockV, rest: Seq<u8>)
    requires
        wf_block_rec(b),
    ensures
        sdec_block(enc_block(b) + rest) == Some((b, enc_block(b).len() as int)),
{
    let e1 = be64(b.timestamp as u64);
    let e2 = enc_str(b.pre_block_hash);
    let e3 = enc_str(b.hash);
    let e4 = be64(u64_of_i64(b.nonce));
    let e5 = be64(b.height as u64);
    let e6 = be64(b.transactions.len() as u64);
    let e7 = enc_txs_cat(b.transactions);
    let d = enc_block(b) + rest;
    assert(d =~= e1 + (e2 + (e3 + (e4 + (e5 + (e6 + (e7 + rest)))))));
    lemma_sdec_u64(b.timestamp as u64, e2 + (e3 + (e4 + (e5 + (e6 + (e7 + rest))))));
    let c1 = 8int;
    assert(d.skip(c1) =~= e2 + (e3 + (e4 + (e5 + (e6 + (e7 + rest))))));
    lemma_sdec_str(b.pre_block_hash, e3 + (e4 + (e5 + (e6 + (e7 + rest)))));
    let c2 = e2.len() as int;
    assert(d.skip(c1 + c2) =~= e3 + (e4 + (e5 + (e6 + (e7 + rest)))));
    lemma_sdec_str(b.hash, e4 + (e5 + (e6 + (e7 + rest))));
    let c3 = e3.len() as int;
    assert(d.skip(c1 + c2 + c3) =~= e4 + (e5 + (e6 + (e7 + rest))));
    lemma_sdec_u64(u64_of_i64(b.nonce), e5 + (e6 + (e7 + rest)));
    assert(d.skip(c1 + c2 + c3 + 8) =~= e5 + (e6 + (e7 + rest)));
    lemma_sdec_u64(b.height as u64, e6 + (e7 + rest));
    assert(d.skip(c1 + c2 + c3 + 8 + 8) =~= e6 + (e7 + rest));
    lemma_sdec_u64(b.transactions.len() as u64, e7 + rest);
    assert(d.skip(c1 + c2 + c3 + 8 + 8 + 8) =~= e7 + rest);
    lemma_sdec_txs_cat(b.transactions, rest);
    lemma_i64_roundtrip(b.nonce);
    let got = (sdec_block(d)->0).0;
    assert(got =~= b);
    assert((sdec_block(d)->0).1 == enc_block(b).len());
}

/// Round trip for a whole block record: decoding what was encoded yields
/// the same block and consumes every byte.
pub proof fn lemma_block_roundtrip(b: BlockV)
    requires
        wf_block_rec(b),
    ensures
        spec_decode_block(enc_block(b)) == Some(b),
{
    lemma_sdec_block(b, Seq::empty());
    assert(enc_block(b) + Seq::<u8>::empty() =~= enc_block(b));
}

/// Round trip for an output-list record.
pub proof fn lemma_outputs_roundtrip(s: Seq<TXOutputV>)
    requires
        s.len() <= usize::MAX,
        forall|k: int| 0 <= k < s.len() ==> wf_output(#[trigger] s[k]),
    ensures
        spec_decode_outputs(enc_output_list(s)) == Some(s),
{
    lemma_sdec_output_list(s, Seq::empty());
    assert(enc_output_list(s) + Seq::<u8>::empty() =~= enc_output_list(s));
}

// ---------------------------------------------------------------------------
// Executable encoders: each appends the encoded form to `out`.
// ---------------------------------------------------------------------------

pub fn write_u64(out: &mut Vec<u8>, v: u64)
    ensures
        final(out)@ == old(out)@ + be64(v),
{
    out.push((v >> 56) as u8);
    out.push((v >> 48) as u8);
    out.push((v >> 40) as u8);
    out.push((v >> 32) as u8);
    out.push((v >> 24) as u8);
    out.push((v >> 16) as u8);
    out.push((v >> 8) as u8);
    out.push(v as u8);
    proof {
        reveal(be64_byte);
        assert(out@ =~= old(out)@ + be64(v));
    }
}

pub fn write_u32(out: &mut Vec<u8>, v: u32)
    ensures
        final(out)@ == old(out)@ + be32(v),
{
    out.push((v >> 24) as u8);
    out.push((v >> 16) as u8);
    out.push((v >> 8) as u8);
    out.push(v as u8);
    proof {
        reveal(be32_byte);
        assert(out@ =~= old(out)@ + be32(v));
    }
}

pub fn write_bytes(out: &mut Vec<u8>, b: &[u8])
    ensures
        final(out)@ == old(out)@ + enc_bytes(b@),
{
    write_u64(out, b.len() as u64);
    let ghost mid = out@;
    let mut i: usize = 0;
    while i < b.len()
        invariant
            i <= b@.len(),
            out@ == mid + b@.take(i as int),
        decreases b@.len() - i,
    {
        out.push(b[i]);
        proof {
            assert(mid + b@.take(i as int) + seq![b@[i as int]] =~= mid + b@.take(i + 1));
        }
        i = i + 1;
    }
    proof {
        assert(b@.take(b@.len() as int) =~= b@);
        assert(old(out)@ + be64(b@.len() as u64) + b@ =~= old(out)@ + enc_bytes(b@));
    }
}

/// Writes an ASCII string as its length-prefixed bytes.
pub fn write_str(out: &mut Vec<u8>, s: &str)
    requires
        vstd::string::is_ascii(s),
    ensures
        final(out)@ == old(out)@ + enc_str(s@),
{
    proof {
        vstd::string::is_ascii_spec_bytes(s);
    }
    let bytes = s.as_bytes();
    write_bytes(out, bytes);
    proof {
        assert(bytes@ =~= ascii_bytes(s@));
        assert(old(out)@ + enc_bytes(bytes@) =~= old(out)@ + enc_str(s@));
    }
}

// ---------------------------------------------------------------------------
// Executable decoders: each reads at index `i` and reports the decoded
// value with the next index, mirroring the specification decoder on the
// remaining bytes.
// ---------------------------------------------------------------------------

pub fn dec_u64(d: &[u8], i: usize) -> (r: Option<(u64, usize)>)
    requires
        i <= d@.len(),
    ensures
        r is Some <==> sdec_u64(d@.skip(i as int)) is Some,
        r is Some ==> (r->0).0 == (sdec_u64(d@.skip(i as int))->0).0,
        r is Some ==> (r->0).1 == i + (sdec_u64(d@.skip(i as int))->0).1,
{
    if d.len() - i < 8 {
        return None;
    }
    let v = (d[i] as u64) << 56 | (d[i + 1] as u64) << 48 | (d[i + 2] as u64) << 40 | (d[i
        + 3] as u64) << 32 | (d[i + 4] as u64) << 24 | (d[i + 5] as u64) << 16 | (d[i
        + 6] as u64) << 8 | (d[i + 7] as u64);
    proof {
        let t = d@.skip(i as int);
        assert(t.take(8) =~= d@.subrange(i as int, i + 8));
        reveal(combine64);
        assert(combine64(t.take(8)) == v);
    }
    Some((v, i + 8))
}

pub fn dec_u32(d: &[u8], i: usize) -> (r: Option<(u32, usize)>)
    requires
        i <= d@.len(),
    ensures
        r is Some <==> sdec_u32(d@.skip(i as int)) is Some,
        r is Some ==> (r->0).0 == (sdec_u32(d@.skip(i as int))->0).0,
        r is Some ==> (r->0).1 == i + (sdec_u32(d@.skip(i as int))->0).1,
{
    if d.len() - i < 4 {
        return None;
    }
    let v = (d[i] as u32) << 24 | (d[i + 1] as u32) << 16 | (d[i + 2] as u32) << 8 | (d[i
        + 3] as u32);
    proof {
        let t = d@.skip(i as int);
        assert(t.take(4) =~= d@.subrange(i as int, i + 4));
        reveal(combine32);
        assert(combine32(t.take(4)) == v);
    }
    Some((v, i + 4))
}

pub fn dec_bytes(d: &[u8], i: usize) -> (r: Option<(Vec<u8>, usize)>)
    requires
        i <= d@.len(),
    ensures
        r is Some <==> sdec_bytes(d@.skip(i as int)) is Some,
        r is Some ==> (r->0).0@ == (sdec_bytes(d@.skip(i as int))->0).0,
        r is Some ==> (r->0).1 == i + (sdec_bytes(d@.skip(i as int))->0).1,
        r is Some ==> (r->0).1 <= d@.len(),
{
    let (n, j) = match dec_u64(d, i) {
        Some(p) => p,
        None => {
            return None;
        },
    };
    if n > (d.len() - j) as u64 {
        return None;
    }
    let len = n as usize;
    let body = vstd::slice::slice_subrange(d, j, j + len);
    let v = vstd::slice::slice_to_vec(body);
    proof {
        let t = d@.skip(i as int);
        assert(t.subrange(8, 8 + n as int) =~= d@.subrange(j as int, j + n as int));
    }
    Some((v, j + len))
}

/// Relies on String::from_utf8: every ASCII byte string is valid UTF-8 and
/// decodes to the characters whose codes are those bytes.
#[verifier::external_body]
pub(crate) fn bytes_to_string(bytes: Vec<u8>) -> (r: String)
    requires
        forall|k: int| 0 <= k < bytes@.len() ==> bytes@[k] < 128,
    ensures
        r@.len() == bytes@.len(),
        forall|k: int| 0 <= k < bytes@.len() ==> r@[k] == bytes@[k] as char,
        vstd::utf8::is_ascii_chars(r@),
        ascii_bytes(r@) == bytes@,
{
    match String::from_utf8(bytes) {
        Ok(s) => s,
        Err(_) => String::new(),
    }
}

pub fn dec_str(d: &[u8], i: usize) -> (r: Option<(String, usize)>)
    requires
        i <= d@.len(),
    ensures
        r is Some <==> sdec_str(d@.skip(i as int)) is Some,
        r is Some ==> (r->0).0@ == (sdec_str(d@.skip(i as int))->0).0,
        r is Some ==> (r->0).1 == i + (sdec_str(d@.skip(i as int))->0).1,
        r is Some ==> (r->0).1 <= d@.len(),
        r is Some ==> vstd::utf8::is_ascii_chars((r->0).0@),
{
    let (bytes, j) = match dec_bytes(d, i) {
        Some(p) => p,
        None => {
            return None;
        },
    };
    let mut k: usize = 0;
    while k < bytes.len()
        invariant
            k <= bytes@.len(),
            i <= d@.len(),
            sdec_bytes(d@.skip(i as int)) is Some,
            bytes@ == (sdec_bytes(d@.skip(i as int))->0).0,
            forall|m: int| 0 <= m < k ==> bytes@[m] < 128,
        decreases bytes@.len() - k,
    {
        if bytes[k] >= 128 {
            return None;
        }
        k = k + 1;
    }
    let ghost bv = bytes@;
    let s = bytes_to_string(bytes);
    proof {
        let sd = sdec_str(d@.skip(i as int));
        assert(sd is Some);
        assert(s@ =~= (sd->0).0);
    }
    Some((s, j))
}


// ---------------------------------------------------------------------------
// Any record built from executable vectors is well formed
// ---------------------------------------------------------------------------

pub proof fn lemma_vec_view_bound<T>(v: &Vec<T>)
    ensures
        v@.len() <= usize::MAX,
{
    vstd::std_specs::vec::axiom_spec_len(v);
}

pub proof fn lemma_exec_tx_wf(t: &Transaction)
    ensures
        wf_tx(t@),
{
    lemma_vec_view_bound(&t.id);
    lemma_vec_view_bound(&t.vin);
    lemma_vec_view_bound(&t.vout);
    assert forall|k: int| 0 <= k < t@.vin.len() implies wf_input(#[trigger] t@.vin[k]) by {
        assert(t@.vin[k] == t.vin@[k]@);
        lemma_vec_view_bound(&t.vin@[k].txid);
        lemma_vec_view_bound(&t.vin@[k].signature);
        lemma_vec_view_bound(&t.vin@[k].pub_key);
    }
    assert forall|k: int| 0 <= k < t@.vout.len() implies wf_output(#[trigger] t@.vout[k]) by {
        assert(t@.vout[k] == t.vout@[k]@);
        lemma_vec_view_bound(&t.vout@[k].pub_key_hash);
    }
}

pub proof fn lemma_exec_block_wf(b: &crate::block::Block)
    requires
        vstd::utf8::is_ascii_chars(b@.pre_block_hash),
        vstd::utf8::is_ascii_chars(b@.hash),
        b@.pre_block_hash.len() <= usize::MAX,
        b@.hash.len() <= usize::MAX,
    ensures
        wf_block_rec(b@),
{
    lemma_vec_view_bound(&b.transactions);
    assert forall|k: int| 0 <= k < b@.transactions.len() implies wf_tx(
        #[trigger] b@.transactions[k],
    ) by {
        assert(b@.transactions[k] == b.transactions@[k]@);
        lemma_exec_tx_wf(&b.transactions@[k]);
    }
}

// ---------------------------------------------------------------------------
// Concatenation facts for the list encoders
// ---------------------------------------------------------------------------

pub proof fn lemma_inputs_cat_concat(a: Seq<TXInputV>, b: Seq<TXInputV>)
    ensures
        enc_inputs_cat(a + b) == enc_inputs_cat(a) + enc_inputs_cat(b),
    decreases a.len(),
{
    if a.len() == 0 {
        assert(a + b =~= b);
        assert(enc_inputs_cat(a) + enc_inputs_cat(b) =~= enc_inputs_cat(b));
    } else {
        lemma_inputs_cat_concat(a.skip(1), b);
        assert((a + b).skip(1) =~= a.skip(1) + b);
        assert((a + b)[0] == a[0]);
        assert(enc_input(a[0]) + (enc_inputs_cat(a.skip(1)) + enc_inputs_cat(b)) =~= (enc_input(
            a[0],
        ) + enc_inputs_cat(a.skip(1))) + enc_inputs_cat(b));
    }
}

pub proof fn lemma_inputs_cat_snoc(s: Seq<TXInputV>, j: int)
    requires
        0 <= j < s.len(),
    ensures
        enc_inputs_cat(s.take(j + 1)) == enc_inputs_cat(s.take(j)) + enc_input(s[j]),
{
    assert(s.take(j + 1) =~= s.take(j) + seq![s[j]]);
    lemma_inputs_cat_concat(s.take(j), seq![s[j]]);
    let one = seq![s[j]];
    assert(one.skip(1) =~= Seq::<TXInputV>::empty());
    assert(enc_inputs_cat(one) =~= enc_input(one[0]) + enc_inputs_cat(one.skip(1)));
    assert(enc_inputs_cat(one) =~= enc_input(s[j]));
}

pub proof fn lemma_outputs_cat_concat(a: Seq<TXOutputV>, b: Seq<TXOutputV>)
    ensures
        enc_outputs_cat(a + b) == enc_outputs_cat(a) + enc_outputs_cat(b),
    decreases a.len(),
{
    if a.len() == 0 {
        assert(a + b =~= b);
        assert(enc_outputs_cat(a) + enc_outputs_cat(b) =~= enc_outputs_cat(b));
    } else {
        lemma_outputs_cat_concat(a.skip(1), b);
        assert((a + b).skip(1) =~= a.skip(1) + b);
        assert((a + b)[0] == a[0]);
        assert(enc_output(a[0]) + (enc_outputs_cat(a.skip(1)) + enc_outputs_cat(b)) =~= (
        enc_output(a[0]) + enc_outputs_cat(a.skip(1))) + enc_outputs_cat(b));
    }
}

pub proof fn lemma_outputs_cat_snoc(s: Seq<TXOutputV>, j: int)
    requires
        0 <= j < s.len(),
    ensures
        enc_outputs_cat(s.take(j + 1)) == enc_outputs_cat(s.take(j)) + enc_output(s[j]),
{
    assert(s.take(j + 1) =~= s.take(j) + seq![s[j]]);
    lemma_outputs_cat_concat(s.take(j), seq![s[j]]);
    let one = seq![s[j]];
    assert(one.skip(1) =~= Seq::<TXOutputV>::empty());
    assert(enc_outputs_cat(one) =~= enc_output(one[0]) + enc_outputs_cat(one.skip(1)));
    assert(enc_outputs_cat(one) =~= enc_output(s[j]));
}

pub proof fn lemma_txs_cat_concat(a: Seq<TransactionV>, b: Seq<TransactionV>)
    ensures
        enc_txs_cat(a + b) == enc_txs_cat(a) + enc_txs_cat(b),
    decreases a.len(),
{
    if a.len() == 0 {
        assert(a + b =~= b);
        assert(enc_txs_cat(a) + enc_txs_cat(b) =~= enc_txs_cat(b));
    } else {
        lemma_txs_cat_concat(a.skip(1), b);
        assert((a + b).skip(1) =~= a.skip(1) + b);
        assert((a + b)[0] == a[0]);
        assert(enc_tx(a[0]) + (enc_txs_cat(a.skip(1)) + enc_txs_cat(b)) =~= (enc_tx(a[0])
            + enc_txs_cat(a.skip(1))) + enc_txs_cat(b));
    }
}

pub proof fn lemma_txs_cat_snoc(s: Seq<TransactionV>, j: int)
    requires
        0 <= j < s.len(),
    ensures
        enc_txs_cat(s.take(j + 1)) == enc_txs_cat(s.take(j)) + enc_tx(s[j]),
{
    assert(s.take(j + 1) =~= s.take(j) + seq![s[j]]);
    lemma_txs_cat_concat(s.take(j), seq![s[j]]);
    let one = seq![s[j]];
    assert(one.skip(1) =~= Seq::<TransactionV>::empty());
    assert(enc_txs_cat(one) =~= enc_tx(one[0]) + enc_txs_cat(one.skip(1)));
    assert(enc_txs_cat(one) =~= enc_tx(s[j]));
}

// ---------------------------------------------------------------------------
// Executable encoders for the ledger records
// ---------------------------------------------------------------------------

pub fn write_input(out: &mut Vec<u8>, x: &TXInput)
    ensures
        final(out)@ == old(out)@ + enc_input(x@),
{
    write_bytes(out, x.txid.as_slice());
    write_u64(out, x.vout as u64);
    write_bytes(out, x.signature.as_slice());
    write_bytes(out, x.pub_key.as_slice());
    proof {
        assert(out@ =~= old(out)@ + enc_input(x@));
    }
}

pub fn write_output(out: &mut Vec<u8>, x: &TXOutput)
    ensures
        final(out)@ == old(out)@ + enc_output(x@),
{
    write_u32(out, x.value as u32);
    write_bytes(out, x.pub_key_hash.as_slice());
    proof {
        lemma_exec_u32_of_i32(x.value);
        assert(out@ =~= old(out)@ + enc_output(x@));
    }
}

pub fn write_tx(out: &mut Vec<u8>, t: &Transaction)
    ensures
        final(out)@ == old(out)@ + enc_tx(t@),
{
    write_bytes(out, t.id.as_slice());
    write_u64(out, t.vin.len() as u64);
    let ghost mid1 = out@;
    let mut i: usize = 0;
    while i < t.vin.len()
        invariant
            i <= t.vin@.len(),
            out@ == mid1 + enc_inputs_cat(t.vin.deep_view().take(i as int)),
        decreases t.vin@.len() - i,
    {
        write_input(out, &t.vin[i]);
        proof {
            lemma_inputs_cat_snoc(t.vin.deep_view(), i as int);
            assert(t.vin.deep_view()[i as int] == t.vin@[i as int]@);
            assert(out@ =~= mid1 + enc_inputs_cat(t.vin.deep_view().take(i + 1)));
        }
        i = i + 1;
    }
    proof {
        assert(t.vin.deep_view().take(t.vin@.len() as int) =~= t.vin.deep_view());
    }
    write_u64(out, t.vout.len() as u64);
    let ghost mid2 = out@;
    let mut j: usize = 0;
    while j < t.vout.len()
        invariant
            j <= t.vout@.len(),
            out@ == mid2 + enc_outputs_cat(t.vout.deep_view().take(j as int)),
        decreases t.vout@.len() - j,
    {
        write_output(out, &t.vout[j]);
        proof {
            lemma_outputs_cat_snoc(t.vout.deep_view(), j as int);
            assert(t.vout.deep_view()[j as int] == t.vout@[j as int]@);
            assert(out@ =~= mid2 + enc_outputs_cat(t.vout.deep_view().take(j + 1)));
        }
        j = j + 1;
    }
    proof {
        assert(t.vout.deep_view().take(t.vout@.len() as int) =~= t.vout.deep_view());
        assert(out@ =~= old(out)@ + enc_tx(t@));
    }
}

/// Encodes one transaction record.
pub fn encode_transaction(t: &Transaction) -> (r: Vec<u8>)
    ensures
        r@ == enc_tx(t@),
{
    let mut out: Vec<u8> = Vec::new();
    write_tx(&mut out, t);
    proof {
        assert(out@ =~= enc_tx(t@));
    }
    out
}

/// Encodes one block record.
pub fn encode_block(b: &crate::block::Block) -> (r: Vec<u8>)
    requires
        vstd::utf8::is_ascii_chars(b@.pre_block_hash),
        vstd::utf8::is_ascii_chars(b@.hash),
    ensures
        r@ == enc_block(b@),
{
    let mut out: Vec<u8> = Vec::new();
    write_u64(&mut out, b.timestamp);
    write_str(&mut out, b.pre_block_hash.as_str());
    write_str(&mut out, b.hash.as_str());
    write_u64(&mut out, b.nonce as u64);
    write_u64(&mut out, b.height as u64);
    write_u64(&mut out, b.transactions.len() as u64);
    let ghost mid = out@;
    let mut i: usize = 0;
    while i < b.transactions.len()
        invariant
            i <= b.transactions@.len(),
            out@ == mid + enc_txs_cat(b.transactions.deep_view().take(i as int)),
        decreases b.transactions@.len() - i,
    {
        write_tx(&mut out, &b.transactions[i]);
        proof {
            lemma_txs_cat_snoc(b.transactions.deep_view(), i as int);
            assert(b.transactions.deep_view()[i as int] == b.transactions@[i as int]@);
            assert(out@ =~= mid + enc_txs_cat(b.transactions.deep_view().take(i + 1)));
        }
        i = i + 1;
    }
    proof {
        assert(b.transactions.deep_view().take(b.transactions@.len() as int)
            =~= b.transactions.deep_view());
        lemma_exec_u64_of_i64(b.nonce);
        assert(out@ =~= enc_block(b@));
    }
    out
}

/// Encodes one output-list record.
pub fn encode_outputs(v: &Vec<TXOutput>) -> (r: Vec<u8>)
    ensures
        r@ == enc_output_list(v.deep_view()),
{
    let mut out: Vec<u8> = Vec::new();
    write_u64(&mut out, v.len() as u64);
    let ghost mid = out@;
    let mut i: usize = 0;
    while i < v.len()
        invariant
            i <= v@.len(),
            out@ == mid + enc_outputs_cat(v.deep_view().take(i as int)),
        decreases v@.len() - i,
    {
        write_output(&mut out, &v[i]);
        proof {
            lemma_outputs_cat_snoc(v.deep_view(), i as int);
            assert(v.deep_view()[i as int] == v@[i as int]@);
            assert(out@ =~= mid + enc_outputs_cat(v.deep_view().take(i + 1)));
        }
        i = i + 1;
    }
    proof {
        assert(v.deep_view().take(v@.len() as int) =~= v.deep_view());
        assert(out@ =~= enc_output_list(v.deep_view()));
    }
    out
}


// ---------------------------------------------------------------------------
// Executable decoders for the ledger records
// ---------------------------------------------------------------------------

pub fn dec_input(d: &[u8], i: usize) -> (r: Option<(TXInput, usize)>)
    requires
        i <= d@.len(),
    ensures
        r is Some <==> sdec_input(d@.skip(i as int)) is Some,
        r is Some ==> (r->0).0@ == (sdec_input(d@.skip(i as int))->0).0,
        r is Some ==> (r->0).1 == i + (sdec_input(d@.skip(i as int))->0).1,
        r is Some ==> i <= (r->0).1 <= d@.len(),
{
    let ghost t0 = d@.skip(i as int);
    let (txid, j1) = match dec_bytes(d, i) {
        Some(p) => p,
        None => {
            return None;
        },
    };
    proof {
        assert(t0.skip((j1 - i) as int) =~= d@.skip(j1 as int));
    }
    let (vout64, j2) = match dec_u64(d, j1) {
        Some(p) => p,
        None => {
            return None;
        },
    };
    if vout64 > usize::MAX as u64 {
        return None;
    }
    proof {
        assert(t0.skip((j2 - i) as int) =~= d@.skip(j2 as int));
    }
    let (sig, j3) = match dec_bytes(d, j2) {
        Some(p) => p,
        None => {
            return None;
        },
    };
    proof {
        assert(t0.skip((j3 - i) as int) =~= d@.skip(j3 as int));
    }
    let (pk, j4) = match dec_bytes(d, j3) {
        Some(p) => p,
        None => {
            return None;
        },
    };
    let x = TXInput { txid, vout: vout64 as usize, signature: sig, pub_key: pk };
    proof {
        assert(x@ =~= (sdec_input(t0)->0).0);
    }
    Some((x, j4))
}

pub fn dec_output(d: &[u8], i: usize) -> (r: Option<(TXOutput, usize)>)
    requires
        i <= d@.len(),
    ensures
        r is Some <==> sdec_output(d@.skip(i as int)) is Some,
        r is Some ==> (r->0).0@ == (sdec_output(d@.skip(i as int))->0).0,
        r is Some ==> (r->0).1 == i + (sdec_output(d@.skip(i as int))->0).1,
        r is Some ==> i <= (r->0).1 <= d@.len(),
{
    let ghost t0 = d@.skip(i as int);
    let (u, j1) = match dec_u32(d, i) {
        Some(p) => p,
        None => {
            return None;
        },
    };
    proof {
        assert(t0.skip((j1 - i) as int) =~= d@.skip(j1 as int));
    }
    let (pkh, j2) = match dec_bytes(d, j1) {
        Some(p) => p,
        None => {
            return None;
        },
    };
    let x = TXOutput { value: u as i32, pub_key_hash: pkh };
    proof {
        lemma_exec_i32_of_u32(u);
        assert(x@ =~= (sdec_output(t0)->0).0);
    }
    Some((x, j2))
}

pub fn dec_inputs(d: &[u8], i: usize, n: usize) -> (r: Option<(Vec<TXInput>, usize)>)
    requires
        i <= d@.len(),
    ensures
        r is Some <==> sdec_inputs(d@.skip(i as int), n as int) is Some,
        r is Some ==> (r->0).0.deep_view() == (sdec_inputs(d@.skip(i as int), n as int)->0).0,
        r is Some ==> (r->0).1 == i + (sdec_inputs(d@.skip(i as int), n as int)->0).1,
        r is Some ==> i <= (r->0).1 <= d@.len(),
{
    let mut acc: Vec<TXInput> = Vec::new();
    let mut cur: usize = i;
    let mut k: usize = 0;
    proof {
        if sdec_inputs(d@.skip(i as int), n as int) is Some {
            let s0 = sdec_inputs(d@.skip(i as int), n as int);
            assert(acc.deep_view() =~= Seq::<TXInputV>::empty());
            assert(acc.deep_view() + (s0->0).0 =~= (s0->0).0);
        }
    }
    while k < n
        invariant
            i <= cur <= d@.len(),
            k <= n,
            acc@.len() == k,
            sdec_inputs(d@.skip(i as int), n as int) == (match sdec_inputs(
                d@.skip(cur as int),
                (n - k) as int,
            ) {
                Some((s2, c2)) => Some((acc.deep_view() + s2, (cur - i) + c2)),
                None => None::<(Seq<TXInputV>, int)>,
            }),
        decreases n - k,
    {
        let (x, j) = match dec_input(d, cur) {
            Some(p) => p,
            None => {
                return None;
            },
        };
        let ghost prev_elems = acc@;
        let ghost prevdv = acc.deep_view();
        let ghost headv = (sdec_input(d@.skip(cur as int))->0).0;
        let ghost headc = (sdec_input(d@.skip(cur as int))->0).1;
        acc.push(x);
        proof {
            assert forall|m: int| 0 <= m < acc@.len() implies acc.deep_view()[m] == prevdv.push(
                headv,
            )[m] by {
                if m < prevdv.len() {
                    assert(acc@[m] == prev_elems[m]);
                    assert(prevdv[m] == prev_elems[m].deep_view());
                } else {
                    assert(acc@[m] == x);
                }
            }
            assert(acc.deep_view() =~= prevdv.push(headv));
            assert(d@.skip(cur as int).skip(headc) =~= d@.skip(j as int));
            if sdec_inputs(d@.skip(j as int), (n - k - 1) as int) is Some {
                let s2 = (sdec_inputs(d@.skip(j as int), (n - k - 1) as int)->0).0;
                assert(prevdv + (seq![headv] + s2) =~= prevdv.push(headv) + s2);
            }
        }
        cur = j;
        k = k + 1;
    }
    proof {
        assert(sdec_inputs(d@.skip(cur as int), 0int) == Some((Seq::<TXInputV>::empty(), 0int)));
        assert(acc.deep_view() + Seq::<TXInputV>::empty() =~= acc.deep_view());
    }
    Some((acc, cur))
}

pub fn dec_outputs(d: &[u8], i: usize, n: usize) -> (r: Option<(Vec<TXOutput>, usize)>)
    requires
        i <= d@.len(),
    ensures
        r is Some <==> sdec_outputs(d@.skip(i as int), n as int) is Some,
        r is Some ==> (r->0).0.deep_view() == (sdec_outputs(d@.skip(i as int), n as int)->0).0,
        r is Some ==> (r->0).1 == i + (sdec_outputs(d@.skip(i as int), n as int)->0).1,
        r is Some ==> i <= (r->0).1 <= d@.len(),
{
    let mut acc: Vec<TXOutput> = Vec::new();
    let mut cur: usize = i;
    let mut k: usize = 0;
    proof {
        if sdec_outputs(d@.skip(i as int), n as int) is Some {
            let s0 = sdec_outputs(d@.skip(i as int), n as int);
            assert(acc.deep_view() =~= Seq::<TXOutputV>::empty());
            assert(acc.deep_view() + (s0->0).0 =~= (s0->0).0);
        }
    }
    while k < n
        invariant
            i <= cur <= d@.len(),
            k <= n,
            acc@.len() == k,
            sdec_outputs(d@.skip(i as int), n as int) == (match sdec_outputs(
                d@.skip(cur as int),
                (n - k) as int,
            ) {
                Some((s2, c2)) => Some((acc.deep_view() + s2, (cur - i) + c2)),
                None => None::<(Seq<TXOutputV>, int)>,
            }),
        decreases n - k,
    {
        let (x, j) = match dec_output(d, cur) {
            Some(p) => p,
            None => {
                return None;
            },
        };
        let ghost prev_elems = acc@;
        let ghost prevdv = acc.deep_view();
        let ghost headv = (sdec_output(d@.skip(cur as int))->0).0;
        let ghost headc = (sdec_output(d@.skip(cur as int))->0).1;
        acc.push(x);
        proof {
            assert forall|m: int| 0 <= m < acc@.len() implies acc.deep_view()[m] == prevdv.push(
                headv,
            )[m] by {
                if m < prevdv.len() {
                    assert(acc@[m] == prev_elems[m]);
                    assert(prevdv[m] == prev_elems[m].deep_view());
                } else {
                    assert(acc@[m] == x);
                }
            }
            assert(acc.deep_view() =~= prevdv.push(headv));
            assert(d@.skip(cur as int).skip(headc) =~= d@.skip(j as int));
            if sdec_outputs(d@.skip(j as int), (n - k - 1) as int) is Some {
                let s2 = (sdec_outputs(d@.skip(j as int), (n - k - 1) as int)->0).0;
                assert(prevdv + (seq![headv] + s2) =~= prevdv.push(headv) + s2);
            }
        }
        cur = j;
        k = k + 1;
    }
    proof {
        assert(sdec_outputs(d@.skip(cur as int), 0int) == Some((Seq::<TXOutputV>::empty(), 0int)));
        assert(acc.deep_view() + Seq::<TXOutputV>::empty() =~= acc.deep_view());
    }
    Some((acc, cur))
}

pub fn dec_tx(d: &[u8], i: usize) -> (r: Option<(Transaction, usize)>)
    requires
        i <= d@.len(),
    ensures
        r is Some <==> sdec_tx(d@.skip(i as int)) is Some,
        r is Some ==> (r->0).0@ == (sdec_tx(d@.skip(i as int))->0).0,
        r is Some ==> (r->0).1 == i + (sdec_tx(d@.skip(i as int))->0).1,
        r is Some ==> i <= (r->0).1 <= d@.len(),
{
    let ghost t0 = d@.skip(i as int);
    let (id, j1) = match dec_bytes(d, i) {
        Some(p) => p,
        None => {
            return None;
        },
    };
    proof {
        assert(t0.skip((j1 - i) as int) =~= d@.skip(j1 as int));
    }
    let (n1, j2) = match dec_u64(d, j1) {
        Some(p) => p,
        None => {
            return None;
        },
    };
    if n1 > usize::MAX as u64 {
        return None;
    }
    proof {
        assert(d@.skip(j1 as int).skip(8) =~= d@.skip(j2 as int));
    }
    let (vin, j3) = match dec_inputs(d, j2, n1 as usize) {
        Some(p) => p,
        None => {
            return None;
        },
    };
    proof {
        assert(t0.skip((j3 - i) as int) =~= d@.skip(j3 as int));
    }
    let (n2, j4) = match dec_u64(d, j3) {
        Some(p) => p,
        None => {
            return None;
        },
    };
    if n2 > usize::MAX as u64 {
        return None;
    }
    proof {
        assert(d@.skip(j3 as int).skip(8) =~= d@.skip(j4 as int));
    }
    let (vout, j5) = match dec_outputs(d, j4, n2 as usize) {
        Some(p) => p,
        None => {
            return None;
        },
    };
    let x = Transaction { id, vin, vout };
    proof {
        assert(x@ =~= (sdec_tx(t0)->0).0);
    }
    Some((x, j5))
}

pub fn dec_txs(d: &[u8], i: usize, n: usize) -> (r: Option<(Vec<Transaction>, usize)>)
    requires
        i <= d@.len(),
    ensures
        r is Some <==> sdec_txs(d@.skip(i as int), n as int) is Some,
        r is Some ==> (r->0).0.deep_view() == (sdec_txs(d@.skip(i as int), n as int)->0).0,
        r is Some ==> (r->0).1 == i + (sdec_txs(d@.skip(i as int), n as int)->0).1,
        r is Some ==> i <= (r->0).1 <= d@.len(),
{
    let mut acc: Vec<Transaction> = Vec::new();
    let mut cur: usize = i;
    let mut k: usize = 0;
    proof {
        if sdec_txs(d@.skip(i as int), n as int) is Some {
            let s0 = sdec_txs(d@.skip(i as int), n as int);
            assert(acc.deep_view() =~= Seq::<TransactionV>::empty());
            assert(acc.deep_view() + (s0->0).0 =~= (s0->0).0);
        }
    }
    while k < n
        invariant
            i <= cur <= d@.len(),
            k <= n,
            acc@.len() == k,
            sdec_txs(d@.skip(i as int), n as int) == (match sdec_txs(
                d@.skip(cur as int),
                (n - k) as int,
            ) {
                Some((s2, c2)) => Some((acc.deep_view() + s2, (cur - i) + c2)),
                None => None::<(Seq<TransactionV>, int)>,
            }),
        decreases n - k,
    {
        let (x, j) = match dec_tx(d, cur) {
            Some(p) => p,
            None => {
                return None;
            },
        };
        let ghost prev_elems = acc@;
        let ghost prevdv = acc.deep_view();
        let ghost headv = (sdec_tx(d@.skip(cur as int))->0).0;
        let ghost headc = (sdec_tx(d@.skip(cur as int))->0).1;
        acc.push(x);
        proof {
            assert forall|m: int| 0 <= m < acc@.len() implies acc.deep_view()[m] == prevdv.push(
                headv,
            )[m] by {
                if m < prevdv.len() {
                    assert(acc@[m] == prev_elems[m]);
                    assert(prevdv[m] == prev_elems[m].deep_view());
                } else {
                    assert(acc@[m] == x);
                }
            }
            assert(acc.deep_view() =~= prevdv.push(headv));
            assert(d@.skip(cur as int).skip(headc) =~= d@.skip(j as int));
            if sdec_txs(d@.skip(j as int), (n - k - 1) as int) is Some {
                let s2 = (sdec_txs(d@.skip(j as int), (n - k - 1) as int)->0).0;
                assert(prevdv + (seq![headv] + s2) =~= prevdv.push(headv) + s2);
            }
        }
        cur = j;
        k = k + 1;
    }
    proof {
        assert(sdec_txs(d@.skip(cur as int), 0int) == Some((Seq::<TransactionV>::empty(), 0int)));
        assert(acc.deep_view() + Seq::<TransactionV>::empty() =~= acc.deep_view());
    }
    Some((acc, cur))
}

pub fn dec_block(d: &[u8], i: usize) -> (r: Option<(crate::block::Block, usize)>)
    requires
        i <= d@.len(),
    ensures
        r is Some <==> sdec_block(d@.skip(i as int)) is Some,
        r is Some ==> (r->0).0@ == (sdec_block(d@.skip(i as int))->0).0,
        r is Some ==> (r->0).1 == i + (sdec_block(d@.skip(i as int))->0).1,
        r is Some ==> i <= (r->0).1 <= d@.len(),
{
    let ghost t0 = d@.skip(i as int);
    let (ts, j1) = match dec_u64(d, i) {
        Some(p) => p,
        None => {
            return None;
        },
    };
    proof {
        assert(t0.skip((j1 - i) as int) =~= d@.skip(j1 as int));
    }
    let (pre_s, j2) = match dec_str(d, j1) {
        Some(p) => p,
        None => {
            return None;
        },
    };
    proof {
        assert(t0.skip((j2 - i) as int) =~= d@.skip(j2 as int));
    }
    let (hash_s, j3) = match dec_str(d, j2) {
        Some(p) => p,
        None => {
            return None;
        },
    };
    proof {
        assert(t0.skip((j3 - i) as int) =~= d@.skip(j3 as int));
    }
    let (nu, j4) = match dec_u64(d, j3) {
        Some(p) => p,
        None => {
            return None;
        },
    };
    proof {
        assert(t0.skip((j4 - i) as int) =~= d@.skip(j4 as int));
    }
    let (hu, j5) = match dec_u64(d, j4) {
        Some(p) => p,
        None => {
            return None;
        },
    };
    if hu > usize::MAX as u64 {
        return None;
    }
    proof {
        assert(t0.skip((j5 - i) as int) =~= d@.skip(j5 as int));
    }
    let (cnt, j6) = match dec_u64(d, j5) {
        Some(p) => p,
        None => {
            return None;
        },
    };
    if cnt > usize::MAX as u64 {
        return None;
    }
    proof {
        assert(t0.skip((j6 - i) as int) =~= d@.skip(j6 as int));
    }
    let (txs, j7) = match dec_txs(d, j6, cnt as usize) {
        Some(p) => p,
        None => {
            return None;
        },
    };
    let x = crate::block::Block {
        timestamp: ts,
        pre_block_hash: pre_s,
        hash: hash_s,
        transactions: txs,
        nonce: nu as i64,
        height: hu as usize,
    };
    proof {
        lemma_exec_i64_of_u64(nu);
        assert(x@ =~= (sdec_block(t0)->0).0);
    }
    Some((x, j7))
}

/// Decodes one whole block record; `None` where the bytes do not parse or
/// leave a remainder.
pub fn decode_block(d: &[u8]) -> (r: Option<crate::block::Block>)
    ensures
        r is Some <==> spec_decode_block(d@) is Some,
        r is Some ==> r->0@ == spec_decode_block(d@)->0,
{
    proof {
        assert(d@.skip(0) =~= d@);
    }
    match dec_block(d, 0) {
        Some((b, j)) => {
            if j == d.len() {
                Some(b)
            } else {
                None
            }
        },
        None => None,
    }
}

/// Decodes one whole output-list record; `None` where the bytes do not
/// parse or leave a remainder.
pub fn decode_outputs(d: &[u8]) -> (r: Option<Vec<TXOutput>>)
    ensures
        r is Some <==> spec_decode_outputs(d@) is Some,
        r is Some ==> r->0.deep_view() == spec_decode_outputs(d@)->0,
{
    proof {
        assert(d@.skip(0) =~= d@);
    }
    let (n, j1) = match dec_u64(d, 0) {
        Some(p) => p,
        None => {
            return None;
        },
    };
    if n > usize::MAX as u64 {
        return None;
    }
    proof {
        assert(d@.skip(0).skip(8) =~= d@.skip(j1 as int));
    }
    let (outs, j2) = match dec_outputs(d, j1, n as usize) {
        Some(p) => p,
        None => {
            return None;
        },
    };
    if j2 == d.len() {
        Some(outs)
    } else {
        None
    }
}


/// Appends raw bytes with no prefix.
pub fn append_bytes(out: &mut Vec<u8>, b: &[u8])
    ensures
        final(out)@ == old(out)@ + b@,
{
    let ghost mid = out@;
    let mut i: usize = 0;
    while i < b.len()
        invariant
            i <= b@.len(),
            out@ == mid + b@.take(i as int),
        decreases b@.len() - i,
    {
        out.push(b[i]);
        proof {
            assert(mid + b@.take(i as int) + seq![b@[i as int]] =~= mid + b@.take(i + 1));
        }
        i = i + 1;
    }
    proof {
        assert(b@.take(b@.len() as int) =~= b@);
    }
}

} // verus!
