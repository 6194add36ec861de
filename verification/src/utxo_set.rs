//! The derived unspent-output index: rebuilt on demand by one full chain
//! scan, never the source of truth, queried to select spendable outputs.

use vstd::prelude::*;
use crate::ChainError;
use crate::blockchain::{BlockChain, chain_seq, spec_find_utxo, txs_of_blocks};
use crate::codec::{decode_outputs, enc_output_list, encode_outputs, spec_decode_outputs};
use crate::store::{KvTree, kv_map};
use crate::transaction::{TXOutputV, clone_bytes};

verus! {

/// The name of the key space holding the index.
pub const UTXO_TREE: &'static str = "chainstate";

/// The persisted form of an unspent-output map: each transaction id maps
/// to the encoded record of its unspent outputs.
pub open spec fn index_bytes(m: Map<Seq<u8>, Seq<TXOutputV>>) -> Map<Seq<u8>, Seq<u8>> {
    Map::new(|k: Seq<u8>| m.contains_key(k), |k: Seq<u8>| enc_output_list(m[k]))
}

/// Whether one persisted index record is sound: it decodes whole, and
/// every decoded output locks a non-negative value.
pub open spec fn entry_ok(v: Seq<u8>) -> bool {
    &&& spec_decode_outputs(v) is Some
    &&& forall|j: int|
        0 <= j < spec_decode_outputs(v)->0.len() ==> (#[trigger] spec_decode_outputs(
            v,
        )->0[j]).value >= 0
}

/// Whether a selection entry is sound against the index: the key is
/// indexed, its record decodes, and the listed indices are strictly
/// increasing positions of outputs locked to `owner`.
pub open spec fn sel_entry_ok(
    m: Map<Seq<u8>, Seq<u8>>,
    key: Seq<u8>,
    idxs: Seq<usize>,
    owner: Seq<u8>,
) -> bool {
    &&& m.contains_key(key)
    &&& spec_decode_outputs(m[key]) is Some
    &&& forall|j: int|
        0 <= j < idxs.len() ==> (#[trigger] idxs[j]) < spec_decode_outputs(m[key])->0.len()
            && spec_decode_outputs(m[key])->0[idxs[j] as int].pub_key_hash == owner
    &&& forall|j1: int, j2: int|
        #![trigger idxs[j1], idxs[j2]]
        0 <= j1 < j2 < idxs.len() ==> idxs[j1] < idxs[j2]
}

/// The summed value of the outputs a selection entry picks.
pub open spec fn entry_sum(outs: Seq<TXOutputV>, idxs: Seq<usize>) -> int
    decreases idxs.len(),
{
    if idxs.len() == 0 {
        0
    } else {
        entry_sum(outs, idxs.drop_last()) + outs[idxs.last() as int].value
    }
}

/// The summed value of a whole selection against the index.
pub open spec fn sel_sum(m: Map<Seq<u8>, Seq<u8>>, sel: Seq<(Vec<u8>, Vec<usize>)>) -> int
    decreases sel.len(),
{
    if sel.len() == 0 {
        0
    } else {
        sel_sum(m, sel.drop_last()) + entry_sum(
            spec_decode_outputs(m[sel.last().0@])->0,
            sel.last().1@,
        )
    }
}

/// Whether a selection entry obeys the stop rule: each listed output was
/// taken while the entry's base total plus what the entry had already
/// taken was still short of `amount`.
pub open spec fn entry_prefix_ok(
    outs: Seq<TXOutputV>,
    idxs: Seq<usize>,
    base: int,
    amount: int,
) -> bool
    decreases idxs.len(),
{
    if idxs.len() == 0 {
        true
    } else {
        entry_prefix_ok(outs, idxs.drop_last(), base, amount) && base + entry_sum(
            outs,
            idxs.drop_last(),
        ) < amount
    }
}

/// Whether a whole selection obeys the stop rule: outputs were taken in
/// scan order only while the accumulated value was short of `amount`.
pub open spec fn sel_prefix_ok(
    m: Map<Seq<u8>, Seq<u8>>,
    sel: Seq<(Vec<u8>, Vec<usize>)>,
    amount: int,
) -> bool
    decreases sel.len(),
{
    if sel.len() == 0 {
        true
    } else {
        sel_prefix_ok(m, sel.drop_last(), amount) && entry_prefix_ok(
            spec_decode_outputs(m[sel.last().0@])->0,
            sel.last().1@,
            sel_sum(m, sel.drop_last()),
            amount,
        )
    }
}

/// The total value of the outputs locked to `owner` in one record.
pub open spec fn owned_sum(outs: Seq<TXOutputV>, owner: Seq<u8>) -> int
    decreases outs.len(),
{
    if outs.len() == 0 {
        0
    } else {
        owned_sum(outs.drop_last(), owner) + (if outs.last().pub_key_hash == owner {
            outs.last().value
        } else {
            0
        })
    }
}

/// The total value locked to `owner` over an enumeration of the index.
pub open spec fn total_owned(es: Seq<(Vec<u8>, Vec<u8>)>, owner: Seq<u8>) -> int
    decreases es.len(),
{
    if es.len() == 0 {
        0
    } else {
        total_owned(es.drop_last(), owner) + owned_sum(
            spec_decode_outputs(es.last().1@)->0,
            owner,
        )
    }
}

/// Whether an entry list faithfully enumerates the index contents:
/// distinct keys, every listed pair stored, every stored key listed.
pub open spec fn entries_rep(m: Map<Seq<u8>, Seq<u8>>, es: Seq<(Vec<u8>, Vec<u8>)>) -> bool {
    &&& forall|i: int, j: int|
        #![trigger es[i], es[j]]
        0 <= i < j < es.len() ==> es[i].0@ != es[j].0@
    &&& forall|i: int|
        0 <= i < es.len() ==> m.contains_key(#[trigger] es[i].0@) && m[es[i].0@] == es[i].1@
    &&& forall|k: Seq<u8>|
        #[trigger] m.contains_key(k) ==> exists|i: int| 0 <= i < es.len() && #[trigger] es[i].0@
            == k
}

/// Whether some output of the selection picks position `idx` of the
/// record keyed `k`.
pub open spec fn spec_selected(sel: Seq<(Vec<u8>, Vec<usize>)>, k: Seq<u8>, idx: usize) -> bool {
    exists|i: int| 0 <= i < sel.len() && (#[trigger] sel[i]).0@ == k && sel[i].1@.contains(idx)
}

/// Rebuilding the index is deterministic: its persisted contents are a
/// function of the scanned chain alone, so two consecutive rebuilds over
/// an unchanged chain produce byte-identical contents.
pub proof fn lemma_reindex_idempotent(
    m1: Map<Seq<u8>, Seq<u8>>,
    m2: Map<Seq<u8>, Seq<u8>>,
    chain: Seq<crate::transaction::TransactionV>,
)
    requires
        m1 == index_bytes(spec_find_utxo(chain)),
        m2 == index_bytes(spec_find_utxo(chain)),
    ensures
        m1 == m2,
{
}


/// Removing one entry takes exactly its record's owned value out of the
/// total.
proof fn lemma_total_owned_remove(es: Seq<(Vec<u8>, Vec<u8>)>, i: int, owner: Seq<u8>)
    requires
        0 <= i < es.len(),
    ensures
        total_owned(es, owner) == total_owned(es.remove(i), owner) + owned_sum(
            spec_decode_outputs(es[i].1@)->0,
            owner,
        ),
    decreases es.len(),
{
    if i == es.len() - 1 {
        assert(es.remove(i) =~= es.drop_last());
    } else {
        assert(es.remove(i).drop_last() =~= es.drop_last().remove(i));
        assert(es.remove(i).last() == es.last());
        assert(es.drop_last()[i] == es[i]);
        lemma_total_owned_remove(es.drop_last(), i, owner);
    }
}

/// Every faithful enumeration of the index carries the same owned total:
/// the total is a function of the index contents alone, not of storage
/// order.
pub proof fn lemma_total_owned_unique(
    m: Map<Seq<u8>, Seq<u8>>,
    es1: Seq<(Vec<u8>, Vec<u8>)>,
    es2: Seq<(Vec<u8>, Vec<u8>)>,
    owner: Seq<u8>,
)
    requires
        entries_rep(m, es1),
        entries_rep(m, es2),
    ensures
        total_owned(es1, owner) == total_owned(es2, owner),
    decreases es1.len(),
{
    if es1.len() == 0 {
        if es2.len() > 0 {
            assert(m.contains_key(es2[0].0@));
            assert(false);
        }
    } else {
        let e = es1.last();
        let k = e.0@;
        assert(m.contains_key(k));
        let i = choose|i: int| 0 <= i < es2.len() && #[trigger] es2[i].0@ == k;
        lemma_total_owned_remove(es2, i, owner);
        let m1 = m.remove(k);
        let r1 = es1.drop_last();
        let r2 = es2.remove(i);
        assert forall|j: int| 0 <= j < r2.len() implies r2[j] == (if j < i {
            es2[j]
        } else {
            es2[j + 1]
        }) by {
            assert(r2 =~= es2.subrange(0, i) + es2.subrange(i + 1, es2.len() as int));
        }
        assert(entries_rep(m1, r1)) by {
            assert forall|j: int| 0 <= j < r1.len() implies m1.contains_key(
                #[trigger] r1[j].0@,
            ) && m1[r1[j].0@] == r1[j].1@ by {
                assert(r1[j] == es1[j]);
                assert(es1[j].0@ != k);
            }
            assert forall|k2: Seq<u8>| #[trigger] m1.contains_key(k2) implies exists|j: int|
                0 <= j < r1.len() && #[trigger] r1[j].0@ == k2 by {
                assert(m.contains_key(k2));
                let j = choose|j: int| 0 <= j < es1.len() && #[trigger] es1[j].0@ == k2;
                assert(j != es1.len() - 1);
                assert(r1[j].0@ == k2);
            }
        }
        assert(entries_rep(m1, r2)) by {
            assert forall|a: int, b: int|
                #![trigger r2[a], r2[b]]
                0 <= a < b < r2.len() implies r2[a].0@ != r2[b].0@ by {
                if b < i {
                    assert(r2[a] == es2[a] && r2[b] == es2[b]);
                } else if a < i {
                    assert(r2[a] == es2[a] && r2[b] == es2[b + 1]);
                } else {
                    assert(r2[a] == es2[a + 1] && r2[b] == es2[b + 1]);
                }
            }
            assert forall|j: int| 0 <= j < r2.len() implies m1.contains_key(
                #[trigger] r2[j].0@,
            ) && m1[r2[j].0@] == r2[j].1@ by {
                if j < i {
                    assert(r2[j] == es2[j]);
                    assert(es2[j].0@ != es2[i].0@);
                } else {
                    assert(r2[j] == es2[j + 1]);
                    assert(es2[j + 1].0@ != es2[i].0@);
                }
            }
            assert forall|k2: Seq<u8>| #[trigger] m1.contains_key(k2) implies exists|j: int|
                0 <= j < r2.len() && #[trigger] r2[j].0@ == k2 by {
                assert(m.contains_key(k2));
                let j = choose|j: int| 0 <= j < es2.len() && #[trigger] es2[j].0@ == k2;
                assert(j != i);
                if j < i {
                    assert(r2[j].0@ == k2);
                } else {
                    assert(r2[j - 1].0@ == k2);
                }
            }
        }
        lemma_total_owned_unique(m1, r1, r2, owner);
        assert(m[k] == e.1@);
        assert(m[es2[i].0@] == es2[i].1@);
    }
}


/// Where the index holds exactly one output locked to `owner` — at
/// position `p` of the record keyed `g` — any selection the
/// spendable-output contract admits for a positive request is exactly
/// that one output, and the accumulated value is that output's value.
/// This generalizes the two-reward picture: rewards to other owners
/// never enter the selection.
pub proof fn lemma_single_owner_selection(
    m: Map<Seq<u8>, Seq<u8>>,
    sel: Seq<(Vec<u8>, Vec<usize>)>,
    acc: int,
    owner: Seq<u8>,
    g: Seq<u8>,
    p: usize,
    amount: int,
)
    requires
        0 < amount,
        m.contains_key(g),
        spec_decode_outputs(m[g]) is Some,
        p < spec_decode_outputs(m[g])->0.len(),
        spec_decode_outputs(m[g])->0[p as int].pub_key_hash == owner,
        forall|k: Seq<u8>, j: int|
            #![trigger spec_decode_outputs(m[k])->0[j]]
            m.contains_key(k) && spec_decode_outputs(m[k]) is Some && 0 <= j
                < spec_decode_outputs(m[k])->0.len() && spec_decode_outputs(
                m[k],
            )->0[j].pub_key_hash == owner ==> k == g && j == p as int,
        forall|i: int, j: int|
            #![trigger sel[i], sel[j]]
            0 <= i < j < sel.len() ==> sel[i].0@ != sel[j].0@,
        forall|i: int|
            0 <= i < sel.len() ==> sel_entry_ok(m, (#[trigger] sel[i]).0@, sel[i].1@, owner),
        forall|i: int| 0 <= i < sel.len() ==> (#[trigger] sel[i]).1@.len() > 0,
        acc == sel_sum(m, sel),
        acc < amount ==> spec_selected(sel, g, p),
    ensures
        sel.len() == 1,
        sel[0].0@ == g,
        sel[0].1@ == seq![p],
        acc == spec_decode_outputs(m[g])->0[p as int].value,
{
    assert forall|i: int| 0 <= i < sel.len() implies sel[i].0@ == g && sel[i].1@ == seq![p] by {
        let idxs = sel[i].1@;
        assert(sel_entry_ok(m, sel[i].0@, idxs, owner));
        assert(idxs[0] < spec_decode_outputs(m[sel[i].0@])->0.len());
        assert(spec_decode_outputs(m[sel[i].0@])->0[idxs[0] as int].pub_key_hash == owner);
        assert(sel[i].0@ == g && idxs[0] as int == p as int);
        assert forall|j: int| 0 <= j < idxs.len() implies idxs[j] == p by {
            assert(spec_decode_outputs(m[sel[i].0@])->0[idxs[j] as int].pub_key_hash == owner);
        }
        if idxs.len() > 1 {
            assert(idxs[0] < idxs[1]);
            assert(false);
        }
        assert(idxs =~= seq![p]);
    }
    if sel.len() == 0 {
        assert(acc == 0);
        assert(spec_selected(sel, g, p));
        let i = choose|i: int| 0 <= i < sel.len() && (#[trigger] sel[i]).0@ == g
            && sel[i].1@.contains(p);
        assert(false);
    }
    if sel.len() > 1 {
        assert(sel[0].0@ == g && sel[1].0@ == g);
        assert(false);
    }
    let outs = spec_decode_outputs(m[g])->0;
    let empty_sel = Seq::<(Vec<u8>, Vec<usize>)>::empty();
    assert(sel.drop_last() =~= empty_sel);
    assert(sel.last() == sel[0]);
    assert(sel[0].0@ == g && sel[0].1@ == seq![p]);
    let one = seq![p];
    assert(one.drop_last() =~= Seq::<usize>::empty());
    assert(entry_sum(outs, Seq::<usize>::empty()) == 0);
    assert(entry_sum(outs, one) == entry_sum(outs, one.drop_last()) + outs[one.last() as int].value);
    assert(one.last() == p);
    assert(entry_sum(outs, one) == outs[p as int].value);
    assert(sel_sum(m, empty_sel) == 0);
    assert(sel_sum(m, sel) == sel_sum(m, sel.drop_last()) + entry_sum(
        spec_decode_outputs(m[sel.last().0@])->0,
        sel.last().1@,
    ));
    assert(acc == outs[p as int].value);
}

/// The unspent-output index over one chain store.
pub struct UtxoSet<'a> {
    pub blockchain: &'a BlockChain,
    pub utxo: KvTree,
}

impl<'a> UtxoSet<'a> {
    /// An index handle over the chain's store.
    pub fn new(blockchain: &'a BlockChain) -> (r: UtxoSet<'a>)
        ensures
            r.blockchain == blockchain,
    {
        let utxo = blockchain.db.open_tree(UTXO_TREE);
        UtxoSet { blockchain, utxo }
    }

    /// Discards the whole persisted index, scans the chain once from the
    /// tip, and persists the resulting map from transaction id to its
    /// still-unspent outputs. Afterwards the index holds exactly the
    /// encoded unspent-output map of the chain as scanned.
    pub fn reindex(&mut self)
        requires
            old(self).blockchain.wf(),
        ensures
            final(self).blockchain == old(self).blockchain,
            kv_map(final(self).utxo) == index_bytes(
                spec_find_utxo(
                    txs_of_blocks(
                        chain_seq(
                            old(self).blockchain.m(),
                            old(self).blockchain.tip_hash@,
                            old(self).blockchain.height@,
                        ),
                    ),
                ),
            ),
    {
        self.utxo.clear();
        let entries = self.blockchain.find_utxo();
        let ghost target = spec_find_utxo(
            txs_of_blocks(
                chain_seq(
                    self.blockchain.m(),
                    self.blockchain.tip_hash@,
                    self.blockchain.height@,
                ),
            ),
        );
        let mut i: usize = 0;
        while i < entries.len()
            invariant
                i <= entries@.len(),
                self.blockchain == old(self).blockchain,
                crate::blockchain::utxo_rep(entries@, target),
                forall|k: Seq<u8>|
                    #[trigger] kv_map(self.utxo).contains_key(k) <==> exists|j: int|
                        0 <= j < i && #[trigger] entries@[j].0@ == k,
                forall|j: int|
                    0 <= j < i ==> kv_map(self.utxo)[(#[trigger] entries@[j]).0@]
                        == enc_output_list(entries@[j].1.deep_view()),
            decreases entries@.len() - i,
        {
            let data = encode_outputs(&entries[i].1);
            self.utxo.insert(entries[i].0.as_slice(), data.as_slice());
            i = i + 1;
        }
        proof {
            let m = kv_map(self.utxo);
            assert forall|k: Seq<u8>| #[trigger] m.contains_key(k) implies index_bytes(
                target,
            ).contains_key(k) && m[k] == index_bytes(target)[k] by {
                let j = choose|j: int| 0 <= j < entries@.len() && #[trigger] entries@[j].0@ == k;
                assert(target.contains_key(k));
                assert(target[k] == entries@[j].1.deep_view());
            }
            assert forall|k: Seq<u8>| #[trigger] index_bytes(target).contains_key(k) implies
                m.contains_key(k) by {
                assert(target.contains_key(k));
                let j = choose|j: int| 0 <= j < entries@.len() && #[trigger] entries@[j].0@ == k;
                assert(entries@[j].0@ == k);
            }
            assert(m =~= index_bytes(target));
        }
    }

    /// Scans the persisted index in storage order, accumulating outputs
    /// locked to `pub_key_hash` until the accumulated value reaches
    /// `amount` or the index is exhausted, and returns the accumulated
    /// value with the selected output positions keyed by transaction id.
    /// The caller must check the returned total: a result short of
    /// `amount` means the funds are insufficient. Fails only where a
    /// stored record is malformed.
    #[verifier::rlimit(100)]
    pub fn find_spendable_outputs(&self, pub_key_hash: &[u8], amount: i32) -> (r: Result<
        (i64, Vec<(Vec<u8>, Vec<usize>)>),
        ChainError,
    >)
        ensures
            r is Err <==> exists|k: Seq<u8>|
                #[trigger] kv_map(self.utxo).contains_key(k) && !entry_ok(kv_map(self.utxo)[k]),
            r is Err ==> r->Err_0 == ChainError::SerializationFailure,
            r is Ok ==> (r->Ok_0).0 >= 0,
            r is Ok ==> forall|i: int, j: int|
                #![trigger (r->Ok_0).1@[i], (r->Ok_0).1@[j]]
                0 <= i < j < (r->Ok_0).1@.len() ==> (r->Ok_0).1@[i].0@ != (r->Ok_0).1@[j].0@,
            r is Ok ==> forall|i: int|
                0 <= i < (r->Ok_0).1@.len() ==> sel_entry_ok(
                    kv_map(self.utxo),
                    (#[trigger] (r->Ok_0).1@[i]).0@,
                    (r->Ok_0).1@[i].1@,
                    pub_key_hash@,
                ),
            r is Ok ==> (r->Ok_0).0 == sel_sum(kv_map(self.utxo), (r->Ok_0).1@),
            r is Ok ==> sel_prefix_ok(kv_map(self.utxo), (r->Ok_0).1@, amount as int),
            r is Ok ==> forall|i: int|
                0 <= i < (r->Ok_0).1@.len() ==> (#[trigger] (r->Ok_0).1@[i]).1@.len() > 0,
            r is Ok && amount <= 0 ==> (r->Ok_0).0 == 0 && (r->Ok_0).1@.len() == 0,
            r is Ok && (r->Ok_0).0 < amount ==> forall|k: Seq<u8>, j: int|
                #![trigger spec_decode_outputs(kv_map(self.utxo)[k])->0[j]]
                kv_map(self.utxo).contains_key(k) && 0 <= j < spec_decode_outputs(
                    kv_map(self.utxo)[k],
                )->0.len() && spec_decode_outputs(kv_map(self.utxo)[k])->0[j].pub_key_hash
                    == pub_key_hash@ ==> spec_selected((r->Ok_0).1@, k, j as usize),
            r is Ok ==> forall|es: Seq<(Vec<u8>, Vec<u8>)>|
                #[trigger] entries_rep(kv_map(self.utxo), es) ==> (r->Ok_0).0 <= total_owned(
                    es,
                    pub_key_hash@,
                ),
    {
        let ghost m = kv_map(self.utxo);
        let entries = self.utxo.entries();
        let mut accumulated: i64 = 0;
        let mut unspent: Vec<(Vec<u8>, Vec<usize>)> = Vec::new();
        let amount_wide: i64 = amount as i64;
        let mut ei: usize = 0;
        while ei < entries.len()
            invariant
                ei <= entries@.len(),
                m == kv_map(self.utxo),
                forall|i: int, j: int|
                    #![trigger entries@[i], entries@[j]]
                    0 <= i < j < entries@.len() ==> entries@[i].0@ != entries@[j].0@,
                forall|i: int|
                    0 <= i < entries@.len() ==> m.contains_key(#[trigger] entries@[i].0@)
                        && m[entries@[i].0@] == entries@[i].1@,
                forall|k: Seq<u8>|
                    #[trigger] m.contains_key(k) ==> exists|i: int|
                        0 <= i < entries@.len() && #[trigger] entries@[i].0@ == k,
                forall|i: int| 0 <= i < ei ==> entry_ok(m[(#[trigger] entries@[i]).0@]),
                amount_wide == amount,
                0 <= accumulated,
                accumulated == sel_sum(m, unspent@),
                accumulated <= total_owned(entries@.take(ei as int), pub_key_hash@),
                forall|i: int, j: int|
                    #![trigger unspent@[i], unspent@[j]]
                    0 <= i < j < unspent@.len() ==> unspent@[i].0@ != unspent@[j].0@,
                forall|i: int|
                    0 <= i < unspent@.len() ==> sel_entry_ok(
                        m,
                        (#[trigger] unspent@[i]).0@,
                        unspent@[i].1@,
                        pub_key_hash@,
                    ),
                sel_prefix_ok(m, unspent@, amount as int),
                forall|i: int|
                    0 <= i < unspent@.len() ==> (#[trigger] unspent@[i]).1@.len() > 0,
                amount <= 0 ==> accumulated == 0 && unspent@.len() == 0,
                forall|i: int|
                    0 <= i < unspent@.len() ==> exists|j: int|
                        0 <= j < ei && (#[trigger] unspent@[i]).0@ == entries@[j].0@,
                accumulated < amount ==> forall|jj: int, oj: int|
                    #![trigger spec_decode_outputs(m[entries@[jj].0@])->0[oj]]
                    0 <= jj < ei && 0 <= oj < spec_decode_outputs(
                        m[entries@[jj].0@],
                    )->0.len() && spec_decode_outputs(m[entries@[jj].0@])->0[oj].pub_key_hash
                        == pub_key_hash@ ==> spec_selected(unspent@, entries@[jj].0@, oj as usize),
            decreases entries@.len() - ei,
        {
            let outs = match decode_outputs(entries[ei].1.as_slice()) {
                Some(o) => o,
                None => {
                    return Err(ChainError::SerializationFailure);
                },
            };
            let ghost key = entries@[ei as int].0@;
            let ghost outsv = spec_decode_outputs(m[key])->0;
            let ghost unspent_top = unspent@;
            proof {
                assert(outs.deep_view() == outsv);
            }
            let mut vk: usize = 0;
            while vk < outs.len()
                invariant
                    vk <= outs@.len(),
                    outs.deep_view() == outsv,
                    outs@.len() == outsv.len(),
                    m == kv_map(self.utxo),
                    m.contains_key(key),
                    spec_decode_outputs(m[key]) is Some,
                    outsv == spec_decode_outputs(m[key])->0,
                    forall|j: int| 0 <= j < vk ==> (#[trigger] outsv[j]).value >= 0,
                decreases outs@.len() - vk,
            {
                if outs[vk].get_value() < 0 {
                    proof {
                        assert(outs@[vk as int]@ == outsv[vk as int]);
                        assert(spec_decode_outputs(m[key])->0[vk as int].value < 0);
                        assert(!entry_ok(m[key]));
                        assert(m.contains_key(key));
                    }
                    return Err(ChainError::SerializationFailure);
                }
                proof {
                    assert(outs@[vk as int]@ == outsv[vk as int]);
                }
                vk = vk + 1;
            }
            let mut idxs: Vec<usize> = Vec::new();
            let ghost acc0 = accumulated as int;
            let mut oi: usize = 0;
            while oi < outs.len()
                invariant
                    oi <= outs@.len(),
                    outs.deep_view() == outsv,
                    outs@.len() == outsv.len(),
                    amount_wide == amount,
                    0 <= accumulated,
                    acc0 <= accumulated,
                    accumulated - acc0 == entry_sum(outsv, idxs@),
                    accumulated - acc0 <= owned_sum(outsv.take(oi as int), pub_key_hash@),
                    forall|j: int| 0 <= j < outsv.len() ==> (#[trigger] outsv[j]).value >= 0,
                    forall|j: int|
                        0 <= j < idxs@.len() ==> (#[trigger] idxs@[j]) < oi && outsv[
                            idxs@[j] as int
                        ].pub_key_hash == pub_key_hash@,
                    forall|j1: int, j2: int|
                        #![trigger idxs@[j1], idxs@[j2]]
                        0 <= j1 < j2 < idxs@.len() ==> idxs@[j1] < idxs@[j2],
                    accumulated < amount ==> forall|oj: int|
                        0 <= oj < oi && (#[trigger] outsv[oj]).pub_key_hash == pub_key_hash@
                            ==> idxs@.contains(oj as usize),
                    entry_prefix_ok(outsv, idxs@, acc0, amount as int),
                    amount <= 0 ==> accumulated == acc0 && idxs@.len() == 0,
                decreases outs@.len() - oi,
            {
                proof {
                    assert(outs@[oi as int]@ == outsv[oi as int]);
                    assert(outsv.take(oi + 1) =~= outsv.take(oi as int) + seq![outsv[oi as int]]);
                    lemma_owned_sum_snoc(outsv.take(oi as int), outsv[oi as int], pub_key_hash@);
                }
                let owned = outs[oi].is_locked_with_key(pub_key_hash);
                if owned && accumulated < amount_wide {
                    accumulated = accumulated + outs[oi].get_value() as i64;
                    let ghost idxs0 = idxs@;
                    idxs.push(oi);
                    proof {
                        assert(idxs@.drop_last() =~= idxs0);
                        assert(idxs@[idxs@.len() - 1] == oi);
                        assert(idxs@.contains(oi));
                        assert forall|oj: usize| idxs0.contains(oj) implies idxs@.contains(
                            oj,
                        ) by {
                            let t = choose|t: int| 0 <= t < idxs0.len() && idxs0[t] == oj;
                            assert(idxs@[t] == oj);
                        }
                    }
                }
                oi = oi + 1;
            }
            proof {
                assert(outsv.take(outsv.len() as int) =~= outsv);
            }
            let ghost idxs_final = idxs@;
            let pushed = idxs.len() > 0;
            if pushed {
                let key_owned = clone_bytes(&entries[ei].0);
                let ghost unspent0 = unspent@;
                unspent.push((key_owned, idxs));
                proof {
                    assert(unspent@.drop_last() =~= unspent0);
                    assert(unspent@.last().1@ == idxs_final);
                    assert(unspent@.last().0@ == key);
                    assert(sel_sum(m, unspent@) == sel_sum(m, unspent0) + entry_sum(
                        outsv,
                        idxs_final,
                    ));
                    assert(sel_sum(m, unspent0) == acc0);
                    assert(entry_prefix_ok(outsv, idxs_final, acc0, amount as int));
                    assert(sel_prefix_ok(m, unspent@, amount as int));
                }
            }
            proof {
                assert(entries@.take(ei + 1) =~= entries@.take(ei as int) + seq![
                    entries@[ei as int],
                ]);
                lemma_total_owned_snoc(entries@.take(ei as int), entries@[ei as int],
                    pub_key_hash@);
                assert forall|i: int| 0 <= i < unspent@.len() implies exists|j: int|
                    0 <= j < ei + 1 && (#[trigger] unspent@[i]).0@ == entries@[j].0@ by {
                    if i < unspent_top.len() {
                        assert(unspent@[i] == unspent_top[i]);
                        let j = choose|j: int|
                            0 <= j < ei && (#[trigger] unspent_top[i]).0@ == entries@[j].0@;
                        assert(unspent@[i].0@ == entries@[j].0@);
                    } else {
                        assert(unspent@[i].0@ == entries@[ei as int].0@);
                    }
                }
                assert forall|jj: int, oj: int|
                    #![trigger spec_decode_outputs(m[entries@[jj].0@])->0[oj]]
                    accumulated < amount && 0 <= jj < ei + 1 && 0 <= oj < spec_decode_outputs(
                        m[entries@[jj].0@],
                    )->0.len() && spec_decode_outputs(m[entries@[jj].0@])->0[oj].pub_key_hash
                        == pub_key_hash@ implies spec_selected(
                    unspent@,
                    entries@[jj].0@,
                    oj as usize,
                ) by {
                    if jj < ei {
                        assert(acc0 < amount);
                        assert(spec_selected(unspent_top, entries@[jj].0@, oj as usize));
                        let i = choose|i: int|
                            0 <= i < unspent_top.len() && (#[trigger] unspent_top[i]).0@
                                == entries@[jj].0@ && unspent_top[i].1@.contains(oj as usize);
                        assert(unspent@[i] == unspent_top[i]);
                        assert(unspent@[i].0@ == entries@[jj].0@ && unspent@[i].1@.contains(
                            oj as usize,
                        ));
                    } else {
                        assert(outsv[oj].pub_key_hash == pub_key_hash@);
                        assert(idxs_final.contains(oj as usize));
                        assert(idxs_final.len() > 0);
                        let li = unspent@.len() - 1;
                        assert(unspent@[li].0@ == key && unspent@[li].1@.contains(oj as usize));
                    }
                }
            }
            ei = ei + 1;
        }
        proof {
            assert(entries@.take(entries@.len() as int) =~= entries@);
            assert forall|k: Seq<u8>| #[trigger] m.contains_key(k) implies entry_ok(m[k]) by {
                let i = choose|i: int| 0 <= i < entries@.len() && #[trigger] entries@[i].0@ == k;
            }
            assert(entries_rep(m, entries@));
            assert forall|es: Seq<(Vec<u8>, Vec<u8>)>| #[trigger] entries_rep(m, es) implies
                accumulated <= total_owned(es, pub_key_hash@) by {
                lemma_total_owned_unique(m, entries@, es, pub_key_hash@);
            }
        }
        Ok((accumulated, unspent))
    }
}

proof fn lemma_owned_sum_snoc(outs: Seq<TXOutputV>, o: TXOutputV, owner: Seq<u8>)
    ensures
        owned_sum(outs + seq![o], owner) == owned_sum(outs, owner) + (if o.pub_key_hash == owner {
            o.value
        } else {
            0
        }),
{
    let s2 = outs + seq![o];
    assert(s2.drop_last() =~= outs);
    assert(s2.last() == o);
}

proof fn lemma_total_owned_snoc(es: Seq<(Vec<u8>, Vec<u8>)>, e: (Vec<u8>, Vec<u8>), owner: Seq<
    u8,
>)
    ensures
        total_owned(es + seq![e], owner) == total_owned(es, owner) + owned_sum(
            spec_decode_outputs(e.1@)->0,
            owner,
        ),
{
    let s2 = es + seq![e];
    assert(s2.drop_last() =~= es);
    assert(s2.last() == e);
}

} // verus!
