//! Library-wide laws, stated over the spec-level models the contracts use:
//! round-trip and overwrite behaviour of table upserts, order agreement
//! between identifiers and their encoded keys, and exactness of cursor-based
//! pagination.

use vstd::prelude::*;

use crate::bytes::lemma_lex_concat;
use crate::bytes::lex_less;
use crate::bytes::strictly_sorted;
use crate::database::coin_key;
use crate::database::transaction_key;
use crate::kv::lemma_keys_above_skip;
use crate::kv::lemma_keys_below_take;
use crate::kv::lemma_select_cursor_split;
use crate::kv::lemma_select_sorted;
use crate::kv::select_keys;
use crate::types::TxPointer;
use crate::types::UtxoId;
use crate::types::be16;
use crate::types::be32;
use crate::types::lemma_be16_order;
use crate::types::lemma_be32_order;
use crate::types::tx_pointer_bytes;
use crate::types::tx_pointer_lt;
use crate::types::utxo_bytes;
use crate::types::utxo_lt;

verus! {

/// Round trip: after `insert(k, v)`, a `get(k)` sees exactly `v`. Stated over
/// the map model every table's `insert` and `get` contracts use.
pub proof fn lemma_insert_get_round_trip<V>(m: Map<Seq<u8>, V>, k: Seq<u8>, v: V)
    ensures
        m.insert(k, v).dom().contains(k),
        m.insert(k, v)[k] == v,
{
}

/// Overwrite: after `insert(k, v1)`, a second `insert(k, v2)` finds `v1` as
/// the previous value, and a subsequent `get(k)` sees `v2`. Stated over the
/// map model every table's `insert` and `get` contracts use.
pub proof fn lemma_insert_overwrite<V>(m: Map<Seq<u8>, V>, k: Seq<u8>, v1: V, v2: V)
    ensures
        m.insert(k, v1).dom().contains(k),
        m.insert(k, v1)[k] == v1,
        m.insert(k, v1).insert(k, v2)[k] == v2,
{
}

/// Two well-formed databases holding the same recorded state enumerate the
/// same index keys: what a snapshot view reads is determined entirely by the
/// writes committed into it.
pub proof fn lemma_state_determines_reads(a: crate::database::Database, b: crate::database::Database)
    requires
        a.wf(),
        b.wf(),
        a.message_set() == b.message_set(),
        a.coin_set() == b.coin_set(),
        a.transaction_map().dom() == b.transaction_map().dom(),
    ensures
        a.message_keys() == b.message_keys(),
        a.coin_keys() == b.coin_keys(),
        a.transaction_keys() == b.transaction_keys(),
{
    a.lemma_index_keys();
    b.lemma_index_keys();
    crate::bytes::lemma_sorted_unique(a.message_keys(), b.message_keys());
    crate::bytes::lemma_sorted_unique(a.coin_keys(), b.coin_keys());
    crate::bytes::lemma_sorted_unique(a.transaction_keys(), b.transaction_keys());
}

/// Byte strings of equal length that differ compare as wholes exactly as
/// their own bytes do, whatever follows them.
proof fn lemma_lex_prefix_neq(p1: Seq<u8>, p2: Seq<u8>, s1: Seq<u8>, s2: Seq<u8>)
    requires
        p1.len() == p2.len(),
        p1 != p2,
    ensures
        lex_less(p1 + s1, p2 + s2) == lex_less(p1, p2),
    decreases p1.len(),
{
    if p1.len() == 0 {
        assert(p1 =~= p2);
    } else {
        let a = p1 + s1;
        let b = p2 + s2;
        assert(a[0] == p1[0]);
        assert(b[0] == p2[0]);
        if p1[0] == p2[0] {
            assert(p1.skip(1) !~= p2.skip(1)) by {
                if p1.skip(1) =~= p2.skip(1) {
                    assert forall|i: int| 0 <= i < p1.len() implies p1[i] == #[trigger] p2[i] by {
                        if i > 0 {
                            assert(p1.skip(1)[i - 1] == p1[i]);
                            assert(p2.skip(1)[i - 1] == p2[i]);
                        }
                    }
                    assert(p1 =~= p2);
                }
            }
            lemma_lex_prefix_neq(p1.skip(1), p2.skip(1), s1, s2);
            assert(a.skip(1) =~= p1.skip(1) + s1);
            assert(b.skip(1) =~= p2.skip(1) + s2);
        }
    }
}

/// Within one owner, coin index keys compare exactly as UTXO identifiers do:
/// iteration over encoded keys walks coins in UTXO-id order.
pub proof fn lemma_coin_key_order(owner: Seq<u8>, a: UtxoId, b: UtxoId)
    requires
        a.wf(),
        b.wf(),
    ensures
        lex_less(coin_key(owner, a), coin_key(owner, b)) == utxo_lt(a, b),
{
    lemma_lex_concat(owner, utxo_bytes(a), utxo_bytes(b));
    if a.tx_id@ == b.tx_id@ {
        lemma_lex_concat(a.tx_id@, be16(a.output_index), be16(b.output_index));
        assert(a.tx_id@ + be16(a.output_index) =~= utxo_bytes(a));
        assert(a.tx_id@ + be16(b.output_index) =~= utxo_bytes(b));
        lemma_be16_order(a.output_index, b.output_index);
        crate::bytes::lemma_lex_irrefl(a.tx_id@);
    } else {
        lemma_lex_prefix_neq(a.tx_id@, b.tx_id@, be16(a.output_index), be16(b.output_index));
    }
}

/// Within one owner, transaction index keys compare exactly as the composite
/// `(block_height, tx_index)` pointers do: iteration walks transaction
/// history chronologically.
pub proof fn lemma_transaction_key_order(owner: Seq<u8>, a: TxPointer, b: TxPointer)
    ensures
        lex_less(transaction_key(owner, a), transaction_key(owner, b)) == tx_pointer_lt(a, b),
{
    lemma_lex_concat(owner, tx_pointer_bytes(a), tx_pointer_bytes(b));
    lemma_be32_order(a.block_height, b.block_height);
    if a.block_height == b.block_height {
        assert(be32(a.block_height) == be32(b.block_height));
        lemma_lex_concat(be32(a.block_height), be16(a.tx_index), be16(b.tx_index));
        assert(be32(a.block_height) + be16(a.tx_index) =~= tx_pointer_bytes(a));
        assert(be32(a.block_height) + be16(b.tx_index) =~= tx_pointer_bytes(b));
        lemma_be16_order(a.tx_index, b.tx_index);
        crate::bytes::lemma_lex_irrefl(be32(a.block_height));
    } else {
        lemma_be32_order(b.block_height, a.block_height);
        assert(be32(a.block_height) != be32(b.block_height)) by {
            if a.block_height < b.block_height {
                crate::bytes::lemma_lex_irrefl(be32(a.block_height));
            } else {
                crate::bytes::lemma_lex_irrefl(be32(b.block_height));
            }
        }
        lemma_lex_prefix_neq(
            be32(a.block_height),
            be32(b.block_height),
            be16(a.tx_index),
            be16(b.tx_index),
        );
    }
}

/// Ascending pagination is exact: iterating a prefix without a cursor and
/// re-entering with the cursor set to the key yielded at position `m` yields
/// exactly the remaining suffix, with no duplicates or gaps.
pub proof fn lemma_pagination_resume_ascending(keys: Seq<Seq<u8>>, prefix: Seq<u8>, m: int)
    requires
        strictly_sorted(keys),
        0 <= m < select_keys(keys, prefix, Option::None, false).len(),
    ensures
        ({
            let f = select_keys(keys, prefix, Option::None, false);
            select_keys(keys, prefix, Option::Some(f[m]), false) == f.skip(m + 1)
        }),
{
    let f = select_keys(keys, prefix, Option::None, false);
    lemma_select_sorted(keys, prefix, Option::None, false);
    lemma_select_cursor_split(keys, prefix, f[m], false);
    lemma_keys_above_skip(f, m);
}

/// Descending pagination is exact: iterating a prefix in reverse without a
/// cursor and re-entering with the cursor set to the key yielded at position
/// `m` yields exactly the remaining suffix of the descending enumeration.
pub proof fn lemma_pagination_resume_descending(keys: Seq<Seq<u8>>, prefix: Seq<u8>, m: int)
    requires
        strictly_sorted(keys),
        0 <= m < select_keys(keys, prefix, Option::None, true).len(),
    ensures
        ({
            let f = select_keys(keys, prefix, Option::None, true);
            let r = f.reverse();
            select_keys(keys, prefix, Option::Some(r[m]), true).reverse() == r.skip(m + 1)
        }),
{
    let f = select_keys(keys, prefix, Option::None, true);
    let r = f.reverse();
    lemma_select_sorted(keys, prefix, Option::None, true);
    let mp = f.len() - 1 - m;
    assert(r[m] == f[mp]);
    lemma_select_cursor_split(keys, prefix, f[mp], true);
    lemma_keys_below_take(f, mp);
    assert(select_keys(keys, prefix, Option::Some(r[m]), true) == f.take(mp));
    assert forall|j: int| 0 <= j < mp implies #[trigger] f.take(mp).reverse()[j] == r.skip(
        m + 1,
    )[j] by {
        assert(f.take(mp).reverse()[j] == f.take(mp)[mp - 1 - j]);
        assert(f.take(mp)[mp - 1 - j] == f[mp - 1 - j]);
        assert(r.skip(m + 1)[j] == r[m + 1 + j]);
        assert(r[m + 1 + j] == f[f.len() - 1 - (m + 1 + j)]);
    }
    assert(f.take(mp).reverse() =~= r.skip(m + 1));
}

} // verus!
