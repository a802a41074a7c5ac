//! The off-chain index and its snapshot view provider.
//!
//! The index maintains owner-keyed secondary tables over coins, messages and
//! transactions, plus a transaction-status table. Writers (the indexing
//! worker) use the `record_*` and `update_tx_status` operations; readers go
//! through `latest_view`, which pins an independent snapshot of the committed
//! state, and iterate with the `owned_*` operations, which support cursors
//! and both directions.

use vstd::prelude::*;

use crate::EntityKind;
use crate::Error;
use crate::bytes::concat_bytes;
use crate::bytes::copy_bytes;
use crate::bytes::copy_slice;
use crate::bytes::strictly_sorted;
use crate::kv::IterDirection;
use crate::kv::KvStore;
use crate::kv::cursor_view;
use crate::kv::lemma_select_membership;
use crate::kv::select_keys;
use crate::kv::selected;
use crate::kv::views_of;
use crate::types::Address;
use crate::types::Nonce;
use crate::types::TransactionStatus;
use crate::types::TxId;
use crate::types::TxPointer;
use crate::types::UtxoId;
use crate::types::be16;
use crate::types::be32;
use crate::types::push_be16;
use crate::types::push_be32;
use crate::types::read_be16;
use crate::types::read_be32;
use crate::types::tx_pointer_bytes;
use crate::types::utxo_bytes;

verus! {

/// The index key under which a message nonce is recorded for an owner.
pub open spec fn message_key(owner: Seq<u8>, nonce: Seq<u8>) -> Seq<u8> {
    owner + nonce
}

/// The index key under which a coin is recorded for an owner.
pub open spec fn coin_key(owner: Seq<u8>, utxo: UtxoId) -> Seq<u8> {
    owner + utxo_bytes(utxo)
}

/// The index key under which a transaction is recorded for an owner.
pub open spec fn transaction_key(owner: Seq<u8>, pointer: TxPointer) -> Seq<u8> {
    owner + tx_pointer_bytes(pointer)
}

/// The owner-indexed off-chain database.
pub struct Database {
    owned_messages: KvStore<()>,
    owned_coins: KvStore<()>,
    owned_transactions: KvStore<Vec<u8>>,
    statuses: KvStore<TransactionStatus>,
}

impl Database {
    /// The recorded owner-to-message index keys, in ascending key order.
    pub closed spec fn message_keys(self) -> Seq<Seq<u8>> {
        self.owned_messages.key_seq()
    }

    /// The set of recorded owner-to-message index keys.
    pub closed spec fn message_set(self) -> Set<Seq<u8>> {
        self.owned_messages@.dom()
    }

    /// The recorded owner-to-coin index keys, in ascending key order.
    pub closed spec fn coin_keys(self) -> Seq<Seq<u8>> {
        self.owned_coins.key_seq()
    }

    /// The set of recorded owner-to-coin index keys.
    pub closed spec fn coin_set(self) -> Set<Seq<u8>> {
        self.owned_coins@.dom()
    }

    /// The recorded owner-to-transaction index keys, in ascending key order.
    pub closed spec fn transaction_keys(self) -> Seq<Seq<u8>> {
        self.owned_transactions.key_seq()
    }

    /// The owner-to-transaction index: composite key to transaction id bytes.
    pub closed spec fn transaction_map(self) -> Map<Seq<u8>, Vec<u8>> {
        self.owned_transactions@
    }

    /// The transaction-status table: transaction id bytes to latest status.
    pub closed spec fn status_map(self) -> Map<Seq<u8>, TransactionStatus> {
        self.statuses@
    }

    /// Well-formed: each table is sorted, and every key and stored id has the
    /// length its encoding prescribes.
    pub closed spec fn wf(self) -> bool {
        &&& self.owned_messages.wf()
        &&& self.owned_coins.wf()
        &&& self.owned_transactions.wf()
        &&& self.statuses.wf()
        &&& forall|i: int|
            0 <= i < self.message_keys().len() ==> (#[trigger] self.message_keys()[i]).len() == 64
        &&& forall|i: int|
            0 <= i < self.coin_keys().len() ==> (#[trigger] self.coin_keys()[i]).len() == 66
        &&& forall|i: int|
            0 <= i < self.transaction_keys().len() ==> (
            #[trigger] self.transaction_keys()[i]).len() == 38
        &&& forall|k: Seq<u8>|
            #[trigger] self.transaction_map().dom().contains(k)
                ==> self.transaction_map()[k]@.len() == 32
    }

    /// Each index enumerates its key set in strictly ascending order.
    pub proof fn lemma_index_keys(self)
        requires
            self.wf(),
        ensures
            strictly_sorted(self.message_keys()),
            strictly_sorted(self.coin_keys()),
            strictly_sorted(self.transaction_keys()),
            forall|k: Seq<u8>| self.message_set().contains(k) <==> self.message_keys().contains(k),
            forall|k: Seq<u8>| self.coin_set().contains(k) <==> self.coin_keys().contains(k),
            forall|k: Seq<u8>|
                self.transaction_map().dom().contains(k) <==> self.transaction_keys().contains(k),
    {
        self.owned_messages.lemma_keys();
        self.owned_coins.lemma_keys();
        self.owned_transactions.lemma_keys();
    }

    /// An empty off-chain index.
    pub fn new() -> (db: Self)
        ensures
            db.wf(),
            db.message_set() == Set::<Seq<u8>>::empty(),
            db.coin_set() == Set::<Seq<u8>>::empty(),
            db.transaction_map() == Map::<Seq<u8>, Vec<u8>>::empty(),
            db.status_map() == Map::<Seq<u8>, TransactionStatus>::empty(),
    {
        let db = Database {
            owned_messages: KvStore::new(),
            owned_coins: KvStore::new(),
            owned_transactions: KvStore::new(),
            statuses: KvStore::new(),
        };
        proof {
            assert(db.message_set() =~= Set::<Seq<u8>>::empty());
            assert(db.coin_set() =~= Set::<Seq<u8>>::empty());
        }
        db
    }

    /// Records that `owner` owns the message with the given nonce; returns
    /// whether the pair was already recorded. Idempotent upsert.
    pub fn record_owned_message(&mut self, owner: &Address, nonce: &Nonce) -> (existed: bool)
        requires
            old(self).wf(),
            owner.wf(),
            nonce.wf(),
        ensures
            final(self).wf(),
            final(self).message_set() == old(self).message_set().insert(
                message_key(owner@, nonce@),
            ),
            existed == old(self).message_set().contains(message_key(owner@, nonce@)),
            final(self).coin_keys() == old(self).coin_keys(),
            final(self).coin_set() == old(self).coin_set(),
            final(self).transaction_keys() == old(self).transaction_keys(),
            final(self).transaction_map() == old(self).transaction_map(),
            final(self).status_map() == old(self).status_map(),
    {
        let key = concat_bytes(&owner.bytes, &nonce.bytes);
        let prev = self.owned_messages.insert(key, ());
        proof {
            assert(self.owned_messages@.dom() =~= old(self).owned_messages@.dom().insert(
                message_key(owner@, nonce@),
            ));
            assert forall|i: int| 0 <= i < self.message_keys().len() implies (
            #[trigger] self.message_keys()[i]).len() == 64 by {
                self.owned_messages.lemma_keys();
                old(self).owned_messages.lemma_keys();
                let k = self.message_keys()[i];
                assert(self.message_keys().contains(k));
                assert(self.owned_messages@.dom().contains(k));
                if k != message_key(owner@, nonce@) {
                    assert(old(self).owned_messages@.dom().contains(k));
                    assert(old(self).message_keys().contains(k));
                    let w = choose|w: int|
                        0 <= w < old(self).message_keys().len() && old(self).message_keys()[w]
                            == k;
                    assert(old(self).message_keys()[w].len() == 64);
                }
            }
            assert forall|i: int| 0 <= i < self.coin_keys().len() implies (
            #[trigger] self.coin_keys()[i]).len() == 66 by {
                assert(old(self).coin_keys()[i].len() == 66);
            }
            assert forall|i: int| 0 <= i < self.transaction_keys().len() implies (
            #[trigger] self.transaction_keys()[i]).len() == 38 by {
                assert(old(self).transaction_keys()[i].len() == 38);
            }
            assert forall|k: Seq<u8>| #[trigger] self.transaction_map().dom().contains(k)
                implies self.transaction_map()[k]@.len() == 32 by {
                assert(old(self).transaction_map().dom().contains(k));
                assert(old(self).transaction_map()[k]@.len() == 32);
            }
        }
        match prev {
            Option::Some(_) => true,
            Option::None => false,
        }
    }

    /// Records that `owner` owns the given coin; returns whether the pair was
    /// already recorded. Idempotent upsert.
    pub fn record_owned_coin(&mut self, owner: &Address, utxo_id: &UtxoId) -> (existed: bool)
        requires
            old(self).wf(),
            owner.wf(),
            utxo_id.wf(),
        ensures
            final(self).wf(),
            final(self).coin_set() == old(self).coin_set().insert(coin_key(owner@, *utxo_id)),
            existed == old(self).coin_set().contains(coin_key(owner@, *utxo_id)),
            final(self).message_keys() == old(self).message_keys(),
            final(self).message_set() == old(self).message_set(),
            final(self).transaction_keys() == old(self).transaction_keys(),
            final(self).transaction_map() == old(self).transaction_map(),
            final(self).status_map() == old(self).status_map(),
    {
        let mut key = concat_bytes(&owner.bytes, &utxo_id.tx_id.bytes);
        push_be16(&mut key, utxo_id.output_index);
        proof {
            assert(key@ =~= coin_key(owner@, *utxo_id));
        }
        let prev = self.owned_coins.insert(key, ());
        proof {
            assert(self.owned_coins@.dom() =~= old(self).owned_coins@.dom().insert(
                coin_key(owner@, *utxo_id),
            ));
            assert forall|i: int| 0 <= i < self.coin_keys().len() implies (
            #[trigger] self.coin_keys()[i]).len() == 66 by {
                self.owned_coins.lemma_keys();
                old(self).owned_coins.lemma_keys();
                let k = self.coin_keys()[i];
                assert(self.coin_keys().contains(k));
                assert(self.owned_coins@.dom().contains(k));
                if k != coin_key(owner@, *utxo_id) {
                    assert(old(self).owned_coins@.dom().contains(k));
                    assert(old(self).coin_keys().contains(k));
                    let w = choose|w: int|
                        0 <= w < old(self).coin_keys().len() && old(self).coin_keys()[w] == k;
                    assert(old(self).coin_keys()[w].len() == 66);
                }
            }
            assert forall|i: int| 0 <= i < self.message_keys().len() implies (
            #[trigger] self.message_keys()[i]).len() == 64 by {
                assert(old(self).message_keys()[i].len() == 64);
            }
            assert forall|i: int| 0 <= i < self.transaction_keys().len() implies (
            #[trigger] self.transaction_keys()[i]).len() == 38 by {
                assert(old(self).transaction_keys()[i].len() == 38);
            }
            assert forall|k: Seq<u8>| #[trigger] self.transaction_map().dom().contains(k)
                implies self.transaction_map()[k]@.len() == 32 by {
                assert(old(self).transaction_map().dom().contains(k));
                assert(old(self).transaction_map()[k]@.len() == 32);
            }
        }
        match prev {
            Option::Some(_) => true,
            Option::None => false,
        }
    }

    /// Associates a transaction id with an owner under the composite
    /// `(block_height, tx_idx)` ordering key; returns whatever id was
    /// previously stored at that exact composite key. Idempotent overwrite.
    pub fn record_tx_id_owner(
        &mut self,
        owner: &Address,
        block_height: u32,
        tx_idx: u16,
        tx_id: &TxId,
    ) -> (r: Result<Option<TxId>, Error>)
        requires
            old(self).wf(),
            owner.wf(),
            tx_id.wf(),
        ensures
            final(self).wf(),
            ({
                let key = transaction_key(
                    owner@,
                    (TxPointer { block_height: block_height, tx_index: tx_idx }),
                );
                &&& final(self).transaction_map().dom() == old(self).transaction_map().dom().insert(
                    key,
                )
                &&& final(self).transaction_map()[key]@ == tx_id@
                &&& forall|k: Seq<u8>|
                    #[trigger] old(self).transaction_map().dom().contains(k) && k != key
                        ==> final(self).transaction_map()[k] == old(self).transaction_map()[k]
                &&& match r {
                    Result::Ok(prev) => match prev {
                        Option::Some(p) => old(self).transaction_map().dom().contains(key) && p@
                            == old(self).transaction_map()[key]@,
                        Option::None => !old(self).transaction_map().dom().contains(key),
                    },
                    Result::Err(_) => false,
                }
            }),
            final(self).message_keys() == old(self).message_keys(),
            final(self).message_set() == old(self).message_set(),
            final(self).coin_keys() == old(self).coin_keys(),
            final(self).coin_set() == old(self).coin_set(),
            final(self).status_map() == old(self).status_map(),
    {
        let ghost pointer = TxPointer { block_height: block_height, tx_index: tx_idx };
        let mut key = copy_bytes(&owner.bytes);
        push_be32(&mut key, block_height);
        push_be16(&mut key, tx_idx);
        proof {
            assert(key@ =~= transaction_key(owner@, pointer));
        }
        let value = copy_bytes(&tx_id.bytes);
        let prev = self.owned_transactions.insert(key, value);
        proof {
            let keyv = transaction_key(owner@, pointer);
            assert(self.transaction_map().dom() =~= old(self).transaction_map().dom().insert(
                keyv,
            ));
            assert forall|i: int| 0 <= i < self.transaction_keys().len() implies (
            #[trigger] self.transaction_keys()[i]).len() == 38 by {
                self.owned_transactions.lemma_keys();
                old(self).owned_transactions.lemma_keys();
                let k = self.transaction_keys()[i];
                assert(self.transaction_keys().contains(k));
                assert(self.owned_transactions@.dom().contains(k));
                if k != keyv {
                    assert(old(self).owned_transactions@.dom().contains(k));
                    assert(old(self).transaction_keys().contains(k));
                    let w = choose|w: int|
                        0 <= w < old(self).transaction_keys().len() && old(
                            self,
                        ).transaction_keys()[w] == k;
                    assert(old(self).transaction_keys()[w].len() == 38);
                }
            }
            assert forall|i: int| 0 <= i < self.message_keys().len() implies (
            #[trigger] self.message_keys()[i]).len() == 64 by {
                assert(old(self).message_keys()[i].len() == 64);
            }
            assert forall|i: int| 0 <= i < self.coin_keys().len() implies (
            #[trigger] self.coin_keys()[i]).len() == 66 by {
                assert(old(self).coin_keys()[i].len() == 66);
            }
            assert forall|k: Seq<u8>| #[trigger] self.transaction_map().dom().contains(k)
                implies self.transaction_map()[k]@.len() == 32 by {
                if k != keyv {
                    assert(old(self).transaction_map().dom().contains(k));
                    assert(self.transaction_map()[k] == old(self).transaction_map()[k]);
                    assert(old(self).transaction_map()[k]@.len() == 32);
                }
            }
        }
        match prev {
            Option::Some(p) => Result::Ok(Option::Some(TxId::new(p))),
            Option::None => Result::Ok(Option::None),
        }
    }

    /// Transitions the status recorded for a transaction id; returns the
    /// previous status, if any. Overwrite semantics: the caller is trusted to
    /// drive forward-only transitions.
    pub fn update_tx_status(&mut self, id: &TxId, status: TransactionStatus) -> (r: Result<
        Option<TransactionStatus>,
        Error,
    >)
        requires
            old(self).wf(),
            id.wf(),
        ensures
            final(self).wf(),
            final(self).status_map() == old(self).status_map().insert(id@, status),
            match r {
                Result::Ok(prev) => match prev {
                    Option::Some(p) => old(self).status_map().dom().contains(id@) && p == old(
                        self,
                    ).status_map()[id@],
                    Option::None => !old(self).status_map().dom().contains(id@),
                },
                Result::Err(_) => false,
            },
            final(self).message_keys() == old(self).message_keys(),
            final(self).message_set() == old(self).message_set(),
            final(self).coin_keys() == old(self).coin_keys(),
            final(self).coin_set() == old(self).coin_set(),
            final(self).transaction_keys() == old(self).transaction_keys(),
            final(self).transaction_map() == old(self).transaction_map(),
    {
        let key = copy_bytes(&id.bytes);
        let prev = self.statuses.insert(key, status);
        proof {
            assert forall|i: int| 0 <= i < self.message_keys().len() implies (
            #[trigger] self.message_keys()[i]).len() == 64 by {
                assert(old(self).message_keys()[i].len() == 64);
            }
            assert forall|i: int| 0 <= i < self.coin_keys().len() implies (
            #[trigger] self.coin_keys()[i]).len() == 66 by {
                assert(old(self).coin_keys()[i].len() == 66);
            }
            assert forall|i: int| 0 <= i < self.transaction_keys().len() implies (
            #[trigger] self.transaction_keys()[i]).len() == 38 by {
                assert(old(self).transaction_keys()[i].len() == 38);
            }
            assert forall|k: Seq<u8>| #[trigger] self.transaction_map().dom().contains(k)
                implies self.transaction_map()[k]@.len() == 32 by {
                assert(old(self).transaction_map().dom().contains(k));
                assert(old(self).transaction_map()[k]@.len() == 32);
            }
        }
        Result::Ok(prev)
    }

    /// The nonces of messages recorded for `owner`, ordered by nonce,
    /// starting strictly after `start_message_id` when given, walking forward
    /// or backward per `direction`.
    pub fn owned_message_ids(
        &self,
        owner: &Address,
        start_message_id: Option<&Nonce>,
        direction: IterDirection,
    ) -> (r: Vec<Nonce>)
        requires
            self.wf(),
            owner.wf(),
        ensures
            ({
                let cursor = match start_message_id {
                    Option::None => Option::<Seq<u8>>::None,
                    Option::Some(n) => Option::Some(message_key(owner@, n@)),
                };
                let sel = select_keys(
                    self.message_keys(),
                    owner@,
                    cursor,
                    direction == IterDirection::Reverse,
                );
                let ordered = if direction == IterDirection::Reverse {
                    sel.reverse()
                } else {
                    sel
                };
                &&& r@.len() == ordered.len()
                &&& forall|i: int|
                    0 <= i < r@.len() ==> message_key(owner@, (#[trigger] r@[i])@) == ordered[i]
                        && r@[i].wf()
            }),
    {
        let ghost desc = direction == IterDirection::Reverse;
        let keys: Vec<Vec<u8>> = match start_message_id {
            Option::None => self.owned_messages.range_keys(&owner.bytes, Option::None, direction),
            Option::Some(n) => {
                let c = concat_bytes(&owner.bytes, &n.bytes);
                self.owned_messages.range_keys(&owner.bytes, Option::Some(&c), direction)
            },
        };
        let ghost cursor = match start_message_id {
            Option::None => Option::<Seq<u8>>::None,
            Option::Some(n) => Option::Some(message_key(owner@, n@)),
        };
        let ghost sel = select_keys(self.message_keys(), owner@, cursor, desc);
        let ghost ordered = if desc {
            sel.reverse()
        } else {
            sel
        };
        proof {
            assert(views_of(keys@) == ordered);
            lemma_select_membership(self.message_keys(), owner@, cursor, desc);
            assert forall|j: int| 0 <= j < ordered.len() implies (#[trigger] ordered[j]).len()
                == 64 && owner@.is_prefix_of(ordered[j]) by {
                let k = if desc {
                    sel[sel.len() - 1 - j]
                } else {
                    sel[j]
                };
                assert(ordered[j] == k);
                assert(self.message_keys().contains(k));
                assert(selected(owner@, cursor, desc, k));
                let w = choose|w: int|
                    0 <= w < self.message_keys().len() && self.message_keys()[w] == k;
                assert(self.message_keys()[w].len() == 64);
            }
        }
        let mut out: Vec<Nonce> = Vec::new();
        let mut i: usize = 0;
        let n = keys.len();
        while i < n
            invariant
                i <= n,
                n == keys@.len(),
                n == ordered.len(),
                views_of(keys@) == ordered,
                owner@.len() == 32,
                forall|j: int|
                    0 <= j < ordered.len() ==> (#[trigger] ordered[j]).len() == 64
                        && owner@.is_prefix_of(ordered[j]),
                out@.len() == i,
                forall|j: int|
                    0 <= j < i ==> message_key(owner@, (#[trigger] out@[j])@) == ordered[j]
                        && out@[j].wf(),
            decreases n - i,
        {
            let k = &keys[i];
            proof {
                assert(views_of(keys@)[i as int] == keys@[i as int]@);
                assert(k@ == ordered[i as int]);
            }
            let nb = copy_slice(k, 32, 64);
            let nonce = Nonce::new(nb);
            proof {
                assert(owner@ == k@.subrange(0, 32));
                assert forall|j: int| 0 <= j < 64 implies (message_key(owner@, nonce@))[j]
                    == #[trigger] k@[j] by {
                    if j < 32 {
                        assert(k@.subrange(0, 32)[j] == k@[j]);
                    } else {
                        assert(k@.subrange(32, 64)[j - 32] == k@[j]);
                    }
                }
                assert(message_key(owner@, nonce@) =~= ordered[i as int]);
            }
            out.push(nonce);
            i += 1;
        }
        out
    }

    /// The UTXO ids of coins recorded for `owner`, ordered by UTXO
    /// identifier, starting strictly after `start_coin` when given, walking
    /// forward or backward per `direction`.
    pub fn owned_coins_ids(
        &self,
        owner: &Address,
        start_coin: Option<&UtxoId>,
        direction: IterDirection,
    ) -> (r: Vec<UtxoId>)
        requires
            self.wf(),
            owner.wf(),
        ensures
            ({
                let cursor = match start_coin {
                    Option::None => Option::<Seq<u8>>::None,
                    Option::Some(u) => Option::Some(coin_key(owner@, *u)),
                };
                let sel = select_keys(
                    self.coin_keys(),
                    owner@,
                    cursor,
                    direction == IterDirection::Reverse,
                );
                let ordered = if direction == IterDirection::Reverse {
                    sel.reverse()
                } else {
                    sel
                };
                &&& r@.len() == ordered.len()
                &&& forall|i: int|
                    0 <= i < r@.len() ==> coin_key(owner@, #[trigger] r@[i]) == ordered[i]
                        && r@[i].wf()
            }),
    {
        let ghost desc = direction == IterDirection::Reverse;
        let keys: Vec<Vec<u8>> = match start_coin {
            Option::None => self.owned_coins.range_keys(&owner.bytes, Option::None, direction),
            Option::Some(u) => {
                let mut c = concat_bytes(&owner.bytes, &u.tx_id.bytes);
                push_be16(&mut c, u.output_index);
                proof {
                    assert(c@ =~= coin_key(owner@, *u));
                }
                self.owned_coins.range_keys(&owner.bytes, Option::Some(&c), direction)
            },
        };
        let ghost cursor = match start_coin {
            Option::None => Option::<Seq<u8>>::None,
            Option::Some(u) => Option::Some(coin_key(owner@, *u)),
        };
        let ghost sel = select_keys(self.coin_keys(), owner@, cursor, desc);
        let ghost ordered = if desc {
            sel.reverse()
        } else {
            sel
        };
        proof {
            assert(views_of(keys@) == ordered);
            lemma_select_membership(self.coin_keys(), owner@, cursor, desc);
            assert forall|j: int| 0 <= j < ordered.len() implies (#[trigger] ordered[j]).len()
                == 66 && owner@.is_prefix_of(ordered[j]) by {
                let k = if desc {
                    sel[sel.len() - 1 - j]
                } else {
                    sel[j]
                };
                assert(ordered[j] == k);
                assert(self.coin_keys().contains(k));
                assert(selected(owner@, cursor, desc, k));
                let w = choose|w: int| 0 <= w < self.coin_keys().len() && self.coin_keys()[w] == k;
                assert(self.coin_keys()[w].len() == 66);
            }
        }
        let mut out: Vec<UtxoId> = Vec::new();
        let mut i: usize = 0;
        let n = keys.len();
        while i < n
            invariant
                i <= n,
                n == keys@.len(),
                n == ordered.len(),
                views_of(keys@) == ordered,
                owner@.len() == 32,
                forall|j: int|
                    0 <= j < ordered.len() ==> (#[trigger] ordered[j]).len() == 66
                        && owner@.is_prefix_of(ordered[j]),
                out@.len() == i,
                forall|j: int|
                    0 <= j < i ==> coin_key(owner@, #[trigger] out@[j]) == ordered[j]
                        && out@[j].wf(),
            decreases n - i,
        {
            let k = &keys[i];
            proof {
                assert(views_of(keys@)[i as int] == keys@[i as int]@);
                assert(k@ == ordered[i as int]);
            }
            let txb = copy_slice(k, 32, 64);
            let idx = read_be16(k[64], k[65]);
            let utxo = UtxoId { tx_id: crate::types::Bytes32::new(txb), output_index: idx };
            proof {
                assert(owner@ == k@.subrange(0, 32));
                assert(be16(idx) == seq![k@[64], k@[65]]);
                assert forall|j: int| 0 <= j < 66 implies (coin_key(owner@, utxo))[j]
                    == #[trigger] k@[j] by {
                    if j < 32 {
                        assert(k@.subrange(0, 32)[j] == k@[j]);
                    } else if j < 64 {
                        assert(k@.subrange(32, 64)[j - 32] == k@[j]);
                        assert(utxo_bytes(utxo)[j - 32] == utxo.tx_id@[j - 32]);
                    } else {
                        assert(utxo_bytes(utxo)[j - 32] == be16(idx)[j - 64]);
                    }
                }
                assert(coin_key(owner@, utxo) =~= ordered[i as int]);
            }
            out.push(utxo);
            i += 1;
        }
        out
    }

    /// The transactions recorded for `owner`, as pairs of the composite
    /// `(block_height, tx_index)` pointer and the transaction id, ordered by
    /// the composite key, starting strictly after `start` when given.
    pub fn owned_transactions_ids(
        &self,
        owner: Address,
        start: Option<&TxPointer>,
        direction: IterDirection,
    ) -> (r: Vec<(TxPointer, TxId)>)
        requires
            self.wf(),
            owner.wf(),
        ensures
            ({
                let cursor = match start {
                    Option::None => Option::<Seq<u8>>::None,
                    Option::Some(p) => Option::Some(transaction_key(owner@, *p)),
                };
                let sel = select_keys(
                    self.transaction_keys(),
                    owner@,
                    cursor,
                    direction == IterDirection::Reverse,
                );
                let ordered = if direction == IterDirection::Reverse {
                    sel.reverse()
                } else {
                    sel
                };
                &&& r@.len() == ordered.len()
                &&& forall|i: int|
                    0 <= i < r@.len() ==> transaction_key(owner@, (#[trigger] r@[i]).0)
                        == ordered[i] && r@[i].1@ == self.transaction_map()[ordered[i]]@
                        && r@[i].1.wf()
            }),
    {
        let ghost desc = direction == IterDirection::Reverse;
        let keys: Vec<Vec<u8>> = match start {
            Option::None => self.owned_transactions.range_keys(
                &owner.bytes,
                Option::None,
                direction,
            ),
            Option::Some(p) => {
                let mut c = copy_bytes(&owner.bytes);
                push_be32(&mut c, p.block_height);
                push_be16(&mut c, p.tx_index);
                proof {
                    assert(c@ =~= transaction_key(owner@, *p));
                }
                self.owned_transactions.range_keys(&owner.bytes, Option::Some(&c), direction)
            },
        };
        let ghost cursor = match start {
            Option::None => Option::<Seq<u8>>::None,
            Option::Some(p) => Option::Some(transaction_key(owner@, *p)),
        };
        let ghost sel = select_keys(self.transaction_keys(), owner@, cursor, desc);
        let ghost ordered = if desc {
            sel.reverse()
        } else {
            sel
        };
        proof {
            assert(views_of(keys@) == ordered);
            lemma_select_membership(self.transaction_keys(), owner@, cursor, desc);
            self.owned_transactions.lemma_keys();
            assert forall|j: int| 0 <= j < ordered.len() implies (#[trigger] ordered[j]).len()
                == 38 && owner@.is_prefix_of(ordered[j]) && self.transaction_map().dom().contains(
                ordered[j],
            ) by {
                let k = if desc {
                    sel[sel.len() - 1 - j]
                } else {
                    sel[j]
                };
                assert(ordered[j] == k);
                assert(self.transaction_keys().contains(k));
                assert(selected(owner@, cursor, desc, k));
                let w = choose|w: int|
                    0 <= w < self.transaction_keys().len() && self.transaction_keys()[w] == k;
                assert(self.transaction_keys()[w].len() == 38);
            }
        }
        let mut out: Vec<(TxPointer, TxId)> = Vec::new();
        let mut i: usize = 0;
        let n = keys.len();
        while i < n
            invariant
                self.wf(),
                i <= n,
                n == keys@.len(),
                n == ordered.len(),
                views_of(keys@) == ordered,
                owner@.len() == 32,
                forall|j: int|
                    0 <= j < ordered.len() ==> (#[trigger] ordered[j]).len() == 38
                        && owner@.is_prefix_of(ordered[j])
                        && self.transaction_map().dom().contains(ordered[j]),
                out@.len() == i,
                forall|j: int|
                    0 <= j < i ==> transaction_key(owner@, (#[trigger] out@[j]).0) == ordered[j]
                        && out@[j].1@ == self.transaction_map()[ordered[j]]@ && out@[j].1.wf(),
            decreases n - i,
        {
            let k = &keys[i];
            proof {
                assert(views_of(keys@)[i as int] == keys@[i as int]@);
                assert(k@ == ordered[i as int]);
            }
            let height = read_be32(k[32], k[33], k[34], k[35]);
            let idx = read_be16(k[36], k[37]);
            let pointer = TxPointer { block_height: height, tx_index: idx };
            let id_bytes = match self.owned_transactions.get(k) {
                Option::Some(v) => copy_bytes(v),
                Option::None => {
                    proof {
                        assert(false);
                    }
                    Vec::new()
                },
            };
            let tx = TxId::new(id_bytes);
            proof {
                assert(owner@ == k@.subrange(0, 32));
                assert(be32(height) == seq![k@[32], k@[33], k@[34], k@[35]]);
                assert(be16(idx) == seq![k@[36], k@[37]]);
                assert forall|j: int| 0 <= j < 38 implies (transaction_key(owner@, pointer))[j]
                    == #[trigger] k@[j] by {
                    if j < 32 {
                        assert(k@.subrange(0, 32)[j] == k@[j]);
                    } else if j < 36 {
                        assert(tx_pointer_bytes(pointer)[j - 32] == be32(height)[j - 32]);
                    } else {
                        assert(tx_pointer_bytes(pointer)[j - 32] == be16(idx)[j - 36]);
                    }
                }
                assert(transaction_key(owner@, pointer) =~= ordered[i as int]);
            }
            out.push((pointer, tx));
            i += 1;
        }
        out
    }

    /// The status recorded for a transaction id. A transaction id that never
    /// had a status recorded is a `NotFound` error, not an empty answer.
    pub fn tx_status(&self, tx_id: &TxId) -> (r: Result<TransactionStatus, Error>)
        requires
            self.wf(),
        ensures
            match r {
                Result::Ok(s) => self.status_map().dom().contains(tx_id@)
                    && s == self.status_map()[tx_id@],
                Result::Err(e) => !self.status_map().dom().contains(tx_id@) && e == Error::NotFound(
                    EntityKind::TransactionId,
                ),
            },
    {
        match self.statuses.get(&tx_id.bytes) {
            Option::Some(s) => Result::Ok(*s),
            Option::None => Result::Err(Error::NotFound(EntityKind::TransactionId)),
        }
    }

    /// A read-only handle pinned to the most recent fully committed state at
    /// call time. Always succeeds; later writes to this database leave the
    /// returned view untouched.
    pub fn latest_view(&self) -> (v: OffChainView)
        requires
            self.wf(),
        ensures
            v.db().wf(),
            v.db().message_keys() == self.message_keys(),
            v.db().message_set() == self.message_set(),
            v.db().coin_keys() == self.coin_keys(),
            v.db().coin_set() == self.coin_set(),
            v.db().transaction_keys() == self.transaction_keys(),
            v.db().transaction_map().dom() == self.transaction_map().dom(),
            forall|k: Seq<u8>|
                #[trigger] v.db().transaction_map().dom().contains(k) ==> v.db().transaction_map()[
                    k]@ == self.transaction_map()[k]@,
            v.db().status_map() == self.status_map(),
    {
        let db = Database {
            owned_messages: self.owned_messages.duplicate(),
            owned_coins: self.owned_coins.duplicate(),
            owned_transactions: self.owned_transactions.duplicate_bytes(),
            statuses: self.statuses.duplicate(),
        };
        proof {
            assert forall|i: int| 0 <= i < db.message_keys().len() implies (
            #[trigger] db.message_keys()[i]).len() == 64 by {
                assert(self.message_keys()[i].len() == 64);
            }
            assert forall|i: int| 0 <= i < db.coin_keys().len() implies (
            #[trigger] db.coin_keys()[i]).len() == 66 by {
                assert(self.coin_keys()[i].len() == 66);
            }
            assert forall|i: int| 0 <= i < db.transaction_keys().len() implies (
            #[trigger] db.transaction_keys()[i]).len() == 38 by {
                assert(self.transaction_keys()[i].len() == 38);
            }
            assert forall|k: Seq<u8>| #[trigger] db.transaction_map().dom().contains(k)
                implies db.transaction_map()[k]@.len() == 32 by {
                assert(self.transaction_map().dom().contains(k));
                assert(db.transaction_map()[k]@ == self.transaction_map()[k]@);
            }
        }
        OffChainView { db }
    }

    /// A historical off-chain view at a given height. Off-chain snapshots are
    /// not retained, so this fails with `Unsupported` for every height: the
    /// limitation is explicit, never masked by a best-effort fallback.
    pub fn view_at(&self, _height: crate::types::BlockHeight) -> (r: Result<OffChainView, Error>)
        ensures
            r == Result::<OffChainView, Error>::Err(Error::Unsupported),
    {
        Result::Err(Error::Unsupported)
    }
}

/// A read-only, time-pinned handle over the off-chain index. A view, once
/// obtained, is immutable for its lifetime: it offers no mutating operation,
/// and writes to the live database do not reach it.
pub struct OffChainView {
    db: Database,
}

impl OffChainView {
    /// The snapshot this view is pinned to.
    pub closed spec fn db(self) -> Database {
        self.db
    }

    /// Read access to the pinned snapshot.
    pub fn database(&self) -> (r: &Database)
        ensures
            *r == self.db(),
    {
        &self.db
    }
}

} // verus!
