use vstd::prelude::*;
use crate::block::Block;
use crate::block::BlockV;
use crate::block::block_valid_against;
use crate::chain::Blockchain;
use crate::chain::chain_valid;
use crate::chain::lemma_chain_indexes;
use crate::block::clone_blocks;
use crate::message::Message;
use crate::transaction::tx_valid;

verus! {

/// The chain after the first `i` positions of `inc` have been processed
/// against `c`: positions 1 up to `i` are appended one by one when they
/// validate against the tail of the moment, and dropped otherwise.
pub open spec fn merge_app(c: Seq<BlockV>, inc: Seq<BlockV>, i: int) -> Seq<BlockV>
    decreases i,
{
    if i <= 1 {
        c
    } else {
        let prev = merge_app(c, inc, i - 1);
        if block_valid_against(inc[i - 1], prev.last()) {
            prev.push(inc[i - 1])
        } else {
            prev
        }
    }
}

/// The sync-merge result: the local chain unchanged on an empty snapshot or a
/// genesis mismatch, otherwise the local chain extended by every incoming
/// block that validated against the tail at its moment of processing.
pub open spec fn merged_chain(c: Seq<BlockV>, inc: Seq<BlockV>) -> Seq<BlockV> {
    if inc.len() == 0 || c.len() == 0 || inc[0].hash != c[0].hash {
        c
    } else {
        merge_app(c, inc, inc.len() as int)
    }
}

/// Structure of a merge pass over a valid chain: the local chain stays a
/// prefix, the result is a valid chain rooted at index 0, and once the pass
/// has moved past the result's length, the block standing at that position
/// was rejected against the final tail.
proof fn lemma_merge_app_props(c: Seq<BlockV>, inc: Seq<BlockV>, i: int)
    requires
        c.len() >= 1,
        c[0].index == 0,
        chain_valid(c),
        inc.len() >= 1,
        inc[0].index == 0,
        chain_valid(inc),
        1 <= i <= inc.len(),
    ensures
        merge_app(c, inc, i).len() >= c.len(),
        merge_app(c, inc, i).take(c.len() as int) == c,
        merge_app(c, inc, i)[0] == c[0],
        chain_valid(merge_app(c, inc, i)),
        merge_app(c, inc, i).len() < i ==> !block_valid_against(
            inc[merge_app(c, inc, i).len() as int],
            merge_app(c, inc, i).last(),
        ),
    decreases i,
{
    lemma_chain_indexes(inc);
    if i == 1 {
        assert(merge_app(c, inc, i) == c);
        assert(c.take(c.len() as int) =~= c);
    } else {
        lemma_merge_app_props(c, inc, i - 1);
        let prev = merge_app(c, inc, i - 1);
        lemma_chain_indexes(prev);
        let m = merge_app(c, inc, i);
        if block_valid_against(inc[i - 1], prev.last()) {
            // the accepted block stands exactly at the tail position
            assert(inc[i - 1].index == i - 1);
            assert(prev.last() == prev[prev.len() - 1]);
            assert(prev.last().index == prev.len() - 1);
            assert(prev.len() == i - 1);
            assert(m == prev.push(inc[i - 1]));
            assert(m.take(c.len() as int) =~= c) by {
                assert(prev.take(c.len() as int) =~= c);
            }
            assert(chain_valid(m)) by {
                assert forall|k: int| 1 <= k < m.len() implies #[trigger] block_valid_against(
                    m[k],
                    m[k - 1],
                ) by {
                    if k < prev.len() {
                        assert(block_valid_against(prev[k], prev[k - 1]));
                    } else if k == prev.len() {
                        assert(m[k] == inc[i - 1]);
                        assert(m[k - 1] == prev.last());
                    }
                }
            }
            assert(m.len() == i);
        } else {
            assert(m == prev);
            if m.len() < i {
                if m.len() < i - 1 {
                    // rejected earlier, and the tail has not changed since
                } else {
                    assert(m.len() == i - 1);
                }
            }
        }
    }
}

/// A second pass of the same snapshot over an already-merged chain accepts
/// nothing: every incoming block either stands at the wrong index or was
/// already rejected against this very tail.
proof fn lemma_second_pass(c1: Seq<BlockV>, inc: Seq<BlockV>, i: int)
    requires
        c1.len() >= 1,
        c1[0].index == 0,
        chain_valid(c1),
        inc.len() >= 1,
        inc[0].index == 0,
        chain_valid(inc),
        1 <= i <= inc.len(),
        c1.len() < inc.len() ==> !block_valid_against(inc[c1.len() as int], c1.last()),
    ensures
        merge_app(c1, inc, i) == c1,
    decreases i,
{
    lemma_chain_indexes(inc);
    lemma_chain_indexes(c1);
    if i > 1 {
        lemma_second_pass(c1, inc, i - 1);
        if block_valid_against(inc[i - 1], c1.last()) {
            assert(inc[i - 1].index == i - 1);
            assert(c1.last() == c1[c1.len() - 1]);
            assert(c1.last().index == c1.len() - 1);
            assert(i - 1 == c1.len());
            assert(false);
        }
    }
}

/// Sync-merge is idempotent: applying the same valid chain snapshot twice
/// appends new blocks only on the first application.
pub proof fn lemma_sync_merge_idempotent(c: Seq<BlockV>, inc: Seq<BlockV>)
    requires
        c.len() >= 1,
        c[0].index == 0,
        chain_valid(c),
        inc.len() >= 1,
        inc[0].index == 0,
        chain_valid(inc),
    ensures
        merged_chain(merged_chain(c, inc), inc) == merged_chain(c, inc),
{
    if inc[0].hash != c[0].hash {
        assert(merged_chain(c, inc) == c);
    } else {
        let n = inc.len() as int;
        lemma_merge_app_props(c, inc, n);
        let c1 = merged_chain(c, inc);
        assert(c1 == merge_app(c, inc, n));
        assert(c1[0] == c[0]);
        lemma_second_pass(c1, inc, n);
        assert(merged_chain(c1, inc) == merge_app(c1, inc, n));
    }
}

impl Blockchain {
    /// Merges a peer's chain snapshot. On a genesis mismatch the whole merge
    /// aborts and nothing changes; otherwise each incoming block, in order,
    /// is appended exactly when it validates against the local tail at the
    /// moment of processing, and silently dropped otherwise. Returns how many
    /// blocks were appended. The local chain is never shortened and its
    /// genesis block never changes.
    pub fn sync_merge(&mut self, incoming: &Vec<Block>) -> (appended: usize)
        requires
            old(self).wf(),
        ensures
            final(self).wf(),
            final(self).chain.deep_view() == merged_chain(
                old(self).chain.deep_view(),
                incoming.deep_view(),
            ),
            final(self).chain.deep_view().take(old(self).chain.deep_view().len() as int) == old(self).chain.deep_view(),
            final(self).chain.deep_view()[0] == old(self).chain.deep_view()[0],
            final(self).chain.deep_view().len() == old(self).chain.deep_view().len() + appended,
            final(self).mempool == old(self).mempool,
            final(self).difficulty == old(self).difficulty,
            final(self).target_block_time == old(self).target_block_time,
            final(self).adjustment_interval == old(self).adjustment_interval,
    {
        let ghost c0 = old(self).chain.deep_view();
        let ghost inc = incoming.deep_view();
        proof {
            assert(self.chain.deep_view().take(c0.len() as int) =~= c0);
        }
        if incoming.len() == 0 {
            return 0;
        }
        proof {
            assert(inc[0] == incoming@[0]@);
            assert(c0[0] == self.chain@[0]@);
        }
        let genesis_match = incoming[0].hash == self.chain[0].hash;
        if !genesis_match {
            return 0;
        }
        let mut appended: usize = 0;
        let mut i: usize = 1;
        while i < incoming.len()
            invariant
                1 <= i <= inc.len(),
                inc == incoming.deep_view(),
                inc.len() == incoming@.len(),
                self.chain.deep_view() == merge_app(c0, inc, i as int),
                self.chain.deep_view().len() == c0.len() + appended,
                appended < i,
                c0.len() >= 1,
                self.chain.deep_view().len() >= 1,
                chain_valid(self.chain.deep_view()),
                self.chain.deep_view().take(c0.len() as int) == c0,
                self.chain.deep_view()[0] == c0[0],
                self.mempool == old(self).mempool,
                self.difficulty == old(self).difficulty,
                self.target_block_time == old(self).target_block_time,
                self.adjustment_interval == old(self).adjustment_interval,
            decreases inc.len() - i,
        {
            let tail_pos = self.chain.len() - 1;
            proof {
                assert(self.chain.deep_view()[tail_pos as int] == self.chain@[tail_pos as int]@);
                assert(inc[i as int] == incoming@[i as int]@);
            }
            let valid = incoming[i].is_valid(&self.chain[tail_pos]);
            if valid {
                let b = incoming[i].clone();
                self.chain.push(b);
                appended = appended + 1;
                proof {
                    let prevc = merge_app(c0, inc, i as int);
                    let newc = self.chain.deep_view();
                    assert forall|k: int| 0 <= k < newc.len() implies newc[k] == (if k
                        < prevc.len() {
                        prevc[k]
                    } else {
                        inc[i as int]
                    }) by {
                        assert(newc[k] == self.chain@[k]@);
                    }
                    assert(newc =~= prevc.push(inc[i as int]));
                    assert(newc == merge_app(c0, inc, i as int + 1));
                    assert(chain_valid(newc)) by {
                        assert forall|k: int| 1 <= k < newc.len() implies #[trigger] block_valid_against(
                            newc[k],
                            newc[k - 1],
                        ) by {
                            if k < prevc.len() {
                                assert(block_valid_against(prevc[k], prevc[k - 1]));
                            } else {
                                assert(newc[k] == inc[i as int]);
                                assert(newc[k - 1] == prevc.last());
                            }
                        }
                    }
                    assert(newc.take(c0.len() as int) =~= c0);
                }
            } else {
                proof {
                    assert(self.chain.deep_view() == merge_app(c0, inc, i as int + 1));
                }
            }
            i = i + 1;
        }
        appended
    }
}

impl Blockchain {
    /// Dispatches one inbound wire message against this node's state: a sync
    /// request is answered with the full chain; a sync response is merged; an
    /// announced block is appended exactly when it validates against the
    /// current tail, else dropped; an announced transaction is pooled exactly
    /// when it is valid, else dropped. Only a sync request produces a
    /// response frame.
    pub fn handle_message(&mut self, msg: Message) -> (resp: Option<Message>)
        requires
            old(self).wf(),
        ensures
            final(self).wf(),
            final(self).chain.deep_view()[0] == old(self).chain.deep_view()[0],
            final(self).chain.deep_view().take(old(self).chain.deep_view().len() as int) == old(self).chain.deep_view(),
            final(self).difficulty == old(self).difficulty,
            final(self).target_block_time == old(self).target_block_time,
            final(self).adjustment_interval == old(self).adjustment_interval,
            match msg {
                Message::SyncRequest { .. } => *final(self) == *old(self) && (resp matches Some(
                    Message::SyncResponse { chain },
                ) && chain.deep_view() == old(self).chain.deep_view()),
                Message::SyncResponse { chain } => resp is None && final(self).mempool == old(self).mempool && final(self).chain.deep_view() == merged_chain(
                    old(self).chain.deep_view(),
                    chain.deep_view(),
                ),
                Message::NewBlock { block } => resp is None && final(self).mempool == old(self).mempool && (block_valid_against(block@, old(self).chain.deep_view().last())
                    ==> final(self).chain.deep_view() == old(self).chain.deep_view().push(block@))
                    && (!block_valid_against(block@, old(self).chain.deep_view().last()) ==> final(self).chain == old(self).chain),
                Message::NewTransaction { transaction } => resp is None && final(self).chain == old(self).chain && (tx_valid(transaction) ==> final(self).mempool.transactions@ == old(self).mempool.transactions@.push(transaction)) && (!tx_valid(transaction) ==> final(self).mempool == old(self).mempool),
            },
    {
        proof {
            assert(self.chain.deep_view().take(old(self).chain.deep_view().len() as int) =~= old(self).chain.deep_view());
        }
        match msg {
            Message::SyncRequest { from: _ } => {
                let chain = clone_blocks(&self.chain);
                Some(Message::SyncResponse { chain })
            },
            Message::SyncResponse { chain } => {
                let _count: usize = self.sync_merge(&chain);
                None
            },
            Message::NewBlock { block } => {
                let tail_pos = self.chain.len() - 1;
                proof {
                    assert(self.chain.deep_view()[tail_pos as int] == self.chain@[tail_pos as
                        int]@);
                }
                let valid = block.is_valid(&self.chain[tail_pos]);
                if valid {
                    self.chain.push(block);
                    proof {
                        let oldc = old(self).chain.deep_view();
                        let newc = self.chain.deep_view();
                        assert forall|k: int| 0 <= k < newc.len() implies newc[k] == (if k
                            < oldc.len() {
                            oldc[k]
                        } else {
                            oldc.push(block@)[k]
                        }) by {
                            assert(newc[k] == self.chain@[k]@);
                            if k < oldc.len() {
                                assert(oldc[k] == old(self).chain@[k]@);
                            }
                        }
                        assert(newc =~= oldc.push(block@));
                        assert(chain_valid(newc)) by {
                            assert forall|k: int| 1 <= k < newc.len() implies #[trigger] block_valid_against(
                                newc[k],
                                newc[k - 1],
                            ) by {
                                if k < oldc.len() {
                                    assert(block_valid_against(oldc[k], oldc[k - 1]));
                                } else {
                                    assert(newc[k] == block@);
                                    assert(newc[k - 1] == oldc.last());
                                }
                            }
                        }
                        assert(newc.take(oldc.len() as int) =~= oldc);
                    }
                }
                None
            },
            Message::NewTransaction { transaction } => {
                let _ok: bool = self.mempool.add_transaction(transaction);
                None
            },
        }
    }
}

} // verus!
