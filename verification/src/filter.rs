//! Block-filter service: per-block filters, the hash chain over them, and
//! the three wire responses (checkpoints, filter hashes, filters).

use crate::config::FilterConfig;
use crate::digest::{node_blake2b, node_hash};
use crate::types::{copy_bytes, Byte32};
use vstd::arithmetic::div_mod::lemma_fundamental_div_mod_converse;
use vstd::prelude::*;

verus! {

/// One block's filter artifacts: the block it belongs to, the raw filter
/// bytes, and the chained filter hash.
pub struct FilterRecord {
    pub block_hash: Byte32,
    pub raw_filter: Vec<u8>,
    pub filter_hash: Byte32,
}

/// The seed of the hash chain: 32 zero bytes.
pub open spec fn zero_hash_bytes() -> Seq<u8> {
    (Byte32 { w0: 0, w1: 0, w2: 0, w3: 0 }).bytes()
}

/// What the chain links to at height `i`: the previous filter hash, or the
/// zero seed at height 0.
pub open spec fn parent_filter_hash_bytes(records: Seq<FilterRecord>, i: int) -> Seq<u8> {
    if i == 0 {
        zero_hash_bytes()
    } else {
        records[i - 1].filter_hash.bytes()
    }
}

/// The filter-hash chain rule at height `i`:
/// `filter_hash[i] = H(filter_hash[i-1] || H(raw_filter[i]))`, seeded with
/// 32 zero bytes at height 0.
pub open spec fn chain_rule_at(records: Seq<FilterRecord>, i: int) -> bool {
    records[i].filter_hash.bytes() == node_blake2b(
        parent_filter_hash_bytes(records, i) + node_blake2b(records[i].raw_filter@),
    )
}

/// The store of built filters, one record per block number from 0 up to the
/// built frontier, plus the wire batch options.
pub struct FilterStore {
    records: Vec<FilterRecord>,
    config: FilterConfig,
}

impl FilterStore {
    /// The records, for specifications; index = block number.
    pub closed spec fn records_view(self) -> Seq<FilterRecord> {
        self.records@
    }

    /// The wire options, for specifications.
    pub closed spec fn config_view(self) -> FilterConfig {
        self.config
    }

    /// Well-formed: every record satisfies the chain rule, and the batch
    /// options are positive.
    pub open spec fn wf(self) -> bool {
        &&& forall|i: int| 0 <= i < self.records_view().len() ==> #[trigger] chain_rule_at(
            self.records_view(),
            i,
        )
        &&& self.config_view().checkpoint_interval > 0
        &&& self.config_view().hashes_batch_size > 0
        &&& self.config_view().filters_batch_size > 0
    }

    /// An empty store with the given (validated) options.
    pub fn new(config: FilterConfig) -> (r: FilterStore)
        requires
            config.checkpoint_interval > 0,
            config.hashes_batch_size > 0,
            config.filters_batch_size > 0,
        ensures
            r.wf(),
            r.records_view() == Seq::<FilterRecord>::empty(),
            r.config_view() == config,
    {
        let r = FilterStore { records: Vec::new(), config };
        proof {
            assert(r.records_view() =~= Seq::<FilterRecord>::empty());
        }
        r
    }

    /// Number of blocks whose filter has been built.
    pub fn len(&self) -> (r: usize)
        ensures
            r == self.records_view().len(),
    {
        self.records.len()
    }

    /// Build and append the filter record for the next block: its hash is
    /// chained onto the previous one (or onto 32 zero bytes for block 0).
    pub fn add_filter(&mut self, block_hash: Byte32, raw_filter: Vec<u8>)
        requires
            old(self).wf(),
        ensures
            final(self).wf(),
            final(self).config_view() == old(self).config_view(),
            final(self).records_view().len() == old(self).records_view().len() + 1,
            forall|i: int|
                0 <= i < old(self).records_view().len() ==> final(self).records_view()[i] == old(
                    self,
                ).records_view()[i],
            final(self).records_view().last().block_hash == block_hash,
            final(self).records_view().last().raw_filter@ == raw_filter@,
    {
        let ghost r0 = self.records@;
        let parent: Byte32 = if self.records.len() == 0 {
            Byte32::zero()
        } else {
            self.records[self.records.len() - 1].filter_hash
        };
        let raw_hash = node_hash(&raw_filter);
        let mut input = parent.to_bytes();
        let mut raw_hash_tail = raw_hash;
        let ghost raw_hash_view = raw_hash_tail@;
        input.append(&mut raw_hash_tail);
        proof {
            assert(input@ == parent.bytes() + raw_hash_view);
        }
        let fh_bytes = node_hash(&input);
        let fh = Byte32::from_bytes(&fh_bytes);
        let ghost rawv = raw_filter@;
        self.records.push(FilterRecord { block_hash, raw_filter, filter_hash: fh });
        proof {
            let r1 = self.records@;
            assert(r1.last().raw_filter@ == rawv);
            assert(parent.bytes() == parent_filter_hash_bytes(r1, r0.len() as int)) by {
                if r0.len() > 0 {
                    assert(r1[r0.len() - 1] == r0[r0.len() - 1]);
                }
            }
            assert(fh.bytes() == node_blake2b(
                parent_filter_hash_bytes(r1, r0.len() as int) + node_blake2b(rawv),
            ));
            assert(chain_rule_at(r1, r0.len() as int));
            assert forall|i: int| 0 <= i < r1.len() implies #[trigger] chain_rule_at(r1, i) by {
                if i < r0.len() {
                    assert(chain_rule_at(r0, i));
                    assert(r1[i] == r0[i]);
                    assert(parent_filter_hash_bytes(r1, i) == parent_filter_hash_bytes(r0, i))
                        by {
                        if i > 0 {
                            assert(r1[i - 1] == r0[i - 1]);
                        }
                    }
                }
            }
        }
    }

    /// The checkpoints response: every `checkpoint_interval`-th filter hash
    /// from `start_number` up to the tip, `start_number` itself included. A
    /// start past the built frontier gets an empty answer.
    pub fn get_block_filter_check_points(&self, start_number: u64) -> (r: (u64, Vec<Byte32>))
        requires
            self.wf(),
        ensures
            r.0 == start_number,
            start_number < self.records_view().len() ==> r.1@.len() == (self.records_view().len()
                - 1 - start_number) as int / self.config_view().checkpoint_interval as int + 1,
            start_number >= self.records_view().len() ==> r.1@.len() == 0,
            forall|k: int|
                0 <= k < r.1@.len() ==> #[trigger] r.1@[k] == self.records_view()[start_number
                    + k * self.config_view().checkpoint_interval as int].filter_hash,
    {
        if (self.records.len() as u64) <= start_number {
            return (start_number, Vec::new());
        }
        let interval = self.config.checkpoint_interval;
        let tip = (self.records.len() - 1) as u64;
        let mut out: Vec<Byte32> = Vec::new();
        let mut number: u64 = start_number;
        let ghost mut steps: int = 0;
        while tip - number >= interval
            invariant
                self.wf(),
                0 < interval == self.config_view().checkpoint_interval,
                tip == self.records_view().len() - 1,
                self.records_view().len() <= usize::MAX,
                start_number <= number <= tip,
                number == start_number + steps * interval as int,
                out@.len() == steps,
                forall|k: int|
                    0 <= k < out@.len() ==> #[trigger] out@[k] == self.records_view()[start_number
                        + k * interval as int].filter_hash,
            decreases tip - number,
        {
            proof {
                assert(number + interval <= tip);
                assert(number < self.records_view().len());
                assert((number as usize) as int == number as int);
            }
            out.push(self.records[number as usize].filter_hash);
            proof {
                assert(out@[steps] == self.records_view()[start_number + steps * interval as int]
                    .filter_hash);
                steps = steps + 1;
                assert((steps - 1) * interval as int + interval as int == steps * interval as int)
                    by (nonlinear_arith);
            }
            number = number + interval;
        }
        proof {
            assert(number < self.records_view().len());
            assert((number as usize) as int == number as int);
        }
        out.push(self.records[number as usize].filter_hash);
        proof {
            assert(out@[steps] == self.records_view()[start_number + steps * interval as int]
                .filter_hash);
            assert(0 <= tip - number < interval);
            lemma_fundamental_div_mod_converse(
                (tip - start_number) as int,
                interval as int,
                steps,
                (tip - number) as int,
            );
            assert(out@.len() == (tip - start_number) as int / interval as int + 1);
        }
        (start_number, out)
    }

    /// The filter-hashes response: the filter hash of the block before
    /// `start_number` (or 32 zero bytes for block 0), then up to
    /// `hashes_batch_size` filter hashes from `start_number` on. A start
    /// past the built frontier gets only what is available: nothing.
    pub fn get_block_filter_hashes(&self, start_number: u64) -> (r: (u64, Byte32, Vec<Byte32>))
        requires
            self.wf(),
        ensures
            r.0 == start_number,
            start_number == 0 ==> r.1.bytes() == zero_hash_bytes(),
            0 < start_number <= self.records_view().len() ==> r.1
                == self.records_view()[start_number - 1].filter_hash,
            start_number > self.records_view().len() ==> r.1.bytes() == zero_hash_bytes(),
            start_number <= self.records_view().len() ==> r.2@.len() == vstd::math::min(
                self.config_view().hashes_batch_size as int,
                self.records_view().len() - start_number,
            ),
            start_number > self.records_view().len() ==> r.2@.len() == 0,
            forall|k: int|
                0 <= k < r.2@.len() ==> #[trigger] r.2@[k] == self.records_view()[start_number
                    + k].filter_hash,
    {
        let len = self.records.len() as u64;
        let parent: Byte32 = if start_number == 0 {
            let z = Byte32::zero();
            proof {
                assert(z.bytes() == zero_hash_bytes());
            }
            z
        } else if start_number <= len {
            proof {
                assert(((start_number - 1) as usize) as int == start_number - 1);
            }
            self.records[(start_number - 1) as usize].filter_hash
        } else {
            let z = Byte32::zero();
            proof {
                assert(z.bytes() == zero_hash_bytes());
            }
            z
        };
        let mut out: Vec<Byte32> = Vec::new();
        if start_number > len {
            return (start_number, parent, out);
        }
        let mut number: u64 = start_number;
        while number < len && (out.len() as u64) < self.config.hashes_batch_size
            invariant
                self.wf(),
                len == self.records_view().len(),
                self.records_view().len() <= usize::MAX,
                start_number <= number <= len,
                number - start_number == out@.len(),
                out@.len() <= self.config_view().hashes_batch_size,
                forall|k: int|
                    0 <= k < out@.len() ==> #[trigger] out@[k] == self.records_view()[start_number
                        + k].filter_hash,
            decreases len - number,
        {
            proof {
                assert((number as usize) as int == number as int);
            }
            out.push(self.records[number as usize].filter_hash);
            number = number + 1;
        }
        (start_number, parent, out)
    }

    /// The filters response: up to `filters_batch_size` pairs of block hash
    /// and raw filter from `start_number` on. A start past the built
    /// frontier gets only what is available: nothing.
    pub fn get_block_filters(&self, start_number: u64) -> (r: (u64, Vec<Byte32>, Vec<Vec<u8>>))
        requires
            self.wf(),
        ensures
            r.0 == start_number,
            r.1@.len() == r.2@.len(),
            start_number <= self.records_view().len() ==> r.1@.len() == vstd::math::min(
                self.config_view().filters_batch_size as int,
                self.records_view().len() - start_number,
            ),
            start_number > self.records_view().len() ==> r.1@.len() == 0,
            forall|k: int|
                0 <= k < r.1@.len() ==> #[trigger] r.1@[k] == self.records_view()[start_number
                    + k].block_hash,
            forall|k: int|
                0 <= k < r.2@.len() ==> #[trigger] r.2@[k]@ == self.records_view()[start_number
                    + k].raw_filter@,
    {
        let mut hashes: Vec<Byte32> = Vec::new();
        let mut filters: Vec<Vec<u8>> = Vec::new();
        let len = self.records.len() as u64;
        if start_number > len {
            return (start_number, hashes, filters);
        }
        let mut number: u64 = start_number;
        while number < len && (hashes.len() as u64) < self.config.filters_batch_size
            invariant
                self.wf(),
                len == self.records_view().len(),
                self.records_view().len() <= usize::MAX,
                start_number <= number <= len,
                number - start_number == hashes@.len(),
                hashes@.len() == filters@.len(),
                hashes@.len() <= self.config_view().filters_batch_size,
                forall|k: int|
                    0 <= k < hashes@.len() ==> #[trigger] hashes@[k]
                        == self.records_view()[start_number + k].block_hash,
                forall|k: int|
                    0 <= k < filters@.len() ==> #[trigger] filters@[k]@
                        == self.records_view()[start_number + k].raw_filter@,
            decreases len - number,
        {
            proof {
                assert((number as usize) as int == number as int);
            }
            hashes.push(self.records[number as usize].block_hash);
            let raw = copy_bytes(&self.records[number as usize].raw_filter);
            filters.push(raw);
            number = number + 1;
        }
        (start_number, hashes, filters)
    }
}

/// Filter-hash chain law: in a well-formed store, the filter hash at any
/// height `i` is the digest of the previous filter hash (32 zero bytes at
/// height 0) concatenated with the digest of the raw filter at `i`.
pub proof fn lemma_filter_hash_chain(store: FilterStore, i: int)
    requires
        store.wf(),
        0 <= i < store.records_view().len(),
    ensures
        store.records_view()[i].filter_hash.bytes() == node_blake2b(
            parent_filter_hash_bytes(store.records_view(), i) + node_blake2b(
                store.records_view()[i].raw_filter@,
            ),
        ),
{
    assert(chain_rule_at(store.records_view(), i));
}

} // verus!
