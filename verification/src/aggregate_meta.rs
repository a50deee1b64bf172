//! Data blocks and the aggregation state that travels on them.

use vstd::prelude::*;

verus! {

/// The bucket number of a hash table that has not been split into buckets.
pub const SINGLE_LEVEL_BUCKET_NUM: isize = -1;

/// An aggregation hash table: the table itself, and how many keys it holds.
#[derive(Debug, PartialEq, Eq)]
pub struct HashTable<T> {
    pub len: usize,
    pub table: T,
}

/// A hash table, the bucket that all its keys fall into (any number below zero where they were
/// not sorted into buckets), and what keeps the memory of the aggregation states alive.
#[derive(Debug, PartialEq, Eq)]
pub struct HashTablePayload<T, A> {
    pub bucket: isize,
    pub hashtable: HashTable<T>,
    pub arena_holder: A,
}

/// The aggregation state that a block carries.
#[derive(Debug, PartialEq, Eq)]
pub enum AggregateMeta<T, A> {
    HashTable(HashTablePayload<T, A>),
    Partitioned { bucket: isize, data: Vec<AggregateMeta<T, A>> },
}

/// What is attached to a block: aggregation state, or something that belongs to another operator.
#[derive(Debug, PartialEq, Eq)]
pub enum BlockMeta<T, A> {
    Aggregate(AggregateMeta<T, A>),
    Other,
}

/// A block of the pipeline, as far as the aggregation looks at it. Its rows are not looked at:
/// between the two stages of an aggregation the data travels in the meta.
#[derive(Debug, PartialEq, Eq)]
pub struct DataBlock<T, A> {
    pub meta: Option<BlockMeta<T, A>>,
}

impl<T, A> AggregateMeta<T, A> {
    pub fn create_hashtable(bucket: isize, hashtable: HashTable<T>, arena_holder: A) -> (meta: Self)
        ensures
            meta == AggregateMeta::HashTable(
                (HashTablePayload { bucket, hashtable, arena_holder }),
            ),
    {
        AggregateMeta::HashTable(HashTablePayload { bucket, hashtable, arena_holder })
    }

    pub fn create_partitioned(bucket: isize, data: Vec<AggregateMeta<T, A>>) -> (meta: Self)
        ensures
            meta == (AggregateMeta::Partitioned { bucket, data }),
    {
        AggregateMeta::Partitioned { bucket, data }
    }
}

impl<T, A> DataBlock<T, A> {
    /// The aggregation state on the block, if it carries any.
    pub open spec fn aggregate(self) -> Option<AggregateMeta<T, A>> {
        match self.meta {
            Some(BlockMeta::Aggregate(meta)) => Some(meta),
            _ => None,
        }
    }

    /// The hash table on the block, if it carries one.
    pub open spec fn payload(self) -> Option<HashTablePayload<T, A>> {
        match self.aggregate() {
            Some(AggregateMeta::HashTable(payload)) => Some(payload),
            _ => None,
        }
    }

    /// The bucket and the members of the partition on the block, if it carries one.
    pub open spec fn partition(self) -> Option<(isize, Seq<AggregateMeta<T, A>>)> {
        match self.aggregate() {
            Some(AggregateMeta::Partitioned { bucket, data }) => Some((bucket, data@)),
            _ => None,
        }
    }

    /// The bucket that the block is filed under: that of its hash table where the table belongs
    /// to one bucket, and the number for unsplit tables in every other case.
    pub open spec fn bucket(self) -> isize {
        match self.payload() {
            Some(payload) => if payload.bucket > SINGLE_LEVEL_BUCKET_NUM {
                payload.bucket
            } else {
                SINGLE_LEVEL_BUCKET_NUM
            },
            None => SINGLE_LEVEL_BUCKET_NUM,
        }
    }

    /// A block with no rows that carries the given aggregation state.
    pub fn empty_with_meta(meta: AggregateMeta<T, A>) -> (block: Self)
        ensures
            block.aggregate() == Some(meta),
    {
        DataBlock { meta: Some(BlockMeta::Aggregate(meta)) }
    }

    /// The aggregation state on the block, taken off it; nothing else of the block is kept.
    pub fn into_aggregate(self) -> (meta: Option<AggregateMeta<T, A>>)
        ensures
            meta == self.aggregate(),
    {
        match self.meta {
            Some(BlockMeta::Aggregate(meta)) => Some(meta),
            _ => None,
        }
    }

    /// Whether the block carries a partition rather than a single hash table.
    pub fn is_partitioned(&self) -> (res: bool)
        ensures
            res == (self.partition() is Some),
    {
        match &self.meta {
            Some(BlockMeta::Aggregate(AggregateMeta::Partitioned { .. })) => true,
            _ => false,
        }
    }
}

/// The aggregation states on a run of blocks, in order; blocks that carry none are passed over.
pub open spec fn aggregates<T, A>(blocks: Seq<DataBlock<T, A>>) -> Seq<AggregateMeta<T, A>>
    decreases blocks.len(),
{
    if blocks.len() == 0 {
        Seq::empty()
    } else {
        match blocks.last().aggregate() {
            Some(meta) => aggregates(blocks.drop_last()).push(meta),
            None => aggregates(blocks.drop_last()),
        }
    }
}

} // verus!
