//! What the blocks of the pipeline carry, read off the blocks themselves.

use vstd::prelude::*;

use crate::aggregate_meta::{aggregates, AggregateMeta, BlockMeta, DataBlock, HashTable, HashTablePayload};

verus! {

/// The aggregation state that is attached to a block, as a run of one or none.
pub open spec fn state_on<T, A>(block: DataBlock<T, A>) -> Seq<AggregateMeta<T, A>> {
    match block.meta {
        Some(BlockMeta::Aggregate(meta)) => seq![meta],
        Some(BlockMeta::Other) => Seq::empty(),
        None => Seq::empty(),
    }
}

/// The aggregation states that are attached to a run of blocks, in order.
pub open spec fn states_on<T, A>(blocks: Seq<DataBlock<T, A>>) -> Seq<AggregateMeta<T, A>> {
    blocks.map_values(|block: DataBlock<T, A>| state_on(block)).flatten()
}

/// The number that is written on the hash table of a block, if it has one and the number is that of
/// a bucket; -1 in every other case.
pub open spec fn bucket_on<T, A>(block: DataBlock<T, A>) -> int {
    match block.meta {
        Some(BlockMeta::Aggregate(AggregateMeta::HashTable(payload))) => if payload.bucket >= 0 {
            payload.bucket as int
        } else {
            -1
        },
        _ => -1,
    }
}

/// A hash table is read off its block as it is.
pub proof fn law_table_on_block<T, A>(block: DataBlock<T, A>, payload: HashTablePayload<T, A>)
    requires
        block.meta == Some(BlockMeta::Aggregate(AggregateMeta::HashTable(payload))),
    ensures
        block.payload() == Some(payload),
        state_on(block) == seq![AggregateMeta::HashTable(payload)],
        bucket_on(block) == (if payload.bucket >= 0 {
            payload.bucket as int
        } else {
            -1
        }),
        block.bucket() == bucket_on(block),
{
}

/// The states of one more block come after those of the others.
pub proof fn lemma_states_push<T, A>(blocks: Seq<DataBlock<T, A>>, block: DataBlock<T, A>)
    ensures
        states_on(blocks.push(block)) == states_on(blocks) + state_on(block),
{
    let states = blocks.map_values(|block: DataBlock<T, A>| state_on(block));
    assert(blocks.push(block).map_values(|block: DataBlock<T, A>| state_on(block)) =~= states.push(
        state_on(block),
    ));
    states.lemma_flatten_push(state_on(block));
}

/// Gathering the states of a run of blocks passes over no block that carries one, and takes them in
/// order.
pub proof fn law_states_are_gathered<T, A>(blocks: Seq<DataBlock<T, A>>)
    ensures
        aggregates(blocks) == states_on(blocks),
    decreases blocks.len(),
{
    if blocks.len() == 0 {
        assert(aggregates(blocks) =~= Seq::empty());
        assert(states_on(blocks) =~= Seq::empty());
    } else {
        let before = blocks.drop_last();
        law_states_are_gathered(before);
        lemma_states_push(before, blocks.last());
        assert(before.push(blocks.last()) =~= blocks);
        assert(aggregates(blocks) =~= states_on(before) + state_on(blocks.last()));
    }
}

/// A block is filed under the number on its table, whatever the table holds.
pub proof fn law_block_is_filed_by_its_number<T, A>(block: DataBlock<T, A>)
    ensures
        block.bucket() == bucket_on(block),
        block.payload() matches Some(payload) ==> payload.bucket >= 0 ==> block.bucket() == payload.bucket,
{
}

/// What a block carries is what is attached to it.
pub proof fn law_block_carries_its_meta<T, A>(block: DataBlock<T, A>)
    ensures
        block.payload() == (match block.meta {
            Some(BlockMeta::Aggregate(AggregateMeta::HashTable(payload))) => Some(payload),
            _ => None,
        }),
        block.partition() == (match block.meta {
            Some(BlockMeta::Aggregate(AggregateMeta::Partitioned { bucket, data })) => Some((bucket, data@)),
            _ => None,
        }),
{
}

/// What is put on a block is taken off it again.
pub proof fn law_meta_comes_off_again<T, A>(
    meta: AggregateMeta<T, A>,
    block: DataBlock<T, A>,
    taken: Option<AggregateMeta<T, A>>,
)
    requires
        call_ensures(DataBlock::<T, A>::empty_with_meta, (meta,), block),
        call_ensures(DataBlock::<T, A>::into_aggregate, (block,), taken),
    ensures
        block.meta == Some(BlockMeta::Aggregate(meta)),
        taken == Some(meta),
{
}

/// A block gives what is attached to it if that is aggregation state, and nothing if it is not.
pub proof fn law_only_state_comes_off<T, A>(block: DataBlock<T, A>, taken: Option<AggregateMeta<T, A>>)
    requires
        call_ensures(DataBlock::<T, A>::into_aggregate, (block,), taken),
    ensures
        match taken {
            Some(meta) => block.meta == Some(BlockMeta::Aggregate(meta)),
            None => block.meta is None || block.meta == Some(BlockMeta::<T, A>::Other),
        },
{
}

/// Blocks can be made, taken apart and told apart at any time.
pub proof fn law_blocks_can_be_handled<T, A>(
    block: DataBlock<T, A>,
    meta: AggregateMeta<T, A>,
    bucket: isize,
    hashtable: HashTable<T>,
    arena_holder: A,
    data: Vec<AggregateMeta<T, A>>,
)
    ensures
        call_requires(DataBlock::<T, A>::empty_with_meta, (meta,)),
        call_requires(DataBlock::<T, A>::into_aggregate, (block,)),
        call_requires(DataBlock::<T, A>::is_partitioned, (&block,)),
        call_requires(AggregateMeta::<T, A>::create_hashtable, (bucket, hashtable, arena_holder)),
        call_requires(AggregateMeta::<T, A>::create_partitioned, (bucket, data)),
{
}

/// A block counts as a partition exactly if a partition is attached to it.
pub proof fn law_partitions_are_told_apart<T, A>(block: DataBlock<T, A>, res: bool)
    requires
        call_ensures(DataBlock::<T, A>::is_partitioned, (&block,), res),
    ensures
        res <==> block.meta matches Some(BlockMeta::Aggregate(AggregateMeta::Partitioned { .. })),
{
}

/// A table and a partition are made of what is given, with the given number.
pub proof fn law_meta_is_made_as_given<T, A>(
    bucket: isize,
    hashtable: HashTable<T>,
    arena_holder: A,
    data: Vec<AggregateMeta<T, A>>,
    table: AggregateMeta<T, A>,
    partition: AggregateMeta<T, A>,
)
    requires
        call_ensures(AggregateMeta::<T, A>::create_hashtable, (bucket, hashtable, arena_holder), table),
        call_ensures(AggregateMeta::<T, A>::create_partitioned, (bucket, data), partition),
    ensures
        table == AggregateMeta::HashTable((HashTablePayload { bucket, hashtable, arena_holder })),
        partition == (AggregateMeta::Partitioned { bucket, data }),
{
}

} // verus!
