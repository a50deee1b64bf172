//! What the calls of the partitioning transform give.

use std::sync::Arc;

use vstd::prelude::*;

use crate::aggregate_meta::{AggregateMeta, BlockMeta, DataBlock, HashTable, HashTablePayload};
use crate::partition_laws::lemma_put_all;
use crate::partition_model::{blocks_in, Command, CommandView, Input, InputReply, Model, Stage, Step};
use crate::transform_partition_bucket::{HashMethod, TransformPartitionBucket};

verus! {

/// A new transform has seen nothing, has the ports and the method that it was given, and asks for the
/// first block of the first port.
pub proof fn law_new_transform<M: HashMethod<T>, I, O, T, A>(
    method: M,
    inputs: Vec<Arc<I>>,
    output: Arc<O>,
    res: Result<TransformPartitionBucket<M, I, O, T, A>, M::Error>,
)
    requires
        call_ensures(TransformPartitionBucket::<M, I, O, T, A>::create, (method, inputs, output), res),
    ensures
        res matches Ok(t) && {
            &&& t@.inputs.len() == inputs@.len()
            &&& forall|i: int| 0 <= i < inputs@.len() ==> #[trigger] t@.inputs[i] == -1
            &&& t@.working_bucket == 0
            &&& t@.pushing_bucket == 0
            &&& !t@.initialized_all_inputs
            &&& t@.held.is_empty()
            &&& t@.unsplitted.len() == 0
            &&& t@.stage == Stage::Idle
            &&& t@ == Model::<T, A>::initial(inputs@.len())
            &&& t.hash_method() == method
        },
{
}

/// A transform hands out the ports that it was made with, in order.
pub proof fn law_ports_come_back<M: HashMethod<T>, I, O, T, A>(
    method: M,
    inputs: Vec<Arc<I>>,
    output: Arc<O>,
    res: Result<TransformPartitionBucket<M, I, O, T, A>, M::Error>,
    handed: Vec<Arc<I>>,
    handed_output: Arc<O>,
)
    requires
        call_ensures(TransformPartitionBucket::<M, I, O, T, A>::create, (method, inputs, output), res),
        res matches Ok(t) ==> {
            &&& call_ensures(TransformPartitionBucket::<M, I, O, T, A>::get_inputs, (&t,), handed)
            &&& call_ensures(TransformPartitionBucket::<M, I, O, T, A>::get_output, (&t,), handed_output)
        },
    ensures
        handed@ == inputs@,
        handed_output == output,
{
}

/// The name of the processor.
pub proof fn law_name<M: HashMethod<T>, I, O, T, A>(t: TransformPartitionBucket<M, I, O, T, A>, name: String)
    requires
        call_ensures(TransformPartitionBucket::<M, I, O, T, A>::name, (&t,), name),
    ensures
        name@ == "TransformPartitionBucket"@,
{
}

/// A command reads as what it is: a pushed block by the partition that is attached to it.
pub open spec fn reads_as<T, A>(command: Command<T, A>, view: CommandView<T, A>) -> bool {
    match command {
        Command::FinishInputs => view is FinishInputs,
        Command::SetNeedData(index) => view == CommandView::<T, A>::SetNeedData(index as int),
        Command::SetNotNeedData => view is SetNotNeedData,
        Command::PushData(block) => match block.meta {
            Some(BlockMeta::Aggregate(AggregateMeta::Partitioned { bucket, data })) => view
                == CommandView::PushData(Some((bucket, data@))),
            _ => view == CommandView::<T, A>::PushData(None),
        },
        Command::FinishOutput => view is FinishOutput,
    }
}

/// A step reads as what it is.
pub proof fn law_step_reads_as_it_is<T, A, E>(step: Step<T, A, E>)
    ensures
        step@.action == step.action,
        step.command is None <==> step@.command is None,
        step.command matches Some(command) ==> reads_as(command, step@.command->0),
{
}

/// The parts of a transform that no call changes: its ports and its method.
pub open spec fn same_surroundings<M: HashMethod<T>, I, O, T, A>(
    t: TransformPartitionBucket<M, I, O, T, A>,
    other: TransformPartitionBucket<M, I, O, T, A>,
) -> bool {
    &&& forall|handed: Vec<Arc<I>>, other_handed: Vec<Arc<I>>|
        #![trigger call_ensures(
            TransformPartitionBucket::<M, I, O, T, A>::get_inputs,
            (&t,),
            handed,
        ), call_ensures(TransformPartitionBucket::<M, I, O, T, A>::get_inputs, (&other,), other_handed)]
        call_ensures(TransformPartitionBucket::<M, I, O, T, A>::get_inputs, (&t,), handed) && call_ensures(
            TransformPartitionBucket::<M, I, O, T, A>::get_inputs,
            (&other,),
            other_handed,
        ) ==> handed@ == other_handed@
    &&& forall|handed: Arc<O>, other_handed: Arc<O>|
        #![trigger call_ensures(
            TransformPartitionBucket::<M, I, O, T, A>::get_output,
            (&t,),
            handed,
        ), call_ensures(TransformPartitionBucket::<M, I, O, T, A>::get_output, (&other,), other_handed)]
        call_ensures(TransformPartitionBucket::<M, I, O, T, A>::get_output, (&t,), handed) && call_ensures(
            TransformPartitionBucket::<M, I, O, T, A>::get_output,
            (&other,),
            other_handed,
        ) ==> handed == other_handed
    &&& t.hash_method() == other.hash_method()
}

/// To begin an event is to take the input of that name.
pub proof fn law_event_is_a_step<M: HashMethod<T>, I, O, T, A>(
    t: &mut TransformPartitionBucket<M, I, O, T, A>,
    output_finished: bool,
    step: Step<T, A, M::Error>,
)
    requires
        call_ensures(TransformPartitionBucket::<M, I, O, T, A>::event, (t, output_finished), step),
    ensures
        old(t)@.step(Input::<T, A, M::Error>::Event(output_finished)) == (final(t)@, Some(step@)),
        final(t)@.wf(),
        same_surroundings(*old(t), *final(t)),
{
}

/// To hand in what an input port answered is to take that answer.
pub proof fn law_input_polled_is_a_step<M: HashMethod<T>, I, O, T, A>(
    t: &mut TransformPartitionBucket<M, I, O, T, A>,
    reply: InputReply<T, A, M::Error>,
    step: Step<T, A, M::Error>,
)
    requires
        call_ensures(TransformPartitionBucket::<M, I, O, T, A>::input_polled, (t, reply), step),
    ensures
        old(t)@.step(Input::Polled(reply)) == (final(t)@, Some(step@)),
        final(t)@.wf(),
        same_surroundings(*old(t), *final(t)),
{
}

/// To hand in what the output port answered is to take that answer.
pub proof fn law_output_checked_is_a_step<M: HashMethod<T>, I, O, T, A>(
    t: &mut TransformPartitionBucket<M, I, O, T, A>,
    can_push: bool,
    step: Step<T, A, M::Error>,
)
    requires
        call_ensures(TransformPartitionBucket::<M, I, O, T, A>::output_checked, (t, can_push), step),
    ensures
        old(t)@.step(Input::<T, A, M::Error>::OutputChecked(can_push)) == (final(t)@, Some(step@)),
        final(t)@.wf(),
        same_surroundings(*old(t), *final(t)),
{
}

/// An event can begin whenever none is under way, an input port's answer can be handed in whenever it was
/// asked and the answer fits, and the output port's answer whenever that was asked.
pub proof fn law_calls_can_be_made<M: HashMethod<T>, I, O, T, A>(
    t: &mut TransformPartitionBucket<M, I, O, T, A>,
    flag: bool,
    reply: InputReply<T, A, M::Error>,
)
    requires
        old(t)@.wf(),
    ensures
        old(t)@.stage == Stage::Idle ==> call_requires(
            TransformPartitionBucket::<M, I, O, T, A>::event,
            (t, flag),
        ),
        old(t)@.stage == Stage::AwaitingOutput ==> call_requires(
            TransformPartitionBucket::<M, I, O, T, A>::output_checked,
            (t, flag),
        ),
        old(t)@.permits(Input::Polled(reply)) ==> call_requires(
            TransformPartitionBucket::<M, I, O, T, A>::input_polled,
            (t, reply),
        ),
        call_requires(TransformPartitionBucket::<M, I, O, T, A>::pop_unsplitted, (t,)),
{
}

/// A transform can be made between any ports, and asked at any time for its ports, its name, and whether
/// unsplit blocks wait.
pub proof fn law_transform_can_be_made<M: HashMethod<T>, I, O, T, A>(
    t: TransformPartitionBucket<M, I, O, T, A>,
    method: M,
    inputs: Vec<Arc<I>>,
    output: Arc<O>,
)
    ensures
        call_requires(TransformPartitionBucket::<M, I, O, T, A>::create, (method, inputs, output)),
        call_requires(TransformPartitionBucket::<M, I, O, T, A>::get_inputs, (&t,)),
        call_requires(TransformPartitionBucket::<M, I, O, T, A>::get_output, (&t,)),
        call_requires(TransformPartitionBucket::<M, I, O, T, A>::name, (&t,)),
        call_requires(TransformPartitionBucket::<M, I, O, T, A>::has_unsplitted, (&t,)),
{
}

/// The last unsplit block can be split at any time, and tables of the buckets that they are filed under can
/// be filed.
pub proof fn law_splitting_can_be_done<M: HashMethod<T>, I, O, T, A: Clone>(
    t: &mut TransformPartitionBucket<M, I, O, T, A>,
    tables: Vec<HashTable<T>>,
    arena_holder: A,
    blocks: Vec<Option<DataBlock<T, A>>>,
)
    requires
        old(t)@.wf(),
        blocks@.len() <= isize::MAX,
        forall|i: int|
            0 <= i < blocks@.len() && (#[trigger] blocks@[i]) is Some ==> (table_on(blocks@[i]->0) matches Some(
                payload,
            ) && payload.bucket == i),
    ensures
        call_requires(TransformPartitionBucket::<M, I, O, T, A>::process, (t,)),
        call_requires(
            TransformPartitionBucket::<M, I, O, T, A>::partition_hashtable,
            (tables, &arena_holder),
        ),
        call_requires(TransformPartitionBucket::<M, I, O, T, A>::add_partitions, (t, blocks)),
{
}

/// Whether unsplit blocks wait is told as it is.
pub proof fn law_unsplit_are_told<M: HashMethod<T>, I, O, T, A>(
    t: TransformPartitionBucket<M, I, O, T, A>,
    res: bool,
)
    requires
        call_ensures(TransformPartitionBucket::<M, I, O, T, A>::has_unsplitted, (&t,), res),
    ensures
        res <==> t@.unsplitted.len() > 0,
{
}

/// The hash table that is attached to a block.
pub open spec fn table_on<T, A>(block: DataBlock<T, A>) -> Option<HashTablePayload<T, A>> {
    match block.meta {
        Some(BlockMeta::Aggregate(AggregateMeta::HashTable(payload))) => Some(payload),
        _ => None,
    }
}

/// The last unsplit block goes, and the table on it is handed out, if there is one.
pub proof fn law_last_unsplit_is_taken<M: HashMethod<T>, I, O, T, A>(
    t: &mut TransformPartitionBucket<M, I, O, T, A>,
    payload: Option<HashTablePayload<T, A>>,
)
    requires
        call_ensures(TransformPartitionBucket::<M, I, O, T, A>::pop_unsplitted, (t,), payload),
    ensures
        old(t)@.unsplitted.len() == 0 ==> payload is None && final(t)@ == old(t)@,
        old(t)@.unsplitted.len() > 0 ==> {
            &&& payload == table_on(old(t)@.unsplitted.last())
            &&& final(t)@ == (Model { unsplitted: old(t)@.unsplitted.drop_last(), ..old(t)@ })
        },
        same_surroundings(*old(t), *final(t)),
{
}

/// Splitting loses no keys and makes up none: a table that a table was split into gets a block exactly
/// if it has keys, at its own place, and the block carries this very table, with the number of the
/// place and a clone of what keeps the memory alive.
pub proof fn law_every_part_gets_its_block<M: HashMethod<T>, I, O, T, A: Clone>(
    tables: Vec<HashTable<T>>,
    arena_holder: A,
    blocks: Vec<Option<DataBlock<T, A>>>,
)
    requires
        call_ensures(
            TransformPartitionBucket::<M, I, O, T, A>::partition_hashtable,
            (tables, &arena_holder),
            blocks,
        ),
    ensures
        blocks@.len() == tables@.len(),
        forall|i: int|
            0 <= i < tables@.len() ==> ((#[trigger] blocks@[i]) is Some <==> tables@[i].len != 0),
        forall|i: int|
            0 <= i < tables@.len() && (#[trigger] blocks@[i]) is Some ==> {
                table_on(blocks@[i]->0) matches Some(payload) && {
                    &&& payload.hashtable == tables@[i]
                    &&& i <= isize::MAX ==> payload.bucket == i
                    &&& cloned(arena_holder, payload.arena_holder)
                }
            },
{
    assert forall|i: int| 0 <= i < tables@.len() implies ((#[trigger] blocks@[i]) is Some <==> tables@[i].len
        != 0) by {
        assert(TransformPartitionBucket::<M, I, O, T, A>::is_block_of(
            blocks@[i],
            i as isize,
            tables@[i],
            arena_holder,
        ));
    }
}

/// The blocks that are filed go to the end of the buckets of their places, each to one, and nothing
/// else changes.
pub proof fn law_parts_are_added<M: HashMethod<T>, I, O, T, A: Clone>(
    t: &mut TransformPartitionBucket<M, I, O, T, A>,
    blocks: Vec<Option<DataBlock<T, A>>>,
    bucket: isize,
)
    requires
        call_ensures(TransformPartitionBucket::<M, I, O, T, A>::add_partitions, (t, blocks), ()),
        blocks@.len() <= isize::MAX,
    ensures
        blocks_in(final(t)@.held, bucket) == (if 0 <= bucket < blocks@.len() && blocks@[bucket as int] is Some {
            blocks_in(old(t)@.held, bucket).push(blocks@[bucket as int]->0)
        } else {
            blocks_in(old(t)@.held, bucket)
        }),
        final(t)@ == (Model { held: final(t)@.held, ..old(t)@ }),
        same_surroundings(*old(t), *final(t)),
{
    lemma_put_all(old(t)@.held, blocks@, bucket);
    assert(blocks_in(final(t)@.held, bucket) =~= (if 0 <= bucket < blocks@.len() && blocks@[bucket as int] is Some {
        blocks_in(old(t)@.held, bucket).push(blocks@[bucket as int]->0)
    } else {
        blocks_in(old(t)@.held, bucket)
    }));
}

/// What waits in a bucket after a table was split: what waited there, and at the end the table for the
/// bucket if it has keys.
pub open spec fn has_part<T, A: Clone>(
    waited: Seq<DataBlock<T, A>>,
    waits: Seq<DataBlock<T, A>>,
    tables: Seq<HashTable<T>>,
    bucket: isize,
    arena_holder: A,
) -> bool {
    if 0 <= bucket < tables.len() && tables[bucket as int].len != 0 {
        &&& waits.len() == waited.len() + 1
        &&& waits.drop_last() == waited
        &&& table_on(waits.last()) matches Some(payload) && {
            &&& payload.bucket == bucket
            &&& payload.hashtable == tables[bucket as int]
            &&& cloned(arena_holder, payload.arena_holder)
        }
    } else {
        waits == waited
    }
}

/// Splitting the last unsplit block: its table is handed to the method, and every table with keys that
/// comes back waits in the bucket of its place from then on. The block goes in any case, also where it
/// carries no table or the method fails, and the error is the one of the method.
pub proof fn law_process<M: HashMethod<T>, I, O, T, A: Clone>(
    t: &mut TransformPartitionBucket<M, I, O, T, A>,
    res: Result<(), M::Error>,
)
    requires
        call_ensures(TransformPartitionBucket::<M, I, O, T, A>::process, (t,), res),
    ensures
        same_surroundings(*old(t), *final(t)),
        old(t)@.unsplitted.len() == 0 ==> res is Ok && final(t)@ == old(t)@,
        old(t)@.unsplitted.len() > 0 ==> {
            &&& final(t)@ == (Model {
                held: final(t)@.held,
                unsplitted: old(t)@.unsplitted.drop_last(),
                ..old(t)@
            })
            &&& match table_on(old(t)@.unsplitted.last()) {
                None => res is Ok && final(t)@.held == old(t)@.held,
                Some(payload) => match res {
                    Err(error) => {
                        &&& call_ensures(
                            M::convert_hashtable,
                            (&old(t).hash_method(), payload.hashtable),
                            Err(error),
                        )
                        &&& final(t)@.held == old(t)@.held
                    },
                    Ok(_) => exists|tables: Vec<HashTable<T>>|
                        {
                            &&& #[trigger] call_ensures(
                                M::convert_hashtable,
                                (&old(t).hash_method(), payload.hashtable),
                                Ok(tables),
                            )
                            &&& tables@.len() <= isize::MAX ==> forall|bucket: isize|
                                has_part(
                                    blocks_in(old(t)@.held, bucket),
                                    #[trigger] blocks_in(final(t)@.held, bucket),
                                    tables@,
                                    bucket,
                                    payload.arena_holder,
                                )
                        },
                },
            }
        },
{
    let m = old(t)@;
    if m.unsplitted.len() > 0 && table_on(m.unsplitted.last()) is Some && res is Ok {
        let payload = table_on(m.unsplitted.last())->0;
        let next = m.pop_unsplitted().0;
        let (tables, blocks) = choose|tables: Vec<HashTable<T>>, blocks: Seq<Option<DataBlock<T, A>>>|
            {
                &&& #[trigger] call_ensures(
                    M::convert_hashtable,
                    (&old(t).hash_method(), payload.hashtable),
                    Ok(tables),
                )
                &&& blocks.len() == tables@.len()
                &&& forall|i: int|
                    0 <= i < blocks.len() ==> TransformPartitionBucket::<M, I, O, T, A>::is_block_of(
                        #[trigger] blocks[i],
                        i as isize,
                        tables@[i],
                        payload.arena_holder,
                    )
                &&& final(t)@ == #[trigger] next.add_partitions(blocks)
            };
        if tables@.len() <= isize::MAX {
            assert forall|bucket: isize|
                has_part(
                    blocks_in(m.held, bucket),
                    #[trigger] blocks_in(final(t)@.held, bucket),
                    tables@,
                    bucket,
                    payload.arena_holder,
                ) by {
                lemma_put_all(m.held, blocks, bucket);
                let waits = blocks_in(final(t)@.held, bucket);
                if 0 <= bucket < blocks.len() {
                    let block = blocks[bucket as int];
                    if block is Some {
                        assert(waits.drop_last() =~= blocks_in(m.held, bucket));
                    } else {
                        assert(waits =~= blocks_in(m.held, bucket));
                    }
                } else {
                    assert(waits =~= blocks_in(m.held, bucket));
                }
            }
        }
    }
}

} // verus!
