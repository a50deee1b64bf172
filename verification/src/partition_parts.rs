//! What becomes of the tables that are split: their parts go out with the tables that came by
//! bucket.

use vstd::prelude::*;

use crate::aggregate_laws::state_on;
use crate::aggregate_meta::{AggregateMeta, DataBlock, SINGLE_LEVEL_BUCKET_NUM};
use crate::partition_laws::{arriving, law_nothing_lost, output_stays, pushed, received};
use crate::partition_model::{CommandView, Input, Model};
use crate::partition_ports::{all_keep_on, comes_by_bucket, law_split_once, taken_to_split, unsplit_received};

verus! {

/// What the input ports deliver for a bucket in a run, in order.
pub open spec fn delivered<T, A, E>(inputs: Seq<Input<T, A, E>>, bucket: isize) -> Seq<AggregateMeta<T, A>>
    decreases inputs.len(),
{
    if inputs.len() == 0 {
        Seq::empty()
    } else {
        let earlier = delivered(inputs.drop_last(), bucket);
        match inputs.last() {
            Input::Polled(_) => earlier + arriving(inputs.last(), bucket),
            _ => earlier,
        }
    }
}

/// What a block is split into: the block for each bucket, if there is one.
pub type Parts<T, A> = spec_fn(DataBlock<T, A>) -> Seq<Option<DataBlock<T, A>>>;

/// The part of a block for a bucket.
pub open spec fn part_for<T, A>(parts: Parts<T, A>, block: DataBlock<T, A>, bucket: isize) -> Seq<
    AggregateMeta<T, A>,
> {
    let blocks = parts(block);
    if 0 <= bucket < blocks.len() && blocks[bucket as int] is Some {
        state_on(blocks[bucket as int]->0)
    } else {
        Seq::empty()
    }
}

/// The parts of a run of blocks for a bucket, in order.
pub open spec fn parts_for<T, A>(parts: Parts<T, A>, blocks: Seq<DataBlock<T, A>>, bucket: isize) -> Seq<
    AggregateMeta<T, A>,
>
    decreases blocks.len(),
{
    if blocks.len() == 0 {
        Seq::empty()
    } else {
        parts_for(parts, blocks.drop_last(), bucket) + part_for(parts, blocks.last(), bucket)
    }
}

/// Whether every splitting in a run brings in the parts of the block that it takes.
pub open spec fn splits_into<T, A, E>(
    parts: Parts<T, A>,
    start: Model<T, A>,
    inputs: Seq<Input<T, A, E>>,
) -> bool
    decreases inputs.len(),
{
    inputs.len() > 0 ==> {
        let before = inputs.drop_last();
        &&& splits_into(parts, start, before)
        &&& inputs.last() matches Input::Split(blocks) ==> blocks == parts(start.run(before).unsplitted.last())
    }
}

proof fn lemma_received<T, A, E>(
    parts: Parts<T, A>,
    start: Model<T, A>,
    inputs: Seq<Input<T, A, E>>,
    bucket: isize,
)
    requires
        splits_into(parts, start, inputs),
    ensures
        received(inputs, bucket).to_multiset() == delivered(inputs, bucket).to_multiset().add(
            parts_for(parts, taken_to_split(start, inputs), bucket).to_multiset(),
        ),
    decreases inputs.len(),
{
    broadcast use vstd::seq_lib::group_to_multiset_ensures;

    let taken = taken_to_split(start, inputs);
    if inputs.len() > 0 {
        let before = inputs.drop_last();
        lemma_received(parts, start, before, bucket);
        let earlier = delivered(before, bucket);
        let earlier_parts = parts_for(parts, taken_to_split(start, before), bucket);
        let now = arriving(inputs.last(), bucket);
        vstd::seq_lib::lemma_multiset_commutative(received(before, bucket), now);
        vstd::seq_lib::lemma_multiset_commutative(earlier, now);
        vstd::seq_lib::lemma_multiset_commutative(earlier_parts, now);
        match inputs.last() {
            Input::Split(_) => {
                assert(taken.drop_last() =~= taken_to_split(start, before));
                assert(parts_for(parts, taken, bucket) == earlier_parts + now);
            },
            Input::Polled(_) => {},
            _ => {
                assert(received(before, bucket) + now =~= received(before, bucket));
            },
        }
    }
    assert(received(inputs, bucket).to_multiset() =~= delivered(inputs, bucket).to_multiset().add(
        parts_for(parts, taken, bucket).to_multiset(),
    ));
}

/// The parts of a run of blocks are those of one of the blocks and those of the others.
proof fn lemma_parts_without<T, A>(parts: Parts<T, A>, blocks: Seq<DataBlock<T, A>>, bucket: isize, j: int)
    requires
        0 <= j < blocks.len(),
    ensures
        parts_for(parts, blocks, bucket).to_multiset() == parts_for(
            parts,
            blocks.remove(j),
            bucket,
        ).to_multiset().add(part_for(parts, blocks[j], bucket).to_multiset()),
    decreases blocks.len(),
{
    broadcast use vstd::seq_lib::group_to_multiset_ensures;

    let before = blocks.drop_last();
    let rest = blocks.remove(j);
    let last = part_for(parts, blocks.last(), bucket);
    vstd::seq_lib::lemma_multiset_commutative(parts_for(parts, before, bucket), last);
    if j == blocks.len() - 1 {
        assert(rest =~= before);
    } else {
        lemma_parts_without(parts, before, bucket, j);
        assert(rest.drop_last() =~= before.remove(j));
        assert(rest.last() == blocks.last());
        vstd::seq_lib::lemma_multiset_commutative(parts_for(parts, before.remove(j), bucket), last);
    }
    assert(parts_for(parts, blocks, bucket).to_multiset() =~= parts_for(parts, rest, bucket).to_multiset().add(
        part_for(parts, blocks[j], bucket).to_multiset(),
    ));
}

/// The order of the blocks does not matter to what their parts are.
proof fn lemma_parts_reordered<T, A>(
    parts: Parts<T, A>,
    blocks: Seq<DataBlock<T, A>>,
    others: Seq<DataBlock<T, A>>,
    bucket: isize,
)
    requires
        blocks.to_multiset() == others.to_multiset(),
    ensures
        parts_for(parts, blocks, bucket).to_multiset() == parts_for(parts, others, bucket).to_multiset(),
    decreases blocks.len(),
{
    broadcast use vstd::seq_lib::group_to_multiset_ensures;

    assert(blocks.len() == blocks.to_multiset().len());
    assert(others.len() == others.to_multiset().len());
    if blocks.len() > 0 {
        let block = blocks.last();
        let before = blocks.drop_last();
        assert(blocks.to_multiset().count(block) > 0) by {
            assert(blocks.contains(block));
        }
        assert(others.contains(block));
        let j = choose|j: int| 0 <= j < others.len() && others[j] == block;
        assert(before =~= blocks.remove(blocks.len() - 1));
        assert(before.to_multiset() =~= others.remove(j).to_multiset());
        lemma_parts_reordered(parts, before, others.remove(j), bucket);
        lemma_parts_without(parts, others, bucket, j);
        lemma_parts_without(parts, blocks, bucket, blocks.len() - 1);
    }
}

/// No table is lost by splitting: where some table came by bucket, at `k`, and the transform has
/// finished its output port, it has pushed for a bucket exactly the tables that the input ports
/// delivered for it, and the parts for it of all unsplit blocks that came in.
pub proof fn law_no_part_lost<T, A, E>(
    parts: Parts<T, A>,
    n: nat,
    inputs: Seq<Input<T, A, E>>,
    k: int,
    bucket: isize,
)
    requires
        n <= usize::MAX,
        Model::<T, A>::initial(n).permits_all(inputs),
        all_keep_on(Model::<T, A>::initial(n), inputs),
        output_stays(inputs),
        splits_into(parts, Model::<T, A>::initial(n), inputs),
        0 <= k < inputs.len(),
        comes_by_bucket(inputs[k]),
        Model::<T, A>::initial(n).run(inputs.drop_last()).command(inputs.last()) == Some(
            CommandView::<T, A>::FinishOutput,
        ),
        bucket > SINGLE_LEVEL_BUCKET_NUM,
    ensures
        pushed(Model::<T, A>::initial(n), inputs, bucket).to_multiset() == delivered(
            inputs,
            bucket,
        ).to_multiset().add(parts_for(parts, unsplit_received(inputs), bucket).to_multiset()),
{
    let start = Model::<T, A>::initial(n);
    law_nothing_lost(n, inputs, bucket);
    law_split_once(n, inputs, k);
    lemma_received(parts, start, inputs, bucket);
    lemma_parts_reordered(parts, taken_to_split(start, inputs), unsplit_received(inputs), bucket);
}

} // verus!
