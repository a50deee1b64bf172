//! What holds of every run of the partitioning transform.

use vstd::prelude::*;

use crate::aggregate_laws::{bucket_on, law_states_are_gathered, lemma_states_push, state_on, states_on};
use crate::aggregate_meta::{aggregates, AggregateMeta, DataBlock, SINGLE_LEVEL_BUCKET_NUM};
use crate::partition_model::{
    blocks_in, is_first, lemma_put_sorted, put_all, sorted, Action, Buckets, CommandView, Event, Input, InputReply,
    Model, Stage,
};

verus! {

/// What a command pushes for a bucket.
pub open spec fn pushed_by<T, A>(command: Option<CommandView<T, A>>, bucket: isize) -> Seq<AggregateMeta<T, A>> {
    match command {
        Some(CommandView::PushData(Some((b, data)))) => if b == bucket {
            data
        } else {
            Seq::empty()
        },
        _ => Seq::empty(),
    }
}

/// The aggregation states that come in for a bucket with an input.
pub open spec fn arriving<T, A, E>(input: Input<T, A, E>, bucket: isize) -> Seq<AggregateMeta<T, A>> {
    match input {
        Input::Polled(InputReply::Data(block)) => if bucket_on(block) == bucket {
            state_on(block)
        } else {
            Seq::empty()
        },
        Input::Split(blocks) => if 0 <= bucket < blocks.len() && blocks[bucket as int] is Some {
            state_on(blocks[bucket as int]->0)
        } else {
            Seq::empty()
        },
        _ => Seq::empty(),
    }
}

/// Whether the output port does not finish by itself in a run.
pub open spec fn output_stays<T, A, E>(inputs: Seq<Input<T, A, E>>) -> bool {
    forall|k: int| 0 <= k < inputs.len() ==> #[trigger] inputs[k] != Input::<T, A, E>::Event(true)
}

/// Everything that a run pushes for a bucket, in order.
pub open spec fn pushed<T, A, E>(start: Model<T, A>, inputs: Seq<Input<T, A, E>>, bucket: isize) -> Seq<
    AggregateMeta<T, A>,
>
    decreases inputs.len(),
{
    if inputs.len() == 0 {
        Seq::empty()
    } else {
        let before = inputs.drop_last();
        pushed(start, before, bucket) + pushed_by(start.run(before).command(inputs.last()), bucket)
    }
}

/// Everything that comes in for a bucket in a run, in order.
pub open spec fn received<T, A, E>(inputs: Seq<Input<T, A, E>>, bucket: isize) -> Seq<AggregateMeta<T, A>>
    decreases inputs.len(),
{
    if inputs.len() == 0 {
        Seq::empty()
    } else {
        received(inputs.drop_last(), bucket) + arriving(inputs.last(), bucket)
    }
}

pub proof fn lemma_put_all<T, A>(held: Buckets<T, A>, blocks: Seq<Option<DataBlock<T, A>>>, bucket: isize)
    requires
        blocks.len() <= isize::MAX,
    ensures
        blocks_in(put_all(held, blocks), bucket) == blocks_in(held, bucket) + (if 0 <= bucket < blocks.len()
            && blocks[bucket as int] is Some {
            seq![blocks[bucket as int]->0]
        } else {
            Seq::empty()
        }),
    decreases blocks.len(),
{
    if blocks.len() > 0 {
        lemma_put_all(held, blocks.drop_last(), bucket);
    }
    assert(blocks_in(put_all(held, blocks), bucket) =~= blocks_in(held, bucket) + (if 0 <= bucket
        < blocks.len() && blocks[bucket as int] is Some {
        seq![blocks[bucket as int]->0]
    } else {
        Seq::empty()
    }));
}

/// Where there is an entry there is a first one.
proof fn lemma_first<T, A>(held: Buckets<T, A>, some: isize)
    requires
        held.contains_key(some),
    ensures
        exists|b: isize| #[trigger] is_first(held, b),
    decreases some - isize::MIN,
{
    if exists|other: isize| #[trigger] held.contains_key(other) && other < some {
        let other = choose|other: isize| #[trigger] held.contains_key(other) && other < some;
        lemma_first(held, other);
    } else {
        assert(is_first(held, some));
    }
}

pub proof fn lemma_nonempty_first<T, A>(held: Buckets<T, A>)
    requires
        !held.is_empty(),
    ensures
        exists|b: isize| #[trigger] is_first(held, b),
{
    assert(exists|b: isize| #[trigger] held.contains_key(b)) by {
        if forall|b: isize| !#[trigger] held.contains_key(b) {
            assert(held =~= Map::empty());
        }
    }
    lemma_first(held, choose|b: isize| #[trigger] held.contains_key(b));
}

proof fn lemma_step_keeps_order<T, A, E>(m: Model<T, A>, input: Input<T, A, E>, bucket: isize)
    requires
        m.permits(input),
        input != Input::<T, A, E>::Event(true),
        bucket > SINGLE_LEVEL_BUCKET_NUM,
    ensures
        pushed_by(m.command(input), bucket) + states_on(blocks_in(m.step(input).0.held, bucket)) == states_on(
            blocks_in(m.held, bucket),
        ) + arriving(input, bucket),
{
    let next = m.step(input).0;
    if !m.held.is_empty() {
        lemma_nonempty_first(m.held);
    }
    law_states_are_gathered(blocks_in(m.held, bucket));
    assert(states_on(Seq::<DataBlock<T, A>>::empty()) =~= Seq::empty());
    match input {
        Input::Polled(InputReply::Data(block)) => {
            lemma_states_push(blocks_in(m.held, bucket), block);
        },
        Input::Split(blocks) => {
            lemma_put_all(m.held, blocks, bucket);
            if 0 <= bucket < blocks.len() && blocks[bucket as int] is Some {
                lemma_states_push(blocks_in(m.held, bucket), blocks[bucket as int]->0);
                assert(blocks_in(m.held, bucket) + seq![blocks[bucket as int]->0] =~= blocks_in(
                    m.held,
                    bucket,
                ).push(blocks[bucket as int]->0));
            } else {
                assert(blocks_in(m.held, bucket) + Seq::empty() =~= blocks_in(m.held, bucket));
            }
        },
        _ => {},
    }
    assert(pushed_by(m.command(input), bucket) + states_on(blocks_in(next.held, bucket)) =~= states_on(
            blocks_in(m.held, bucket),
        ) + arriving(input, bucket));
}

/// What comes in for a bucket goes out for it, in the order in which it came in: what a run
/// pushes for a bucket, followed by what still waits there, is what waited there before, followed
/// by what came in. This holds of every run in which the output port does not finish first.
pub proof fn law_bucket_in_order<T, A, E>(start: Model<T, A>, inputs: Seq<Input<T, A, E>>, bucket: isize)
    requires
        start.permits_all(inputs),
        output_stays(inputs),
        bucket > SINGLE_LEVEL_BUCKET_NUM,
    ensures
        pushed(start, inputs, bucket) + states_on(blocks_in(start.run(inputs).held, bucket)) == states_on(
            blocks_in(start.held, bucket),
        ) + received(inputs, bucket),
    decreases inputs.len(),
{
    let held = states_on(blocks_in(start.held, bucket));
    if inputs.len() == 0 {
        assert(pushed(start, inputs, bucket) + held =~= held + received(inputs, bucket));
    } else {
        let before = inputs.drop_last();
        let m = start.run(before);
        let input = inputs.last();
        assert forall|k: int| 0 <= k < before.len() implies #[trigger] before[k] != Input::<
            T,
            A,
            E,
        >::Event(true) by {
            assert(before[k] == inputs[k]);
        }
        law_bucket_in_order(start, before, bucket);
        assert(input == inputs[inputs.len() - 1]);
        lemma_step_keeps_order(m, input, bucket);
        let waiting = states_on(blocks_in(m.held, bucket));
        let left = states_on(blocks_in(start.run(inputs).held, bucket));
        let out = pushed(start, before, bucket);
        let now = pushed_by(m.command(input), bucket);
        assert((out + now) + left =~= out + (now + left));
        assert(out + (waiting + arriving(input, bucket)) =~= (out + waiting) + arriving(input, bucket));
        assert((held + received(before, bucket)) + arriving(input, bucket) =~= held + (received(
            before,
            bucket,
        ) + arriving(input, bucket)));
    }
}

/// When the output port is finished by the transform, nothing waits any more.
pub proof fn law_finish_drained<T, A, E>(m: Model<T, A>, input: Input<T, A, E>)
    requires
        m.permits(input),
        m.command(input) == Some(CommandView::<T, A>::FinishOutput),
    ensures
        m.step(input).0.held.is_empty(),
        m.step(input).0.unsplitted.len() == 0,
        m.step(input).1->0.action == Action::<E>::Return(Ok(Event::Finished)),
{
}

/// No table of a bucket is lost: once a new transform has finished its output port, it has pushed
/// exactly what came in for the bucket, in that order.
pub proof fn law_nothing_lost<T, A, E>(n: nat, inputs: Seq<Input<T, A, E>>, bucket: isize)
    requires
        Model::<T, A>::initial(n).permits_all(inputs),
        output_stays(inputs),
        inputs.len() > 0,
        Model::<T, A>::initial(n).run(inputs.drop_last()).command(inputs.last()) == Some(
            CommandView::<T, A>::FinishOutput,
        ),
        bucket > SINGLE_LEVEL_BUCKET_NUM,
    ensures
        pushed(Model::<T, A>::initial(n), inputs, bucket) == received(inputs, bucket),
{
    let start = Model::<T, A>::initial(n);
    law_bucket_in_order(start, inputs, bucket);
    law_finish_drained(start.run(inputs.drop_last()), inputs.last());
    let end = start.run(inputs);
    assert(!end.held.contains_key(bucket)) by {
        assert(end.held.is_empty());
    }
    assert(states_on(Seq::<DataBlock<T, A>>::empty()) =~= Seq::empty());
    assert(pushed(start, inputs, bucket) + Seq::empty() =~= pushed(start, inputs, bucket));
    assert(Seq::empty() + received(inputs, bucket) =~= received(inputs, bucket));
}

/// Every input that can come keeps the state well-formed.
pub proof fn law_step_wf<T, A, E>(m: Model<T, A>, input: Input<T, A, E>)
    requires
        m.wf(),
        m.permits(input),
    ensures
        m.step(input).0.wf(),
{
    let next = m.step(input).0;
    if !m.held.is_empty() {
        lemma_nonempty_first(m.held);
    }
    match input {
        Input::Polled(InputReply::Data(block)) => {
            let index = asked(m);
            let taken = m.take(index, block);
            if block.bucket() > SINGLE_LEVEL_BUCKET_NUM {
                lemma_put_sorted(m.held, block.bucket(), block);
            }
            assert(taken.inputs[index] == block.bucket());
            assert(sorted(next.held));
        },
        Input::Polled(_) => {
            let index = asked(m);
            // the input that answered may be the one that is past the working bucket
            assert(next.stage is Pulling ==> next.inputs[index] == m.inputs[index]);
            assert(sorted(next.held));
        },
        Input::Split(blocks) => {
            lemma_put_all_sorted(m.held, blocks);
        },
        Input::OutputChecked(_) => {
            assert(sorted(next.held));
        },
        Input::Event(_) => {
            assert(sorted(next.held));
        },
    }
    assert forall|i: int| 0 <= i < next.unsplitted.len() implies (
    #[trigger] next.unsplitted[i]).partition() is None by {
        if i < m.unsplitted.len() {
            assert(next.unsplitted[i] == m.unsplitted[i]);
        }
    }
    assert(match next.stage {
        Stage::Initializing { index } => index < next.inputs.len(),
        Stage::Pulling { index, .. } => index < next.inputs.len(),
        _ => true,
    });
    assert(match next.stage {
        Stage::Pulling { index, all_finished, all_prepared, .. } => {
            all_prepared && !all_finished ==> exists|i: int|
                0 <= i < index && #[trigger] next.inputs[i] > next.working_bucket
        },
        _ => true,
    });
}

proof fn lemma_put_all_sorted<T, A>(held: Buckets<T, A>, blocks: Seq<Option<DataBlock<T, A>>>)
    requires
        sorted(held),
        blocks.len() <= isize::MAX,
        forall|i: int|
            0 <= i < blocks.len() && (#[trigger] blocks[i]) is Some ==> {
                &&& blocks[i]->0.payload() is Some
                &&& blocks[i]->0.payload()->0.bucket == i
            },
    ensures
        sorted(put_all(held, blocks)),
    decreases blocks.len(),
{
    if blocks.len() > 0 {
        let before = blocks.drop_last();
        assert forall|i: int| 0 <= i < before.len() && (#[trigger] before[i]) is Some implies {
            &&& before[i]->0.payload() is Some
            &&& before[i]->0.payload()->0.bucket == i
        } by {
            assert(before[i] == blocks[i]);
        }
        lemma_put_all_sorted(held, before);
        assert(blocks.last() == blocks[blocks.len() - 1]);
        if let Some(block) = blocks.last() {
            lemma_put_sorted(put_all(held, before), (blocks.len() - 1) as isize, block);
        }
    }
}

/// The input port whose answer is awaited.
pub open spec fn asked<T, A>(m: Model<T, A>) -> int {
    match m.stage {
        Stage::Initializing { index } => index as int,
        Stage::Pulling { index, .. } => index as int,
        _ => -1,
    }
}

/// A partition that is pushed for a bucket holds hash tables of that bucket only, and at least
/// one.
pub proof fn law_partition_of_bucket<T, A, E>(
    m: Model<T, A>,
    input: Input<T, A, E>,
    bucket: isize,
    data: Seq<AggregateMeta<T, A>>,
)
    requires
        m.wf(),
        m.permits(input),
        m.command(input) == Some(CommandView::<T, A>::PushData(Some((bucket, data)))),
        bucket > SINGLE_LEVEL_BUCKET_NUM,
    ensures
        data.len() > 0,
        forall|i: int|
            0 <= i < data.len() ==> (#[trigger] data[i]) is HashTable && data[i]->HashTable_0.bucket == bucket,
{
    if !m.held.is_empty() {
        lemma_nonempty_first(m.held);
    }
    assert(m.held.contains_key(bucket) && data == aggregates(m.held[bucket]));
    lemma_aggregates_of_bucket(m.held[bucket], bucket);
}

proof fn lemma_aggregates_of_bucket<T, A>(blocks: Seq<DataBlock<T, A>>, bucket: isize)
    requires
        forall|i: int|
            0 <= i < blocks.len() ==> {
                &&& (#[trigger] blocks[i]).payload() is Some
                &&& blocks[i].payload()->0.bucket == bucket
            },
    ensures
        aggregates(blocks).len() == blocks.len(),
        forall|i: int|
            0 <= i < blocks.len() ==> (#[trigger] aggregates(blocks)[i]) is HashTable && aggregates(
                blocks,
            )[i]->HashTable_0.bucket == bucket,
    decreases blocks.len(),
{
    if blocks.len() > 0 {
        let before = blocks.drop_last();
        assert forall|i: int| 0 <= i < before.len() implies {
            &&& (#[trigger] before[i]).payload() is Some
            &&& before[i].payload()->0.bucket == bucket
        } by {
            assert(before[i] == blocks[i]);
        }
        lemma_aggregates_of_bucket(before, bucket);
        assert(blocks.last() == blocks[blocks.len() - 1]);
    }
}

/// Whether some input port has been told since the last event began that data is needed.
pub open spec fn data_requested<T, A, E>(start: Model<T, A>, inputs: Seq<Input<T, A, E>>) -> bool
    decreases inputs.len(),
{
    if inputs.len() == 0 {
        false
    } else {
        let before = inputs.drop_last();
        ||| !(inputs.last() is Event) && data_requested(start, before)
        ||| start.run(before).command(inputs.last()) matches Some(CommandView::SetNeedData(_))
    }
}

proof fn lemma_data_requested<T, A, E>(start: Model<T, A>, inputs: Seq<Input<T, A, E>>)
    requires
        start.stage is Idle,
        start.permits_all(inputs),
    ensures
        match start.run(inputs).stage {
            Stage::Initializing { .. } => start.run(inputs).initialized_all_inputs || data_requested(
                start,
                inputs,
            ),
            Stage::Pulling { all_prepared, .. } => all_prepared || data_requested(start, inputs),
            _ => true,
        },
    decreases inputs.len(),
{
    if inputs.len() > 0 {
        lemma_data_requested(start, inputs.drop_last());
    }
}

/// The transform waits for data only after asking for some: an event that ends in
/// [`Event::NeedData`] has told some input port that data is needed.
pub proof fn law_need_data_requested<T, A, E>(start: Model<T, A>, inputs: Seq<Input<T, A, E>>)
    requires
        start.stage is Idle,
        start.permits_all(inputs),
        inputs.len() > 0,
        start.run(inputs.drop_last()).step(inputs.last()).1 matches Some(step) && step.action == Action::<
            E,
        >::Return(Ok(Event::NeedData)),
    ensures
        data_requested(start, inputs),
{
    lemma_data_requested(start, inputs.drop_last());
}

/// No bucket has a number below zero.
pub open spec fn numbered<T, A>(held: Buckets<T, A>) -> bool {
    forall|b: isize| #[trigger] held.contains_key(b) ==> b > SINGLE_LEVEL_BUCKET_NUM
}

/// A split table fills only buckets that it has a part for.
pub proof fn lemma_put_all_keys<T, A>(held: Buckets<T, A>, blocks: Seq<Option<DataBlock<T, A>>>, bucket: isize)
    requires
        blocks.len() <= isize::MAX,
        put_all(held, blocks).contains_key(bucket),
    ensures
        held.contains_key(bucket) || 0 <= bucket < blocks.len() && blocks[bucket as int] is Some,
    decreases blocks.len(),
{
    if blocks.len() > 0 && put_all(held, blocks.drop_last()).contains_key(bucket) {
        lemma_put_all_keys(held, blocks.drop_last(), bucket);
    }
}

/// No input that can come fills a bucket with a number below zero.
pub proof fn law_step_numbered<T, A, E>(m: Model<T, A>, input: Input<T, A, E>)
    requires
        numbered(m.held),
        m.permits(input),
    ensures
        numbered(m.step(input).0.held),
{
    if let Input::Split(blocks) = input {
        let next = m.step(input).0;
        assert forall|b: isize| #[trigger] next.held.contains_key(b) implies b > SINGLE_LEVEL_BUCKET_NUM by {
            lemma_put_all_keys(m.held, blocks, b);
        }
    }
}

/// Splitting takes the last unsplit block away and nothing else of what waits, and fills buckets
/// with tables of theirs only, none of them below zero.
pub proof fn law_splitting_keeps_buckets<T, A>(m: Model<T, A>, blocks: Seq<Option<DataBlock<T, A>>>)
    requires
        m.wf(),
        numbered(m.held),
        m.unsplitted.len() > 0,
        blocks.len() <= isize::MAX,
        forall|i: int|
            0 <= i < blocks.len() && (#[trigger] blocks[i]) is Some ==> {
                &&& blocks[i]->0.payload() is Some
                &&& blocks[i]->0.payload()->0.bucket == i
            },
    ensures
        ({
            let next = m.pop_unsplitted().0.add_partitions(blocks);
            &&& next.wf()
            &&& numbered(next.held)
            &&& next.unsplitted == m.unsplitted.drop_last()
            &&& forall|b: isize|
                blocks_in(m.held, b).is_prefix_of(#[trigger] blocks_in(next.held, b))
        }),
{
    let next = m.pop_unsplitted().0.add_partitions(blocks);
    lemma_put_all_sorted(m.held, blocks);
    assert forall|b: isize| #[trigger] next.held.contains_key(b) implies b > SINGLE_LEVEL_BUCKET_NUM by {
        lemma_put_all_keys(m.held, blocks, b);
    }
    assert forall|b: isize| blocks_in(m.held, b).is_prefix_of(#[trigger] blocks_in(next.held, b)) by {
        lemma_put_all(m.held, blocks, b);
    }
    assert forall|i: int| 0 <= i < next.unsplitted.len() implies (
    #[trigger] next.unsplitted[i]).partition() is None by {
        assert(next.unsplitted[i] == m.unsplitted[i]);
    }
}

/// In every state that a new transform can come to, no bucket has a number below zero, and the
/// state is well-formed: no bucket has an entry without a block, and what waits in a bucket carries
/// a hash table of it.
pub proof fn law_numbered<T, A, E>(n: nat, inputs: Seq<Input<T, A, E>>)
    requires
        n <= usize::MAX,
        Model::<T, A>::initial(n).permits_all(inputs),
    ensures
        numbered(Model::<T, A>::initial(n).run(inputs).held),
        Model::<T, A>::initial(n).run(inputs).wf(),
    decreases inputs.len(),
{
    if inputs.len() > 0 {
        let before = inputs.drop_last();
        law_numbered(n, before);
        let m = Model::<T, A>::initial(n).run(before);
        law_step_numbered(m, inputs.last());
        law_step_wf(m, inputs.last());
    }
}

/// Unsplit tables go out in the order in which they came in, as long as none is split: what a run
/// pushes as unsplit, followed by what still waits, is what waited before, followed by what came
/// in.
pub proof fn law_single_level_in_order<T, A, E>(start: Model<T, A>, inputs: Seq<Input<T, A, E>>)
    requires
        numbered(start.held),
        start.permits_all(inputs),
        forall|k: int| 0 <= k < inputs.len() ==> !(#[trigger] inputs[k] is Split),
    ensures
        numbered(start.run(inputs).held),
        pushed(start, inputs, SINGLE_LEVEL_BUCKET_NUM) + states_on(start.run(inputs).unsplitted)
            == states_on(start.unsplitted) + received(inputs, SINGLE_LEVEL_BUCKET_NUM),
    decreases inputs.len(),
{
    let bucket = SINGLE_LEVEL_BUCKET_NUM;
    let waited = states_on(start.unsplitted);
    if inputs.len() == 0 {
        assert(pushed(start, inputs, bucket) + waited =~= waited + received(inputs, bucket));
    } else {
        let before = inputs.drop_last();
        let m = start.run(before);
        let input = inputs.last();
        assert forall|k: int| 0 <= k < before.len() implies !(#[trigger] before[k] is Split) by {
            assert(before[k] == inputs[k]);
        }
        law_single_level_in_order(start, before);
        assert(input == inputs[inputs.len() - 1]);
        lemma_step_single_level(m, input);
        let waiting = states_on(m.unsplitted);
        let left = states_on(start.run(inputs).unsplitted);
        let out = pushed(start, before, bucket);
        let now = pushed_by(m.command(input), bucket);
        assert((out + now) + left =~= out + (now + left));
        assert(out + (waiting + arriving(input, bucket)) =~= (out + waiting) + arriving(input, bucket));
        assert((waited + received(before, bucket)) + arriving(input, bucket) =~= waited + (received(
            before,
            bucket,
        ) + arriving(input, bucket)));
    }
}

/// No unsplit table is lost: once a new transform has finished its output port without splitting
/// anything, it has pushed as unsplit exactly what came in unsplit, in that order.
pub proof fn law_nothing_unsplit_lost<T, A, E>(n: nat, inputs: Seq<Input<T, A, E>>)
    requires
        Model::<T, A>::initial(n).permits_all(inputs),
        forall|k: int| 0 <= k < inputs.len() ==> !(#[trigger] inputs[k] is Split),
        inputs.len() > 0,
        Model::<T, A>::initial(n).run(inputs.drop_last()).command(inputs.last()) == Some(
            CommandView::<T, A>::FinishOutput,
        ),
    ensures
        pushed(Model::<T, A>::initial(n), inputs, SINGLE_LEVEL_BUCKET_NUM) == received(
            inputs,
            SINGLE_LEVEL_BUCKET_NUM,
        ),
{
    let start = Model::<T, A>::initial(n);
    let bucket = SINGLE_LEVEL_BUCKET_NUM;
    law_single_level_in_order(start, inputs);
    law_finish_drained(start.run(inputs.drop_last()), inputs.last());
    assert(start.run(inputs).unsplitted =~= Seq::empty());
    assert(states_on(Seq::<DataBlock<T, A>>::empty()) =~= Seq::empty());
    assert(pushed(start, inputs, bucket) + Seq::empty() =~= pushed(start, inputs, bucket));
    assert(Seq::empty() + received(inputs, bucket) =~= received(inputs, bucket));
}

proof fn lemma_step_single_level<T, A, E>(m: Model<T, A>, input: Input<T, A, E>)
    requires
        numbered(m.held),
        m.permits(input),
        !(input is Split),
    ensures
        numbered(m.step(input).0.held),
        pushed_by(m.command(input), SINGLE_LEVEL_BUCKET_NUM) + states_on(m.step(input).0.unsplitted)
            == states_on(m.unsplitted) + arriving(input, SINGLE_LEVEL_BUCKET_NUM),
{
    let next = m.step(input).0;
    let bucket = SINGLE_LEVEL_BUCKET_NUM;
    if !m.held.is_empty() {
        lemma_nonempty_first(m.held);
    }
    law_states_are_gathered(m.unsplitted);
    assert(states_on(Seq::<DataBlock<T, A>>::empty()) =~= Seq::empty());
    if let Input::Polled(InputReply::Data(block)) = input {
        lemma_states_push(m.unsplitted, block);
    }
    assert(pushed_by(m.command(input), bucket) + states_on(next.unsplitted) =~= states_on(m.unsplitted)
        + arriving(input, bucket));
}

} // verus!
