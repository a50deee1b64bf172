//! The order in which the partitioning transform pushes partitions, when every input delivers its
//! blocks in the order of their buckets.

use vstd::prelude::*;

use crate::aggregate_laws::{bucket_on, states_on};
use crate::aggregate_meta::{AggregateMeta, DataBlock, SINGLE_LEVEL_BUCKET_NUM};
use crate::partition_laws::{
    arriving, asked, law_bucket_in_order, lemma_nonempty_first, lemma_put_all_keys, output_stays, pushed, pushed_by,
    received,
};
use crate::partition_model::{
    is_first, is_ready, Buckets, CommandView, Input, InputReply, Model, Stage,
};

verus! {

/// The bucket that a command pushes, if it pushes one.
pub open spec fn bucket_pushed<T, A>(command: Option<CommandView<T, A>>) -> Option<isize> {
    match command {
        Some(CommandView::PushData(Some((bucket, _)))) => if bucket > SINGLE_LEVEL_BUCKET_NUM {
            Some(bucket)
        } else {
            None
        },
        _ => None,
    }
}

/// The inputs that are known to be finished after one more input of the run.
pub open spec fn done_after<T, A, E>(m: Model<T, A>, done: Set<int>, input: Input<T, A, E>) -> Set<int> {
    match input {
        Input::Polled(InputReply::Finished) => done.insert(asked(m)),
        _ => done,
    }
}

/// The inputs that a run has shown to be finished.
pub open spec fn done<T, A, E>(start: Model<T, A>, inputs: Seq<Input<T, A, E>>) -> Set<int>
    decreases inputs.len(),
{
    if inputs.len() == 0 {
        Set::empty()
    } else {
        let before = inputs.drop_last();
        done_after(start.run(before), done(start, before), inputs.last())
    }
}

/// Whether a block comes in the order of the buckets: not from an input that is finished, not for
/// a bucket before the one that the input delivered last, and for some bucket once the inputs
/// have begun to deliver by bucket.
pub open spec fn arrives_in_order<T, A, E>(m: Model<T, A>, done: Set<int>, input: Input<T, A, E>) -> bool {
    match input {
        Input::Polled(InputReply::Data(block)) => {
            &&& !done.contains(asked(m))
            &&& bucket_on(block) >= m.inputs[asked(m)]
            &&& m.stage is Pulling ==> bucket_on(block) > SINGLE_LEVEL_BUCKET_NUM
        },
        _ => true,
    }
}

/// Whether all blocks of a run come in the order of the buckets.
pub open spec fn all_arrive_in_order<T, A, E>(start: Model<T, A>, inputs: Seq<Input<T, A, E>>) -> bool
    decreases inputs.len(),
{
    inputs.len() > 0 ==> {
        let before = inputs.drop_last();
        &&& all_arrive_in_order(start, before)
        &&& arrives_in_order(start.run(before), done(start, before), inputs.last())
    }
}

/// The bucket that a run pushed last, and the number before all buckets if it pushed none.
pub open spec fn last_pushed<T, A, E>(start: Model<T, A>, inputs: Seq<Input<T, A, E>>) -> int
    decreases inputs.len(),
{
    if inputs.len() == 0 {
        SINGLE_LEVEL_BUCKET_NUM as int
    } else {
        let before = inputs.drop_last();
        match bucket_pushed(start.run(before).command(inputs.last())) {
            Some(bucket) => bucket as int,
            None => last_pushed(start, before),
        }
    }
}

/// The transform as it was before anything was pulled past a bucket or pushed for one.
spec fn untouched<T, A>(m: Model<T, A>, last: int) -> bool {
    &&& m.working_bucket == 0
    &&& m.pushing_bucket == 0
    &&& last == -1
}

/// What waits comes after what was pushed.
spec fn held_after<T, A>(held: Buckets<T, A>, pushing: int, last: int) -> bool {
    forall|b: isize| #[trigger] held.contains_key(b) ==> b > last && b >= pushing && b >= 0
}

/// Every input is finished or has come to the working bucket.
spec fn inputs_at<T, A>(m: Model<T, A>, done: Set<int>) -> bool {
    m.working_bucket > 0 ==> forall|i: int|
        0 <= i < m.inputs.len() && !done.contains(i) ==> #[trigger] m.inputs[i] >= m.working_bucket
}

/// What holds between the inputs of a run, apart from the stage of the event.
spec fn in_order_core<T, A>(m: Model<T, A>, done: Set<int>, last: int) -> bool {
    &&& 0 <= m.pushing_bucket <= m.working_bucket
    &&& last >= -1
    &&& held_after(m.held, m.pushing_bucket, last)
    &&& inputs_at(m, done)
    &&& last < m.working_bucket || forall|i: int| 0 <= i < m.inputs.len() ==> #[trigger] done.contains(i)
    &&& m.unsplitted.len() > 0 ==> untouched(m, last)
    &&& !m.initialized_all_inputs ==> untouched(m, last)
}

/// What holds between the inputs of a run.
spec fn in_order<T, A>(m: Model<T, A>, done: Set<int>, last: int) -> bool {
    &&& m.inputs.len() <= usize::MAX
    &&& in_order_core(m, done, last)
    &&& match m.stage {
        Stage::Idle => true,
        Stage::Initializing { index } => index < m.inputs.len() && untouched(m, last),
        Stage::AwaitingOutput => m.initialized_all_inputs && (m.held.is_empty() || m.unsplitted.len() == 0),
        Stage::Pulling { index, all_finished, all_prepared, .. } => {
            &&& index < m.inputs.len()
            &&& m.initialized_all_inputs
            &&& m.unsplitted.len() == 0
            &&& all_prepared ==> forall|j: int|
                0 <= j < index ==> done.contains(j) || #[trigger] m.inputs[j] > m.working_bucket
            &&& all_finished ==> forall|j: int| 0 <= j < index ==> #[trigger] done.contains(j)
        },
    }
}

/// The bucket that was pushed last, after a command.
spec fn last_after<T, A>(last: int, command: Option<CommandView<T, A>>) -> int {
    match bucket_pushed(command) {
        Some(bucket) => bucket as int,
        None => last,
    }
}

/// Pushing keeps the order.
proof fn lemma_push<T, A>(m: Model<T, A>, done: Set<int>, last: int)
    requires
        in_order_core(m, done, last),
        m.held.is_empty() || m.unsplitted.len() == 0,
    ensures
        ({
            let (next, command) = m.push();
            &&& in_order_core(next, done, last_after(last, command))
            &&& next.unsplitted.len() == 0
            &&& next.inputs == m.inputs
            &&& next.working_bucket == m.working_bucket
            &&& bucket_pushed(command) is Some ==> bucket_pushed(command)->0 > last
            &&& command is None ==> m.held == next.held
        }),
{
    let (next, command) = m.push();
    if !m.held.is_empty() {
        if m.has_ready() {
            let b = m.ready();
            assert(is_ready(m.held, m.pushing_bucket, m.working_bucket, b));
            assert forall|other: isize| #[trigger] next.held.contains_key(other) implies other > b by {
                assert(m.held.contains_key(other));
            }
        } else {
            assert forall|other: isize| #[trigger] next.held.contains_key(other) implies other
                >= m.working_bucket by {
                lemma_none_ready(m, other);
            }
        }
    }
}

/// Where no bucket is ready, none from the pushing bucket on and below the working bucket has an
/// entry.
pub proof fn lemma_none_ready<T, A>(m: Model<T, A>, bucket: isize)
    requires
        !m.has_ready(),
        m.held.contains_key(bucket),
        m.pushing_bucket <= bucket,
    ensures
        bucket >= m.working_bucket,
    decreases bucket - m.pushing_bucket,
{
    if bucket < m.working_bucket {
        assert(!is_ready(m.held, m.pushing_bucket, m.working_bucket, bucket));
        let other = choose|other: isize|
            m.pushing_bucket <= other < bucket && #[trigger] m.held.contains_key(other);
        lemma_none_ready(m, other);
    }
}

/// Concluding keeps the order.
proof fn lemma_conclude<T, A, E>(m: Model<T, A>, done: Set<int>, last: int, pushed: bool)
    requires
        m.inputs.len() <= usize::MAX,
        in_order_core(m, done, last),
        m.held.is_empty() || m.unsplitted.len() == 0,
        forall|i: int| 0 <= i < m.inputs.len() ==> #[trigger] done.contains(i),
        m.initialized_all_inputs,
    ensures
        ({
            let (next, step) = m.conclude::<E>(pushed);
            &&& in_order(next, done, last_after(last, step.command))
            &&& bucket_pushed(step.command) is Some ==> bucket_pushed(step.command)->0 > last
        }),
{
    lemma_push(m, done, last);
    let (next, command) = m.push();
    if !pushed && command is None && !next.held.is_empty() {
        lemma_nonempty_first(next.held);
        let b = choose|b: isize| #[trigger] is_first(next.held, b);
        assert(is_first(next.held, b));
    }
}

/// Going on in the pulling pass keeps the order.
proof fn lemma_pull_from<T, A, E>(
    m: Model<T, A>,
    done: Set<int>,
    last: int,
    index: int,
    pushed: bool,
    all_finished: bool,
    all_prepared: bool,
    command: Option<CommandView<T, A>>,
)
    requires
        m.inputs.len() <= usize::MAX,
        in_order_core(m, done, last),
        m.initialized_all_inputs,
        m.unsplitted.len() == 0,
        0 <= index <= m.inputs.len(),
        !all_finished ==> index > 0,
        command is Some && all_finished ==> pushed,
        all_prepared ==> forall|j: int|
            0 <= j < index ==> done.contains(j) || #[trigger] m.inputs[j] > m.working_bucket,
        all_finished ==> forall|j: int| 0 <= j < index ==> #[trigger] done.contains(j),
    ensures
        ({
            let (next, step) = m.pull_from::<E>(index, pushed, all_finished, all_prepared, command);
            if command is Some {
                step.command == command && in_order(next, done, last)
            } else {
                &&& in_order(next, done, last_after(last, step.command))
                &&& bucket_pushed(step.command) is Some ==> bucket_pushed(step.command)->0 > last
            }
        }),
{
    if index == m.inputs.len() && all_finished {
        lemma_conclude::<T, A, E>(m, done, last, pushed);
    }
}

/// Asking the output port keeps the order.
proof fn lemma_after_initialization<T, A, E>(m: Model<T, A>, done: Set<int>, last: int)
    requires
        m.inputs.len() <= usize::MAX,
        in_order_core(m, done, last),
        m.initialized_all_inputs,
    ensures
        in_order(m.after_initialization::<E>().0, done, last),
        m.after_initialization::<E>().1.command is None,
{
}

/// Going on in the initializing pass keeps the order.
proof fn lemma_initialize_from<T, A, E>(
    m: Model<T, A>,
    done: Set<int>,
    last: int,
    index: int,
    command: Option<CommandView<T, A>>,
)
    requires
        m.inputs.len() <= usize::MAX,
        in_order_core(m, done, last),
        untouched(m, last),
        0 <= index,
    ensures
        ({
            let (next, step) = m.initialize_from::<E>(index, command);
            in_order(next, done, last) && step.command == command
        }),
{
}

/// One input of a run keeps the order; a bucket that is pushed comes after those pushed before,
/// and so does every bucket that something comes in for.
proof fn lemma_step_in_order<T, A, E>(m: Model<T, A>, done: Set<int>, last: int, input: Input<T, A, E>)
    requires
        in_order(m, done, last),
        m.permits(input),
        arrives_in_order(m, done, input),
    ensures
        in_order(m.step(input).0, done_after(m, done, input), last_after(last, m.command(input))),
        bucket_pushed(m.command(input)) matches Some(b) ==> b > last,
        forall|b: isize|
            b > SINGLE_LEVEL_BUCKET_NUM && #[trigger] arriving(input, b).len() > 0 ==> b > last,
{
    let after = done_after(m, done, input);
    match input {
        Input::Event(output_finished) => {
            if !output_finished && !m.initialized_all_inputs {
                let started = Model { initialized_all_inputs: true, ..m };
                lemma_initialize_from::<T, A, E>(started, done, last, 0, None);
            } else if !output_finished {
                lemma_after_initialization::<T, A, E>(m, done, last);
            }
        },
        Input::OutputChecked(can_push) => {
            if can_push {
                lemma_push(m, done, last);
                let (next, command) = m.push();
                lemma_pull_from::<T, A, E>(
                    next,
                    done,
                    last_after(last, command),
                    0,
                    command is Some,
                    true,
                    true,
                    command,
                );
            }
        },
        Input::Split(blocks) => {
            assert forall|b: isize| #[trigger] m.step(input).0.held.contains_key(b) implies b > last && b
                >= m.pushing_bucket && b >= 0 by {
                lemma_put_all_keys(m.held, blocks, b);
            }
        },
        Input::Polled(reply) => {
            let index = asked(m);
            let waiting = Model { initialized_all_inputs: false, ..m };
            let need_data = Some(CommandView::<T, A>::SetNeedData(index));
            match m.stage {
                Stage::Initializing { .. } => {
                    match reply {
                        InputReply::Data(block) => {
                            lemma_take(m, done, last, index, block);
                            lemma_take(waiting, done, last, index, block);
                            lemma_initialize_from::<T, A, E>(m.take(index, block), after, last, index + 1, None);
                            lemma_initialize_from::<T, A, E>(
                                waiting.take(index, block),
                                after,
                                last,
                                index + 1,
                                need_data,
                            );
                        },
                        _ => {
                            lemma_initialize_from::<T, A, E>(m, after, last, index + 1, None);
                            lemma_initialize_from::<T, A, E>(waiting, after, last, index + 1, need_data);
                        },
                    }
                },
                Stage::Pulling { pushed, all_finished, all_prepared, .. } => {
                    match reply {
                        InputReply::Data(block) => {
                            lemma_take(m, done, last, index, block);
                            let taken = m.take(index, block);
                            if block.bucket() > m.working_bucket {
                                lemma_pull_from::<T, A, E>(taken, done, last, index + 1, pushed, false, all_prepared, None);
                            } else {
                                lemma_pull_from::<T, A, E>(taken, done, last, index + 1, pushed, false, false, need_data);
                            }
                        },
                        InputReply::Finished => {
                            lemma_pull_from::<T, A, E>(m, after, last, index + 1, pushed, all_finished, all_prepared, None);
                        },
                        InputReply::Pending => {
                            if m.inputs[index] > m.working_bucket {
                                lemma_pull_from::<T, A, E>(m, done, last, index + 1, pushed, false, all_prepared, None);
                            } else {
                                lemma_pull_from::<T, A, E>(m, done, last, index + 1, pushed, false, false, need_data);
                            }
                        },
                        InputReply::Failed(_) => {},
                    }
                },
                _ => {},
            }
        },
    }
}

/// Taking in a block keeps the order.
proof fn lemma_take<T, A>(m: Model<T, A>, done: Set<int>, last: int, index: int, block: DataBlock<T, A>)
    requires
        in_order_core(m, done, last),
        0 <= index < m.inputs.len(),
        !done.contains(index),
        block.bucket() >= m.inputs[index],
        block.bucket() > SINGLE_LEVEL_BUCKET_NUM || untouched(m, last),
    ensures
        in_order_core(m.take(index, block), done, last),
        block.bucket() > SINGLE_LEVEL_BUCKET_NUM ==> block.bucket() > last,
{
}

/// A run from the start that keeps the order is in order.
proof fn lemma_run_in_order<T, A, E>(n: nat, inputs: Seq<Input<T, A, E>>)
    requires
        n <= usize::MAX,
        Model::<T, A>::initial(n).permits_all(inputs),
        all_arrive_in_order(Model::<T, A>::initial(n), inputs),
    ensures
        ({
            let start = Model::<T, A>::initial(n);
            in_order(start.run(inputs), done(start, inputs), last_pushed(start, inputs))
        }),
    decreases inputs.len(),
{
    let start = Model::<T, A>::initial(n);
    if inputs.len() > 0 {
        let before = inputs.drop_last();
        lemma_run_in_order(n, before);
        lemma_step_in_order(
            start.run(before),
            done(start, before),
            last_pushed(start, before),
            inputs.last(),
        );
    }
}

/// A prefix of a run is a run.
proof fn lemma_prefix<T, A, E>(start: Model<T, A>, inputs: Seq<Input<T, A, E>>, k: int)
    requires
        start.permits_all(inputs),
        all_arrive_in_order(start, inputs),
        0 <= k <= inputs.len(),
    ensures
        start.permits_all(inputs.take(k)),
        all_arrive_in_order(start, inputs.take(k)),
        k < inputs.len() ==> start.run(inputs.take(k)).permits(inputs[k]),
        k < inputs.len() ==> arrives_in_order(start.run(inputs.take(k)), done(start, inputs.take(k)), inputs[k]),
    decreases inputs.len(),
{
    if k == inputs.len() {
        assert(inputs.take(k) =~= inputs);
    } else {
        let before = inputs.drop_last();
        if k < before.len() {
            lemma_prefix(start, before, k);
        }
        assert(before.take(k) =~= inputs.take(k));
        if k == before.len() {
            assert(inputs.take(k) =~= before);
        }
    }
}

/// The bucket that was pushed last does not go down over a run.
proof fn lemma_last_grows<T, A, E>(n: nat, inputs: Seq<Input<T, A, E>>, p: int, q: int)
    requires
        n <= usize::MAX,
        Model::<T, A>::initial(n).permits_all(inputs),
        all_arrive_in_order(Model::<T, A>::initial(n), inputs),
        0 <= p <= q <= inputs.len(),
    ensures
        last_pushed(Model::<T, A>::initial(n), inputs.take(p)) <= last_pushed(
            Model::<T, A>::initial(n),
            inputs.take(q),
        ),
    decreases q - p,
{
    let start = Model::<T, A>::initial(n);
    if p < q {
        lemma_last_grows(n, inputs, p, q - 1);
        let before = inputs.take(q - 1);
        lemma_prefix(start, inputs, q - 1);
        lemma_run_in_order(n, before);
        lemma_step_in_order(start.run(before), done(start, before), last_pushed(start, before), inputs[q - 1]);
        assert(inputs.take(q).drop_last() =~= before);
    }
}

/// A bucket is pushed once, and buckets are pushed in ascending order, if every input delivers its
/// blocks in the order of their buckets: whatever is pushed for a bucket or comes in for one after a
/// bucket was pushed is of a greater one.
pub proof fn law_pushes_ascend<T, A, E>(n: nat, inputs: Seq<Input<T, A, E>>, p: int, q: int, bucket: isize)
    requires
        n <= usize::MAX,
        Model::<T, A>::initial(n).permits_all(inputs),
        all_arrive_in_order(Model::<T, A>::initial(n), inputs),
        0 <= p < q < inputs.len(),
        bucket_pushed(Model::<T, A>::initial(n).run(inputs.take(p)).command(inputs[p])) == Some(bucket),
    ensures
        bucket_pushed(Model::<T, A>::initial(n).run(inputs.take(q)).command(inputs[q])) matches Some(
            later,
        ) ==> later > bucket,
        forall|later: isize|
            later > SINGLE_LEVEL_BUCKET_NUM && #[trigger] arriving(inputs[q], later).len() > 0 ==> later
                > bucket,
{
    let start = Model::<T, A>::initial(n);
    let before = inputs.take(q);
    lemma_prefix(start, inputs, q);
    lemma_run_in_order(n, before);
    lemma_step_in_order(start.run(before), done(start, before), last_pushed(start, before), inputs[q]);
    lemma_last_grows(n, inputs, p + 1, q);
    assert(inputs.take(p + 1).drop_last() =~= inputs.take(p));
}

/// When a bucket is pushed, nothing comes in for it, and nothing is left of it.
proof fn lemma_push_clears<T, A, E>(m: Model<T, A>, input: Input<T, A, E>, bucket: isize)
    requires
        m.permits(input),
        bucket_pushed(m.command(input)) == Some(bucket),
    ensures
        arriving(input, bucket) == Seq::<AggregateMeta<T, A>>::empty(),
        !m.step(input).0.held.contains_key(bucket),
{
    if !m.held.is_empty() {
        lemma_nonempty_first(m.held);
    }
}

/// A run in which a bucket is not pushed pushes nothing for it.
proof fn lemma_not_pushed<T, A, E>(start: Model<T, A>, inputs: Seq<Input<T, A, E>>, bucket: isize)
    requires
        bucket > SINGLE_LEVEL_BUCKET_NUM,
        forall|r: int|
            0 <= r < inputs.len() ==> bucket_pushed(
                start.run(#[trigger] inputs.take(r)).command(inputs[r]),
            ) != Some(bucket),
    ensures
        pushed(start, inputs, bucket) == Seq::<AggregateMeta<T, A>>::empty(),
    decreases inputs.len(),
{
    if inputs.len() > 0 {
        let before = inputs.drop_last();
        assert forall|r: int| 0 <= r < before.len() implies bucket_pushed(
            start.run(#[trigger] before.take(r)).command(before[r]),
        ) != Some(bucket) by {
            assert(before.take(r) =~= inputs.take(r));
        }
        lemma_not_pushed(start, before, bucket);
        assert(inputs.take(inputs.len() - 1) =~= before);
        assert(pushed(start, inputs, bucket) =~= Seq::empty());
    }
}

/// Where nothing comes in for a bucket from `k` on, what came in before is all that comes in.
proof fn lemma_none_received<T, A, E>(inputs: Seq<Input<T, A, E>>, k: int, bucket: isize)
    requires
        0 <= k <= inputs.len(),
        forall|q: int| k <= q < inputs.len() ==> arriving(#[trigger] inputs[q], bucket).len() == 0,
    ensures
        received(inputs.take(k), bucket) == received(inputs, bucket),
    decreases inputs.len(),
{
    if k == inputs.len() {
        assert(inputs.take(k) =~= inputs);
    } else {
        let before = inputs.drop_last();
        assert forall|q: int| k <= q < before.len() implies arriving(#[trigger] before[q], bucket).len()
            == 0 by {
            assert(before[q] == inputs[q]);
        }
        lemma_none_received(before, k, bucket);
        assert(before.take(k) =~= inputs.take(k));
        assert(arriving(inputs[inputs.len() - 1], bucket).len() == 0);
        assert(received(inputs, bucket) =~= received(before, bucket));
    }
}

/// A bucket is pushed whole if every input delivers its blocks in the order of their buckets: what
/// is pushed for it, at `p`, is all that came in for it before, which is all that comes in for it at
/// any time.
pub proof fn law_pushed_whole<T, A, E>(n: nat, inputs: Seq<Input<T, A, E>>, p: int, bucket: isize)
    requires
        n <= usize::MAX,
        Model::<T, A>::initial(n).permits_all(inputs),
        all_arrive_in_order(Model::<T, A>::initial(n), inputs),
        output_stays(inputs),
        0 <= p < inputs.len(),
        bucket_pushed(Model::<T, A>::initial(n).run(inputs.take(p)).command(inputs[p])) == Some(bucket),
    ensures
        Model::<T, A>::initial(n).run(inputs.take(p)).command(inputs[p]) == Some(
            CommandView::PushData(Some((bucket, received(inputs.take(p), bucket)))),
        ),
        received(inputs.take(p), bucket) == received(inputs, bucket),
{
    let start = Model::<T, A>::initial(n);
    let before = inputs.take(p);
    let upto = inputs.take(p + 1);
    let m = start.run(before);
    lemma_prefix(start, inputs, p);
    lemma_prefix(start, inputs, p + 1);
    lemma_push_clears(m, inputs[p], bucket);
    assert(upto.drop_last() =~= before);
    assert(upto.last() == inputs[p]);
    assert forall|r: int| 0 <= r < before.len() implies bucket_pushed(
        start.run(#[trigger] before.take(r)).command(before[r]),
    ) != Some(bucket) by {
        assert(before.take(r) =~= inputs.take(r));
        if bucket_pushed(start.run(inputs.take(r)).command(inputs[r])) == Some(bucket) {
            law_pushes_ascend(n, inputs, r, p, bucket);
        }
    }
    lemma_not_pushed(start, before, bucket);
    law_bucket_in_order(start, upto, bucket);
    assert(states_on(Seq::<DataBlock<T, A>>::empty()) =~= Seq::empty());
    let data = pushed_by(m.command(inputs[p]), bucket);
    assert(pushed(start, upto, bucket) + Seq::empty() =~= data);
    assert(Seq::empty() + received(upto, bucket) =~= received(before, bucket));
    assert forall|q: int| p <= q < inputs.len() implies arriving(#[trigger] inputs[q], bucket).len() == 0 by {
        if p < q {
            law_pushes_ascend(n, inputs, p, q, bucket);
        }
    }
    lemma_none_received(inputs, p, bucket);
}

} // verus!
