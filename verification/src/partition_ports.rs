//! What becomes of unsplit tables, when every input port keeps on as it began: it goes on by bucket
//! once it has delivered by bucket, it delivers nothing once it is finished, and pulling from it
//! does not fail.

use vstd::multiset::Multiset;
use vstd::prelude::*;

use crate::aggregate_laws::bucket_on;
use crate::aggregate_meta::{DataBlock, SINGLE_LEVEL_BUCKET_NUM};
use crate::partition_laws::{
    arriving, asked, law_finish_drained, law_nothing_unsplit_lost, law_step_numbered, lemma_nonempty_first, lemma_put_all,
    lemma_put_all_keys, numbered, output_stays, pushed, pushed_by, received,
};
use crate::partition_model::{blocks_in, Action, CommandView, Event, Input, InputReply, Model, Stage};
use crate::partition_order::{
    all_arrive_in_order, arrives_in_order, bucket_pushed, done, done_after, law_pushed_whole, law_pushes_ascend,
};
use crate::partition_protocol::lemma_put_all_keeps;

verus! {

/// Whether an answer of an input port keeps on as the port began.
pub open spec fn keeps_on<T, A, E>(m: Model<T, A>, done: Set<int>, input: Input<T, A, E>) -> bool {
    match input {
        Input::Polled(InputReply::Data(block)) => {
            &&& !done.contains(asked(m))
            &&& m.inputs[asked(m)] > SINGLE_LEVEL_BUCKET_NUM ==> bucket_on(block) > SINGLE_LEVEL_BUCKET_NUM
        },
        Input::Polled(InputReply::Failed(_)) => false,
        _ => true,
    }
}

/// Whether all input ports keep on in a run as they began.
pub open spec fn all_keep_on<T, A, E>(start: Model<T, A>, inputs: Seq<Input<T, A, E>>) -> bool
    decreases inputs.len(),
{
    inputs.len() > 0 ==> {
        let before = inputs.drop_last();
        &&& all_keep_on(start, before)
        &&& keeps_on(start.run(before), done(start, before), inputs.last())
    }
}

/// Whether some table comes in by bucket with an input.
pub open spec fn comes_by_bucket<T, A, E>(input: Input<T, A, E>) -> bool {
    match input {
        Input::Polled(InputReply::Data(block)) => bucket_on(block) > SINGLE_LEVEL_BUCKET_NUM,
        Input::Split(blocks) => exists|i: int| 0 <= i < blocks.len() && (#[trigger] blocks[i]) is Some,
        _ => false,
    }
}

/// Whether a command pushes a block.
pub open spec fn pushes<T, A>(command: Option<CommandView<T, A>>) -> bool {
    command matches Some(CommandView::PushData(_))
}

/// Whether a command pushes unsplit tables.
pub open spec fn pushes_single<T, A>(command: Option<CommandView<T, A>>) -> bool {
    command matches Some(CommandView::PushData(Some((bucket, _)))) && bucket == SINGLE_LEVEL_BUCKET_NUM
}

/// Whether an event ends with an input by asking for splitting.
pub open spec fn asks_to_split<T, A, E>(m: Model<T, A>, input: Input<T, A, E>) -> bool {
    m.step(input).1 matches Some(step) && step.action == Action::<E>::Return(Ok(Event::Sync))
}

/// Every input before `index` is finished or has delivered a block of a bucket.
spec fn begun<T, A>(m: Model<T, A>, done: Set<int>, index: int) -> bool {
    forall|i: int|
        0 <= i < index ==> done.contains(i) || #[trigger] m.inputs[i] > SINGLE_LEVEL_BUCKET_NUM
}

/// Once the inputs are initialized, every input is finished or has delivered a block of a bucket.
spec fn begun_in_stage<T, A>(m: Model<T, A>, done: Set<int>) -> bool {
    &&& m.inputs.len() <= usize::MAX
    &&& match m.stage {
        Stage::Idle => m.initialized_all_inputs ==> begun(m, done, m.inputs.len() as int),
        Stage::Initializing { index } => {
            &&& index < m.inputs.len()
            &&& m.initialized_all_inputs ==> begun(m, done, index as int)
        },
        Stage::AwaitingOutput => m.initialized_all_inputs && begun(m, done, m.inputs.len() as int),
        Stage::Pulling { index, .. } => {
            &&& index < m.inputs.len()
            &&& m.initialized_all_inputs
            &&& begun(m, done, m.inputs.len() as int)
        },
    }
}

proof fn lemma_step_begun<T, A, E>(m: Model<T, A>, done: Set<int>, input: Input<T, A, E>)
    requires
        begun_in_stage(m, done),
        m.permits(input),
        keeps_on(m, done, input),
    ensures
        begun_in_stage(m.step(input).0, done_after(m, done, input)),
{
    let next = m.step(input).0;
    let after = done_after(m, done, input);
    assert(next.inputs.len() == m.inputs.len());
    assert forall|i: int| 0 <= i < m.inputs.len() && i != asked(m) implies #[trigger] next.inputs[i]
        == m.inputs[i] by {}
}

/// What holds of the blocks that wait, given whether tables came by bucket and whether unsplit
/// tables were pushed.
spec fn steady<T, A>(m: Model<T, A>, done: Set<int>, came: bool, single: bool) -> bool {
    &&& numbered(m.held)
    &&& forall|i: int| 0 <= i < m.inputs.len() && #[trigger] m.inputs[i] > SINGLE_LEVEL_BUCKET_NUM ==> came
    &&& !came ==> m.held.is_empty()
    &&& came && m.unsplitted.len() > 0 ==> !m.held.is_empty()
    &&& came && !m.initialized_all_inputs ==> !m.held.is_empty()
    &&& single ==> {
        &&& !came
        &&& m.unsplitted.len() == 0
        &&& m.initialized_all_inputs
        &&& forall|i: int| 0 <= i < m.inputs.len() ==> #[trigger] done.contains(i)
    }
}

spec fn steady_in_stage<T, A>(m: Model<T, A>, done: Set<int>, came: bool, single: bool) -> bool {
    &&& steady(m, done, came, single)
    &&& match m.stage {
        Stage::Idle => true,
        Stage::Initializing { .. } => !single && (came ==> !m.held.is_empty()),
        Stage::AwaitingOutput => m.held.is_empty() || m.unsplitted.len() == 0,
        Stage::Pulling { .. } => m.unsplitted.len() == 0,
    }
}

/// Whether unsplit tables were pushed, after a command.
spec fn single_after<T, A>(single: bool, command: Option<CommandView<T, A>>) -> bool {
    single || pushes_single(command)
}

/// Pushing where split and unsplit blocks do not both wait.
proof fn lemma_push<T, A>(m: Model<T, A>, done: Set<int>, came: bool, single: bool)
    requires
        steady(m, done, came, single),
        m.initialized_all_inputs,
        begun(m, done, m.inputs.len() as int),
        m.held.is_empty() || m.unsplitted.len() == 0,
    ensures
        ({
            let (next, command) = m.push();
            &&& steady(next, done, came, single_after(single, command))
            &&& next.inputs == m.inputs
            &&& next.initialized_all_inputs
            &&& next.unsplitted.len() == 0
            &&& pushes_single(command) ==> !came && !single && m.unsplitted.len() > 0
            &&& command is Some ==> pushes(command) && !single && (came || pushes_single(command))
        }),
{
    let (next, command) = m.push();
    if pushes_single(command) && m.held.is_empty() {
        assert forall|i: int| 0 <= i < m.inputs.len() implies #[trigger] done.contains(i) by {
            assert(m.inputs[i] <= SINGLE_LEVEL_BUCKET_NUM);
        }
    }
}

/// Concluding where no unsplit block waits.
proof fn lemma_conclude<T, A, E>(m: Model<T, A>, done: Set<int>, came: bool, single: bool, pushed: bool)
    requires
        steady(m, done, came, single),
        m.initialized_all_inputs,
        begun(m, done, m.inputs.len() as int),
        m.unsplitted.len() == 0,
    ensures
        ({
            let (next, step) = m.conclude::<E>(pushed);
            &&& steady_in_stage(next, done, came, single)
            &&& next.stage is Idle
            &&& pushes(step.command) ==> came && !single && !pushes_single(step.command)
            &&& pushed ==> step.command is None
            &&& step.action != Action::<E>::Return(Ok(Event::Sync))
        }),
{
    lemma_push(m, done, came, single);
    let next = m.push().0;
    if !next.held.is_empty() {
        lemma_nonempty_first(next.held);
    }
}

/// Going on in the pulling pass.
proof fn lemma_pull_from<T, A, E>(
    m: Model<T, A>,
    done: Set<int>,
    came: bool,
    single: bool,
    index: int,
    pushed: bool,
    all_finished: bool,
    all_prepared: bool,
    command: Option<CommandView<T, A>>,
)
    requires
        steady(m, done, came, single),
        m.initialized_all_inputs,
        begun(m, done, m.inputs.len() as int),
        m.unsplitted.len() == 0,
        command is Some && all_finished ==> pushed,
    ensures
        ({
            let (next, step) = m.pull_from::<E>(index, pushed, all_finished, all_prepared, command);
            &&& steady_in_stage(next, done, came, single)
            &&& command is Some ==> step.command == command
            &&& command is None && pushes(step.command) ==> came && !single && !pushes_single(step.command)
            &&& step.action != Action::<E>::Return(Ok(Event::Sync))
        }),
{
    lemma_conclude::<T, A, E>(m, done, came, single, pushed);
}

/// What one input of a run changes.
proof fn lemma_step_steady<T, A, E>(
    m: Model<T, A>,
    done: Set<int>,
    came: bool,
    single: bool,
    input: Input<T, A, E>,
)
    requires
        begun_in_stage(m, done),
        steady_in_stage(m, done, came, single),
        m.permits(input),
        keeps_on(m, done, input),
        input != Input::<T, A, E>::Event(true),
    ensures
        steady_in_stage(
            m.step(input).0,
            done_after(m, done, input),
            came || comes_by_bucket(input),
            single_after(single, m.command(input)),
        ),
        single ==> !comes_by_bucket(input) && !pushes(m.command(input)),
        pushes(m.command(input)) ==> came || pushes_single(m.command(input)),
        pushes_single(m.command(input)) ==> {
            &&& !came
            &&& !comes_by_bucket(input)
            &&& forall|i: int| 0 <= i < m.inputs.len() ==> #[trigger] done.contains(i)
        },
        asks_to_split(m, input) ==> came || comes_by_bucket(input),
{
    let after = done_after(m, done, input);
    match input {
        Input::Event(_) => {},
        Input::OutputChecked(can_push) => {
            if can_push {
                lemma_push(m, done, came, single);
                let (next, command) = m.push();
                lemma_pull_from::<T, A, E>(
                    next,
                    done,
                    came,
                    single_after(single, command),
                    0,
                    command is Some,
                    true,
                    true,
                    command,
                );
            }
        },
        Input::Split(blocks) => {
            lemma_split_steady(m, done, came, single, input);
        },
        Input::Polled(reply) => {
            let index = asked(m);
            let need_data = Some(CommandView::<T, A>::SetNeedData(index));
            lemma_step_begun(m, done, input);
            match m.stage {
                Stage::Initializing { .. } => {},
                Stage::Pulling { pushed, all_finished, all_prepared, .. } => {
                    match reply {
                        InputReply::Data(block) => {
                            let taken = m.take(index, block);
                            assert(m.inputs[index] > SINGLE_LEVEL_BUCKET_NUM);
                            assert(taken.held.contains_key(block.bucket()));
                            if block.bucket() > m.working_bucket {
                                lemma_pull_from::<T, A, E>(
                                    taken,
                                    done,
                                    true,
                                    single,
                                    index + 1,
                                    pushed,
                                    false,
                                    all_prepared,
                                    None,
                                );
                            } else {
                                lemma_pull_from::<T, A, E>(
                                    taken,
                                    done,
                                    true,
                                    single,
                                    index + 1,
                                    pushed,
                                    false,
                                    false,
                                    need_data,
                                );
                            }
                        },
                        InputReply::Finished => {
                            lemma_pull_from::<T, A, E>(
                                m,
                                after,
                                came,
                                single,
                                index + 1,
                                pushed,
                                all_finished,
                                all_prepared,
                                None,
                            );
                        },
                        InputReply::Pending => {
                            if m.inputs[index] > m.working_bucket {
                                lemma_pull_from::<T, A, E>(
                                    m,
                                    done,
                                    came,
                                    single,
                                    index + 1,
                                    pushed,
                                    false,
                                    all_prepared,
                                    None,
                                );
                            } else {
                                lemma_pull_from::<T, A, E>(
                                    m,
                                    done,
                                    came,
                                    single,
                                    index + 1,
                                    pushed,
                                    false,
                                    false,
                                    need_data,
                                );
                            }
                        },
                        InputReply::Failed(_) => {},
                    }
                },
                _ => {},
            }
        },
    }
}

/// What splitting changes.
proof fn lemma_split_steady<T, A, E>(
    m: Model<T, A>,
    done: Set<int>,
    came: bool,
    single: bool,
    input: Input<T, A, E>,
)
    requires
        steady_in_stage(m, done, came, single),
        m.permits(input),
        input is Split,
    ensures
        steady_in_stage(m.step(input).0, done, came || comes_by_bucket(input), single),
        !single,
{
    let blocks = input->Split_0;
    let next = m.step(input).0;
    law_step_numbered(m, input);
    if came {
        lemma_nonempty_first(m.held);
        let b = choose|b: isize| m.held.contains_key(b);
        lemma_put_all_keeps(m.held, blocks, b);
        assert(next.held.contains_key(b));
    } else if comes_by_bucket(input) {
        let i = choose|i: int| 0 <= i < blocks.len() && (#[trigger] blocks[i]) is Some;
        lemma_put_all(m.held, blocks, i as isize);
        assert(blocks_in(next.held, i as isize).len() > 0);
        assert(next.held.contains_key(i as isize));
    } else if !next.held.is_empty() {
        lemma_nonempty_first(next.held);
        let b = choose|b: isize| next.held.contains_key(b);
        lemma_put_all_keys(m.held, blocks, b);
        assert(false);
    }
}

/// Whether some table came by bucket in a run.
pub open spec fn came_by_bucket<T, A, E>(inputs: Seq<Input<T, A, E>>) -> bool
    decreases inputs.len(),
{
    inputs.len() > 0 && (came_by_bucket(inputs.drop_last()) || comes_by_bucket(inputs.last()))
}

/// Whether a run pushed unsplit tables.
spec fn single_pushed<T, A, E>(start: Model<T, A>, inputs: Seq<Input<T, A, E>>) -> bool
    decreases inputs.len(),
{
    inputs.len() > 0 && single_after(
        single_pushed(start, inputs.drop_last()),
        start.run(inputs.drop_last()).command(inputs.last()),
    )
}

/// A run of a new transform whose ports keep on.
spec fn is_steady_run<T, A, E>(n: nat, inputs: Seq<Input<T, A, E>>) -> bool {
    &&& n <= usize::MAX
    &&& Model::<T, A>::initial(n).permits_all(inputs)
    &&& all_keep_on(Model::<T, A>::initial(n), inputs)
    &&& output_stays(inputs)
}

/// A prefix of such a run is one.
proof fn lemma_prefix<T, A, E>(n: nat, inputs: Seq<Input<T, A, E>>, k: int)
    requires
        is_steady_run(n, inputs),
        0 <= k <= inputs.len(),
    ensures
        is_steady_run(n, inputs.take(k)),
    decreases inputs.len(),
{
    if k == inputs.len() {
        assert(inputs.take(k) =~= inputs);
    } else {
        let before = inputs.drop_last();
        assert forall|j: int| 0 <= j < before.len() implies #[trigger] before[j] != Input::<
            T,
            A,
            E,
        >::Event(true) by {
            assert(before[j] == inputs[j]);
        }
        lemma_prefix(n, before, k);
        assert(before.take(k) =~= inputs.take(k));
    }
}

proof fn lemma_run_steady<T, A, E>(n: nat, inputs: Seq<Input<T, A, E>>)
    requires
        is_steady_run(n, inputs),
    ensures
        ({
            let start = Model::<T, A>::initial(n);
            let m = start.run(inputs);
            &&& m.inputs.len() == n
            &&& begun_in_stage(m, done(start, inputs))
            &&& steady_in_stage(
                m,
                done(start, inputs),
                came_by_bucket(inputs),
                single_pushed(start, inputs),
            )
        }),
    decreases inputs.len(),
{
    let start = Model::<T, A>::initial(n);
    if inputs.len() > 0 {
        let before = inputs.drop_last();
        lemma_prefix(n, inputs, inputs.len() - 1);
        assert(inputs.take(inputs.len() - 1) =~= before);
        lemma_run_steady(n, before);
        assert(inputs.last() == inputs[inputs.len() - 1]);
        let m = start.run(before);
        lemma_step_begun(m, done(start, before), inputs.last());
        lemma_step_steady(
            m,
            done(start, before),
            came_by_bucket(before),
            single_pushed(start, before),
            inputs.last(),
        );
    }
}

/// What the input at `k` of such a run changes.
proof fn lemma_at<T, A, E>(n: nat, inputs: Seq<Input<T, A, E>>, k: int)
    requires
        is_steady_run(n, inputs),
        0 <= k < inputs.len(),
    ensures
        ({
            let start = Model::<T, A>::initial(n);
            let before = inputs.take(k);
            let m = start.run(before);
            let command = m.command(inputs[k]);
            &&& m.inputs.len() == n
            &&& came_by_bucket(inputs.take(k + 1)) == (came_by_bucket(before) || comes_by_bucket(inputs[k]))
            &&& single_pushed(start, inputs.take(k + 1)) == (single_pushed(start, before) || pushes_single(command))
            &&& single_pushed(start, before) ==> !comes_by_bucket(inputs[k]) && !pushes(command)
            &&& pushes(command) ==> came_by_bucket(before) || pushes_single(command)
            &&& pushes_single(command) ==> {
                &&& !came_by_bucket(inputs.take(k + 1))
                &&& forall|i: int| 0 <= i < n ==> #[trigger] done(start, before).contains(i)
            }
            &&& asks_to_split(m, inputs[k]) ==> came_by_bucket(inputs.take(k + 1))
        }),
{
    let start = Model::<T, A>::initial(n);
    let before = inputs.take(k);
    let upto = inputs.take(k + 1);
    lemma_prefix(n, inputs, k);
    lemma_prefix(n, inputs, k + 1);
    assert(upto.drop_last() =~= before);
    assert(upto.last() == inputs[k]);
    lemma_run_steady(n, before);
    lemma_step_steady(
        start.run(before),
        done(start, before),
        came_by_bucket(before),
        single_pushed(start, before),
        inputs[k],
    );
}

/// What came or was pushed stays so.
proof fn lemma_grows<T, A, E>(n: nat, inputs: Seq<Input<T, A, E>>, p: int, q: int)
    requires
        is_steady_run(n, inputs),
        0 <= p <= q <= inputs.len(),
    ensures
        came_by_bucket(inputs.take(p)) ==> came_by_bucket(inputs.take(q)),
        single_pushed(Model::<T, A>::initial(n), inputs.take(p)) ==> single_pushed(
            Model::<T, A>::initial(n),
            inputs.take(q),
        ),
    decreases q - p,
{
    if p < q {
        lemma_grows(n, inputs, p, q - 1);
        lemma_at(n, inputs, q - 1);
    }
}

/// All unsplit or all by bucket: where unsplit tables are pushed, at `p`, no table comes by bucket
/// in the whole run, nothing else is pushed in it, no splitting is asked for, and every input has
/// said before that it is finished.
pub proof fn law_one_partition_of_unsplit<T, A, E>(n: nat, inputs: Seq<Input<T, A, E>>, p: int, q: int)
    requires
        n <= usize::MAX,
        Model::<T, A>::initial(n).permits_all(inputs),
        all_keep_on(Model::<T, A>::initial(n), inputs),
        output_stays(inputs),
        0 <= p < inputs.len(),
        pushes_single(Model::<T, A>::initial(n).run(inputs.take(p)).command(inputs[p])),
        0 <= q < inputs.len(),
    ensures
        forall|i: int|
            0 <= i < n ==> #[trigger] done(Model::<T, A>::initial(n), inputs.take(p)).contains(i),
        !comes_by_bucket(inputs[q]),
        q != p ==> !pushes(Model::<T, A>::initial(n).run(inputs.take(q)).command(inputs[q])),
        !asks_to_split(Model::<T, A>::initial(n).run(inputs.take(q)), inputs[q]),
{
    lemma_at(n, inputs, p);
    lemma_at(n, inputs, q);
    if q <= p {
        lemma_grows(n, inputs, q + 1, p + 1);
        if q < p {
            lemma_grows(n, inputs, q + 1, p);
        }
        lemma_grows(n, inputs, q, p + 1);
    } else {
        lemma_grows(n, inputs, p + 1, q);
        lemma_prefix(n, inputs, q + 1);
        lemma_run_steady(n, inputs.take(q + 1));
        lemma_grows(n, inputs, p + 1, q + 1);
    }
}

/// Once some table came by bucket, at `k`, no unsplit tables are pushed, before or after.
pub proof fn law_mixed_goes_by_bucket<T, A, E>(n: nat, inputs: Seq<Input<T, A, E>>, k: int, q: int)
    requires
        n <= usize::MAX,
        Model::<T, A>::initial(n).permits_all(inputs),
        all_keep_on(Model::<T, A>::initial(n), inputs),
        output_stays(inputs),
        0 <= k < inputs.len(),
        comes_by_bucket(inputs[k]),
        0 <= q < inputs.len(),
    ensures
        !pushes_single(Model::<T, A>::initial(n).run(inputs.take(q)).command(inputs[q])),
{
    if pushes_single(Model::<T, A>::initial(n).run(inputs.take(q)).command(inputs[q])) {
        law_one_partition_of_unsplit(n, inputs, q, k);
    }
}

/// While every input is brought past the working bucket, no unsplit block waits, nor does one once
/// a port has been pulled from in that pass.
pub proof fn law_none_unsplit_while_pulling<T, A, E>(n: nat, inputs: Seq<Input<T, A, E>>)
    requires
        n <= usize::MAX,
        Model::<T, A>::initial(n).permits_all(inputs),
        all_keep_on(Model::<T, A>::initial(n), inputs),
        output_stays(inputs),
    ensures
        Model::<T, A>::initial(n).run(inputs).stage is Pulling ==> Model::<T, A>::initial(n).run(
            inputs,
        ).unsplitted.len() == 0,
        inputs.len() > 0 && Model::<T, A>::initial(n).run(inputs.drop_last()).stage is Pulling
            && inputs.last() is Polled ==> Model::<T, A>::initial(n).run(inputs).unsplitted.len() == 0,
{
    lemma_run_steady(n, inputs);
    if inputs.len() > 0 {
        let start = Model::<T, A>::initial(n);
        let before = inputs.drop_last();
        lemma_prefix(n, inputs, inputs.len() - 1);
        assert(inputs.take(inputs.len() - 1) =~= before);
        lemma_run_steady(n, before);
        let m = start.run(before);
        if m.stage is Pulling && inputs.last() is Polled {
            assert(done(start, before).contains(asked(m)) || m.inputs[asked(m)] > SINGLE_LEVEL_BUCKET_NUM);
        }
    }
}

/// The unsplit blocks that come in over a run, in order.
pub open spec fn unsplit_received<T, A, E>(inputs: Seq<Input<T, A, E>>) -> Seq<DataBlock<T, A>>
    decreases inputs.len(),
{
    if inputs.len() == 0 {
        Seq::empty()
    } else {
        let earlier = unsplit_received(inputs.drop_last());
        match inputs.last() {
            Input::Polled(InputReply::Data(block)) => if bucket_on(block) > SINGLE_LEVEL_BUCKET_NUM {
                earlier
            } else {
                earlier.push(block)
            },
            _ => earlier,
        }
    }
}

/// The blocks that a run takes to be split, in order.
pub open spec fn taken_to_split<T, A, E>(start: Model<T, A>, inputs: Seq<Input<T, A, E>>) -> Seq<DataBlock<T, A>>
    decreases inputs.len(),
{
    if inputs.len() == 0 {
        Seq::empty()
    } else {
        let before = inputs.drop_last();
        let earlier = taken_to_split(start, before);
        match inputs.last() {
            Input::Split(_) => earlier.push(start.run(before).unsplitted.last()),
            _ => earlier,
        }
    }
}

/// An unsplit block that came in waits, unless it was taken to be split, as long as none is pushed.
proof fn lemma_split_or_wait<T, A, E>(start: Model<T, A>, inputs: Seq<Input<T, A, E>>)
    requires
        start.permits_all(inputs),
        start.unsplitted.len() == 0,
        numbered(start.held),
        !single_pushed(start, inputs),
    ensures
        numbered(start.run(inputs).held),
        taken_to_split(start, inputs).to_multiset().add(start.run(inputs).unsplitted.to_multiset())
            == unsplit_received(inputs).to_multiset(),
    decreases inputs.len(),
{
    broadcast use vstd::seq_lib::group_to_multiset_ensures;

    if inputs.len() == 0 {
        assert(start.unsplitted =~= Seq::empty());
        assert(taken_to_split(start, inputs) =~= Seq::empty());
    } else {
        let before = inputs.drop_last();
        lemma_split_or_wait(start, before);
        let m = start.run(before);
        let next = start.run(inputs);
        law_step_numbered(m, inputs.last());
        if let Input::Split(_) = inputs.last() {
            assert(m.unsplitted =~= next.unsplitted.push(m.unsplitted.last()));
        } else {
            if !m.held.is_empty() {
                lemma_nonempty_first(m.held);
            }
            assert(next.unsplitted == m.unsplitted || next.unsplitted == m.unsplitted.push(
                inputs.last()->Polled_0->Data_0,
            ));
        }
    }
    assert(taken_to_split(start, inputs).to_multiset().add(start.run(inputs).unsplitted.to_multiset())
        =~= unsplit_received(inputs).to_multiset());
}

/// Where some table came by bucket, at `k`, every unsplit block that came in has been taken to be
/// split, and just once, when the transform finishes its output port.
pub proof fn law_split_once<T, A, E>(n: nat, inputs: Seq<Input<T, A, E>>, k: int)
    requires
        n <= usize::MAX,
        Model::<T, A>::initial(n).permits_all(inputs),
        all_keep_on(Model::<T, A>::initial(n), inputs),
        output_stays(inputs),
        0 <= k < inputs.len(),
        comes_by_bucket(inputs[k]),
        Model::<T, A>::initial(n).run(inputs.drop_last()).command(inputs.last()) == Some(
            CommandView::<T, A>::FinishOutput,
        ),
    ensures
        taken_to_split(Model::<T, A>::initial(n), inputs).to_multiset() == unsplit_received(
            inputs,
        ).to_multiset(),
{
    broadcast use vstd::seq_lib::group_to_multiset_ensures;

    let start = Model::<T, A>::initial(n);
    lemma_at(n, inputs, k);
    lemma_grows(n, inputs, k + 1, inputs.len() as int);
    assert(inputs.take(inputs.len() as int) =~= inputs);
    lemma_run_steady(n, inputs);
    lemma_split_or_wait(start, inputs);
    law_finish_drained(start.run(inputs.drop_last()), inputs.last());
    assert(start.run(inputs).unsplitted =~= Seq::empty());
    assert(taken_to_split(start, inputs).to_multiset().add(Multiset::empty()) =~= taken_to_split(
        start,
        inputs,
    ).to_multiset());
}

/// As long as no table comes by bucket, no splitting is asked for and no bucket is pushed, and
/// nothing waits by bucket.
pub proof fn law_unsplit_only<T, A, E>(n: nat, inputs: Seq<Input<T, A, E>>)
    requires
        Model::<T, A>::initial(n).permits_all(inputs),
        !came_by_bucket(inputs),
    ensures
        Model::<T, A>::initial(n).run(inputs).held.is_empty(),
        inputs.len() > 0 ==> {
            let m = Model::<T, A>::initial(n).run(inputs.drop_last());
            &&& bucket_pushed(m.command(inputs.last())) is None
            &&& !asks_to_split(m, inputs.last())
        },
    decreases inputs.len(),
{
    if inputs.len() > 0 {
        let before = inputs.drop_last();
        law_unsplit_only(n, before);
        let m = Model::<T, A>::initial(n).run(before);
        let next = Model::<T, A>::initial(n).run(inputs);
        if let Input::Split(blocks) = inputs.last() {
            if !next.held.is_empty() {
                lemma_nonempty_first(next.held);
                let b = choose|b: isize| next.held.contains_key(b);
                lemma_put_all_keys(m.held, blocks, b);
                assert(false);
            }
        }
    }
}

/// Where the only command of a run that pushes is the one at `p`, what it pushes for a bucket is
/// all that the run pushes for it.
proof fn lemma_pushed_at<T, A, E>(start: Model<T, A>, inputs: Seq<Input<T, A, E>>, p: int, bucket: isize)
    requires
        forall|q: int|
            0 <= q < inputs.len() && q != p ==> !pushes(
                start.run(#[trigger] inputs.take(q)).command(inputs[q]),
            ),
    ensures
        pushed(start, inputs, bucket) == (if 0 <= p < inputs.len() {
            pushed_by(start.run(inputs.take(p)).command(inputs[p]), bucket)
        } else {
            Seq::empty()
        }),
    decreases inputs.len(),
{
    if inputs.len() > 0 {
        let before = inputs.drop_last();
        let last = inputs.len() - 1;
        assert(inputs.take(last) =~= before);
        assert forall|q: int| 0 <= q < before.len() && q != p implies !pushes(
            start.run(#[trigger] before.take(q)).command(before[q]),
        ) by {
            assert(before.take(q) =~= inputs.take(q));
        }
        lemma_pushed_at(start, before, p, bucket);
        if 0 <= p < last {
            assert(before.take(p) =~= inputs.take(p));
        }
        assert(pushed(start, inputs, bucket) =~= (if 0 <= p < inputs.len() {
            pushed_by(start.run(inputs.take(p)).command(inputs[p]), bucket)
        } else {
            Seq::empty()
        }));
    }
}

/// Where only unsplit tables come in, and some do, a transform that finishes its output port has
/// pushed them all as one partition, in the order in which they came in, after every input has said
/// that it is finished. It has pushed nothing else and never asked for splitting.
pub proof fn law_unsplit_pushed_as_one<T, A, E>(n: nat, inputs: Seq<Input<T, A, E>>) -> (p: int)
    requires
        n <= usize::MAX,
        Model::<T, A>::initial(n).permits_all(inputs),
        all_keep_on(Model::<T, A>::initial(n), inputs),
        output_stays(inputs),
        forall|k: int| 0 <= k < inputs.len() ==> !(#[trigger] inputs[k] is Split),
        !came_by_bucket(inputs),
        unsplit_received(inputs).len() > 0,
        inputs.len() > 0,
        Model::<T, A>::initial(n).run(inputs.drop_last()).command(inputs.last()) == Some(
            CommandView::<T, A>::FinishOutput,
        ),
    ensures
        0 <= p < inputs.len(),
        Model::<T, A>::initial(n).run(inputs.take(p)).command(inputs[p]) == Some(
            CommandView::PushData(Some((SINGLE_LEVEL_BUCKET_NUM, received(inputs, SINGLE_LEVEL_BUCKET_NUM)))),
        ),
        forall|q: int|
            0 <= q < inputs.len() && q != p ==> !pushes(
                Model::<T, A>::initial(n).run(#[trigger] inputs.take(q)).command(inputs[q]),
            ),
        forall|i: int|
            0 <= i < n ==> #[trigger] done(Model::<T, A>::initial(n), inputs.take(p)).contains(i),
        forall|q: int|
            0 <= q < inputs.len() ==> !asks_to_split(
                Model::<T, A>::initial(n).run(#[trigger] inputs.take(q)),
                inputs[q],
            ),
{
    broadcast use vstd::seq_lib::group_to_multiset_ensures;

    let start = Model::<T, A>::initial(n);
    if !single_pushed(start, inputs) {
        lemma_split_or_wait(start, inputs);
        law_finish_drained(start.run(inputs.drop_last()), inputs.last());
        lemma_none_taken(start, inputs);
        assert(start.run(inputs).unsplitted =~= Seq::empty());
        assert(unsplit_received(inputs).to_multiset().len() == 0);
    }
    let p = lemma_single_pushed_at(start, inputs);
    assert forall|q: int| 0 <= q < inputs.len() && q != p implies !pushes(
        start.run(#[trigger] inputs.take(q)).command(inputs[q]),
    ) by {
        law_one_partition_of_unsplit(n, inputs, p, q);
    }
    assert forall|q: int| 0 <= q < inputs.len() implies !asks_to_split(
        start.run(#[trigger] inputs.take(q)),
        inputs[q],
    ) by {
        law_one_partition_of_unsplit(n, inputs, p, q);
    }
    law_one_partition_of_unsplit(n, inputs, p, p);
    lemma_pushed_at(start, inputs, p, SINGLE_LEVEL_BUCKET_NUM);
    law_nothing_unsplit_lost(n, inputs);
    p
}

proof fn lemma_none_taken<T, A, E>(start: Model<T, A>, inputs: Seq<Input<T, A, E>>)
    requires
        forall|k: int| 0 <= k < inputs.len() ==> !(#[trigger] inputs[k] is Split),
    ensures
        taken_to_split(start, inputs) == Seq::<DataBlock<T, A>>::empty(),
    decreases inputs.len(),
{
    if inputs.len() > 0 {
        let before = inputs.drop_last();
        assert forall|k: int| 0 <= k < before.len() implies !(#[trigger] before[k] is Split) by {
            assert(before[k] == inputs[k]);
        }
        lemma_none_taken(start, before);
        assert(inputs.last() == inputs[inputs.len() - 1]);
    }
}

/// Where in a run unsplit tables were pushed.
proof fn lemma_single_pushed_at<T, A, E>(start: Model<T, A>, inputs: Seq<Input<T, A, E>>) -> (p: int)
    requires
        single_pushed(start, inputs),
    ensures
        0 <= p < inputs.len(),
        pushes_single(start.run(inputs.take(p)).command(inputs[p])),
    decreases inputs.len(),
{
    let before = inputs.drop_last();
    if single_pushed(start, before) {
        let p = lemma_single_pushed_at(start, before);
        assert(before.take(p) =~= inputs.take(p));
        p
    } else {
        assert(inputs.take(inputs.len() - 1) =~= before);
        inputs.len() - 1
    }
}

/// Whether an answer of an input port keeps to the order of the buckets: nothing comes from a port
/// that is finished, nothing for a bucket before the one that the port delivered last, and pulling
/// does not fail.
pub open spec fn in_port_order<T, A, E>(m: Model<T, A>, done: Set<int>, input: Input<T, A, E>) -> bool {
    match input {
        Input::Polled(InputReply::Data(block)) => {
            &&& !done.contains(asked(m))
            &&& bucket_on(block) >= m.inputs[asked(m)]
        },
        Input::Polled(InputReply::Failed(_)) => false,
        _ => true,
    }
}

/// Whether all input ports keep in a run to the order of the buckets.
pub open spec fn all_in_port_order<T, A, E>(start: Model<T, A>, inputs: Seq<Input<T, A, E>>) -> bool
    decreases inputs.len(),
{
    inputs.len() > 0 ==> {
        let before = inputs.drop_last();
        &&& all_in_port_order(start, before)
        &&& in_port_order(start.run(before), done(start, before), inputs.last())
    }
}

/// If every port keeps to the order of the buckets, so does the run: once the inputs have begun to
/// deliver by bucket, no unsplit table comes any more.
pub proof fn law_ports_in_order<T, A, E>(n: nat, inputs: Seq<Input<T, A, E>>)
    requires
        n <= usize::MAX,
        Model::<T, A>::initial(n).permits_all(inputs),
        all_in_port_order(Model::<T, A>::initial(n), inputs),
    ensures
        all_keep_on(Model::<T, A>::initial(n), inputs),
        all_arrive_in_order(Model::<T, A>::initial(n), inputs),
{
    lemma_ports_in_order(n, inputs);
}

proof fn lemma_ports_in_order<T, A, E>(n: nat, inputs: Seq<Input<T, A, E>>)
    requires
        n <= usize::MAX,
        Model::<T, A>::initial(n).permits_all(inputs),
        all_in_port_order(Model::<T, A>::initial(n), inputs),
    ensures
        all_keep_on(Model::<T, A>::initial(n), inputs),
        all_arrive_in_order(Model::<T, A>::initial(n), inputs),
        begun_in_stage(
            Model::<T, A>::initial(n).run(inputs),
            done(Model::<T, A>::initial(n), inputs),
        ),
    decreases inputs.len(),
{
    if inputs.len() > 0 {
        let start = Model::<T, A>::initial(n);
        let before = inputs.drop_last();
        lemma_ports_in_order(n, before);
        let m = start.run(before);
        lemma_step_begun(m, done(start, before), inputs.last());
        assert(arrives_in_order(m, done(start, before), inputs.last())) by {
            if m.stage is Pulling && inputs.last() is Polled {
                assert(done(start, before).contains(asked(m)) || m.inputs[asked(m)] > SINGLE_LEVEL_BUCKET_NUM);
            }
        }
    }
}

/// A bucket is pushed whole if every port keeps to the order of the buckets: what is pushed for it,
/// at `p`, is all that came in for it before, which is all that comes in for it at any time.
pub proof fn law_sorted_ports_push_whole<T, A, E>(n: nat, inputs: Seq<Input<T, A, E>>, p: int, bucket: isize)
    requires
        n <= usize::MAX,
        Model::<T, A>::initial(n).permits_all(inputs),
        all_in_port_order(Model::<T, A>::initial(n), inputs),
        output_stays(inputs),
        0 <= p < inputs.len(),
        bucket_pushed(Model::<T, A>::initial(n).run(inputs.take(p)).command(inputs[p])) == Some(bucket),
    ensures
        Model::<T, A>::initial(n).run(inputs.take(p)).command(inputs[p]) == Some(
            CommandView::PushData(Some((bucket, received(inputs.take(p), bucket)))),
        ),
        received(inputs.take(p), bucket) == received(inputs, bucket),
{
    law_ports_in_order(n, inputs);
    law_pushed_whole(n, inputs, p, bucket);
}

/// A bucket is pushed once, and buckets are pushed in ascending order, if every port keeps to the
/// order of the buckets: whatever is pushed for a bucket or comes in for one after a bucket was
/// pushed is of a greater one.
pub proof fn law_sorted_ports_push_ascending<T, A, E>(
    n: nat,
    inputs: Seq<Input<T, A, E>>,
    p: int,
    q: int,
    bucket: isize,
)
    requires
        n <= usize::MAX,
        Model::<T, A>::initial(n).permits_all(inputs),
        all_in_port_order(Model::<T, A>::initial(n), inputs),
        0 <= p < q < inputs.len(),
        bucket_pushed(Model::<T, A>::initial(n).run(inputs.take(p)).command(inputs[p])) == Some(bucket),
    ensures
        bucket_pushed(Model::<T, A>::initial(n).run(inputs.take(q)).command(inputs[q])) matches Some(
            later,
        ) ==> later > bucket,
        forall|later: isize|
            later > SINGLE_LEVEL_BUCKET_NUM && #[trigger] arriving(inputs[q], later).len() > 0 ==> later
                > bucket,
{
    law_ports_in_order(n, inputs);
    law_pushes_ascend(n, inputs, p, q, bucket);
}

} // verus!
