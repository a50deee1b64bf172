//! What whoever drives the partitioning transform can rely on.

use vstd::prelude::*;

use crate::aggregate_meta::DataBlock;
use crate::partition_laws::{asked, law_step_wf, lemma_nonempty_first};
use crate::partition_model::{
    is_first, put_all, Action, Buckets, CommandView, Event, Input, InputReply, Model, Stage,
};

verus! {

/// The transform awaits what it asked for: after it has asked an input port it accepts the answer
/// of that port, with data exactly if it asked for some, after it has asked the output port it
/// accepts its answer, and after it has returned no event is under way.
pub proof fn law_awaits_what_was_asked<T, A, E>(m: Model<T, A>, input: Input<T, A, E>)
    requires
        m.wf(),
        m.permits(input),
        m.step(input).1 is Some,
    ensures
        match m.step(input).1->0.action {
            Action::PollInput { index, pull } => {
                let next = m.step(input).0;
                &&& next.stage is Initializing || next.stage is Pulling
                &&& asked(next) == index
                &&& index < next.inputs.len()
                &&& next.pulls() == pull
            },
            Action::CheckOutput => m.step(input).0.stage is AwaitingOutput,
            Action::Return(_) => m.step(input).0.stage is Idle,
        },
{
}

/// Data is asked only of an input port that exists and has not just said that it is finished.
pub proof fn law_data_asked_of_inputs<T, A, E>(m: Model<T, A>, input: Input<T, A, E>, index: int)
    requires
        m.wf(),
        m.permits(input),
        m.command(input) == Some(CommandView::<T, A>::SetNeedData(index)),
    ensures
        0 <= index < m.inputs.len(),
        index == asked(m),
        input matches Input::Polled(reply) && !(reply is Finished),
{
}

/// The number of inputs never changes.
pub proof fn law_inputs_stay<T, A, E>(m: Model<T, A>, input: Input<T, A, E>)
    requires
        m.wf(),
        m.permits(input),
    ensures
        m.step(input).0.inputs.len() == m.inputs.len(),
{
}

/// An event goes forward: from asking the input ports for their first blocks, one after the other,
/// to asking the output port, to asking the input ports in passes, one after the other in each. Every
/// pass but the first works on a greater bucket than the one before, and none on one past all
/// numbers of buckets.
pub proof fn law_event_goes_forward<T, A, E>(m: Model<T, A>, input: Input<T, A, E>)
    requires
        m.wf(),
        m.permits(input),
        !(input is Split),
    ensures
        ({
            let next = m.step(input).0;
            match (m.stage, next.stage) {
                (_, Stage::Idle) => true,
                (Stage::Idle, Stage::Initializing { index }) => index == 0,
                (Stage::Idle, Stage::AwaitingOutput) => true,
                (Stage::Initializing { index }, Stage::Initializing { index: later }) => later == index + 1,
                (Stage::Initializing { .. }, Stage::AwaitingOutput) => true,
                (Stage::AwaitingOutput, Stage::Pulling { index, .. }) => index == 0 && next.working_bucket
                    == m.working_bucket,
                (Stage::Pulling { index, .. }, Stage::Pulling { index: later, .. }) => {
                    ||| later == index + 1 && next.working_bucket == m.working_bucket
                    ||| later == 0 && m.working_bucket < next.working_bucket <= isize::MAX
                },
                _ => false,
            }
        }),
{
    assert(m.stage is Pulling && input is Polled ==> {
        let index = asked(m);
        m.step(input).0.stage is Pulling ==> m.step(input).0.inputs[index] == (match input {
            Input::Polled(InputReply::Data(block)) => block.bucket(),
            _ => m.inputs[index],
        })
    });
}

/// How many answers the event that is under way can still ask for.
pub open spec fn answers_left<T, A>(m: Model<T, A>) -> int {
    let n = m.inputs.len();
    let passes = if m.working_bucket < isize::MAX {
        isize::MAX - m.working_bucket
    } else {
        0
    };
    match m.stage {
        Stage::Idle => 0,
        Stage::Pulling { index, .. } => passes * n + (n - index),
        Stage::AwaitingOutput => passes * n + n + 1,
        Stage::Initializing { index } => passes * n + n + 1 + (n - index),
    }
}

proof fn lemma_answer_counts<T, A, E>(m: Model<T, A>, input: Input<T, A, E>)
    requires
        m.wf(),
        m.permits(input),
        input is Polled || input is OutputChecked,
    ensures
        0 <= answers_left(m.step(input).0) < answers_left(m),
{
    let next = m.step(input).0;
    let n = m.inputs.len();
    let w = m.working_bucket;
    let later = next.working_bucket;
    law_event_goes_forward(m, input);
    law_inputs_stay(m, input);
    law_step_wf(m, input);
    if w < isize::MAX {
        assert((isize::MAX - w) * n >= 0) by (nonlinear_arith)
            requires
                w < isize::MAX,
        ;
        if w < later <= isize::MAX {
            assert((isize::MAX - later) * n + n <= (isize::MAX - w) * n) by (nonlinear_arith)
                requires
                    w < later,
            ;
            assert((isize::MAX - later) * n >= 0) by (nonlinear_arith)
                requires
                    later <= isize::MAX,
            ;
        }
    }
    assert(0 * n == 0);
    assert(!(next.stage is Idle) && !(m.stage is Pulling) ==> later == w);
}

/// An event ends: however the ports answer, it comes to its end within a number of answers that is
/// known beforehand.
pub proof fn law_event_ends<T, A, E>(m: Model<T, A>, inputs: Seq<Input<T, A, E>>)
    requires
        m.wf(),
        m.permits_all(inputs),
        forall|k: int|
            0 <= k < inputs.len() ==> (#[trigger] inputs[k]) is Polled || inputs[k] is OutputChecked,
    ensures
        m.run(inputs).wf(),
        answers_left(m.run(inputs)) >= 0,
        inputs.len() + answers_left(m.run(inputs)) <= answers_left(m),
    decreases inputs.len(),
{
    if inputs.len() > 0 {
        let before = inputs.drop_last();
        assert forall|k: int| 0 <= k < before.len() implies (#[trigger] before[k]) is Polled
            || before[k] is OutputChecked by {
            assert(before[k] == inputs[k]);
        }
        law_event_ends(m, before);
        assert(inputs.last() == inputs[inputs.len() - 1]);
        lemma_answer_counts(m.run(before), inputs.last());
        law_step_wf(m.run(before), inputs.last());
    } else {
        let n = m.inputs.len();
        assert(m.working_bucket < isize::MAX ==> (isize::MAX - m.working_bucket) * n >= 0) by (nonlinear_arith);
        assert(0 * n == 0);
    }
}

/// How many blocks have been pushed since the last event began.
pub open spec fn pushes_in_event<T, A, E>(start: Model<T, A>, inputs: Seq<Input<T, A, E>>) -> nat
    decreases inputs.len(),
{
    if inputs.len() == 0 {
        0
    } else {
        let before = inputs.drop_last();
        let earlier = if inputs.last() is Event {
            0
        } else {
            pushes_in_event(start, before)
        };
        let now: nat = if start.run(before).command(inputs.last()) matches Some(CommandView::PushData(_)) {
            1
        } else {
            0
        };
        earlier + now
    }
}

/// Whether the output port has said since the last event began that it takes data.
pub open spec fn output_takes<T, A, E>(inputs: Seq<Input<T, A, E>>) -> bool
    decreases inputs.len(),
{
    if inputs.len() == 0 {
        false
    } else {
        match inputs.last() {
            Input::Event(_) => false,
            Input::OutputChecked(can_push) => can_push,
            _ => output_takes(inputs.drop_last()),
        }
    }
}

proof fn lemma_pushes<T, A, E>(start: Model<T, A>, inputs: Seq<Input<T, A, E>>)
    requires
        start.stage is Idle,
        start.permits_all(inputs),
    ensures
        ({
            let pushes = pushes_in_event(start, inputs);
            &&& pushes <= 1
            &&& pushes > 0 ==> output_takes(inputs)
            &&& match start.run(inputs).stage {
                Stage::Idle => true,
                Stage::Pulling { pushed, .. } => output_takes(inputs) && (pushed <==> pushes == 1),
                _ => pushes == 0,
            }
        }),
    decreases inputs.len(),
{
    if inputs.len() > 0 {
        let before = inputs.drop_last();
        lemma_pushes(start, before);
        let m = start.run(before);
        if m.stage is Idle {
            assert(inputs.last() is Event || inputs.last() is Split);
        }
    }
}

/// At most one block is pushed in an event, and only after the output port has said in the event
/// that it takes data.
pub proof fn law_one_push_in_an_event<T, A, E>(start: Model<T, A>, inputs: Seq<Input<T, A, E>>)
    requires
        start.stage is Idle,
        start.permits_all(inputs),
    ensures
        pushes_in_event(start, inputs) <= 1,
        pushes_in_event(start, inputs) > 0 ==> output_takes(inputs),
{
    lemma_pushes(start, inputs);
}

/// An event that has pushed a block ends in [`Event::NeedConsume`], in [`Event::NeedData`] or in an
/// error: it neither finishes the output port nor asks for splitting.
pub proof fn law_pushing_event_waits<T, A, E>(start: Model<T, A>, inputs: Seq<Input<T, A, E>>, result: Result<Event, E>)
    requires
        start.stage is Idle,
        start.permits_all(inputs),
        inputs.len() > 0,
        start.run(inputs.drop_last()).step(inputs.last()).1 matches Some(step) && step.action
            == Action::Return(result),
        pushes_in_event(start, inputs) > 0,
    ensures
        match result {
            Ok(event) => event is NeedConsume || event is NeedData,
            Err(_) => true,
        },
{
    lemma_pushes(start, inputs.drop_last());
}

/// The input ports that have said since the last event began that they are finished.
pub open spec fn finished_in_event<T, A, E>(start: Model<T, A>, inputs: Seq<Input<T, A, E>>) -> Set<int>
    decreases inputs.len(),
{
    if inputs.len() == 0 {
        Set::empty()
    } else {
        let before = inputs.drop_last();
        match inputs.last() {
            Input::Event(_) => Set::empty(),
            Input::Polled(InputReply::Finished) => finished_in_event(start, before).insert(
                asked(start.run(before)),
            ),
            _ => finished_in_event(start, before),
        }
    }
}

proof fn lemma_finished<T, A, E>(start: Model<T, A>, inputs: Seq<Input<T, A, E>>)
    requires
        start.wf(),
        start.stage is Idle,
        start.permits_all(inputs),
    ensures
        ({
            let m = start.run(inputs);
            &&& m.wf()
            &&& m.inputs.len() == start.inputs.len()
            &&& match m.stage {
                Stage::Pulling { index, all_finished, .. } => all_finished ==> forall|i: int|
                    0 <= i < index ==> #[trigger] finished_in_event(start, inputs).contains(i),
                _ => true,
            }
        }),
    decreases inputs.len(),
{
    if inputs.len() > 0 {
        let before = inputs.drop_last();
        lemma_finished(start, before);
        law_step_wf(start.run(before), inputs.last());
        law_inputs_stay(start.run(before), inputs.last());
        let m = start.run(inputs);
        if let Stage::Pulling { index, all_finished: true, .. } = m.stage {
            assert forall|i: int| 0 <= i < index implies #[trigger] finished_in_event(start, inputs).contains(
                i,
            ) by {
                assert(i < asked(start.run(before)) ==> finished_in_event(start, before).contains(i));
            }
        }
    }
}

/// The transform finishes the output port only in an event in which every input port has said that
/// it is finished.
pub proof fn law_finish_after_inputs<T, A, E>(start: Model<T, A>, inputs: Seq<Input<T, A, E>>)
    requires
        start.wf(),
        start.stage is Idle,
        start.permits_all(inputs),
        inputs.len() > 0,
        start.run(inputs.drop_last()).command(inputs.last()) == Some(CommandView::<T, A>::FinishOutput),
    ensures
        forall|i: int| 0 <= i < start.inputs.len() ==> #[trigger] finished_in_event(start, inputs).contains(i),
{
    let before = inputs.drop_last();
    lemma_finished(start, before);
    assert forall|i: int| 0 <= i < start.inputs.len() implies #[trigger] finished_in_event(
        start,
        inputs,
    ).contains(i) by {
        assert(i < asked(start.run(before)) ==> finished_in_event(start, before).contains(i));
    }
}

/// An event ends in [`Event::NeedConsume`] only if it has pushed a block, or the output port took
/// none.
pub proof fn law_need_consume<T, A, E>(start: Model<T, A>, inputs: Seq<Input<T, A, E>>)
    requires
        start.stage is Idle,
        start.permits_all(inputs),
        inputs.len() > 0,
        start.run(inputs.drop_last()).step(inputs.last()).1 matches Some(step) && step.action == Action::<
            E,
        >::Return(Ok(Event::NeedConsume)),
    ensures
        pushes_in_event(start, inputs) == 1 || inputs.last() == Input::<T, A, E>::OutputChecked(false),
{
    lemma_pushes(start, inputs.drop_last());
    lemma_pushes(start, inputs);
}

/// Once the inputs are initialized, an event asks for splitting exactly if both split and unsplit
/// blocks wait.
pub proof fn law_splits_if_mixed<T, A, E>(m: Model<T, A>)
    requires
        m.initialized_all_inputs,
    ensures
        (m.event::<E>(false).1.action == Action::<E>::Return(Ok(Event::Sync))) <==> (!m.held.is_empty()
            && m.unsplitted.len() > 0),
{
}

/// Splitting takes one unsplit block away, and what waits by bucket does not run empty by it.
pub proof fn law_splitting_goes_on<T, A, E>(m: Model<T, A>, input: Input<T, A, E>)
    requires
        m.permits(input),
        input is Split,
    ensures
        m.step(input).0.unsplitted.len() == m.unsplitted.len() - 1,
        !m.held.is_empty() ==> !m.step(input).0.held.is_empty(),
{
    if !m.held.is_empty() {
        lemma_nonempty_first(m.held);
        let b = choose|b: isize| #[trigger] is_first(m.held, b);
        lemma_put_all_keeps(m.held, input->Split_0, b);
    }
}

pub proof fn lemma_put_all_keeps<T, A>(held: Buckets<T, A>, blocks: Seq<Option<DataBlock<T, A>>>, bucket: isize)
    requires
        held.contains_key(bucket),
    ensures
        put_all(held, blocks).contains_key(bucket),
    decreases blocks.len(),
{
    if blocks.len() > 0 {
        lemma_put_all_keeps(held, blocks.drop_last(), bucket);
    }
}

} // verus!
