//! What each input does to the partitioning transform, told by what waits in it, what was asked, and
//! what was answered.

use vstd::prelude::*;

use crate::aggregate_laws::{bucket_on, law_states_are_gathered, states_on};
use crate::aggregate_meta::{AggregateMeta, BlockMeta, DataBlock, HashTablePayload};
use crate::partition_laws::{asked, lemma_nonempty_first, lemma_put_all, lemma_put_all_keys};
use crate::partition_model::{
    blocks_in, is_ready, Action, Buckets, CommandView, Event, Input, InputReply, Model, Stage,
};
use crate::partition_order::lemma_none_ready;
use crate::partition_protocol::lemma_put_all_keeps;

verus! {

/// Some input port has been asked, and there is such a port.
pub open spec fn awaits_input<T, A>(m: Model<T, A>) -> bool {
    &&& m.stage is Initializing || m.stage is Pulling
    &&& 0 <= asked(m) < m.inputs.len() <= usize::MAX
}

/// A block that a port delivers waits from then on: at the end of the bucket that is written on its
/// table, or at the end of the unsplit blocks if no bucket is written there. What waited before
/// stays, and the port is known to have come to that bucket.
pub proof fn law_delivered_block_waits<T, A, E>(m: Model<T, A>, block: DataBlock<T, A>)
    requires
        awaits_input(m),
    ensures
        ({
            let next = m.step::<E>(Input::Polled(InputReply::Data(block))).0;
            let b = bucket_on(block);
            &&& next.inputs.len() == m.inputs.len()
            &&& next.inputs[asked(m)] == b
            &&& forall|i: int|
                0 <= i < m.inputs.len() && i != asked(m) ==> #[trigger] next.inputs[i] == m.inputs[i]
            &&& forall|other: isize|
                other != b ==> {
                    &&& #[trigger] blocks_in(next.held, other) == blocks_in(m.held, other)
                    &&& next.held.contains_key(other) == m.held.contains_key(other)
                }
            &&& b >= 0 ==> next.held.contains_key(b as isize)
            &&& b >= 0 ==> blocks_in(next.held, b as isize) == blocks_in(m.held, b as isize).push(block)
            &&& next.unsplitted == (if b >= 0 {
                m.unsplitted
            } else {
                m.unsplitted.push(block)
            })
        }),
{
}

/// A hash table with the number of a bucket waits in that bucket once it is delivered, whatever it
/// holds, and a hash table without one waits with the unsplit blocks.
pub proof fn law_table_waits_by_its_number<T, A, E>(
    m: Model<T, A>,
    block: DataBlock<T, A>,
    payload: HashTablePayload<T, A>,
)
    requires
        awaits_input(m),
        block.meta == Some(BlockMeta::Aggregate(AggregateMeta::HashTable(payload))),
    ensures
        ({
            let next = m.step::<E>(Input::Polled(InputReply::Data(block))).0;
            if payload.bucket >= 0 {
                &&& next.held.contains_key(payload.bucket)
                &&& next.held[payload.bucket].len() > 0
                &&& next.held[payload.bucket].last() == block
                &&& next.inputs[asked(m)] == payload.bucket
                &&& next.unsplitted == m.unsplitted
            } else {
                &&& next.held == m.held
                &&& next.inputs[asked(m)] == -1
                &&& next.unsplitted.len() == m.unsplitted.len() + 1
                &&& next.unsplitted.last() == block
            }
        }),
{
}

/// Only a delivered block changes what is known of the inputs.
pub proof fn law_inputs_change_by_blocks<T, A, E>(m: Model<T, A>, input: Input<T, A, E>)
    requires
        m.permits(input),
        !(input matches Input::Polled(InputReply::Data(_))),
    ensures
        m.step(input).0.inputs == m.inputs,
{
}

/// What waits goes only by being pushed or split, or when the output port has finished: every other
/// input leaves it as it is.
pub proof fn law_waits_until_pushed<T, A, E>(m: Model<T, A>, input: Input<T, A, E>)
    requires
        m.permits(input),
        !(input matches Input::Polled(InputReply::Data(_))),
        !(input is Split),
        input != Input::<T, A, E>::Event(true),
        !(m.command(input) matches Some(CommandView::PushData(_))),
    ensures
        m.step(input).0.held == m.held,
        m.step(input).0.unsplitted == m.unsplitted,
{
    if !m.held.is_empty() {
        lemma_nonempty_first(m.held);
    }
}

/// A pushed partition holds the states of all blocks that wait in its bucket, in order, or those of
/// all unsplit blocks if nothing waits by bucket; these blocks go, and nothing else does.
pub proof fn law_push_takes_all<T, A, E>(
    m: Model<T, A>,
    input: Input<T, A, E>,
    partition: Option<(isize, Seq<AggregateMeta<T, A>>)>,
)
    requires
        m.permits(input),
        m.command(input) == Some(CommandView::PushData(partition)),
    ensures
        ({
            let next = m.step(input).0;
            if m.held.is_empty() {
                &&& partition == Some((-1isize, states_on(m.unsplitted)))
                &&& m.unsplitted.len() > 0
                &&& next.held == m.held
                &&& next.unsplitted.len() == 0
            } else {
                &&& partition matches Some((b, data)) && {
                    &&& m.held.contains_key(b)
                    &&& data == states_on(m.held[b])
                    &&& next.held == m.held.remove(b)
                }
                &&& next.unsplitted == m.unsplitted
            }
        }),
{
    if m.held.is_empty() {
        law_states_are_gathered(m.unsplitted);
    } else {
        lemma_nonempty_first(m.held);
        let (b, _) = partition->0;
        law_states_are_gathered(m.held[b]);
    }
}

/// The pass in which the last input port has just said that it is finished, after all others did.
pub open spec fn concludes<T, A, E>(m: Model<T, A>, input: Input<T, A, E>) -> bool {
    match input {
        Input::Polled(InputReply::Finished) => m.stage matches Stage::Pulling { index, all_finished, .. }
            && all_finished && index + 1 == m.inputs.len(),
        Input::OutputChecked(can_push) => can_push && m.stage is AwaitingOutput && m.inputs.len() == 0,
        _ => false,
    }
}

/// A partition has been pushed in the event that is under way.
pub open spec fn has_pushed<T, A>(m: Model<T, A>) -> bool {
    m.stage matches Stage::Pulling { pushed, .. } && pushed
}

/// Blocks wait in a bucket that every input is past and that has not been passed over.
pub open spec fn is_complete<T, A>(m: Model<T, A>, b: isize) -> bool {
    m.pushing_bucket <= b < m.working_bucket && m.held.contains_key(b)
}

proof fn lemma_complete_ready<T, A>(m: Model<T, A>)
    ensures
        m.has_ready() <==> exists|b: isize| #[trigger] is_complete(m, b),
        m.has_ready() ==> is_complete(m, m.ready()) && forall|b: isize| #[trigger]
            is_complete(m, b) ==> m.ready() <= b,
{
    if exists|b: isize| #[trigger] is_complete(m, b) {
        let b = choose|b: isize| #[trigger] is_complete(m, b);
        if !m.has_ready() {
            lemma_none_ready(m, b);
        }
    }
    if m.has_ready() {
        assert(is_ready(m.held, m.pushing_bucket, m.working_bucket, m.ready()));
        assert(is_complete(m, m.ready()));
    }
}

/// A partition is pushed exactly when there is one to push. When the output port takes data, that is
/// so if a bucket is complete, or if nothing waits by bucket and unsplit blocks wait. When every input
/// is finished and nothing was pushed in the event, it is so if anything waits.
pub proof fn law_pushed_when_complete<T, A, E>(m: Model<T, A>, input: Input<T, A, E>)
    requires
        awaits_input(m) || !(input is Polled),
        m.permits(input),
    ensures
        m.command(input) matches Some(CommandView::PushData(_)) <==> {
            ||| {
                &&& input == Input::<T, A, E>::OutputChecked(true)
                &&& m.held.is_empty() ==> m.unsplitted.len() > 0
                &&& !m.held.is_empty() && m.inputs.len() > 0 ==> exists|b: isize| #[trigger] is_complete(m, b)
            }
            ||| {
                &&& concludes(m, input)
                &&& !has_pushed(m)
                &&& !m.held.is_empty() || m.unsplitted.len() > 0
            }
        },
{
    lemma_complete_ready(m);
    if !m.held.is_empty() {
        lemma_nonempty_first(m.held);
    }
}

/// The bucket that is pushed is the least complete one, and the least of all if none is complete.
pub proof fn law_least_bucket_is_pushed<T, A, E>(
    m: Model<T, A>,
    input: Input<T, A, E>,
    bucket: isize,
    data: Seq<AggregateMeta<T, A>>,
)
    requires
        awaits_input(m) || !(input is Polled),
        m.permits(input),
        !m.held.is_empty(),
        m.command(input) == Some(CommandView::PushData(Some((bucket, data)))),
    ensures
        m.held.contains_key(bucket),
        forall|b: isize| #[trigger] is_complete(m, b) ==> is_complete(m, bucket) && bucket <= b,
        (forall|b: isize| !#[trigger] is_complete(m, b)) ==> forall|b: isize| #[trigger]
            m.held.contains_key(b) ==> bucket <= b,
{
    lemma_complete_ready(m);
    lemma_nonempty_first(m.held);
}

/// The transform is finished exactly when the output port is: it reports that it is finished when the
/// output port has finished by itself, or together with finishing the output port. It does the latter
/// when every input is finished, nothing waits, and nothing was pushed in the event.
pub proof fn law_finished_with_the_output<T, A, E>(m: Model<T, A>, input: Input<T, A, E>)
    requires
        awaits_input(m) || !(input is Polled),
        m.permits(input),
    ensures
        m.step(input).1 matches Some(step) && step.action == Action::<E>::Return(Ok(Event::Finished)) <==> {
            ||| input == Input::<T, A, E>::Event(true)
            ||| m.command(input) == Some(CommandView::<T, A>::FinishOutput)
        },
        m.command(input) == Some(CommandView::<T, A>::FinishOutput) <==> {
            &&& concludes(m, input)
            &&& !has_pushed(m)
            &&& m.held.is_empty()
            &&& m.unsplitted.len() == 0
        },
{
    if !m.held.is_empty() {
        lemma_nonempty_first(m.held);
    }
}

/// When the output port has finished, the input ports are finished and what waits by bucket is
/// dropped. They are finished in no other case.
pub proof fn law_finished_output_finishes_inputs<T, A, E>(m: Model<T, A>, input: Input<T, A, E>)
    requires
        m.permits(input),
    ensures
        m.command(input) == Some(CommandView::<T, A>::FinishInputs) <==> input == Input::<T, A, E>::Event(true),
        input == Input::<T, A, E>::Event(true) ==> {
            &&& m.step(input).0.held.is_empty()
            &&& m.step(input).0 == (Model { held: m.step(input).0.held, ..m })
            &&& m.step(input).1->0.action == Action::<E>::Return(Ok(Event::Finished))
        },
{
}

/// The bucket that the input port that was asked is to be brought past.
pub open spec fn limit<T, A>(m: Model<T, A>) -> int {
    if m.stage is Initializing {
        -1
    } else {
        m.working_bucket
    }
}

/// An input port is told that data is needed exactly if it has just been asked, is not finished, and
/// has still not come past the bucket that it is to be brought past.
pub proof fn law_data_needed_of_who_lags<T, A, E>(m: Model<T, A>, input: Input<T, A, E>, index: int)
    requires
        m.permits(input),
        awaits_input(m) || !(input is Polled),
    ensures
        m.command(input) == Some(CommandView::<T, A>::SetNeedData(index)) <==> {
            &&& index == asked(m)
            &&& input matches Input::Polled(reply) && (reply is Pending || reply is Data)
            &&& m.step(input).0.inputs[index] <= limit(m)
        },
{
    if !m.held.is_empty() {
        lemma_nonempty_first(m.held);
    }
}

/// The input ports are told that no data is needed exactly when the output port takes none, and the
/// event is then over.
pub proof fn law_full_output_stops_inputs<T, A, E>(m: Model<T, A>, input: Input<T, A, E>)
    requires
        m.permits(input),
    ensures
        m.command(input) == Some(CommandView::<T, A>::SetNotNeedData) <==> input == Input::<
            T,
            A,
            E,
        >::OutputChecked(false),
        input == Input::<T, A, E>::OutputChecked(false) ==> {
            &&& m.step(input).1->0.action == Action::<E>::Return(Ok(Event::NeedConsume))
            &&& m.step(input).0 == (Model { stage: Stage::Idle, ..m })
        },
{
    if !m.held.is_empty() {
        lemma_nonempty_first(m.held);
    }
}

/// An event ends in an error exactly when pulling from a port gave that error, and nothing else comes
/// of it.
pub proof fn law_errors_come_from_ports<T, A, E>(m: Model<T, A>, input: Input<T, A, E>, error: E)
    requires
        m.permits(input),
    ensures
        m.step(input).1 matches Some(step) && step.action == Action::Return(Err(error)) <==> input
            == Input::<T, A, E>::Polled(InputReply::Failed(error)),
        input == Input::<T, A, E>::Polled(InputReply::Failed(error)) ==> {
            &&& m.step(input).0 == (Model { stage: Stage::Idle, ..m })
            &&& m.command(input) is None
        },
{
    if !m.held.is_empty() {
        lemma_nonempty_first(m.held);
    }
}

/// Whether an answer can come in: a port that was asked may be finished or have no data, and deliver a
/// block or fail exactly if it has not come past the bucket that it is to be brought past; no
/// partition comes in.
pub proof fn law_what_can_be_answered<T, A, E>(m: Model<T, A>, block: DataBlock<T, A>, error: E)
    requires
        awaits_input(m),
    ensures
        m.permits::<E>(Input::Polled(InputReply::Finished)),
        m.permits::<E>(Input::Polled(InputReply::Pending)),
        m.permits::<E>(Input::Polled(InputReply::Failed(error))) <==> m.inputs[asked(m)] <= limit(m),
        m.permits::<E>(Input::Polled(InputReply::Data(block))) <==> {
            &&& m.inputs[asked(m)] <= limit(m)
            &&& !(block.meta matches Some(BlockMeta::Aggregate(AggregateMeta::Partitioned { .. })))
        },
{
}

/// Whether anything else can come in: an event begins when none is under way, the output port answers
/// when it was asked, and the last unsplit block is split between two events, into tables of the
/// buckets that they are filed under.
pub proof fn law_what_can_come<T, A, E>(m: Model<T, A>, flag: bool, blocks: Seq<Option<DataBlock<T, A>>>)
    ensures
        m.permits::<E>(Input::Event(flag)) <==> m.stage == Stage::Idle,
        m.permits::<E>(Input::OutputChecked(flag)) <==> m.stage == Stage::AwaitingOutput,
        m.permits::<E>(Input::Split(blocks)) <==> {
            &&& m.stage == Stage::Idle
            &&& m.unsplitted.len() > 0
            &&& blocks.len() <= isize::MAX
            &&& !(m.unsplitted.last().meta matches Some(BlockMeta::Aggregate(AggregateMeta::HashTable(_))))
                ==> blocks.len() == 0
            &&& forall|i: int|
                0 <= i < blocks.len() && (#[trigger] blocks[i]) is Some ==> (blocks[i]->0.meta matches Some(
                    BlockMeta::Aggregate(AggregateMeta::HashTable(payload)),
                ) && payload.bucket == i)
        },
{
}

/// An event begins with asking the first input port, as long as not every input has begun to deliver
/// by bucket; after that, and where there is no input, with what waits.
pub proof fn law_event_begins<T, A, E>(m: Model<T, A>)
    requires
        m.inputs.len() <= usize::MAX,
    ensures
        ({
            let (next, step) = m.step::<E>(Input::Event(false));
            &&& step is Some
            &&& step->0.command is None
            &&& next.initialized_all_inputs
            &&& next.working_bucket == m.working_bucket
            &&& next.pushing_bucket == m.pushing_bucket
            &&& if !m.initialized_all_inputs && m.inputs.len() > 0 {
                &&& step->0.action == (Action::<E>::PollInput { index: 0, pull: m.inputs[0] <= -1 })
                &&& next.stage == (Stage::Initializing { index: 0 })
            } else if !next.held.is_empty() && next.unsplitted.len() > 0 {
                &&& step->0.action == Action::<E>::Return(Ok(Event::Sync))
                &&& next.stage == Stage::Idle
            } else {
                &&& step->0.action == Action::<E>::CheckOutput
                &&& next.stage == Stage::AwaitingOutput
            }
        }),
{
}

/// The pass over the inputs in which each is to deliver its first block of a bucket: the ports are
/// asked one after the other, and the pass counts only if every one was finished or came to a bucket.
pub proof fn law_first_pass<T, A, E>(m: Model<T, A>, reply: InputReply<T, A, E>)
    requires
        awaits_input(m),
        m.stage is Initializing,
        !(reply is Failed),
    ensures
        ({
            let (next, step) = m.step(Input::Polled(reply));
            let index = asked(m);
            &&& step is Some
            &&& next.initialized_all_inputs <==> m.initialized_all_inputs && (reply is Finished
                || next.inputs[index] > -1)
            &&& next.working_bucket == m.working_bucket
            &&& next.pushing_bucket == m.pushing_bucket
            &&& if index + 1 < m.inputs.len() {
                &&& step->0.action matches Action::PollInput { index: following, pull } && following == index + 1
                    && pull == (m.inputs[index + 1] <= -1)
                &&& next.stage matches Stage::Initializing { index: following } && following == index + 1
            } else if !next.initialized_all_inputs {
                &&& step->0.action == Action::<E>::Return(Ok(Event::NeedData))
                &&& next.stage == Stage::Idle
            } else if !next.held.is_empty() && next.unsplitted.len() > 0 {
                &&& step->0.action == Action::<E>::Return(Ok(Event::Sync))
                &&& next.stage == Stage::Idle
            } else {
                &&& step->0.action == Action::<E>::CheckOutput
                &&& next.stage == Stage::AwaitingOutput
            }
        }),
{
}

/// When the output port takes data, the input ports are asked from the first one on, whether or not
/// there was a partition to push; where there are none, the event is over.
pub proof fn law_output_takes_data<T, A, E>(m: Model<T, A>)
    requires
        m.stage is AwaitingOutput,
        m.inputs.len() <= usize::MAX,
    ensures
        ({
            let input = Input::<T, A, E>::OutputChecked(true);
            let (next, step) = m.step(input);
            let pushes = m.command(input) matches Some(CommandView::PushData(_));
            &&& step is Some
            &&& next.working_bucket == m.working_bucket
            &&& next.initialized_all_inputs == m.initialized_all_inputs
            &&& if m.inputs.len() > 0 {
                &&& step->0.action == (Action::<E>::PollInput { index: 0, pull: m.inputs[0] <= m.working_bucket })
                &&& next.stage == (Stage::Pulling {
                    index: 0,
                    pushed: pushes,
                    all_finished: true,
                    all_prepared: true,
                })
                &&& step->0.command is Some ==> pushes
            } else {
                &&& next.stage == Stage::Idle
                &&& step->0.action == Action::<E>::Return(
                    Ok(
                        if pushes {
                            Event::NeedConsume
                        } else {
                            Event::Finished
                        },
                    ),
                )
            }
        }),
{
    if !m.held.is_empty() {
        lemma_nonempty_first(m.held);
    }
}

/// The passes that bring every input past the working bucket: the ports are asked one after the other.
/// A pass that finds all finished ends the event, one that finds some behind waits for them, and after
/// any other the next bucket is worked on in a new pass.
pub proof fn law_pulling_pass<T, A, E>(m: Model<T, A>, reply: InputReply<T, A, E>)
    requires
        awaits_input(m),
        m.stage is Pulling,
        !(reply is Failed),
    ensures
        ({
            let input = Input::<T, A, E>::Polled(reply);
            let (next, step) = m.step(input);
            let index = asked(m);
            let before = m.stage;
            let finished = before->all_finished && reply is Finished;
            let prepared = before->all_prepared && (reply is Finished || next.inputs[index] > m.working_bucket);
            let pushes = m.command(input) matches Some(CommandView::PushData(_));
            &&& step is Some
            &&& next.initialized_all_inputs == m.initialized_all_inputs
            &&& if index + 1 < m.inputs.len() {
                &&& next.working_bucket == m.working_bucket
                &&& step->0.action matches Action::PollInput { index: following, pull } && following == index + 1
                    && pull == (m.inputs[index + 1] <= m.working_bucket)
                &&& next.stage matches Stage::Pulling { index: following, pushed, all_finished, all_prepared }
                    && following == index + 1 && pushed == before->pushed && all_finished == finished
                    && all_prepared == prepared
            } else if finished {
                &&& next.working_bucket == m.working_bucket
                &&& next.stage == Stage::Idle
                &&& step->0.action == Action::<E>::Return(
                    Ok(
                        if before->pushed || pushes {
                            Event::NeedConsume
                        } else {
                            Event::Finished
                        },
                    ),
                )
                &&& before->pushed ==> !pushes
            } else if !prepared {
                &&& next.working_bucket == m.working_bucket
                &&& step->0.action == Action::<E>::Return(Ok(Event::NeedData))
                &&& next.stage == Stage::Idle
            } else {
                &&& next.working_bucket == m.working_bucket + 1
                &&& step->0.action == (Action::<E>::PollInput {
                    index: 0,
                    pull: next.inputs[0] <= m.working_bucket + 1,
                })
                &&& next.stage == (Stage::Pulling {
                    index: 0,
                    pushed: before->pushed,
                    all_finished: true,
                    all_prepared: true,
                })
            }
        }),
{
    if !m.held.is_empty() {
        lemma_nonempty_first(m.held);
    }
}

/// A bucket is passed over only by being pushed, or where nothing waits from the one looked at last
/// up to the working bucket.
pub proof fn law_no_bucket_is_passed_over<T, A, E>(m: Model<T, A>, input: Input<T, A, E>)
    requires
        m.permits(input),
        m.pushing_bucket <= m.working_bucket,
    ensures
        ({
            let next = m.step(input).0;
            &&& m.pushing_bucket <= next.pushing_bucket <= m.working_bucket
            &&& forall|b: isize|
                m.pushing_bucket <= b < next.pushing_bucket && #[trigger] m.held.contains_key(b) ==> {
                    m.command(input) matches Some(CommandView::PushData(Some((pushed, _)))) && pushed == b
                }
        }),
{
    lemma_complete_ready(m);
    if !m.held.is_empty() {
        lemma_nonempty_first(m.held);
    }
    assert forall|b: isize|
        m.pushing_bucket <= b < m.step(input).0.pushing_bucket && #[trigger] m.held.contains_key(b) implies {
            m.command(input) matches Some(CommandView::PushData(Some((pushed, _)))) && pushed == b
        } by {
        assert(is_complete(m, b));
    }
}

/// Looking for a partition to push by bucket goes on after the bucket that is pushed if one is complete,
/// and from the working bucket if none is; it does not go back, and moves at no other time.
pub proof fn law_looking_goes_on<T, A, E>(m: Model<T, A>, input: Input<T, A, E>)
    requires
        m.permits(input),
        awaits_input(m) || !(input is Polled),
    ensures
        ({
            let next = m.step(input).0;
            let looks = !m.held.is_empty() && (input == Input::<T, A, E>::OutputChecked(true) || concludes(
                m,
                input,
            ) && !has_pushed(m));
            if looks && exists|b: isize| #[trigger] is_complete(m, b) {
                m.command(input) matches Some(CommandView::PushData(Some((pushed, _))))
                    && next.pushing_bucket == pushed + 1
            } else if looks && m.pushing_bucket < m.working_bucket {
                next.pushing_bucket == m.working_bucket
            } else {
                next.pushing_bucket == m.pushing_bucket
            }
        }),
{
    lemma_complete_ready(m);
    if !m.held.is_empty() {
        lemma_nonempty_first(m.held);
    }
    let (next, _) = m.push();
    lemma_complete_ready(next);
    if !next.held.is_empty() {
        lemma_nonempty_first(next.held);
    }
}

/// Splitting takes the last unsplit block. Each part that it has goes to the end of the bucket of its
/// number, and nothing else changes.
pub proof fn law_parts_are_filed<T, A, E>(m: Model<T, A>, blocks: Seq<Option<DataBlock<T, A>>>, bucket: isize)
    requires
        m.unsplitted.len() > 0,
        blocks.len() <= isize::MAX,
    ensures
        ({
            let next = m.step::<E>(Input::Split(blocks)).0;
            &&& next.unsplitted == m.unsplitted.drop_last()
            &&& blocks_in(next.held, bucket) == (if 0 <= bucket < blocks.len() && blocks[bucket as int] is Some {
                blocks_in(m.held, bucket).push(blocks[bucket as int]->0)
            } else {
                blocks_in(m.held, bucket)
            })
            &&& next.held.contains_key(bucket) <==> m.held.contains_key(bucket) || 0 <= bucket < blocks.len()
                && blocks[bucket as int] is Some
            &&& next == (Model { held: next.held, unsplitted: next.unsplitted, ..m })
            &&& m.step::<E>(Input::Split(blocks)).1 is None
        }),
{
    lemma_put_all(m.held, blocks, bucket);
    if m.held.contains_key(bucket) {
        lemma_put_all_keeps(m.held, blocks, bucket);
    }
    if m.step::<E>(Input::Split(blocks)).0.held.contains_key(bucket) {
        lemma_put_all_keys(m.held, blocks, bucket);
    }
    let next = m.step::<E>(Input::Split(blocks)).0;
    assert(blocks_in(next.held, bucket) =~= (if 0 <= bucket < blocks.len() && blocks[bucket as int] is Some {
        blocks_in(m.held, bucket).push(blocks[bucket as int]->0)
    } else {
        blocks_in(m.held, bucket)
    }));
}

/// The blocks that wait in a bucket are those of its entry.
pub proof fn law_waiting_blocks_of_entry<T, A>(held: Buckets<T, A>, bucket: isize)
    ensures
        held.contains_key(bucket) ==> blocks_in(held, bucket) == held[bucket],
        !held.contains_key(bucket) ==> blocks_in(held, bucket).len() == 0,
{
}

} // verus!
