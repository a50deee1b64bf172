//! The protocol between the partitioning transform and its ports, and the transform as a state
//! machine over mathematical values.
//!
//! The transform never touches a port. It is told what a port answered, and says in a [`Step`]
//! what to do with the ports and what to ask next. An event of the processor is the run of steps
//! from one [`Input::Event`] to the next [`Action::Return`].

use vstd::prelude::*;

use crate::aggregate_meta::{aggregates, AggregateMeta, DataBlock, HashTablePayload, SINGLE_LEVEL_BUCKET_NUM};

verus! {

/// What a processor reports to the scheduler.
#[derive(Debug, Clone, Copy, PartialEq, Eq, Structural)]
pub enum Event {
    /// Nothing is left to do.
    Finished,
    /// Wait until an input port has data.
    NeedData,
    /// Wait until the output port takes data.
    NeedConsume,
    /// There is work to be done off the ports.
    Sync,
}

/// Where in an event the transform stands.
#[derive(Debug, Clone, Copy, PartialEq, Eq)]
pub enum Stage {
    /// No event is under way.
    Idle,
    /// The answer of the input port `index` is awaited, in the pass that waits for every input to
    /// deliver its first block of a bucket.
    Initializing { index: usize },
    /// It is awaited whether the output port takes data.
    AwaitingOutput,
    /// The answer of the input port `index` is awaited, in the pass that brings every input past
    /// the working bucket.
    Pulling {
        index: usize,
        /// A partition has been pushed in this event.
        pushed: bool,
        /// Every input asked so far in this pass is finished.
        all_finished: bool,
        /// Every input asked so far in this pass is finished or past the working bucket.
        all_prepared: bool,
    },
}

/// What an input port answered.
#[derive(Debug, PartialEq, Eq)]
pub enum InputReply<T, A, E> {
    /// The port is finished.
    Finished,
    /// The port is not finished; it has no data, or was not asked for any.
    Pending,
    /// A block that was pulled from the port.
    Data(DataBlock<T, A>),
    /// Pulling from the port gave an error.
    Failed(E),
}

/// What to do with the ports.
#[derive(Debug, PartialEq, Eq)]
pub enum Command<T, A> {
    /// Finish every input port.
    FinishInputs,
    /// Tell the input port with this index that data is needed.
    SetNeedData(usize),
    /// Tell every input port that no data is needed.
    SetNotNeedData,
    /// Push a block to the output port.
    PushData(DataBlock<T, A>),
    /// Finish the output port.
    FinishOutput,
}

/// What comes next.
#[derive(Debug, PartialEq, Eq)]
pub enum Action<E> {
    /// Ask the input port `index` whether it is finished; if it is not and `pull` is set, pull a
    /// block from it if it has data.
    PollInput { index: usize, pull: bool },
    /// Ask whether the output port takes data.
    CheckOutput,
    /// The event is over.
    Return(Result<Event, E>),
}

/// A move of the transform: a command to be carried out, if any, and then the next action.
#[derive(Debug, PartialEq, Eq)]
pub struct Step<T, A, E> {
    pub command: Option<Command<T, A>>,
    pub action: Action<E>,
}

/// A [`Command`] as a mathematical value: a pushed block is given by its bucket and members.
pub enum CommandView<T, A> {
    FinishInputs,
    SetNeedData(int),
    SetNotNeedData,
    PushData(Option<(isize, Seq<AggregateMeta<T, A>>)>),
    FinishOutput,
}

impl<T, A> View for Command<T, A> {
    type V = CommandView<T, A>;

    open spec fn view(&self) -> CommandView<T, A> {
        match *self {
            Command::FinishInputs => CommandView::FinishInputs,
            Command::SetNeedData(index) => CommandView::SetNeedData(index as int),
            Command::SetNotNeedData => CommandView::SetNotNeedData,
            Command::PushData(block) => CommandView::PushData(block.partition()),
            Command::FinishOutput => CommandView::FinishOutput,
        }
    }
}

/// A [`Step`] as a mathematical value.
pub struct StepView<T, A, E> {
    pub command: Option<CommandView<T, A>>,
    pub action: Action<E>,
}

impl<T, A, E> View for Step<T, A, E> {
    type V = StepView<T, A, E>;

    open spec fn view(&self) -> StepView<T, A, E> {
        StepView {
            command: match self.command {
                Some(command) => Some(command@),
                None => None,
            },
            action: self.action,
        }
    }
}

/// What can happen to the transform.
pub enum Input<T, A, E> {
    /// An event begins, with the output port finished or not.
    Event(bool),
    /// The input port that was asked answered.
    Polled(InputReply<T, A, E>),
    /// The output port answered whether it takes data.
    OutputChecked(bool),
    /// The last unsplit block was taken and split, and the blocks for its buckets come in. There
    /// are none if the block carried no table or splitting it failed.
    Split(Seq<Option<DataBlock<T, A>>>),
}

/// The block that a partition is pushed as: the members are the aggregation states on the blocks.
pub open spec fn push_of<T, A>(bucket: isize, blocks: Seq<DataBlock<T, A>>) -> Option<CommandView<T, A>> {
    Some(CommandView::PushData(Some((bucket, aggregates(blocks)))))
}

/// The blocks that wait in each bucket.
pub type Buckets<T, A> = Map<isize, Seq<DataBlock<T, A>>>;

/// The blocks that wait in a bucket; none where there is no entry.
pub open spec fn blocks_in<T, A>(held: Buckets<T, A>, bucket: isize) -> Seq<DataBlock<T, A>> {
    if held.contains_key(bucket) {
        held[bucket]
    } else {
        Seq::empty()
    }
}

/// The buckets after one more block came into one of them.
pub open spec fn put<T, A>(held: Buckets<T, A>, bucket: isize, block: DataBlock<T, A>) -> Buckets<T, A> {
    held.insert(bucket, blocks_in(held, bucket).push(block))
}

/// The buckets after a split table came in: the block at each index goes to the bucket of that
/// number.
pub open spec fn put_all<T, A>(held: Buckets<T, A>, blocks: Seq<Option<DataBlock<T, A>>>) -> Buckets<T, A>
    decreases blocks.len(),
{
    if blocks.len() == 0 {
        held
    } else {
        let rest = put_all(held, blocks.drop_last());
        match blocks.last() {
            Some(block) => put(rest, (blocks.len() - 1) as isize, block),
            None => rest,
        }
    }
}

/// The blocks carry hash tables of this bucket, and there is at least one.
pub open spec fn all_of_bucket<T, A>(blocks: Seq<DataBlock<T, A>>, bucket: isize) -> bool {
    &&& blocks.len() > 0
    &&& forall|i: int|
        0 <= i < blocks.len() ==> {
            &&& (#[trigger] blocks[i]).payload() is Some
            &&& blocks[i].payload()->0.bucket == bucket
        }
}

/// What waits in a bucket belongs there.
pub open spec fn sorted<T, A>(held: Buckets<T, A>) -> bool {
    forall|b: isize| #[trigger] held.contains_key(b) ==> all_of_bucket(held[b], b)
}

pub proof fn lemma_put_sorted<T, A>(held: Buckets<T, A>, bucket: isize, block: DataBlock<T, A>)
    requires
        sorted(held),
        block.payload() is Some,
        block.payload()->0.bucket == bucket,
    ensures
        sorted(put(held, bucket, block)),
{
    let next = put(held, bucket, block);
    assert forall|b: isize| #[trigger] next.contains_key(b) implies all_of_bucket(next[b], b) by {
        if b == bucket {
            assert(held.contains_key(b) ==> all_of_bucket(held[b], b));
            assert(blocks_in(held, b).len() > 0 ==> all_of_bucket(blocks_in(held, b), b));
        } else {
            assert(held.contains_key(b));
        }
    }
}

/// `bucket` is the least one with an entry.
pub open spec fn is_first<T, A>(held: Buckets<T, A>, bucket: isize) -> bool {
    &&& held.contains_key(bucket)
    &&& forall|other: isize| #[trigger] held.contains_key(other) ==> bucket <= other
}

/// `bucket` is the least one with an entry from `pushing` on, and below `working`.
pub open spec fn is_ready<T, A>(held: Buckets<T, A>, pushing: int, working: int, bucket: isize) -> bool {
    &&& pushing <= bucket < working
    &&& held.contains_key(bucket)
    &&& forall|other: isize|
        pushing <= other < bucket ==> !#[trigger] held.contains_key(other)
}

/// The transform as a mathematical value.
pub struct Model<T, A> {
    /// For each input, the bucket of the last block that it delivered.
    pub inputs: Seq<isize>,
    /// Every input that is not finished is to be brought past this bucket.
    pub working_bucket: int,
    /// The next bucket to be looked at for pushing.
    pub pushing_bucket: int,
    pub initialized_all_inputs: bool,
    pub held: Buckets<T, A>,
    pub unsplitted: Seq<DataBlock<T, A>>,
    pub stage: Stage,
}

impl<T, A> Model<T, A> {
    /// A transform with `n` inputs that has seen nothing yet.
    pub open spec fn initial(n: nat) -> Self {
        Model {
            inputs: Seq::new(n, |i: int| SINGLE_LEVEL_BUCKET_NUM),
            working_bucket: 0,
            pushing_bucket: 0,
            initialized_all_inputs: false,
            held: Map::empty(),
            unsplitted: Seq::empty(),
            stage: Stage::Idle,
        }
    }

    /// What every reachable state satisfies.
    pub open spec fn wf(self) -> bool {
        &&& self.inputs.len() <= usize::MAX
        &&& sorted(self.held)
        // no partition comes back in
        &&& forall|i: int|
            0 <= i < self.unsplitted.len() ==> (#[trigger] self.unsplitted[i]).partition() is None
        &&& match self.stage {
            Stage::Initializing { index } => index < self.inputs.len(),
            Stage::Pulling { index, all_finished, all_prepared, .. } => {
                &&& index < self.inputs.len()
                // an input that is not finished and is past the working bucket bounds it
                &&& all_prepared && !all_finished ==> exists|i: int|
                    0 <= i < index && #[trigger] self.inputs[i] > self.working_bucket
            },
            _ => true,
        }
    }

    /// The state between two events.
    pub open spec fn idle(self) -> Self {
        Model { stage: Stage::Idle, ..self }
    }

    /// The event is over, with this outcome.
    pub open spec fn returning<E>(self, command: Option<CommandView<T, A>>, result: Result<Event, E>) -> (
        Self,
        StepView<T, A, E>,
    ) {
        (self.idle(), StepView { command, action: Action::Return(result) })
    }

    /// Take in a block from the input with this index.
    pub open spec fn take(self, index: int, block: DataBlock<T, A>) -> Self {
        let bucket = block.bucket();
        let received = Model { inputs: self.inputs.update(index, bucket), ..self };
        if bucket > SINGLE_LEVEL_BUCKET_NUM {
            Model { held: put(self.held, bucket, block), ..received }
        } else {
            Model { unsplitted: self.unsplitted.push(block), ..received }
        }
    }

    /// Whether some block waits in a bucket below the working bucket and not yet passed.
    pub open spec fn has_ready(self) -> bool {
        exists|b: isize| #[trigger] is_ready(self.held, self.pushing_bucket, self.working_bucket, b)
    }

    pub open spec fn ready(self) -> isize {
        choose|b: isize| #[trigger] is_ready(self.held, self.pushing_bucket, self.working_bucket, b)
    }

    /// Push the partition of the first bucket that is ready.
    pub open spec fn push_two_level(self) -> (Self, Option<CommandView<T, A>>) {
        if self.has_ready() {
            let b = self.ready();
            (
                Model { held: self.held.remove(b), pushing_bucket: b + 1, ..self },
                push_of(b, self.held[b]),
            )
        } else if self.pushing_bucket < self.working_bucket {
            (Model { pushing_bucket: self.working_bucket, ..self }, None)
        } else {
            (self, None)
        }
    }

    /// Push all unsplit tables as one partition.
    pub open spec fn push_single_level(self) -> (Self, Option<CommandView<T, A>>) {
        if self.unsplitted.len() > 0 {
            (
                Model { unsplitted: Seq::empty(), ..self },
                push_of(SINGLE_LEVEL_BUCKET_NUM, self.unsplitted),
            )
        } else {
            (self, None)
        }
    }

    /// Push a partition if one is complete: by bucket if there are buckets, else all in one.
    pub open spec fn push(self) -> (Self, Option<CommandView<T, A>>) {
        if self.held.is_empty() {
            self.push_single_level()
        } else {
            self.push_two_level()
        }
    }

    /// Push the partition of the first bucket of all.
    pub open spec fn push_first(self) -> (Self, Option<CommandView<T, A>>) {
        let b = choose|b: isize| #[trigger] is_first(self.held, b);
        (Model { held: self.held.remove(b), ..self }, push_of(b, self.held[b]))
    }

    /// Every input has delivered a block of a bucket, or is finished.
    pub open spec fn after_initialization<E>(self) -> (Self, StepView<T, A, E>) {
        if !self.held.is_empty() && self.unsplitted.len() > 0 {
            self.returning(None, Ok(Event::Sync))
        } else {
            (
                Model { stage: Stage::AwaitingOutput, ..self },
                StepView { command: None, action: Action::CheckOutput },
            )
        }
    }

    /// Go on with the input `index` in the initializing pass, after this command.
    pub open spec fn initialize_from<E>(self, index: int, command: Option<CommandView<T, A>>) -> (
        Self,
        StepView<T, A, E>,
    ) {
        if index < self.inputs.len() {
            (
                Model { stage: Stage::Initializing { index: index as usize }, ..self },
                StepView {
                    command,
                    action: Action::PollInput {
                        index: index as usize,
                        pull: self.inputs[index] <= SINGLE_LEVEL_BUCKET_NUM,
                    },
                },
            )
        } else if self.initialized_all_inputs {
            let (next, step) = self.after_initialization::<E>();
            (next, StepView { command, ..step })
        } else {
            self.returning(command, Ok(Event::NeedData))
        }
    }

    /// An event begins.
    pub open spec fn event<E>(self, output_finished: bool) -> (Self, StepView<T, A, E>) {
        if output_finished {
            Model { held: Map::empty(), ..self }.returning(
                Some(CommandView::FinishInputs),
                Ok(Event::Finished),
            )
        } else if self.initialized_all_inputs {
            self.after_initialization()
        } else {
            Model { initialized_all_inputs: true, ..self }.initialize_from(0, None)
        }
    }

    /// The input `index` answered in the initializing pass.
    pub open spec fn initialize<E>(self, index: int, reply: InputReply<T, A, E>) -> (
        Self,
        StepView<T, A, E>,
    ) {
        let waiting = Model { initialized_all_inputs: false, ..self };
        let need_data = Some(CommandView::SetNeedData(index));
        match reply {
            InputReply::Failed(error) => self.returning(None, Err(error)),
            InputReply::Finished => self.initialize_from(index + 1, None),
            InputReply::Pending => if self.inputs[index] > SINGLE_LEVEL_BUCKET_NUM {
                self.initialize_from(index + 1, None)
            } else {
                waiting.initialize_from(index + 1, need_data)
            },
            InputReply::Data(block) => if block.bucket() > SINGLE_LEVEL_BUCKET_NUM {
                self.take(index, block).initialize_from(index + 1, None)
            } else {
                waiting.take(index, block).initialize_from(index + 1, need_data)
            },
        }
    }

    /// Every input is finished.
    pub open spec fn conclude<E>(self, pushed: bool) -> (Self, StepView<T, A, E>) {
        let (next, command) = self.push();
        if pushed {
            self.returning(None, Ok(Event::NeedConsume))
        } else if command is Some {
            next.returning(command, Ok(Event::NeedConsume))
        } else if !next.held.is_empty() {
            let (last, command) = next.push_first();
            last.returning(command, Ok(Event::NeedConsume))
        } else {
            next.returning(Some(CommandView::FinishOutput), Ok(Event::Finished))
        }
    }

    /// Ask the input `index` in the pulling pass, after this command.
    pub open spec fn poll<E>(
        self,
        index: int,
        pushed: bool,
        all_finished: bool,
        all_prepared: bool,
        command: Option<CommandView<T, A>>,
    ) -> (Self, StepView<T, A, E>) {
        let index_exec = index as usize;
        (
            Model {
                stage: Stage::Pulling { index: index_exec, pushed, all_finished, all_prepared },
                ..self
            },
            StepView {
                command,
                action: Action::PollInput {
                    index: index_exec,
                    pull: self.inputs[index] <= self.working_bucket,
                },
            },
        )
    }

    /// Go on with the input `index` in the pulling pass, after this command. At the end of a pass
    /// that found every input finished or past the working bucket, the next bucket is worked on.
    pub open spec fn pull_from<E>(
        self,
        index: int,
        pushed: bool,
        all_finished: bool,
        all_prepared: bool,
        command: Option<CommandView<T, A>>,
    ) -> (Self, StepView<T, A, E>) {
        if index < self.inputs.len() {
            self.poll(index, pushed, all_finished, all_prepared, command)
        } else if all_finished {
            let (next, step) = self.conclude::<E>(pushed);
            (next, StepView { command: if command is Some { command } else { step.command }, ..step })
        } else if !all_prepared {
            self.returning(command, Ok(Event::NeedData))
        } else {
            Model { working_bucket: self.working_bucket + 1, ..self }.poll(0, pushed, true, true, command)
        }
    }

    /// The output port answered whether it takes data.
    pub open spec fn check_output<E>(self, can_push: bool) -> (Self, StepView<T, A, E>) {
        if can_push {
            let (next, command) = self.push();
            next.pull_from(0, command is Some, true, true, command)
        } else {
            self.returning(Some(CommandView::SetNotNeedData), Ok(Event::NeedConsume))
        }
    }

    /// The input `index` answered in the pulling pass.
    pub open spec fn pull<E>(
        self,
        index: int,
        pushed: bool,
        all_finished: bool,
        all_prepared: bool,
        reply: InputReply<T, A, E>,
    ) -> (Self, StepView<T, A, E>) {
        let need_data = Some(CommandView::SetNeedData(index));
        match reply {
            InputReply::Failed(error) => self.returning(None, Err(error)),
            InputReply::Finished => self.pull_from(
                index + 1,
                pushed,
                all_finished,
                all_prepared,
                None,
            ),
            InputReply::Pending => if self.inputs[index] > self.working_bucket {
                self.pull_from(index + 1, pushed, false, all_prepared, None)
            } else {
                self.pull_from(index + 1, pushed, false, false, need_data)
            },
            InputReply::Data(block) => if block.bucket() > self.working_bucket {
                self.take(index, block).pull_from(index + 1, pushed, false, all_prepared, None)
            } else {
                self.take(index, block).pull_from(index + 1, pushed, false, false, need_data)
            },
        }
    }

    /// Whether an input port has been asked, and for data.
    pub open spec fn pulls(self) -> bool {
        match self.stage {
            Stage::Initializing { index } => self.inputs[index as int] <= SINGLE_LEVEL_BUCKET_NUM,
            Stage::Pulling { index, .. } => self.inputs[index as int] <= self.working_bucket,
            _ => false,
        }
    }

    /// Whether the answer of an input port fits what was asked: data, or the failure to pull it,
    /// comes only where it was asked for, and no partition comes in.
    pub open spec fn accepts<E>(self, reply: InputReply<T, A, E>) -> bool {
        &&& self.stage is Initializing || self.stage is Pulling
        &&& match reply {
            InputReply::Data(block) => self.pulls() && block.partition() is None,
            InputReply::Failed(_) => self.pulls(),
            _ => true,
        }
    }

    /// The input port that was asked answered.
    pub open spec fn input_polled<E>(self, reply: InputReply<T, A, E>) -> (Self, StepView<T, A, E>) {
        match self.stage {
            Stage::Initializing { index } => self.initialize(index as int, reply),
            Stage::Pulling { index, pushed, all_finished, all_prepared } => self.pull(
                index as int,
                pushed,
                all_finished,
                all_prepared,
                reply,
            ),
            _ => arbitrary(),
        }
    }

    /// The unsplit block that came last leaves, to be split.
    pub open spec fn pop_unsplitted(self) -> (Self, Option<HashTablePayload<T, A>>) {
        if self.unsplitted.len() > 0 {
            (
                Model { unsplitted: self.unsplitted.drop_last(), ..self },
                self.unsplitted.last().payload(),
            )
        } else {
            (self, None)
        }
    }

    /// The blocks of a table that was split come in.
    pub open spec fn add_partitions(self, blocks: Seq<Option<DataBlock<T, A>>>) -> Self {
        Model { held: put_all(self.held, blocks), ..self }
    }

    /// What the transform makes of an input: the state that it is in then, and its step if an
    /// event is under way.
    pub open spec fn step<E>(self, input: Input<T, A, E>) -> (Self, Option<StepView<T, A, E>>) {
        match input {
            Input::Event(output_finished) => {
                let (next, step) = self.event(output_finished);
                (next, Some(step))
            },
            Input::Polled(reply) => {
                let (next, step) = self.input_polled(reply);
                (next, Some(step))
            },
            Input::OutputChecked(can_push) => {
                let (next, step) = self.check_output(can_push);
                (next, Some(step))
            },
            Input::Split(blocks) => (self.pop_unsplitted().0.add_partitions(blocks), None),
        }
    }

    /// Whether an input can come in this state. An event begins only when none is under way.
    pub open spec fn permits<E>(self, input: Input<T, A, E>) -> bool {
        match input {
            Input::Event(_) => self.stage is Idle,
            Input::Polled(reply) => self.accepts(reply),
            Input::OutputChecked(_) => self.stage is AwaitingOutput,
            Input::Split(blocks) => {
                &&& self.stage is Idle
                &&& self.unsplitted.len() > 0
                &&& self.unsplitted.last().payload() is None ==> blocks.len() == 0
                &&& blocks.len() <= isize::MAX
                &&& forall|i: int|
                    0 <= i < blocks.len() && (#[trigger] blocks[i]) is Some ==> {
                        &&& blocks[i]->0.payload() is Some
                        &&& blocks[i]->0.payload()->0.bucket == i
                    }
            },
        }
    }

    /// The state after a run of inputs.
    pub open spec fn run<E>(self, inputs: Seq<Input<T, A, E>>) -> Self
        decreases inputs.len(),
    {
        if inputs.len() == 0 {
            self
        } else {
            self.run(inputs.drop_last()).step(inputs.last()).0
        }
    }

    /// Whether a run of inputs can come from this state on.
    pub open spec fn permits_all<E>(self, inputs: Seq<Input<T, A, E>>) -> bool
        decreases inputs.len(),
    {
        inputs.len() > 0 ==> {
            &&& self.permits_all(inputs.drop_last())
            &&& self.run(inputs.drop_last()).permits(inputs.last())
        }
    }

    /// What is to be done with the ports upon an input, if anything.
    pub open spec fn command<E>(self, input: Input<T, A, E>) -> Option<CommandView<T, A>> {
        match self.step(input).1 {
            Some(step) => step.command,
            None => None,
        }
    }
}

} // verus!
