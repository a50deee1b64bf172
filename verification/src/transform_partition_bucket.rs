//! The transform between the two stages of a parallel aggregation: it gathers the hash tables of
//! all inputs by bucket, and pushes the tables of one bucket at a time as one partition.

use std::collections::BTreeMap;
use std::sync::Arc;

use vstd::prelude::*;

use crate::aggregate_meta::{
    aggregates, AggregateMeta, BlockMeta, DataBlock, HashTable, HashTablePayload, SINGLE_LEVEL_BUCKET_NUM,
};
use crate::partition_model::{
    is_first, is_ready, lemma_put_sorted, put, Action, Buckets, Command, CommandView, Event, InputReply, Model, Stage,
    Step,
};

verus! {

/// How the keys of an aggregation are hashed, as far as the transform depends on it.
pub trait HashMethod<T>: Sized {
    type Error;

    /// Split a hash table by bucket: the table at each index holds the keys of that bucket.
    fn convert_hashtable(&self, hashtable: HashTable<T>) -> Result<Vec<HashTable<T>>, Self::Error>;
}

/// An input port, and the bucket of the last block that it delivered.
struct InputPortState<I> {
    port: Arc<I>,
    bucket: isize,
}

/// Gathers blocks by bucket from input ports `I` and pushes partitions to an output port `O`.
pub struct TransformPartitionBucket<M, I, O, T, A> {
    output: Arc<O>,
    inputs: Vec<InputPortState<I>>,
    method: M,
    working_bucket: isize,
    pushing_bucket: isize,
    initialized_all_inputs: bool,
    buckets_blocks: BTreeMap<isize, Vec<DataBlock<T, A>>>,
    unsplitted_blocks: Vec<DataBlock<T, A>>,
    stage: Stage,
}

/// The blocks of each bucket, as sequences.
spec fn held_of<T, A>(blocks: Map<isize, Vec<DataBlock<T, A>>>) -> Buckets<T, A> {
    blocks.map_values(|v: Vec<DataBlock<T, A>>| v@)
}

/// The item that an iterator gives first.
fn first_item<It: Iterator>(items: It) -> (first: Option<It::Item>)
    ensures
        vstd::std_specs::iter::IteratorSpec::obeys_prophetic_iter_laws(&items) ==> first == (
        if vstd::std_specs::iter::IteratorSpec::remaining(&items).len() > 0 {
            Some(vstd::std_specs::iter::IteratorSpec::remaining(&items)[0])
        } else {
            None
        }),
{
    let mut items = items;
    items.next()
}

/// A command that may be absent, as a mathematical value.
spec fn command_view<T, A>(command: Option<Command<T, A>>) -> Option<CommandView<T, A>> {
    match command {
        Some(command) => Some(command@),
        None => None,
    }
}

impl<M, I, O, T, A> View for TransformPartitionBucket<M, I, O, T, A> {
    type V = Model<T, A>;

    closed spec fn view(&self) -> Model<T, A> {
        Model {
            inputs: self.inputs@.map_values(|s: InputPortState<I>| s.bucket),
            working_bucket: self.working_bucket as int,
            pushing_bucket: self.pushing_bucket as int,
            initialized_all_inputs: self.initialized_all_inputs,
            held: held_of(self.buckets_blocks@),
            unsplitted: self.unsplitted_blocks@,
            stage: self.stage,
        }
    }
}

impl<M, I, O, T, A> TransformPartitionBucket<M, I, O, T, A> {
    /// The input ports, in order.
    pub closed spec fn input_ports(&self) -> Seq<Arc<I>> {
        self.inputs@.map_values(|s: InputPortState<I>| s.port)
    }

    pub closed spec fn output_port(&self) -> Arc<O> {
        self.output
    }

    pub closed spec fn hash_method(&self) -> M {
        self.method
    }

    /// The parts that no event changes.
    pub open spec fn same_ports(&self, other: &Self) -> bool {
        &&& self.input_ports() == other.input_ports()
        &&& self.output_port() == other.output_port()
        &&& self.hash_method() == other.hash_method()
    }

    /// File a block under its bucket, or with the unsplit ones if its table has none.
    fn add_bucket(&mut self, data_block: DataBlock<T, A>) -> (bucket: isize)
        requires
            old(self)@.wf(),
            data_block.partition() is None,
        ensures
            bucket == data_block.bucket(),
            bucket > SINGLE_LEVEL_BUCKET_NUM ==> final(self)@ == (Model {
                held: put(old(self)@.held, bucket, data_block),
                ..old(self)@
            }),
            bucket <= SINGLE_LEVEL_BUCKET_NUM ==> final(self)@ == (Model {
                unsplitted: old(self)@.unsplitted.push(data_block),
                ..old(self)@
            }),
            final(self)@.wf(),
            final(self).same_ports(old(self)),
    {
        if let Some(BlockMeta::Aggregate(AggregateMeta::HashTable(payload))) = &data_block.meta {
            let bucket = payload.bucket;
            if bucket > SINGLE_LEVEL_BUCKET_NUM {
                proof {
                    lemma_put_sorted(self@.held, bucket, data_block);
                }
                Self::put_block(&mut self.buckets_blocks, bucket, data_block);
                return bucket;
            }
        }
        self.unsplitted_blocks.push(data_block);
        SINGLE_LEVEL_BUCKET_NUM
    }

    /// Add a block to the entry of a bucket.
    fn put_block(blocks: &mut BTreeMap<isize, Vec<DataBlock<T, A>>>, bucket: isize, block: DataBlock<T, A>)
        ensures
            held_of(final(blocks)@) == put(held_of(old(blocks)@), bucket, block),
    {
        broadcast use vstd::laws_cmp::group_laws_cmp;
        let mut entry = match blocks.remove(&bucket) {
            Some(entry) => entry,
            None => Vec::new(),
        };
        entry.push(block);
        blocks.insert(bucket, entry);
        assert(held_of(blocks@) =~= put(held_of(old(blocks)@), bucket, block));
    }

    /// Remove the entry of a bucket.
    fn take_blocks(blocks: &mut BTreeMap<isize, Vec<DataBlock<T, A>>>, bucket: isize) -> (data: Option<
        Vec<DataBlock<T, A>>,
    >)
        ensures
            match data {
                None => !held_of(old(blocks)@).contains_key(bucket) && final(blocks)@ == old(blocks)@,
                Some(data) => {
                    &&& held_of(old(blocks)@).contains_key(bucket)
                    &&& data@ == held_of(old(blocks)@)[bucket]
                    &&& held_of(final(blocks)@) == held_of(old(blocks)@).remove(bucket)
                },
            },
    {
        broadcast use vstd::laws_cmp::group_laws_cmp;
        let data = blocks.remove(&bucket);
        assert(held_of(blocks@) =~= held_of(old(blocks)@).remove(bucket));
        assert(data is None ==> blocks@ =~= old(blocks)@);
        data
    }

    /// One block that carries the aggregation states of all the given blocks.
    fn convert_blocks(bucket: isize, data_blocks: Vec<DataBlock<T, A>>) -> (block: DataBlock<T, A>)
        ensures
            block.partition() == Some((bucket, aggregates(data_blocks@))),
    {
        let mut data: Vec<AggregateMeta<T, A>> = Vec::with_capacity(data_blocks.len());
        for data_block in iter: data_blocks
            invariant
                data@ == aggregates(iter.seq().take(iter.index())),
        {
            proof {
                let seen = iter.seq().take(iter.index() + 1);
                assert(seen.drop_last() =~= iter.seq().take(iter.index()));
                assert(seen.last() == data_block);
            }
            if let Some(meta) = data_block.into_aggregate() {
                data.push(meta);
            }
        }
        assert(data_blocks@.take(data_blocks@.len() as int) =~= data_blocks@);
        DataBlock::empty_with_meta(AggregateMeta::create_partitioned(bucket, data))
    }

    /// Remove the entry of the least bucket.
    fn pop_first(blocks: &mut BTreeMap<isize, Vec<DataBlock<T, A>>>) -> (entry: Option<(isize, Vec<DataBlock<T, A>>)>)
        ensures
            match entry {
                None => held_of(old(blocks)@).is_empty() && final(blocks)@ == old(blocks)@,
                Some((bucket, data)) => {
                    &&& is_first(held_of(old(blocks)@), bucket)
                    &&& data@ == held_of(old(blocks)@)[bucket]
                    &&& held_of(final(blocks)@) == held_of(old(blocks)@).remove(bucket)
                },
            },
    {
        broadcast use vstd::laws_cmp::group_laws_cmp;
        let entries = blocks.iter();
        let ghost order = vstd::std_specs::iter::IteratorSpec::remaining(&entries);
        let ghost keys = order.map_values(|kv: (&isize, &Vec<DataBlock<T, A>>)| *kv.0);
        match first_item(entries) {
            None => {
                assert(order.len() == 0);
                assert(held_of(old(blocks)@).is_empty());
                None
            },
            Some((first, _)) => {
                let bucket: isize = *first;
                proof {
                    assert(keys[0] == bucket);
                    assert forall|other: isize| #[trigger]
                        held_of(old(blocks)@).contains_key(other) implies bucket <= other by {
                        let entry = (&other, &old(blocks)@[other]);
                        assert(order.contains(entry));
                        let j = choose|j: int| 0 <= j < order.len() && order[j] == entry;
                        assert(keys[j] == other);
                        assert(vstd::std_specs::btree::increasing_seq(keys));
                        assert(vstd::laws_cmp::obeys_cmp::<isize>());
                        assert(j > 0 ==> vstd::std_specs::cmp::OrdSpec::cmp_spec(&keys[0], &keys[j]) is Less);
                    }
                }
                match Self::take_blocks(blocks, bucket) {
                    Some(data) => Some((bucket, data)),
                    None => None,
                }
            },
        }
    }

    /// Push the partition of the first bucket below the working bucket that has blocks.
    fn try_push_two_level(&mut self) -> (command: Option<Command<T, A>>)
        requires
            old(self)@.wf(),
        ensures
            (final(self)@, command_view(command)) == old(self)@.push_two_level(),
            final(self)@.wf(),
            final(self).same_ports(old(self)),
    {
        while self.pushing_bucket < self.working_bucket
            invariant
                old(self)@.wf(),
                old(self)@.pushing_bucket <= self.pushing_bucket,
                self.pushing_bucket <= old(self)@.working_bucket || self.pushing_bucket
                    == old(self)@.pushing_bucket,
                self@ == (Model { pushing_bucket: self.pushing_bucket as int, ..old(self)@ }),
                forall|b: isize|
                    old(self)@.pushing_bucket <= b < self.pushing_bucket
                        ==> !#[trigger] old(self)@.held.contains_key(b),
                self.same_ports(old(self)),
            decreases self.working_bucket - self.pushing_bucket,
        {
            let bucket = self.pushing_bucket;
            match Self::take_blocks(&mut self.buckets_blocks, bucket) {
                Some(bucket_blocks) => {
                    proof {
                        let m = old(self)@;
                        assert(is_ready(m.held, m.pushing_bucket, m.working_bucket, bucket));
                        let b = m.ready();
                        assert(is_ready(m.held, m.pushing_bucket, m.working_bucket, b));
                        assert(b == bucket);
                    }
                    let data_block = Self::convert_blocks(bucket, bucket_blocks);
                    self.pushing_bucket = self.pushing_bucket + 1;
                    return Some(Command::PushData(data_block));
                },
                None => {},
            }
            self.pushing_bucket = self.pushing_bucket + 1;
        }
        None
    }

    /// Push all unsplit tables as one partition.
    fn try_push_single_level(&mut self) -> (command: Option<Command<T, A>>)
        requires
            old(self)@.wf(),
        ensures
            (final(self)@, command_view(command)) == old(self)@.push_single_level(),
            final(self)@.wf(),
            final(self).same_ports(old(self)),
    {
        if self.unsplitted_blocks.len() > 0 {
            let mut data_blocks: Vec<DataBlock<T, A>> = Vec::new();
            std::mem::swap(&mut data_blocks, &mut self.unsplitted_blocks);
            let data_block = Self::convert_blocks(SINGLE_LEVEL_BUCKET_NUM, data_blocks);
            return Some(Command::PushData(data_block));
        }
        None
    }

    /// Push a partition if one is complete.
    fn try_push_data_block(&mut self) -> (command: Option<Command<T, A>>)
        requires
            old(self)@.wf(),
        ensures
            (final(self)@, command_view(command)) == old(self)@.push(),
            final(self)@.wf(),
            final(self).same_ports(old(self)),
    {
        let empty = self.buckets_blocks.is_empty();
        assert(empty == self@.held.is_empty()) by {
            assert(self@.held.dom() =~= self.buckets_blocks@.dom());
        }
        if empty {
            self.try_push_single_level()
        } else {
            self.try_push_two_level()
        }
    }
}

impl<M: HashMethod<T>, I, O, T, A> TransformPartitionBucket<M, I, O, T, A> {
    /// A transform between the given ports that has seen nothing yet.
    pub fn create(method: M, inputs: Vec<Arc<I>>, output: Arc<O>) -> (res: Result<Self, M::Error>)
        ensures
            res matches Ok(transform) && {
                &&& transform@ == Model::<T, A>::initial(inputs@.len())
                &&& transform@.wf()
                &&& transform.input_ports() == inputs@
                &&& transform.output_port() == output
                &&& transform.hash_method() == method
            },
    {
        let mut states: Vec<InputPortState<I>> = Vec::with_capacity(inputs.len());
        for port in iter: inputs
            invariant
                states@.len() == iter.index(),
                forall|i: int|
                    0 <= i < states@.len() ==> (#[trigger] states@[i]).bucket == SINGLE_LEVEL_BUCKET_NUM
                        && states@[i].port == iter.seq()[i],
        {
            states.push(InputPortState { port, bucket: SINGLE_LEVEL_BUCKET_NUM });
        }
        let transform = TransformPartitionBucket {
            output,
            inputs: states,
            method,
            working_bucket: 0,
            pushing_bucket: 0,
            initialized_all_inputs: false,
            buckets_blocks: BTreeMap::new(),
            unsplitted_blocks: Vec::new(),
            stage: Stage::Idle,
        };
        assert(transform@.inputs =~= Model::<T, A>::initial(inputs@.len()).inputs);
        assert(transform@.held =~= Model::<T, A>::initial(inputs@.len()).held);
        assert(transform.input_ports() =~= inputs@);
        Ok(transform)
    }

    /// The input ports, in order.
    pub fn get_inputs(&self) -> (inputs: Vec<Arc<I>>)
        ensures
            inputs@ == self.input_ports(),
    {
        let mut inputs: Vec<Arc<I>> = Vec::with_capacity(self.inputs.len());
        for index in 0..self.inputs.len()
            invariant
                inputs@ == self.input_ports().take(index as int),
        {
            inputs.push(self.inputs[index].port.clone());
            assert(self.input_ports().take(index + 1) =~= self.input_ports().take(index as int).push(
                self.input_ports()[index as int],
            ));
        }
        assert(self.input_ports().take(self.inputs@.len() as int) =~= self.input_ports());
        inputs
    }

    /// The output port.
    pub fn get_output(&self) -> (output: Arc<O>)
        ensures
            output == self.output_port(),
    {
        self.output.clone()
    }

    /// The name of the processor.
    pub fn name(&self) -> (name: String)
        ensures
            name@ == "TransformPartitionBucket"@,
    {
        String::from_str("TransformPartitionBucket")
    }

    /// Every input has delivered a block of a bucket, or is finished.
    fn after_initialization(&mut self) -> (step: Step<T, A, M::Error>)
        requires
            old(self)@.wf(),
        ensures
            (final(self)@, step@) == old(self)@.after_initialization::<M::Error>(),
            step.command is None,
            final(self)@.wf(),
            final(self).same_ports(old(self)),
    {
        let buckets_empty = self.buckets_blocks.is_empty();
        assert(buckets_empty == self@.held.is_empty()) by {
            assert(self@.held.dom() =~= self.buckets_blocks@.dom());
        }
        if !buckets_empty && self.unsplitted_blocks.len() > 0 {
            // Some inputs came in buckets and some did not: those are to be split.
            self.stage = Stage::Idle;
            Step { command: None, action: Action::Return(Ok(Event::Sync)) }
        } else {
            self.stage = Stage::AwaitingOutput;
            Step { command: None, action: Action::CheckOutput }
        }
    }

    /// Go on with the input `index` in the initializing pass.
    fn initialize_from(&mut self, index: usize, command: Option<Command<T, A>>) -> (step: Step<T, A, M::Error>)
        requires
            old(self)@.wf(),
            index <= old(self)@.inputs.len(),
        ensures
            (final(self)@, step@) == old(self)@.initialize_from::<M::Error>(
                index as int,
                command_view(command),
            ),
            final(self)@.wf(),
            final(self).same_ports(old(self)),
    {
        if index < self.inputs.len() {
            self.stage = Stage::Initializing { index };
            let pull = self.inputs[index].bucket <= SINGLE_LEVEL_BUCKET_NUM;
            Step { command, action: Action::PollInput { index, pull } }
        } else if self.initialized_all_inputs {
            let step = self.after_initialization();
            Step { command, action: step.action }
        } else {
            self.stage = Stage::Idle;
            Step { command, action: Action::Return(Ok(Event::NeedData)) }
        }
    }

    /// Take in a block from the input `index`, and note its bucket there.
    fn take_block(&mut self, index: usize, data_block: DataBlock<T, A>) -> (bucket: isize)
        requires
            old(self)@.wf(),
            index < old(self)@.inputs.len(),
            data_block.partition() is None,
        ensures
            bucket == data_block.bucket(),
            final(self)@ == (Model {
                stage: Stage::Idle,
                ..old(self)@.take(index as int, data_block)
            }),
            final(self)@.wf(),
            final(self).same_ports(old(self)),
    {
        self.stage = Stage::Idle;
        let bucket = self.add_bucket(data_block);
        let ghost before = *self;
        self.inputs[index].bucket = bucket;
        assert(self@.inputs =~= before@.inputs.update(index as int, bucket));
        assert(self.input_ports() =~= before.input_ports());
        bucket
    }

    /// The input `index` answered in the initializing pass, which waits for each input to
    /// deliver its first block of a bucket.
    fn initialize_input(&mut self, index: usize, reply: InputReply<T, A, M::Error>) -> (step: Step<
        T,
        A,
        M::Error,
    >)
        requires
            old(self)@.wf(),
            old(self)@.accepts(reply),
            old(self)@.stage == (Stage::Initializing { index }),
        ensures
            (final(self)@, step@) == old(self)@.initialize(index as int, reply),
            final(self)@.wf(),
            final(self).same_ports(old(self)),
    {
        assert(index < self.inputs.len());
        match reply {
            InputReply::Failed(error) => {
                self.stage = Stage::Idle;
                Step { command: None, action: Action::Return(Err(error)) }
            },
            InputReply::Finished => self.initialize_from(index + 1, None),
            InputReply::Pending => {
                if self.inputs[index].bucket > SINGLE_LEVEL_BUCKET_NUM {
                    return self.initialize_from(index + 1, None);
                }
                self.initialized_all_inputs = false;
                self.initialize_from(index + 1, Some(Command::SetNeedData(index)))
            },
            InputReply::Data(data_block) => {
                let bucket = self.take_block(index, data_block);
                if bucket > SINGLE_LEVEL_BUCKET_NUM {
                    return self.initialize_from(index + 1, None);
                }
                self.initialized_all_inputs = false;
                self.initialize_from(index + 1, Some(Command::SetNeedData(index)))
            },
        }
    }

    /// Every input is finished: push what is left, one partition in an event, then finish.
    fn conclude(&mut self, pushed: bool) -> (step: Step<T, A, M::Error>)
        requires
            old(self)@.wf(),
        ensures
            (final(self)@, step@) == old(self)@.conclude::<M::Error>(pushed),
            final(self)@.wf(),
            final(self).same_ports(old(self)),
    {
        self.stage = Stage::Idle;
        if pushed {
            return Step { command: None, action: Action::Return(Ok(Event::NeedConsume)) };
        }
        let command = self.try_push_data_block();
        if command.is_some() {
            return Step { command, action: Action::Return(Ok(Event::NeedConsume)) };
        }
        let ghost before = self@;
        match Self::pop_first(&mut self.buckets_blocks) {
            Some((bucket, bucket_blocks)) => {
                proof {
                    let b = choose|b: isize| #[trigger] is_first(before.held, b);
                    assert(is_first(before.held, b));
                    assert(b == bucket);
                }
                let data_block = Self::convert_blocks(bucket, bucket_blocks);
                Step {
                    command: Some(Command::PushData(data_block)),
                    action: Action::Return(Ok(Event::NeedConsume)),
                }
            },
            None => Step {
                command: Some(Command::FinishOutput),
                action: Action::Return(Ok(Event::Finished)),
            },
        }
    }

    /// Ask the input `index` in the pulling pass.
    fn poll(
        &mut self,
        index: usize,
        pushed: bool,
        all_finished: bool,
        all_prepared: bool,
        command: Option<Command<T, A>>,
    ) -> (step: Step<T, A, M::Error>)
        requires
            old(self)@.wf(),
            index < old(self)@.inputs.len(),
            all_prepared && !all_finished ==> exists|i: int|
                0 <= i < index && #[trigger] old(self)@.inputs[i] > old(self)@.working_bucket,
        ensures
            (final(self)@, step@) == old(self)@.poll::<M::Error>(
                index as int,
                pushed,
                all_finished,
                all_prepared,
                command_view(command),
            ),
            final(self)@.wf(),
            final(self).same_ports(old(self)),
    {
        self.stage = Stage::Pulling { index, pushed, all_finished, all_prepared };
        let pull = self.inputs[index].bucket <= self.working_bucket;
        Step { command, action: Action::PollInput { index, pull } }
    }

    /// Go on with the input `index` in the pulling pass.
    fn pull_from(
        &mut self,
        index: usize,
        pushed: bool,
        all_finished: bool,
        all_prepared: bool,
        command: Option<Command<T, A>>,
    ) -> (step: Step<T, A, M::Error>)
        requires
            old(self)@.wf(),
            index <= old(self)@.inputs.len(),
            all_prepared && !all_finished ==> exists|i: int|
                0 <= i < index && #[trigger] old(self)@.inputs[i] > old(self)@.working_bucket,
        ensures
            (final(self)@, step@) == old(self)@.pull_from::<M::Error>(
                index as int,
                pushed,
                all_finished,
                all_prepared,
                command_view(command),
            ),
            final(self)@.wf(),
            final(self).same_ports(old(self)),
    {
        if index < self.inputs.len() {
            self.poll(index, pushed, all_finished, all_prepared, command)
        } else if all_finished {
            let step = self.conclude(pushed);
            match command {
                Some(command) => Step { command: Some(command), action: step.action },
                None => step,
            }
        } else if !all_prepared {
            self.stage = Stage::Idle;
            Step { command, action: Action::Return(Ok(Event::NeedData)) }
        } else {
            self.stage = Stage::Idle;
            self.working_bucket = self.working_bucket + 1;
            self.poll(0, pushed, true, true, command)
        }
    }

    /// The input `index` answered in the pulling pass, which brings each input past the working
    /// bucket.
    fn pull_input(
        &mut self,
        index: usize,
        pushed: bool,
        all_finished: bool,
        all_prepared: bool,
        reply: InputReply<T, A, M::Error>,
    ) -> (step: Step<T, A, M::Error>)
        requires
            old(self)@.wf(),
            old(self)@.accepts(reply),
            old(self)@.stage == (Stage::Pulling { index, pushed, all_finished, all_prepared }),
        ensures
            (final(self)@, step@) == old(self)@.pull(
                index as int,
                pushed,
                all_finished,
                all_prepared,
                reply,
            ),
            final(self)@.wf(),
            final(self).same_ports(old(self)),
    {
        assert(index < self.inputs.len());
        match reply {
            InputReply::Failed(error) => {
                self.stage = Stage::Idle;
                Step { command: None, action: Action::Return(Err(error)) }
            },
            InputReply::Finished => self.pull_from(index + 1, pushed, all_finished, all_prepared, None),
            InputReply::Pending => {
                if self.inputs[index].bucket > self.working_bucket {
                    assert(self@.inputs[index as int] > self@.working_bucket);
                    return self.pull_from(index + 1, pushed, false, all_prepared, None);
                }
                self.pull_from(index + 1, pushed, false, false, Some(Command::SetNeedData(index)))
            },
            InputReply::Data(data_block) => {
                let bucket = self.take_block(index, data_block);
                if bucket > self.working_bucket {
                    assert(self@.inputs[index as int] > self@.working_bucket);
                    return self.pull_from(index + 1, pushed, false, all_prepared, None);
                }
                self.pull_from(index + 1, pushed, false, false, Some(Command::SetNeedData(index)))
            },
        }
    }

    /// An event begins; `output_finished` says whether the output port is finished.
    pub fn event(&mut self, output_finished: bool) -> (step: Step<T, A, M::Error>)
        requires
            old(self)@.wf(),
        ensures
            (final(self)@, step@) == old(self)@.event::<M::Error>(output_finished),
            final(self)@.wf(),
            final(self).same_ports(old(self)),
    {
        self.stage = Stage::Idle;
        if output_finished {
            self.buckets_blocks.clear();
            assert(self@.held =~= Map::empty());
            return Step {
                command: Some(Command::FinishInputs),
                action: Action::Return(Ok(Event::Finished)),
            };
        }
        if self.initialized_all_inputs {
            self.after_initialization()
        } else {
            self.initialized_all_inputs = true;
            self.initialize_from(0, None)
        }
    }

    /// The input port that was asked answered.
    pub fn input_polled(&mut self, reply: InputReply<T, A, M::Error>) -> (step: Step<T, A, M::Error>)
        requires
            old(self)@.wf(),
            old(self)@.accepts(reply),
        ensures
            (final(self)@, step@) == old(self)@.input_polled(reply),
            final(self)@.wf(),
            final(self).same_ports(old(self)),
    {
        match self.stage {
            Stage::Pulling { index, pushed, all_finished, all_prepared } => self.pull_input(
                index,
                pushed,
                all_finished,
                all_prepared,
                reply,
            ),
            Stage::Initializing { index } => self.initialize_input(index, reply),
            _ => vstd::pervasive::unreached(),
        }
    }

    /// The output port answered whether it takes data.
    pub fn output_checked(&mut self, can_push: bool) -> (step: Step<T, A, M::Error>)
        requires
            old(self)@.wf(),
        ensures
            (final(self)@, step@) == old(self)@.check_output::<M::Error>(can_push),
            final(self)@.wf(),
            final(self).same_ports(old(self)),
    {
        self.stage = Stage::Idle;
        if !can_push {
            return Step {
                command: Some(Command::SetNotNeedData),
                action: Action::Return(Ok(Event::NeedConsume)),
            };
        }
        let command = self.try_push_data_block();
        let pushed = command.is_some();
        self.pull_from(0, pushed, true, true, command)
    }

    /// Whether some block waits that has not been split by bucket.
    pub fn has_unsplitted(&self) -> (res: bool)
        ensures
            res == (self@.unsplitted.len() > 0),
    {
        self.unsplitted_blocks.len() > 0
    }

    /// Take the last unsplit block, and hand out its hash table to be split.
    pub fn pop_unsplitted(&mut self) -> (payload: Option<HashTablePayload<T, A>>)
        requires
            old(self)@.wf(),
        ensures
            (final(self)@, payload) == old(self)@.pop_unsplitted(),
            final(self)@.wf(),
            final(self).same_ports(old(self)),
    {
        let ghost m = self@;
        let popped = self.unsplitted_blocks.pop();
        assert(m.unsplitted.len() > 0 ==> self@.unsplitted =~= m.unsplitted.drop_last());
        assert(forall|i: int| 0 <= i < self@.unsplitted.len() ==> #[trigger] self@.unsplitted[i] == m.unsplitted[i]);
        match popped {
            Some(data_block) => match data_block.into_aggregate() {
                Some(AggregateMeta::HashTable(payload)) => Some(payload),
                _ => None,
            },
            None => None,
        }
    }

}

impl<M: HashMethod<T>, I, O, T, A: Clone> TransformPartitionBucket<M, I, O, T, A> {
    /// Whether a block is what a hash table of this bucket is passed on in: none for a table
    /// without keys.
    pub open spec fn is_block_of(
        block: Option<DataBlock<T, A>>,
        bucket: isize,
        hashtable: HashTable<T>,
        arena_holder: A,
    ) -> bool {
        match block {
            None => hashtable.len == 0,
            Some(block) => {
                &&& hashtable.len != 0
                &&& block.payload() matches Some(payload) && payload.bucket == bucket
                    && payload.hashtable == hashtable && cloned(arena_holder, payload.arena_holder)
            },
        }
    }

    /// The blocks for the hash tables that a table was split into, by bucket.
    pub fn partition_hashtable(tables: Vec<HashTable<T>>, arena_holder: &A) -> (blocks: Vec<
        Option<DataBlock<T, A>>,
    >)
        ensures
            blocks@.len() == tables@.len(),
            forall|i: int|
                0 <= i < tables@.len() ==> Self::is_block_of(
                    #[trigger] blocks@[i],
                    i as isize,
                    tables@[i],
                    *arena_holder,
                ),
    {
        let mut data_blocks: Vec<Option<DataBlock<T, A>>> = Vec::with_capacity(256);
        let count: usize = tables.len();
        let mut bucket: usize = 0;
        for hashtable in iter: tables
            invariant
                bucket == iter.index(),
                data_blocks@.len() == iter.index(),
                iter.seq() == tables@,
                count == tables@.len(),
                forall|i: int|
                    0 <= i < data_blocks@.len() ==> Self::is_block_of(
                        #[trigger] data_blocks@[i],
                        i as isize,
                        tables@[i],
                        *arena_holder,
                    ),
        {
            if hashtable.len == 0 {
                data_blocks.push(None);
            } else {
                data_blocks.push(
                    Some(
                        DataBlock::empty_with_meta(
                            AggregateMeta::create_hashtable(
                                bucket as isize,
                                hashtable,
                                arena_holder.clone(),
                            ),
                        ),
                    ),
                );
            }
            bucket = bucket + 1;
        }
        data_blocks
    }

    /// File the blocks of a table that was split: the block at each index goes to the bucket of
    /// that number.
    pub fn add_partitions(&mut self, data_blocks: Vec<Option<DataBlock<T, A>>>)
        requires
            old(self)@.wf(),
            forall|i: int|
                0 <= i < data_blocks@.len() && (#[trigger] data_blocks@[i]) is Some ==> {
                    &&& data_blocks@[i]->0.payload() is Some
                    &&& data_blocks@[i]->0.payload()->0.bucket == i as isize
                },
        ensures
            final(self)@ == old(self)@.add_partitions(data_blocks@),
            final(self)@.wf(),
            final(self).same_ports(old(self)),
    {
        let count: usize = data_blocks.len();
        let mut bucket: usize = 0;
        for block in iter: data_blocks
            invariant
                bucket == iter.index(),
                iter.seq() == data_blocks@,
                count == data_blocks@.len(),
                forall|i: int|
                    0 <= i < data_blocks@.len() && (#[trigger] data_blocks@[i]) is Some ==> {
                        &&& data_blocks@[i]->0.payload() is Some
                        &&& data_blocks@[i]->0.payload()->0.bucket == i as isize
                    },
                self@ == old(self)@.add_partitions(data_blocks@.take(iter.index())),
                self@.wf(),
                self.same_ports(old(self)),
        {
            proof {
                let seen = data_blocks@.take(iter.index() + 1);
                assert(seen.drop_last() =~= data_blocks@.take(iter.index()));
                assert(seen.last() == block);
            }
            if let Some(data_block) = block {
                proof {
                    lemma_put_sorted(self@.held, bucket as isize, data_block);
                }
                Self::put_block(&mut self.buckets_blocks, bucket as isize, data_block);
            }
            bucket = bucket + 1;
        }
        assert(data_blocks@.take(data_blocks@.len() as int) =~= data_blocks@);
    }

    /// Split the last unsplit block by bucket.
    pub fn process(&mut self) -> (res: Result<(), M::Error>)
        requires
            old(self)@.wf(),
        ensures
            ({
                let (next, payload) = old(self)@.pop_unsplitted();
                match payload {
                    None => res is Ok && final(self)@ == next,
                    Some(payload) => match res {
                        Ok(_) => exists|tables: Vec<HashTable<T>>, blocks: Seq<Option<DataBlock<T, A>>>|
                            {
                                &&& #[trigger] call_ensures(
                                    M::convert_hashtable,
                                    (&old(self).hash_method(), payload.hashtable),
                                    Ok(tables),
                                )
                                &&& blocks.len() == tables@.len()
                                &&& forall|i: int|
                                    0 <= i < blocks.len() ==> Self::is_block_of(
                                        #[trigger] blocks[i],
                                        i as isize,
                                        tables@[i],
                                        payload.arena_holder,
                                    )
                                &&& final(self)@ == #[trigger] next.add_partitions(blocks)
                            },
                        Err(error) => {
                            &&& call_ensures(
                                M::convert_hashtable,
                                (&old(self).hash_method(), payload.hashtable),
                                Err(error),
                            )
                            &&& final(self)@ == next
                        },
                    },
                }
            }),
            final(self)@.wf(),
            final(self).same_ports(old(self)),
    {
        match self.pop_unsplitted() {
            None => Ok(()),
            Some(payload) => match self.method.convert_hashtable(payload.hashtable) {
                Err(error) => Err(error),
                Ok(tables) => {
                    let data_blocks = Self::partition_hashtable(tables, &payload.arena_holder);
                    self.add_partitions(data_blocks);
                    Ok(())
                },
            },
        }
    }
}

} // verus!
