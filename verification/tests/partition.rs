use std::collections::VecDeque;
use std::sync::Arc;

use databend_query::aggregate_meta::{
    AggregateMeta, BlockMeta, DataBlock, HashTable, HashTablePayload, SINGLE_LEVEL_BUCKET_NUM,
};
use databend_query::partition_model::{Action, Command, Event, InputReply, Step};
use databend_query::transform_partition_bucket::{HashMethod, TransformPartitionBucket};

type Block = DataBlock<Vec<u32>, &'static str>;
type Meta = AggregateMeta<Vec<u32>, &'static str>;
type Reply = InputReply<Vec<u32>, &'static str, String>;
type Move = Step<Vec<u32>, &'static str, String>;
type Transform = TransformPartitionBucket<Modulo, &'static str, &'static str, Vec<u32>, &'static str>;

/// Keys go to the bucket of their remainder; tables that hold 13 cannot be split.
#[derive(Debug)]
struct Modulo(u32);

fn table(keys: &[u32]) -> HashTable<Vec<u32>> {
    HashTable { len: keys.len(), table: keys.to_vec() }
}

impl HashMethod<Vec<u32>> for Modulo {
    type Error = String;

    fn convert_hashtable(&self, hashtable: HashTable<Vec<u32>>) -> Result<Vec<HashTable<Vec<u32>>>, String> {
        if hashtable.table.contains(&13) {
            return Err("unlucky".to_string());
        }
        Ok((0..self.0)
            .map(|bucket| {
                let keys: Vec<u32> =
                    hashtable.table.iter().copied().filter(|key| key % self.0 == bucket).collect();
                table(&keys)
            })
            .collect())
    }
}

fn meta(bucket: isize, keys: &[u32]) -> Meta {
    AggregateMeta::HashTable(HashTablePayload { bucket, hashtable: table(keys), arena_holder: "arena" })
}

fn block(bucket: isize, keys: &[u32]) -> Block {
    DataBlock { meta: Some(BlockMeta::Aggregate(meta(bucket, keys))) }
}

fn data(bucket: isize, keys: &[u32]) -> Reply {
    InputReply::Data(block(bucket, keys))
}

fn partition(bucket: isize, members: Vec<Meta>) -> Block {
    DataBlock { meta: Some(BlockMeta::Aggregate(AggregateMeta::Partitioned { bucket, data: members })) }
}

fn push(bucket: isize, members: Vec<Meta>) -> Option<Command<Vec<u32>, &'static str>> {
    Some(Command::PushData(partition(bucket, members)))
}

fn transform(inputs: usize) -> Transform {
    let ports = (0..inputs).map(|_| Arc::new("input")).collect();
    TransformPartitionBucket::create(Modulo(4), ports, Arc::new("output")).unwrap()
}

fn step(command: Option<Command<Vec<u32>, &'static str>>, action: Action<String>) -> Move {
    Step { command, action }
}

fn poll(index: usize, pull: bool) -> Move {
    step(None, Action::PollInput { index, pull })
}

fn done(event: Event) -> Move {
    step(None, Action::Return(Ok(event)))
}

/// Runs a transform on queues of blocks until it finishes, splitting when it asks for that, and
/// gives the blocks that it pushed.
fn run(inputs: Vec<Vec<Block>>) -> Vec<Block> {
    run_and_count(inputs).0
}

/// Like [`run`], and gives how often the transform asked for splitting.
fn run_and_count(inputs: Vec<Vec<Block>>) -> (Vec<Block>, usize) {
    let mut splits = 0;
    let mut transform = transform(inputs.len());
    let mut queues: Vec<VecDeque<Block>> = inputs.into_iter().map(VecDeque::from).collect();
    let mut pushed = vec![];
    for _ in 0..1000 {
        let mut step = transform.event(false);
        let before = pushed.len();
        let mut output_takes = false;
        let mut data_requested = false;
        let mut finished = vec![false; queues.len()];
        let mut answers = 0;
        let event = loop {
            match step.command {
                Some(Command::PushData(block)) => {
                    assert!(output_takes);
                    pushed.push(block);
                }
                Some(Command::SetNeedData(_)) => data_requested = true,
                _ => {}
            }
            answers += 1;
            // No bucket here has a number above 9.
            assert!(answers <= 1 + 12 * queues.len() + 1);
            step = match step.action {
                Action::Return(result) => break result.unwrap(),
                Action::CheckOutput => {
                    output_takes = true;
                    transform.output_checked(true)
                }
                Action::PollInput { index, pull } => {
                    assert!(index < queues.len());
                    let reply = if queues[index].is_empty() {
                        finished[index] = true;
                        InputReply::Finished
                    } else if pull {
                        InputReply::Data(queues[index].pop_front().unwrap())
                    } else {
                        InputReply::Pending
                    };
                    let step = transform.input_polled(reply);
                    assert!(!output_takes || !transform.has_unsplitted());
                    step
                }
            };
        };
        assert!(pushed.len() <= before + 1);
        if pushed.len() > before {
            assert!(matches!(event, Event::NeedConsume | Event::NeedData));
        }
        match event {
            Event::Finished => {
                assert!(finished.iter().all(|finished| *finished));
                assert!(!transform.has_unsplitted());
                return (pushed, splits);
            }
            Event::Sync => {
                splits += 1;
                transform.process().unwrap();
            }
            Event::NeedData => assert!(data_requested),
            Event::NeedConsume => assert_eq!(pushed.len(), before + 1),
        }
    }
    panic!("the transform does not finish");
}

#[test]
fn ports_are_handed_out_as_given() {
    let inputs = vec![Arc::new("a"), Arc::new("b")];
    let output = Arc::new("out");
    let transform: Transform =
        TransformPartitionBucket::create(Modulo(4), inputs.clone(), output.clone()).unwrap();
    let handed = transform.get_inputs();
    assert_eq!(handed.len(), 2);
    assert!(Arc::ptr_eq(&handed[0], &inputs[0]));
    assert!(Arc::ptr_eq(&handed[1], &inputs[1]));
    assert!(Arc::ptr_eq(&transform.get_output(), &output));
    assert_eq!(transform.name(), "TransformPartitionBucket");
}

#[test]
fn finished_output_finishes_the_inputs() {
    let mut transform = transform(2);
    let expected = step(Some(Command::FinishInputs), Action::Return(Ok(Event::Finished)));
    assert_eq!(transform.event(true), expected);
}

#[test]
fn every_input_is_waited_for_first() {
    let mut transform = transform(2);
    assert_eq!(transform.event(false), poll(0, true));
    assert_eq!(
        transform.input_polled(InputReply::Pending),
        step(Some(Command::SetNeedData(0)), Action::PollInput { index: 1, pull: true })
    );
    assert_eq!(transform.input_polled(data(2, &[2])), done(Event::NeedData));
    // The second input is known by now and is not pulled from.
    assert_eq!(transform.event(false), poll(0, true));
    assert_eq!(transform.input_polled(InputReply::Finished), poll(1, false));
    assert_eq!(transform.input_polled(InputReply::Pending), step(None, Action::CheckOutput));
}

#[test]
fn an_unsplit_block_leaves_its_input_uninitialized() {
    let mut transform = transform(1);
    assert_eq!(transform.event(false), poll(0, true));
    assert_eq!(
        transform.input_polled(data(-1, &[5])),
        step(Some(Command::SetNeedData(0)), Action::Return(Ok(Event::NeedData)))
    );
    assert!(transform.has_unsplitted());
    assert_eq!(transform.event(false), poll(0, true));
    assert_eq!(transform.input_polled(data(1, &[1])), done(Event::Sync));
}

#[test]
fn a_full_output_stops_the_inputs() {
    let mut transform = transform(1);
    transform.event(false);
    transform.input_polled(InputReply::Finished);
    assert_eq!(
        transform.output_checked(false),
        step(Some(Command::SetNotNeedData), Action::Return(Ok(Event::NeedConsume)))
    );
}

#[test]
fn a_transform_without_inputs_finishes() {
    let mut transform = transform(0);
    assert_eq!(transform.event(false), step(None, Action::CheckOutput));
    assert_eq!(
        transform.output_checked(true),
        step(Some(Command::FinishOutput), Action::Return(Ok(Event::Finished)))
    );
}

#[test]
fn an_error_of_a_port_is_returned() {
    let failed = step(None, Action::Return(Err("broken".to_string())));
    let mut first = transform(2);
    first.event(false);
    assert_eq!(first.input_polled(InputReply::Failed("broken".to_string())), failed);
    // No input had been found waiting before the error: the next event does not wait for any.
    assert_eq!(first.event(false), step(None, Action::CheckOutput));

    let mut second = transform(1);
    second.event(false);
    second.input_polled(data(0, &[4]));
    assert_eq!(second.output_checked(true), poll(0, true));
    assert_eq!(second.input_polled(InputReply::Failed("broken".to_string())), failed);
}

#[test]
fn a_bucket_is_pushed_once_all_inputs_are_past_it() {
    let mut transform = transform(2);
    transform.event(false);
    transform.input_polled(data(0, &[4]));
    assert_eq!(transform.input_polled(data(1, &[1])), step(None, Action::CheckOutput));
    // Nothing is ready; the first input is at the working bucket, the second is past it.
    assert_eq!(transform.output_checked(true), poll(0, true));
    assert_eq!(transform.input_polled(data(0, &[8])), step(
        Some(Command::SetNeedData(0)),
        Action::PollInput { index: 1, pull: false }
    ));
    assert_eq!(transform.input_polled(InputReply::Pending), done(Event::NeedData));

    assert_eq!(transform.event(false), step(None, Action::CheckOutput));
    assert_eq!(transform.output_checked(true), poll(0, true));
    assert_eq!(transform.input_polled(data(3, &[3])), poll(1, false));
    // Both are past bucket 0: bucket 1 is worked on, and the second input is at it.
    assert_eq!(transform.input_polled(InputReply::Pending), poll(0, false));
    assert_eq!(transform.input_polled(InputReply::Pending), poll(1, true));
    assert_eq!(
        transform.input_polled(InputReply::Pending),
        step(Some(Command::SetNeedData(1)), Action::Return(Ok(Event::NeedData)))
    );

    transform.event(false);
    assert_eq!(
        transform.output_checked(true),
        step(push(0, vec![meta(0, &[4]), meta(0, &[8])]), Action::PollInput { index: 0, pull: false })
    );
}

#[test]
fn buckets_come_out_in_ascending_order() {
    let pushed = run(vec![
        vec![block(0, &[4]), block(2, &[6]), block(2, &[10])],
        vec![block(0, &[8]), block(1, &[5]), block(3, &[7])],
        vec![],
    ]);
    assert_eq!(
        pushed,
        vec![
            partition(0, vec![meta(0, &[4]), meta(0, &[8])]),
            partition(1, vec![meta(1, &[5])]),
            partition(2, vec![meta(2, &[6]), meta(2, &[10])]),
            partition(3, vec![meta(3, &[7])]),
        ]
    );
}

#[test]
fn a_late_block_is_pushed_in_the_end() {
    let pushed = run(vec![
        vec![block(2, &[2]), block(6, &[6]), block(6, &[10]), block(1, &[1])],
        vec![block(9, &[9])],
    ]);
    assert_eq!(
        pushed,
        vec![
            partition(2, vec![meta(2, &[2])]),
            partition(1, vec![meta(1, &[1])]),
            partition(6, vec![meta(6, &[6]), meta(6, &[10])]),
            partition(9, vec![meta(9, &[9])]),
        ]
    );
}

#[test]
fn unsplit_tables_come_out_as_one_partition() {
    let other: Block = DataBlock { meta: Some(BlockMeta::Other) };
    let bare: Block = DataBlock { meta: None };
    let (pushed, splits) = run_and_count(vec![
        vec![block(-1, &[1]), other, block(-7, &[2])],
        vec![bare, block(-1, &[3])],
    ]);
    assert_eq!(splits, 0);
    assert_eq!(
        pushed,
        vec![partition(
            SINGLE_LEVEL_BUCKET_NUM,
            vec![meta(-1, &[1]), meta(-1, &[3]), meta(-7, &[2])]
        )]
    );
}

#[test]
fn unsplit_tables_are_split_where_others_are() {
    let pushed = run(vec![vec![block(-1, &[1, 2, 5])], vec![block(1, &[9]), block(3, &[11])]]);
    assert_eq!(
        pushed,
        vec![
            partition(1, vec![meta(1, &[9]), meta(1, &[1, 5])]),
            partition(2, vec![meta(2, &[2])]),
            partition(3, vec![meta(3, &[11])]),
        ]
    );
}

#[test]
fn every_unsplit_block_is_split_once() {
    let bare: Block = DataBlock { meta: None };
    let (pushed, splits) = run_and_count(vec![
        vec![block(-1, &[1]), block(-1, &[2]), block(5, &[5])],
        vec![bare, block(-1, &[3])],
    ]);
    assert_eq!(splits, 4);
    assert_eq!(
        pushed,
        vec![
            partition(1, vec![meta(1, &[1])]),
            partition(2, vec![meta(2, &[2])]),
            partition(3, vec![meta(3, &[3])]),
            partition(5, vec![meta(5, &[5])]),
        ]
    );
}

#[test]
fn a_bucket_is_pushed_with_the_parts_of_split_tables() {
    let pushed = run(vec![
        vec![block(-1, &[1, 2]), block(-1, &[5, 6])],
        vec![block(1, &[9]), block(2, &[10]), block(2, &[14])],
    ]);
    assert_eq!(
        pushed,
        vec![
            partition(1, vec![meta(1, &[9]), meta(1, &[5]), meta(1, &[1])]),
            partition(2, vec![meta(2, &[6]), meta(2, &[2]), meta(2, &[10]), meta(2, &[14])]),
        ]
    );
}

#[test]
fn an_event_that_pushes_waits_for_the_output() {
    let mut transform = transform(1);
    transform.event(false);
    transform.input_polled(data(-1, &[1]));
    transform.event(false);
    assert_eq!(transform.input_polled(InputReply::Finished), step(None, Action::CheckOutput));
    assert_eq!(
        transform.output_checked(true),
        step(push(-1, vec![meta(-1, &[1])]), Action::PollInput { index: 0, pull: true })
    );
    // All is pushed and the input is finished, but the output is finished in the next event only.
    assert_eq!(transform.input_polled(InputReply::Finished), done(Event::NeedConsume));
    transform.event(false);
    transform.output_checked(true);
    assert_eq!(
        transform.input_polled(InputReply::Finished),
        step(Some(Command::FinishOutput), Action::Return(Ok(Event::Finished)))
    );
}

#[test]
fn a_table_that_cannot_be_split_is_an_error() {
    let mut transform = transform(1);
    transform.event(false);
    transform.input_polled(data(-1, &[13]));
    assert!(transform.has_unsplitted());
    assert_eq!(transform.process(), Err("unlucky".to_string()));
    // The block has left.
    assert!(!transform.has_unsplitted());
    assert_eq!(transform.process(), Ok(()));
}

#[test]
fn a_block_without_a_table_is_dropped_on_splitting() {
    let mut transform = transform(1);
    transform.event(false);
    transform.input_polled(InputReply::Data(DataBlock { meta: Some(BlockMeta::Other) }));
    assert_eq!(transform.process(), Ok(()));
    assert!(!transform.has_unsplitted());
}

#[test]
fn the_last_unsplit_table_is_split_first() {
    let mut transform = transform(1);
    transform.event(false);
    transform.input_polled(data(-1, &[1]));
    transform.event(false);
    transform.input_polled(data(-1, &[2]));
    let payload = transform.pop_unsplitted().unwrap();
    assert_eq!(payload.hashtable.table, vec![2]);
    let payload = transform.pop_unsplitted().unwrap();
    assert_eq!(payload.hashtable.table, vec![1]);
    assert_eq!(transform.pop_unsplitted(), None);
}

#[test]
fn nothing_is_lost() {
    let inputs = || {
        vec![
            vec![block(7, &[7]), block(7, &[15]), block(2, &[2])],
            vec![block(-1, &[4, 5]), block(0, &[8]), block(7, &[23])],
            vec![block(-1, &[6]), block(-1, &[9])],
        ]
    };
    let mut came: Vec<u32> = inputs()
        .into_iter()
        .flatten()
        .filter_map(|block| match block.into_aggregate() {
            Some(AggregateMeta::HashTable(payload)) => Some(payload.hashtable.table),
            _ => None,
        })
        .flatten()
        .collect();
    let mut went: Vec<u32> = vec![];
    for block in run(inputs()) {
        match block.into_aggregate() {
            Some(AggregateMeta::Partitioned { bucket, data }) => {
                for member in data {
                    match member {
                        AggregateMeta::HashTable(payload) => {
                            assert_eq!(payload.bucket, bucket);
                            went.extend(payload.hashtable.table);
                        }
                        _ => panic!("a partition within a partition"),
                    }
                }
            }
            _ => panic!("not a partition"),
        }
    }
    came.sort();
    went.sort();
    assert_eq!(came, went);
}

#[test]
fn tables_without_keys_get_no_block() {
    let blocks = Transform::partition_hashtable(vec![table(&[4]), table(&[]), table(&[6])], &"arena");
    assert_eq!(blocks, vec![Some(block(0, &[4])), None, Some(block(2, &[6]))]);
}

#[test]
fn blocks_tell_partitions_apart() {
    assert!(partition(0, vec![]).is_partitioned());
    assert!(!block(0, &[1]).is_partitioned());
    let bare: Block = DataBlock { meta: None };
    assert!(!bare.is_partitioned());
    assert_eq!(bare.into_aggregate(), None);
    assert_eq!(block(2, &[1]).into_aggregate(), Some(meta(2, &[1])));
}
