# databend_query

Two parts of a query engine, verified with Verus.

**Pruning by filters** (`bloom`, `expression`). A data file comes with a filter for each column
whose type allows one. `ChunkFilter` makes these filters, looks values up in them, and tells of a
predicate whether it must be false for the whole file, so that the file need not be read. The
filters themselves and the folding of constants are supplied through the traits `Filter` and
`ConstantFolder`; contracts speak of whatever their functions return.

**Partitioning by bucket** (`aggregate_meta`, `partition_model`, `transform_partition_bucket`).
Between the two stages of a parallel aggregation, `TransformPartitionBucket` gathers hash tables
from all inputs and pushes those of one bucket at a time. It does not touch a port: it is told what
the ports answered and says what to do next. `partition_model` describes it as a state machine.

What holds of these parts as a whole is stated and proved in

- `bloom_laws`: there are no false negatives, and skipping a file is safe;
- `bloom_answers`: where a filter depends only on its keys and answers a question always alike,
  neither the cut of the rows into chunks nor storing and loading matters, and rewriting twice is
  rewriting once;
- `partition_laws`: every bucket goes out in the order in which it came in, nothing that came by
  bucket is lost, and data is waited for only after asking for it;
- `partition_order`: buckets are pushed once, whole and in ascending order if the inputs are sorted;
- `partition_ports`: unsplit tables go out as one partition if nothing comes by bucket, and else
  each is split once, if every input keeps on as it began;
- `partition_parts`: what is pushed for a bucket is what came for it and the parts for it of the
  tables that were split;
- `partition_protocol`: what whoever drives the transform can rely on, such as that an event ends.

`app/` drives the transform on the ports of a pipeline.
