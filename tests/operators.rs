use stream_core::agg::{AggCall, AggKind, SimpleAggExecutor, SimpleAggExecutorBuilder, SimpleAggNode};
use stream_core::array::{ArrayImpl, Column};
use stream_core::chunk::StreamChunk;
use stream_core::codec::{put_row, read_row};
use stream_core::error::StreamError;
use stream_core::materialize::MaterializeExecutor;
use stream_core::message::{Barrier, Message};
use stream_core::state_store::MemoryStateStore;
use stream_core::types::{DataType, Datum, Op, Scalar};

fn int64_column(values: &[i64]) -> Column {
    let values = values.iter().map(|v| Some(Scalar::Int64(*v))).collect();
    Column::new(ArrayImpl::from_values(DataType::Int64, values).unwrap())
}

fn int32_column(values: &[i32]) -> Column {
    let values = values.iter().map(|v| Some(Scalar::Int32(*v))).collect();
    Column::new(ArrayImpl::from_values(DataType::Int32, values).unwrap())
}

/// The rows of a chunk as (op, values), an absent value as `None`.
fn rows_of(chunk: &StreamChunk) -> Vec<(Op, Vec<Option<i64>>)> {
    (0..chunk.capacity())
        .filter(|i| chunk.is_visible(*i))
        .map(|i| {
            let values = chunk
                .columns
                .iter()
                .map(|c| match &c.array_ref().values[i] {
                    Some(Scalar::Int64(v)) => Some(*v),
                    None => None,
                    _ => panic!("expected an int"),
                })
                .collect();
            (chunk.ops[i], values)
        })
        .collect()
}

fn the_chunk(messages: &[Message]) -> &StreamChunk {
    match &messages[0] {
        Message::Chunk(c) => c,
        Message::Barrier(_) => panic!("expected a chunk"),
    }
}

fn calls() -> Vec<AggCall> {
    vec![
        AggCall { kind: AggKind::RowCount, arg: None },
        AggCall { kind: AggKind::Sum, arg: Some(0) },
        AggCall { kind: AggKind::Sum, arg: Some(1) },
        AggCall { kind: AggKind::Min, arg: Some(0) },
    ]
}

#[test]
fn test_local_simple_aggregation_in_memory() {
    let mut store = MemoryStateStore::new();
    let chunk1 = StreamChunk::new(
        vec![Op::Insert, Op::Insert, Op::Insert],
        vec![int64_column(&[100, 10, 4]), int64_column(&[200, 14, 300]), int64_column(&[1001, 1002, 1003])],
        None,
    );
    let chunk2 = StreamChunk::new(
        vec![Op::Delete, Op::Delete, Op::Delete, Op::Insert],
        vec![
            int64_column(&[100, 10, 4, 104]),
            int64_column(&[200, 14, 300, 500]),
            int64_column(&[1001, 1002, 1003, 1004]),
        ],
        Some(vec![true, false, true, true]),
    );
    let mut agg = SimpleAggExecutor::new(calls(), vec![1]).unwrap();

    // the init barrier
    let out = agg.step(&mut store, Message::Barrier(Barrier::new_test_barrier(1))).unwrap();
    assert_eq!(out.len(), 1);
    assert!(agg.step(&mut store, Message::Chunk(chunk1)).unwrap().is_empty());
    let out = agg.step(&mut store, Message::Barrier(Barrier::new_test_barrier(2))).unwrap();
    assert_eq!(out.len(), 2);
    assert_eq!(rows_of(the_chunk(&out)), vec![(Op::Insert, vec![Some(3), Some(114), Some(514), Some(4)])]);
    assert!(matches!(out[1], Message::Barrier(_)));

    assert!(agg.step(&mut store, Message::Chunk(chunk2)).unwrap().is_empty());
    let out = agg.step(&mut store, Message::Barrier(Barrier::new_test_barrier(3))).unwrap();
    assert_eq!(
        rows_of(the_chunk(&out)),
        vec![
            (Op::UpdateDelete, vec![Some(3), Some(114), Some(514), Some(4)]),
            (Op::UpdateInsert, vec![Some(2), Some(114), Some(514), Some(10)]),
        ]
    );
    // each flush committed at the closing epoch of its barrier
    assert_eq!(store.ingested, vec![1, 2]);

    // a barrier with nothing applied forwards only the barrier
    let out = agg.step(&mut store, Message::Barrier(Barrier::new_test_barrier(4))).unwrap();
    assert_eq!(out.len(), 1);
    assert_eq!(store.ingested, vec![1, 2]);
}

#[test]
fn aggregation_rejects_chunk_before_first_barrier() {
    let mut store = MemoryStateStore::new();
    let mut agg = SimpleAggExecutor::new(calls(), vec![1]).unwrap();
    let chunk = StreamChunk::new(vec![Op::Insert], vec![int64_column(&[1]), int64_column(&[2])], None);
    assert_eq!(agg.step(&mut store, Message::Chunk(chunk)).unwrap_err(), StreamError::FirstMessageNotBarrier);
    assert!(store.ingested.is_empty());
}

#[test]
fn aggregation_counts_nulls_and_max() {
    let mut store = MemoryStateStore::new();
    let calls = vec![
        AggCall { kind: AggKind::Count, arg: Some(0) },
        AggCall { kind: AggKind::Max, arg: Some(0) },
        AggCall { kind: AggKind::Sum, arg: Some(0) },
    ];
    let mut agg = SimpleAggExecutor::new(calls, vec![2]).unwrap();
    agg.step(&mut store, Message::Barrier(Barrier::new_test_barrier(1))).unwrap();
    let col = Column::new(
        ArrayImpl::from_values(DataType::Int32, vec![None, Some(Scalar::Int32(7)), Some(Scalar::Int32(-3))]).unwrap(),
    );
    let chunk = StreamChunk::new(vec![Op::Insert, Op::Insert, Op::Insert], vec![col], None);
    agg.step(&mut store, Message::Chunk(chunk)).unwrap();
    let out = agg.step(&mut store, Message::Barrier(Barrier::new_test_barrier(2))).unwrap();
    assert_eq!(rows_of(the_chunk(&out)), vec![(Op::Insert, vec![Some(2), Some(7), Some(4)])]);

    let col = Column::new(
        ArrayImpl::from_values(DataType::Int32, vec![Some(Scalar::Int32(7)), Some(Scalar::Int32(-3))]).unwrap(),
    );
    let chunk = StreamChunk::new(vec![Op::Delete, Op::Delete], vec![col], None);
    agg.step(&mut store, Message::Chunk(chunk)).unwrap();
    let out = agg.step(&mut store, Message::Barrier(Barrier::new_test_barrier(3))).unwrap();
    assert_eq!(
        rows_of(the_chunk(&out)),
        vec![(Op::UpdateDelete, vec![Some(2), Some(7), Some(4)]), (Op::UpdateInsert, vec![Some(0), None, None])]
    );
}

#[test]
fn aggregation_reports_overflow_and_type_errors() {
    let mut store = MemoryStateStore::new();
    let mut agg = SimpleAggExecutor::new(vec![AggCall { kind: AggKind::Sum, arg: Some(0) }], vec![3]).unwrap();
    agg.step(&mut store, Message::Barrier(Barrier::new_test_barrier(1))).unwrap();
    let chunk = StreamChunk::new(vec![Op::Insert, Op::Insert], vec![int64_column(&[i64::MAX, 1])], None);
    assert_eq!(agg.step(&mut store, Message::Chunk(chunk)).unwrap_err(), StreamError::Overflow);
    assert!(!agg.dirty);
    let text = Column::new(
        ArrayImpl::from_values(DataType::Varchar, vec![Some(Scalar::Utf8("x".to_string()))]).unwrap(),
    );
    let chunk = StreamChunk::new(vec![Op::Insert], vec![text], None);
    assert_eq!(agg.step(&mut store, Message::Chunk(chunk)).unwrap_err(), StreamError::TypeMismatch);
    let chunk = StreamChunk::new(vec![Op::Insert], vec![], None);
    assert_eq!(agg.step(&mut store, Message::Chunk(chunk)).unwrap_err(), StreamError::ColumnOutOfRange { index: 0 });
}

#[test]
fn aggregation_builder_checks_calls() {
    let node = SimpleAggNode { agg_calls: vec![AggCall { kind: AggKind::RowCount, arg: Some(1) }] };
    assert!(SimpleAggExecutorBuilder::new_boxed_executor(&node, 1).is_err());
    let node = SimpleAggNode { agg_calls: calls() };
    let agg = SimpleAggExecutorBuilder::new_boxed_executor(&node, 0x0102).unwrap();
    assert_eq!(agg.keyspace, vec![0x65, 2, 1, 0, 0, 0, 0, 0, 0]);
    assert_eq!(agg.states.len(), 4);
}

fn key_bytes(key: i32) -> Vec<u8> {
    let mut out = Vec::new();
    put_row(&mut out, &vec![Some(Scalar::Int32(key))]);
    out
}

fn read_value(store: &MemoryStateStore, key: i32, epoch: u64) -> Option<Vec<Datum>> {
    let bytes = store.point_read(&key_bytes(key), epoch)?;
    let (row, end) = read_row(&bytes, 0, &vec![DataType::Int32, DataType::Int32]).unwrap();
    assert_eq!(end, bytes.len());
    Some(row)
}

fn int32s(row: &[Datum]) -> Vec<i32> {
    row.iter()
        .map(|d| match d {
            Some(Scalar::Int32(v)) => *v,
            _ => panic!("expected an int"),
        })
        .collect()
}

#[test]
fn test_materialize_executor() {
    let mut store = MemoryStateStore::new();
    let chunk1 = StreamChunk::new(
        vec![Op::Insert, Op::Insert, Op::Insert],
        vec![int32_column(&[1, 2, 3]), int32_column(&[4, 5, 6])],
        None,
    );
    let chunk2 = StreamChunk::new(
        vec![Op::Insert, Op::Delete],
        vec![int32_column(&[7, 3]), int32_column(&[8, 6])],
        None,
    );
    let mut mv = MaterializeExecutor::new(vec![0]);

    let out = mv.step(&mut store, Message::Chunk(chunk1)).unwrap();
    assert!(matches!(out, Message::Chunk(ref c) if c.capacity() == 3));
    assert!(matches!(mv.step(&mut store, Message::Barrier(Barrier::new_test_barrier(2))).unwrap(), Message::Barrier(_)));
    // First stream chunk. We check the existence of (3) -> (3,6)
    assert_eq!(int32s(&read_value(&store, 3, u64::MAX).unwrap()), vec![3, 6]);

    mv.step(&mut store, Message::Chunk(chunk2)).unwrap();
    mv.step(&mut store, Message::Barrier(Barrier::new_test_barrier(3))).unwrap();
    // Second stream chunk. We check the existence of (7) -> (7,8), and that (3) is gone
    assert_eq!(int32s(&read_value(&store, 7, u64::MAX).unwrap()), vec![7, 8]);
    assert!(read_value(&store, 3, u64::MAX).is_none());
    // reads at the first commit still see the first version
    assert_eq!(int32s(&read_value(&store, 3, 1).unwrap()), vec![3, 6]);
    assert!(read_value(&store, 7, 1).is_none());
    assert_eq!(store.ingested, vec![1, 2]);
}

#[test]
fn materialize_skips_hidden_rows_and_empty_flushes() {
    let mut store = MemoryStateStore::new();
    let mut mv = MaterializeExecutor::new(vec![0]);
    mv.step(&mut store, Message::Barrier(Barrier::new_test_barrier(1))).unwrap();
    assert!(store.ingested.is_empty());
    let chunk = StreamChunk::new(
        vec![Op::Insert, Op::UpdateInsert],
        vec![int32_column(&[1, 2]), int32_column(&[10, 20])],
        Some(vec![false, true]),
    );
    mv.step(&mut store, Message::Chunk(chunk)).unwrap();
    mv.step(&mut store, Message::Barrier(Barrier::new_test_barrier(2))).unwrap();
    assert!(read_value(&store, 1, u64::MAX).is_none());
    assert_eq!(int32s(&read_value(&store, 2, u64::MAX).unwrap()), vec![2, 20]);
    let bad = StreamChunk::new(vec![Op::Insert], vec![], None);
    assert_eq!(mv.step(&mut store, Message::Chunk(bad)).unwrap_err(), StreamError::ColumnOutOfRange { index: 0 });
}

#[test]
fn store_refuses_stale_epochs() {
    let mut store = MemoryStateStore::new();
    let mut batch = store.start_write_batch();
    batch.put(vec![1], vec![2]);
    assert!(store.ingest(batch, 5).is_ok());
    let mut batch = store.start_write_batch();
    batch.delete(vec![1]);
    assert_eq!(store.ingest(batch, 5), Err(StreamError::StaleEpoch { epoch: 5, last: 5 }));
    assert_eq!(store.point_read(&vec![1], 5), Some(vec![2]));
    assert_eq!(store.point_read(&vec![1], 4), None);
}

#[test]
fn aggregation_restores_state_from_the_store() {
    let mut store = MemoryStateStore::new();
    let chunk1 = StreamChunk::new(
        vec![Op::Insert, Op::Insert, Op::Insert],
        vec![int64_column(&[100, 10, 4]), int64_column(&[200, 14, 300]), int64_column(&[1001, 1002, 1003])],
        None,
    );
    let mut first = SimpleAggExecutor::new(calls(), vec![1]).unwrap();
    first.step(&mut store, Message::Barrier(Barrier::new_test_barrier(1))).unwrap();
    first.step(&mut store, Message::Chunk(chunk1)).unwrap();
    first.step(&mut store, Message::Barrier(Barrier::new_test_barrier(2))).unwrap();

    // a fresh operator over the same keyspace, after recovery
    let mut agg = SimpleAggExecutor::new(calls(), vec![1]).unwrap();
    agg.step(&mut store, Message::Barrier(Barrier::new_test_barrier(3))).unwrap();
    let chunk2 = StreamChunk::new(
        vec![Op::Delete, Op::Delete, Op::Delete, Op::Insert],
        vec![
            int64_column(&[100, 10, 4, 104]),
            int64_column(&[200, 14, 300, 500]),
            int64_column(&[1001, 1002, 1003, 1004]),
        ],
        Some(vec![true, false, true, true]),
    );
    agg.step(&mut store, Message::Chunk(chunk2)).unwrap();
    assert!(agg.loaded);
    let out = agg.step(&mut store, Message::Barrier(Barrier::new_test_barrier(4))).unwrap();
    assert_eq!(
        rows_of(the_chunk(&out)),
        vec![
            (Op::UpdateDelete, vec![Some(3), Some(114), Some(514), Some(4)]),
            (Op::UpdateInsert, vec![Some(2), Some(114), Some(514), Some(10)]),
        ]
    );
    assert_eq!(store.ingested, vec![1, 3]);

    // another keyspace starts empty
    let mut other = SimpleAggExecutor::new(calls(), vec![2]).unwrap();
    other.step(&mut store, Message::Barrier(Barrier::new_test_barrier(5))).unwrap();
    let chunk = StreamChunk::new(vec![Op::Insert], vec![int64_column(&[1]), int64_column(&[2])], None);
    other.step(&mut store, Message::Chunk(chunk)).unwrap();
    let out = other.step(&mut store, Message::Barrier(Barrier::new_test_barrier(6))).unwrap();
    assert_eq!(rows_of(the_chunk(&out)), vec![(Op::Insert, vec![Some(1), Some(1), Some(2), Some(1)])]);
}

#[test]
fn aggregation_refuses_a_corrupt_stored_state() {
    let mut store = MemoryStateStore::new();
    let mut batch = store.start_write_batch();
    // the key of the first call's state under keyspace [9]
    batch.put(vec![9, 0, 0, 0, 0], vec![1, 2, 3]);
    store.ingest(batch, 1).unwrap();
    let mut agg = SimpleAggExecutor::new(calls(), vec![9]).unwrap();
    agg.step(&mut store, Message::Barrier(Barrier::new_test_barrier(2))).unwrap();
    let chunk = StreamChunk::new(vec![Op::Insert], vec![int64_column(&[1]), int64_column(&[2])], None);
    assert_eq!(agg.step(&mut store, Message::Chunk(chunk)).unwrap_err(), StreamError::Malformed);
}

#[test]
fn aggregation_run_commits_at_barriers_after_chunks() {
    let mut store = MemoryStateStore::new();
    let mut agg = SimpleAggExecutor::new(calls(), vec![4]).unwrap();
    let mk = || StreamChunk::new(vec![Op::Insert], vec![int64_column(&[5]), int64_column(&[6])], None);
    let msgs = vec![
        Message::Barrier(Barrier::new_test_barrier(1)),
        Message::Chunk(mk()),
        Message::Barrier(Barrier::new_test_barrier(2)),
        Message::Barrier(Barrier::new_test_barrier(3)),
        Message::Chunk(mk()),
        Message::Chunk(mk()),
        Message::Barrier(Barrier::new_test_barrier(4)),
    ];
    let out = agg.run(&mut store, msgs).unwrap();
    // four barriers and two change chunks, each chunk before its barrier
    assert_eq!(out.len(), 6);
    assert!(matches!(out[1], Message::Chunk(_)));
    assert!(matches!(out[2], Message::Barrier(ref b) if b.epoch.curr == 2));
    assert_eq!(store.ingested, vec![1, 3]);
    assert_eq!(
        rows_of(the_chunk(&out[4..])),
        vec![
            (Op::UpdateDelete, vec![Some(1), Some(5), Some(6), Some(5)]),
            (Op::UpdateInsert, vec![Some(3), Some(15), Some(18), Some(5)]),
        ]
    );
}

#[test]
fn materialize_run_commits_pending_writes_at_barriers() {
    let mut store = MemoryStateStore::new();
    let mut mv = MaterializeExecutor::new(vec![0]);
    let msgs = vec![
        Message::Chunk(StreamChunk::new(vec![Op::Insert], vec![int32_column(&[3]), int32_column(&[6])], None)),
        Message::Barrier(Barrier::new_test_barrier(2)),
        Message::Barrier(Barrier::new_test_barrier(3)),
        Message::Chunk(StreamChunk::new(vec![Op::Delete], vec![int32_column(&[3]), int32_column(&[6])], None)),
        Message::Barrier(Barrier::new_test_barrier(4)),
    ];
    let out = mv.run(&mut store, msgs).unwrap();
    assert_eq!(out.len(), 5);
    assert_eq!(store.ingested, vec![1, 3]);
    assert_eq!(int32s(&read_value(&store, 3, 2).unwrap()), vec![3, 6]);
    assert!(read_value(&store, 3, 3).is_none());
}
