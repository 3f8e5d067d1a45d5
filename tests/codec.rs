use stream_core::array::{pk_input_arrays, ArrayImpl, Column};
use stream_core::chunk::StreamChunk;
use stream_core::codec::{decode_chunk, encode_chunk};
use stream_core::message::{Epoch, ExecutorState, Message, Barrier, INVALID_EPOCH};
use stream_core::types::{DataType, Date, Datum, Decimal, Op, Scalar, Time, Timestamp};

fn value_for(t: DataType, i: usize) -> Datum {
    if i % 5 == 4 {
        return None;
    }
    let v = i as i64 - 1000;
    Some(match t {
        DataType::Int16 => Scalar::Int16(v as i16),
        DataType::Int32 => Scalar::Int32(v as i32 * 70000),
        DataType::Int64 => Scalar::Int64(v * 1_000_000_000_000),
        DataType::Boolean => Scalar::Bool(i % 2 == 0),
        DataType::Decimal => Scalar::Decimal(Decimal { mantissa: v * 12345, scale: (i % 20) as u8 }),
        DataType::Date => Scalar::Date(Date { days: v as i32 }),
        DataType::Time => Scalar::Time(Time { secs: i as u32, nanos: i as u32 * 1000 }),
        DataType::Timestamp => Scalar::Timestamp(Timestamp { secs: v * 86_400, nsecs: i as u32 }),
        DataType::Varchar => Scalar::Utf8(format!("row-{}-é", i)),
    })
}

const ALL_TYPES: [DataType; 9] = [
    DataType::Int16,
    DataType::Int32,
    DataType::Int64,
    DataType::Boolean,
    DataType::Decimal,
    DataType::Date,
    DataType::Time,
    DataType::Timestamp,
    DataType::Varchar,
];

fn chunk_with_rows(n: usize, with_visibility: bool) -> StreamChunk {
    let ops = (0..n)
        .map(|i| match i % 4 {
            0 => Op::Insert,
            1 => Op::Delete,
            2 => Op::UpdateDelete,
            _ => Op::UpdateInsert,
        })
        .collect();
    let columns = ALL_TYPES
        .iter()
        .map(|t| Column::new(ArrayImpl::from_values(*t, (0..n).map(|i| value_for(*t, i)).collect()).unwrap()))
        .collect();
    let visibility = if with_visibility { Some((0..n).map(|i| i % 3 != 0).collect()) } else { None };
    StreamChunk::new(ops, columns, visibility)
}

fn same_datum(a: &Datum, b: &Datum) -> bool {
    match (a, b) {
        (None, None) => true,
        (Some(Scalar::Int16(x)), Some(Scalar::Int16(y))) => x == y,
        (Some(Scalar::Int32(x)), Some(Scalar::Int32(y))) => x == y,
        (Some(Scalar::Int64(x)), Some(Scalar::Int64(y))) => x == y,
        (Some(Scalar::Bool(x)), Some(Scalar::Bool(y))) => x == y,
        (Some(Scalar::Decimal(x)), Some(Scalar::Decimal(y))) => x == y,
        (Some(Scalar::Date(x)), Some(Scalar::Date(y))) => x == y,
        (Some(Scalar::Time(x)), Some(Scalar::Time(y))) => x == y,
        (Some(Scalar::Timestamp(x)), Some(Scalar::Timestamp(y))) => x == y,
        (Some(Scalar::Utf8(x)), Some(Scalar::Utf8(y))) => x == y,
        _ => false,
    }
}

fn assert_same_chunk(a: &StreamChunk, b: &StreamChunk) {
    assert_eq!(a.ops, b.ops);
    assert_eq!(a.visibility, b.visibility);
    assert_eq!(a.columns.len(), b.columns.len());
    for (x, y) in a.columns.iter().zip(b.columns.iter()) {
        assert_eq!(x.array_ref().data_type, y.array_ref().data_type);
        assert_eq!(x.array_ref().values.len(), y.array_ref().values.len());
        for (u, v) in x.array_ref().values.iter().zip(y.array_ref().values.iter()) {
            assert!(same_datum(u, v));
        }
    }
}

#[test]
fn chunk_round_trip_over_all_types_and_sizes() {
    for n in [0usize, 1, 2048] {
        for vis in [false, true] {
            let c = chunk_with_rows(n, vis);
            let bytes = encode_chunk(&c);
            let back = decode_chunk(&bytes).unwrap();
            assert_same_chunk(&c, &back);
        }
    }
}

#[test]
fn truncated_or_extended_chunk_bytes_do_not_decode() {
    let bytes = encode_chunk(&chunk_with_rows(3, true));
    assert!(decode_chunk(&bytes[..bytes.len() - 1].to_vec()).is_none());
    let mut longer = bytes.clone();
    longer.push(0);
    assert!(decode_chunk(&longer).is_none());
    assert!(decode_chunk(&vec![]).is_none());
}

#[test]
fn empty_chunk_wire_form() {
    let c = StreamChunk::new(vec![], vec![], None);
    let bytes = encode_chunk(&c);
    assert_eq!(bytes, vec![0, 0, 0, 0, 0, 0, 0, 0, 0, 0, 0, 0, 0, 0, 0, 0, 0]);
}

#[test]
fn chunk_compact_and_cardinality() {
    let c = chunk_with_rows(6, true);
    assert_eq!(c.capacity(), 6);
    assert_eq!(c.cardinality(), 4);
    let k = c.compact();
    assert_eq!(k.capacity(), 4);
    assert_eq!(k.cardinality(), 4);
    assert!(k.visibility.is_none());
    assert_eq!(k.ops, vec![Op::Delete, Op::UpdateDelete, Op::Insert, Op::Delete]);
}

#[test]
fn epoch_constructors() {
    assert_eq!(Epoch::new(5, 3), Epoch { curr: 5, prev: 3 });
    assert_eq!(Epoch::new(5, 3).inc(), Epoch { curr: 6, prev: 4 });
    assert_eq!(Epoch::new_test_epoch(1), Epoch { curr: 1, prev: INVALID_EPOCH });
    assert_eq!(Epoch::default(), Epoch { curr: 1, prev: 0 });
}

#[test]
fn executor_state_epoch_and_init() {
    assert_eq!(ExecutorState::Active(7).epoch(), 7);
    let mut s = ExecutorState::Init;
    let b = s.try_init(&Message::Barrier(Barrier::new_test_barrier(9))).unwrap();
    assert_eq!(b.unwrap().epoch.curr, 9);
    assert_eq!(s, ExecutorState::Active(9));
    assert!(s.try_init(&Message::Barrier(Barrier::new_test_barrier(10))).unwrap().is_none());
    assert_eq!(s, ExecutorState::Active(9));
    let mut fresh = ExecutorState::Init;
    let chunk = StreamChunk::new(vec![], vec![], None);
    assert!(fresh.try_init(&Message::Chunk(chunk)).is_err());
    assert_eq!(fresh, ExecutorState::Init);
}

use stream_core::message::{ActorInfo, HostAddress, Mutation, OutputsEntry};

fn info(actor_id: u32, host: Option<(&str, i32)>) -> ActorInfo {
    ActorInfo { actor_id, host: host.map(|(h, p)| HostAddress { host: h.to_string(), port: p }) }
}

fn same_infos(a: &[ActorInfo], b: &[ActorInfo]) -> bool {
    a.len() == b.len()
        && a.iter().zip(b.iter()).all(|(x, y)| {
            x.actor_id == y.actor_id
                && match (&x.host, &y.host) {
                    (None, None) => true,
                    (Some(h), Some(k)) => h.host == k.host && h.port == k.port,
                    _ => false,
                }
        })
}

fn same_entries(a: &[OutputsEntry], b: &[OutputsEntry]) -> bool {
    a.len() == b.len() && a.iter().zip(b.iter()).all(|(x, y)| x.actor_id == y.actor_id && same_infos(&x.infos, &y.infos))
}

fn same_barrier(a: &Barrier, b: &Barrier) -> bool {
    a.epoch == b.epoch
        && match (&a.mutation, &b.mutation) {
            (None, None) => true,
            (Some(Mutation::Stop(x)), Some(Mutation::Stop(y))) => x == y,
            (Some(Mutation::UpdateOutputs(x)), Some(Mutation::UpdateOutputs(y))) => same_entries(x, y),
            (Some(Mutation::AddOutput(x)), Some(Mutation::AddOutput(y))) => same_entries(x, y),
            _ => false,
        }
}

fn sample_entries() -> Vec<OutputsEntry> {
    vec![
        OutputsEntry { actor_id: 233, infos: vec![info(234, Some(("127.0.0.1", 2333))), info(238, None)] },
        OutputsEntry { actor_id: 7, infos: vec![] },
        OutputsEntry { actor_id: 8, infos: vec![info(9, Some(("hôte", -5)))] },
    ]
}

#[test]
fn barrier_round_trip_for_every_mutation() {
    let barriers = vec![
        Barrier::new_test_barrier(1),
        Barrier::new_test_barrier(2).with_mutation(Mutation::Stop(vec![1, 2, u32::MAX])),
        Barrier::new_test_barrier(3).with_mutation(Mutation::UpdateOutputs(sample_entries())),
        Barrier::new_test_barrier(4).with_mutation(Mutation::AddOutput(sample_entries())),
        Barrier::new_test_barrier(5).with_mutation(Mutation::Stop(vec![])),
    ];
    for b in barriers {
        let back = Barrier::from_bytes(&b.to_bytes()).unwrap();
        assert!(same_barrier(&b, &back));
    }
}

#[test]
fn barrier_wire_form_and_refusals() {
    let b = Barrier::new_test_barrier(2);
    assert_eq!(b.to_bytes(), vec![2, 0, 0, 0, 0, 0, 0, 0, 1, 0, 0, 0, 0, 0, 0, 0, 0]);
    // an epoch that does not move forward
    let stale = vec![1, 0, 0, 0, 0, 0, 0, 0, 1, 0, 0, 0, 0, 0, 0, 0, 0];
    assert!(Barrier::from_bytes(&stale).is_none());
    // an unknown mutation tag
    let unknown = vec![2, 0, 0, 0, 0, 0, 0, 0, 1, 0, 0, 0, 0, 0, 0, 0, 9];
    assert!(Barrier::from_bytes(&unknown).is_none());
    let mut extra = b.to_bytes();
    extra.push(0);
    assert!(Barrier::from_bytes(&extra).is_none());
}

#[test]
fn message_round_trip() {
    let m = Message::Barrier(Barrier::new_test_barrier(3).with_mutation(Mutation::Stop(vec![4])));
    match Message::from_bytes(&m.to_bytes()).unwrap() {
        Message::Barrier(b) => assert!(b.is_to_stop_actor(4)),
        Message::Chunk(_) => panic!("expected a barrier"),
    }
    let c = chunk_with_rows(5, true);
    let m = Message::Chunk(chunk_with_rows(5, true));
    match Message::from_bytes(&m.to_bytes()).unwrap() {
        Message::Chunk(back) => assert_same_chunk(&c, &back),
        Message::Barrier(_) => panic!("expected a chunk"),
    }
    assert!(Message::from_bytes(&vec![]).is_none());
    assert!(Message::from_bytes(&vec![2]).is_none());
}

#[test]
fn default_barrier_opens_the_first_epoch() {
    let b = Barrier::default();
    assert_eq!(b.epoch, Epoch { curr: 1, prev: INVALID_EPOCH });
    assert!(b.mutation.is_none());
}

#[test]
fn pk_columns_are_gathered_in_key_order() {
    let c = chunk_with_rows(3, false);
    let pk = pk_input_arrays(&vec![2, 0], &c.columns);
    assert_eq!(pk.len(), 2);
    assert_eq!(pk[0].data_type, DataType::Int64);
    assert_eq!(pk[1].data_type, DataType::Int16);
    assert!(same_datum(&pk[0].values[1], &c.columns[2].array_ref().values[1]));
}
