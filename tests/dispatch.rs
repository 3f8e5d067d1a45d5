use stream_core::array::{ArrayImpl, Column};
use stream_core::chunk::StreamChunk;
use stream_core::dispatch::{
    BroadcastDispatcher, DispatcherImpl, HashDataDispatcher, Output, RoundRobinDataDispatcher,
    SimpleDispatcher,
};
use stream_core::error::StreamError;
use stream_core::hash::{compute_vnodes, VIRTUAL_NODE_COUNT};
use stream_core::message::{Barrier, Message};
use stream_core::types::{DataType, Op, Scalar};

fn i64_column(values: &[i64]) -> Column {
    let values = values.iter().map(|v| Some(Scalar::Int64(*v))).collect();
    Column::new(ArrayImpl::from_values(DataType::Int64, values).unwrap())
}

fn local(actor_id: u32) -> Output<()> {
    Output { actor_id, remote: false, writer: () }
}

fn even_mapping(num_outputs: usize) -> Vec<u32> {
    let mut mapping: Vec<u32> = (1..num_outputs + 1)
        .flat_map(|id| vec![id as u32; VIRTUAL_NODE_COUNT / num_outputs])
        .collect();
    mapping.resize(VIRTUAL_NODE_COUNT, num_outputs as u32);
    mapping
}

fn chunk_of(message: &Message) -> &StreamChunk {
    match message {
        Message::Chunk(c) => c,
        Message::Barrier(_) => panic!("expected a chunk"),
    }
}

fn complex_chunk() -> StreamChunk {
    StreamChunk::new(
        vec![
            Op::Insert,
            Op::Insert,
            Op::Insert,
            Op::Delete,
            Op::UpdateDelete,
            Op::UpdateInsert,
            Op::UpdateDelete,
            Op::UpdateInsert,
        ],
        vec![
            i64_column(&[4, 5, 0, 1, 2, 2, 3, 3]),
            i64_column(&[6, 7, 0, 1, 0, 0, 3, 3]),
            i64_column(&[8, 9, 0, 1, 2, 2, 2, 4]),
        ],
        Some(vec![true, true, true, false, true, true, true, true]),
    )
}

#[test]
fn test_hash_dispatcher_complex() {
    let dispatcher = HashDataDispatcher::new(vec![local(1), local(2)], vec![0, 2], even_mapping(2));
    let deliveries = dispatcher.dispatch_data(complex_chunk()).unwrap();
    assert_eq!(deliveries.len(), 2);

    assert_eq!(deliveries[0].output, 0);
    let chunk1 = chunk_of(&deliveries[0].message);
    assert_eq!(chunk1.capacity(), 8, "Should keep capacity");
    assert_eq!(chunk1.cardinality(), 5);
    assert!(chunk1.is_visible(4));
    assert_eq!(chunk1.ops[6], Op::Delete, "Should rewrite UpdateDelete to Delete");

    assert_eq!(deliveries[1].output, 1);
    let chunk2 = chunk_of(&deliveries[1].message);
    assert_eq!(chunk2.capacity(), 8, "Should keep capacity");
    assert_eq!(chunk2.cardinality(), 2);
    assert!(!chunk2.is_visible(3), "Should keep the input invisible mark");
    assert!(!chunk2.is_visible(6));
    assert_eq!(chunk2.ops[4], Op::UpdateDelete, "Should keep UpdateDelete");
    assert_eq!(chunk2.ops[5], Op::UpdateInsert, "Should keep UpdateInsert");
    assert_eq!(chunk2.ops[7], Op::Insert, "Should rewrite UpdateInsert to Insert");
}

#[test]
fn test_hash_dispatcher() {
    let num_outputs = 5;
    let cardinality = 10;
    let dimension = 4;
    let key_indices = [0usize, 2];
    let mapping = even_mapping(num_outputs);
    let outputs = (0..num_outputs).map(|i| local(1 + i as u32)).collect();
    let dispatcher = HashDataDispatcher::new(outputs, key_indices.to_vec(), mapping.clone());

    let mut ops = Vec::new();
    for idx in 0..cardinality {
        if idx % 2 == 0 {
            ops.push(Op::Insert);
        } else {
            ops.push(Op::Delete);
        }
    }
    let mut start = 19260817i32..;
    let mut columns_vals = vec![vec![]; dimension];
    let mut output_cols = vec![vec![vec![]; dimension]; num_outputs];
    for _ in &ops {
        let one_row: Vec<i32> = (0..dimension).map(|_| start.next().unwrap()).collect();
        let mut hasher = crc32fast::Hasher::new();
        for key_idx in key_indices.iter() {
            hasher.update(&one_row[*key_idx].to_le_bytes());
        }
        let output_idx = mapping[hasher.finalize() as usize % VIRTUAL_NODE_COUNT] as usize - 1;
        for (c, v) in one_row.iter().enumerate() {
            columns_vals[c].push(*v);
            output_cols[output_idx][c].push(*v);
        }
    }
    let columns = columns_vals
        .iter()
        .map(|vals| {
            let values = vals.iter().map(|v| Some(Scalar::Int32(*v))).collect();
            Column::new(ArrayImpl::from_values(DataType::Int32, values).unwrap())
        })
        .collect();
    let chunk = StreamChunk::new(ops, columns, None);
    let deliveries = dispatcher.dispatch_data(chunk).unwrap();

    for output_idx in 0..num_outputs {
        let delivered: Vec<_> = deliveries.iter().filter(|d| d.output == output_idx).collect();
        assert!(delivered.len() <= 1);
        if delivered.is_empty() {
            assert!(output_cols[output_idx].iter().all(|x| x.is_empty()));
        } else {
            let real_chunk = chunk_of(&delivered[0].message);
            for (c, expect_col) in output_cols[output_idx].iter().enumerate() {
                let real_vals: Vec<i32> = (0..real_chunk.capacity())
                    .filter(|row| real_chunk.is_visible(*row))
                    .map(|row| match &real_chunk.columns[c].array_ref().values[row] {
                        Some(Scalar::Int32(v)) => *v,
                        _ => panic!("expected an int"),
                    })
                    .collect();
                assert_eq!(real_vals.len(), expect_col.len());
                assert_eq!(real_vals, *expect_col);
            }
        }
    }
}

#[test]
fn vnodes_are_crc32_of_key_bytes_modulo_node_count() {
    let chunk = StreamChunk::new(vec![Op::Insert], vec![i64_column(&[3]), i64_column(&[4])], None);
    let vnodes = compute_vnodes(&chunk, &vec![0, 1]).unwrap();
    let mut bytes = 3i64.to_le_bytes().to_vec();
    bytes.extend_from_slice(&4i64.to_le_bytes());
    assert_eq!(vnodes, vec![crc32fast::hash(&bytes) as usize % VIRTUAL_NODE_COUNT]);
    assert_ne!(vnodes[0], 3);
}

#[test]
fn hash_dispatch_is_repeatable() {
    let dispatcher = HashDataDispatcher::new(vec![local(1), local(2)], vec![0, 2], even_mapping(2));
    let a = dispatcher.dispatch_data(complex_chunk()).unwrap();
    let b = dispatcher.dispatch_data(complex_chunk()).unwrap();
    assert_eq!(a.len(), b.len());
    for (x, y) in a.iter().zip(b.iter()) {
        assert_eq!(x.output, y.output);
        let (cx, cy) = (chunk_of(&x.message), chunk_of(&y.message));
        assert_eq!(cx.ops, cy.ops);
        assert_eq!(cx.visibility, cy.visibility);
    }
}

#[test]
fn hash_dispatch_refuses_split_update_pair() {
    let dispatcher = HashDataDispatcher::new(vec![local(1)], vec![0], even_mapping(1));
    let chunk = StreamChunk::new(vec![Op::UpdateDelete, Op::Insert], vec![i64_column(&[1, 2])], None);
    assert_eq!(
        dispatcher.dispatch_data(chunk).unwrap_err(),
        StreamError::SplitUpdatePair { row: 0 }
    );
}

#[test]
fn hash_dispatch_refuses_key_out_of_range() {
    let dispatcher = HashDataDispatcher::new(vec![local(1)], vec![3], even_mapping(1));
    let chunk = StreamChunk::new(vec![Op::Insert], vec![i64_column(&[1])], None);
    assert_eq!(
        dispatcher.dispatch_data(chunk).unwrap_err(),
        StreamError::ColumnOutOfRange { index: 3 }
    );
}

#[test]
fn empty_hash_outputs_get_nothing() {
    let mapping = vec![1u32; VIRTUAL_NODE_COUNT];
    let dispatcher = HashDataDispatcher::new(vec![local(1), local(2)], vec![0], mapping);
    let chunk = StreamChunk::new(vec![Op::Insert, Op::Insert], vec![i64_column(&[1, 2])], None);
    let deliveries = dispatcher.dispatch_data(chunk).unwrap();
    assert_eq!(deliveries.len(), 1);
    assert_eq!(deliveries[0].output, 0);
}

#[test]
fn remote_outputs_receive_compacted_chunks() {
    let remote = Output { actor_id: 9, remote: true, writer: () };
    let d = SimpleDispatcher::new(remote);
    let chunk = StreamChunk::new(
        vec![Op::Insert, Op::Delete, Op::Insert],
        vec![i64_column(&[1, 2, 3])],
        Some(vec![true, false, true]),
    );
    let out = d.dispatch_data(chunk);
    let c = chunk_of(&out[0].message);
    assert_eq!(c.ops, vec![Op::Insert, Op::Insert]);
    assert!(c.visibility.is_none());
    assert!(matches!(c.columns[0].array_ref().values[1], Some(Scalar::Int64(3))));

    let local_d = SimpleDispatcher::new(local(9));
    let chunk = StreamChunk::new(vec![Op::Insert, Op::Delete], vec![i64_column(&[1, 2])], Some(vec![true, false]));
    let out = local_d.dispatch_data(chunk);
    assert_eq!(chunk_of(&out[0].message).capacity(), 2);
}

#[test]
fn barriers_go_to_every_output() {
    let d = BroadcastDispatcher::new(vec![local(1), local(2), local(3)]).unwrap();
    let out = d.dispatch_barrier(&Barrier::new_test_barrier(5));
    assert_eq!(out.len(), 3);
    for (k, delivery) in out.iter().enumerate() {
        assert_eq!(delivery.output, k);
        match &delivery.message {
            Message::Barrier(b) => assert_eq!(b.epoch.curr, 5),
            Message::Chunk(_) => panic!("expected a barrier"),
        }
    }
}

#[test]
fn broadcast_refuses_duplicate_actors() {
    assert_eq!(
        BroadcastDispatcher::new(vec![local(1), local(1)]).err().unwrap(),
        StreamError::DuplicateOutput { actor: 1 }
    );
    let mut d = BroadcastDispatcher::new(vec![local(1)]).unwrap();
    assert!(d.add_outputs(vec![local(1)]).is_err());
    assert_eq!(d.outputs.len(), 1);
    assert!(d.add_outputs(vec![local(2)]).is_ok());
    assert_eq!(d.outputs.len(), 2);
    d.remove_outputs(&vec![1]);
    assert_eq!(d.outputs.len(), 1);
    assert_eq!(d.outputs[0].actor_id, 2);
}

#[test]
fn broadcast_sends_every_chunk_to_every_output() {
    let d = BroadcastDispatcher::new(vec![local(1), local(2)]).unwrap();
    let chunk = StreamChunk::new(vec![Op::Insert], vec![i64_column(&[1])], None);
    let out = d.dispatch_data(chunk);
    assert_eq!(out.len(), 2);
    assert_eq!(out[1].output, 1);
}

#[test]
fn round_robin_rotates_and_clamps() {
    let mut d = RoundRobinDataDispatcher::new(vec![local(1), local(2), local(3)]);
    let mk = || StreamChunk::new(vec![Op::Insert], vec![i64_column(&[1])], None);
    assert_eq!(d.dispatch_data(mk())[0].output, 0);
    assert_eq!(d.dispatch_data(mk())[0].output, 1);
    assert_eq!(d.dispatch_data(mk())[0].output, 2);
    assert_eq!(d.dispatch_data(mk())[0].output, 0);
    d.dispatch_data(mk());
    assert_eq!(d.cur, 2);
    assert!(d.set_outputs(vec![local(4), local(5)]).is_ok());
    assert_eq!(d.cur, 1);
    assert_eq!(d.set_outputs(vec![]), Err(StreamError::NoOutputLeft));
    assert_eq!(d.outputs.len(), 2);
    assert_eq!(d.remove_outputs(&vec![4, 5]), Err(StreamError::NoOutputLeft));
    assert!(d.remove_outputs(&vec![5]).is_ok());
    assert_eq!(d.cur, 0);
    d.add_outputs(vec![local(6)]);
    assert_eq!(d.outputs.len(), 2);
}

#[test]
fn simple_dispatcher_keeps_one_output() {
    let mut d = SimpleDispatcher::new(local(1));
    assert_eq!(d.remove_outputs(&vec![1]), Err(StreamError::NoOutputLeft));
    assert!(d.remove_outputs(&vec![2]).is_ok());
    assert!(d.add_outputs(vec![local(7), local(8)]).is_ok());
    assert_eq!(d.output.actor_id, 7);
    assert_eq!(d.set_outputs(vec![]), Err(StreamError::NoOutputLeft));
    assert_eq!(d.output.actor_id, 7);
}

#[test]
fn dispatcher_impl_routes_by_policy() {
    let mut d = DispatcherImpl::Simple(SimpleDispatcher::new(local(3)));
    let chunk = StreamChunk::new(vec![Op::Insert], vec![i64_column(&[1])], None);
    let out = d.dispatch_data(chunk).unwrap();
    assert_eq!(out.len(), 1);
    let b = d.dispatch_barrier(&Barrier::new_test_barrier(2));
    assert_eq!(b.len(), 1);
}
