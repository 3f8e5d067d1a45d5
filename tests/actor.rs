use stream_core::actor::{Actor, DispatchExecutor};
use stream_core::array::{ArrayImpl, Column};
use stream_core::chunk::StreamChunk;
use stream_core::dispatch::{BroadcastDispatcher, DispatcherImpl, Output, SimpleDispatcher};
use stream_core::error::StreamError;
use stream_core::message::{ActorInfo, Barrier, HostAddress, Message, Mutation, OutputsEntry};
use stream_core::registry::ChannelRegistry;
use stream_core::types::{DataType, Op, Scalar};

fn local_addr() -> HostAddress {
    HostAddress { host: "127.0.0.1".to_string(), port: 2333 }
}

fn local_actor(actor_id: u32) -> ActorInfo {
    ActorInfo { actor_id, host: Some(local_addr()) }
}

fn remote_actor(actor_id: u32) -> ActorInfo {
    ActorInfo { actor_id, host: Some(HostAddress { host: "172.1.1.2".to_string(), port: 2334 }) }
}

fn add_channels(ctx: &mut ChannelRegistry<u32, u32>, up: u32, downs: &[u32]) {
    for d in downs {
        ctx.add_pair(up, *d, *d, *d).unwrap();
    }
}

fn edges_from(ctx: &ChannelRegistry<u32, u32>, up: u32) -> Vec<u32> {
    let mut v: Vec<u32> = ctx.pairs.iter().filter(|p| p.up == up).map(|p| p.down).collect();
    v.sort();
    v
}

fn one_row_chunk() -> StreamChunk {
    let a = ArrayImpl::from_values(DataType::Int64, vec![Some(Scalar::Int64(1))]).unwrap();
    StreamChunk::new(vec![Op::Insert], vec![Column::new(a)], None)
}

#[test]
fn test_configuration_change() {
    let actor_id = 233;
    let mut ctx: ChannelRegistry<u32, u32> = ChannelRegistry::new(local_addr());
    add_channels(&mut ctx, actor_id, &[100]);
    let output = Output { actor_id: 100, remote: false, writer: 100u32 };
    let mut executor =
        DispatchExecutor::new(DispatcherImpl::Simple(SimpleDispatcher::new(output)), actor_id);

    add_channels(&mut ctx, actor_id, &[234, 235, 238]);
    let b1 = Barrier::new_test_barrier(1).with_mutation(Mutation::UpdateOutputs(vec![OutputsEntry {
        actor_id,
        infos: vec![local_actor(234), local_actor(235), remote_actor(238)],
    }]));
    let out = executor.dispatch(Message::Barrier(b1), &mut ctx).unwrap();
    assert_eq!(out.len(), 1);
    assert_eq!(edges_from(&ctx, actor_id), vec![234, 235, 238]);
    assert_eq!(ctx.len(), 3);

    add_channels(&mut ctx, actor_id, &[245, 246]);
    let b2 = Barrier::new_test_barrier(2).with_mutation(Mutation::AddOutput(vec![OutputsEntry {
        actor_id,
        infos: vec![local_actor(245), remote_actor(246)],
    }]));
    executor.dispatch(Message::Barrier(b2), &mut ctx).unwrap();
    assert_eq!(edges_from(&ctx, actor_id), vec![234, 235, 238, 245, 246]);
    assert_eq!(ctx.len(), 5);
}

#[test]
fn update_outputs_builds_local_and_remote_outputs() {
    let actor_id = 233;
    let mut ctx: ChannelRegistry<u32, u32> = ChannelRegistry::new(local_addr());
    add_channels(&mut ctx, actor_id, &[100, 234, 238]);
    add_channels(&mut ctx, 7, &[8]);
    let first = BroadcastDispatcher::new(vec![Output { actor_id: 100, remote: false, writer: 0 }]).unwrap();
    let mut executor = DispatchExecutor::new(DispatcherImpl::Broadcast(first), actor_id);
    let b = Barrier::new_test_barrier(1).with_mutation(Mutation::UpdateOutputs(vec![
        OutputsEntry { actor_id: 99, infos: vec![local_actor(1)] },
        OutputsEntry { actor_id, infos: vec![local_actor(234), remote_actor(238)] },
    ]));
    let out = executor.dispatch(Message::Barrier(b), &mut ctx).unwrap();
    assert_eq!(out.len(), 2);
    match &executor.inner {
        DispatcherImpl::Broadcast(d) => {
            assert_eq!(d.outputs.len(), 2);
            assert_eq!((d.outputs[0].actor_id, d.outputs[0].remote, d.outputs[0].writer), (234, false, 234));
            assert_eq!((d.outputs[1].actor_id, d.outputs[1].remote, d.outputs[1].writer), (238, true, 238));
        },
        _ => panic!("the policy changed"),
    }
    // the other actor's channel stays, and the writers were taken
    assert_eq!(edges_from(&ctx, 7), vec![8]);
    assert!(ctx.pairs.iter().filter(|p| p.up == actor_id).all(|p| p.writer.is_none() && p.reader.is_some()));
    assert_eq!(ctx.take_sender(actor_id, 234), Err(StreamError::NoRoute { up: actor_id, down: 234 }));
}

#[test]
fn update_outputs_without_channel_fails() {
    let actor_id = 233;
    let mut ctx: ChannelRegistry<u32, u32> = ChannelRegistry::new(local_addr());
    let first = BroadcastDispatcher::new(vec![]).unwrap();
    let mut executor = DispatchExecutor::new(DispatcherImpl::Broadcast(first), actor_id);
    let b = Barrier::new_test_barrier(1).with_mutation(Mutation::AddOutput(vec![OutputsEntry {
        actor_id,
        infos: vec![local_actor(300)],
    }]));
    assert_eq!(
        executor.dispatch(Message::Barrier(b), &mut ctx).unwrap_err(),
        StreamError::NoRoute { up: actor_id, down: 300 }
    );
    let b = Barrier::new_test_barrier(2).with_mutation(Mutation::AddOutput(vec![OutputsEntry {
        actor_id,
        infos: vec![ActorInfo { actor_id: 301, host: None }],
    }]));
    assert_eq!(
        executor.dispatch(Message::Barrier(b), &mut ctx).unwrap_err(),
        StreamError::MissingHost { actor: 301 }
    );
}

#[test]
fn stop_removes_outputs_after_the_barrier() {
    let actor_id = 1;
    let mut ctx: ChannelRegistry<u32, u32> = ChannelRegistry::new(local_addr());
    let d = BroadcastDispatcher::new(vec![
        Output { actor_id: 2, remote: false, writer: 2 },
        Output { actor_id: 3, remote: false, writer: 3 },
    ])
    .unwrap();
    let mut executor = DispatchExecutor::new(DispatcherImpl::Broadcast(d), actor_id);
    let b = Barrier::new_test_barrier(1).with_mutation(Mutation::Stop(vec![3]));
    let out = executor.dispatch(Message::Barrier(b), &mut ctx).unwrap();
    // the stopped actor still receives the barrier
    assert_eq!(out.len(), 2);
    match &executor.inner {
        DispatcherImpl::Broadcast(d) => assert_eq!(d.outputs.len(), 1),
        _ => panic!("the policy changed"),
    }
}

#[test]
fn actor_rejects_chunk_as_first_message() {
    let mut ctx: ChannelRegistry<u32, u32> = ChannelRegistry::new(local_addr());
    let d = SimpleDispatcher::new(Output { actor_id: 2, remote: false, writer: 2 });
    let mut actor = Actor::new(DispatchExecutor::new(DispatcherImpl::Simple(d), 1));
    let r = actor.step(Message::Chunk(one_row_chunk()), &mut ctx);
    assert_eq!(r.unwrap_err(), StreamError::FirstMessageNotBarrier);
    assert!(!actor.stopped);
}

#[test]
fn actor_requires_increasing_epochs_and_stops() {
    let mut ctx: ChannelRegistry<u32, u32> = ChannelRegistry::new(local_addr());
    let d = SimpleDispatcher::new(Output { actor_id: 2, remote: false, writer: 2 });
    let mut actor = Actor::new(DispatchExecutor::new(DispatcherImpl::Simple(d), 1));
    assert_eq!(actor.step(Message::Barrier(Barrier::new_test_barrier(2)), &mut ctx).unwrap().len(), 1);
    assert_eq!(actor.step(Message::Chunk(one_row_chunk()), &mut ctx).unwrap().len(), 1);
    assert_eq!(
        actor.step(Message::Barrier(Barrier::new_test_barrier(2)), &mut ctx).unwrap_err(),
        StreamError::EpochNotIncreasing { last: 2, prev: 1, curr: 2 }
    );
    let stop = Barrier::new_test_barrier(3).with_mutation(Mutation::Stop(vec![1]));
    assert_eq!(actor.step(Message::Barrier(stop), &mut ctx).unwrap().len(), 1);
    assert!(actor.stopped);
}

#[test]
fn registry_refuses_duplicate_and_missing_edges() {
    let mut ctx: ChannelRegistry<u32, u32> = ChannelRegistry::new(local_addr());
    assert!(ctx.add_pair(1, 2, 10, 20).is_ok());
    assert_eq!(ctx.add_pair(1, 2, 11, 21), Err(StreamError::DuplicateRoute { up: 1, down: 2 }));
    assert_eq!(ctx.take_sender(1, 3), Err(StreamError::NoRoute { up: 1, down: 3 }));
    assert_eq!(ctx.take_sender(1, 2), Ok(10));
    assert_eq!(ctx.take_sender(1, 2), Err(StreamError::NoRoute { up: 1, down: 2 }));
    assert_eq!(ctx.take_receiver(1, 2), Ok(20));
    assert!(ctx.contains(1, 2));
    ctx.retain(1, &vec![]);
    assert!(!ctx.contains(1, 2));
    assert_eq!(ctx.len(), 0);
}

#[test]
fn barrier_mutation_queries() {
    let b = Barrier::new_test_barrier(4).with_mutation(Mutation::AddOutput(vec![OutputsEntry {
        actor_id: 1,
        infos: vec![local_actor(5)],
    }]));
    assert!(b.is_to_add_output(5));
    assert!(!b.is_to_add_output(1));
    assert!(!b.is_to_stop_actor(5));
    let s = Barrier::new_test_barrier(4).with_mutation(Mutation::Stop(vec![5]));
    assert!(s.is_to_stop_actor(5));
    assert!(Message::Barrier(s).is_stop());
    assert!(!Message::Barrier(Barrier::new_test_barrier(1)).is_stop());
}

#[test]
fn update_outputs_narrows_to_one_channel() {
    let actor_id = 233;
    let mut ctx: ChannelRegistry<u32, u32> = ChannelRegistry::new(local_addr());
    add_channels(&mut ctx, actor_id, &[100, 234, 235, 238]);
    let first = BroadcastDispatcher::new(vec![Output { actor_id: 100, remote: false, writer: 100 }]).unwrap();
    let mut executor = DispatchExecutor::new(DispatcherImpl::Broadcast(first), actor_id);
    let b1 = Barrier::new_test_barrier(1).with_mutation(Mutation::UpdateOutputs(vec![OutputsEntry {
        actor_id,
        infos: vec![local_actor(234), local_actor(235), remote_actor(238)],
    }]));
    assert_eq!(executor.dispatch(Message::Barrier(b1), &mut ctx).unwrap().len(), 3);
    assert_eq!(ctx.len(), 3);

    // a new downstream whose writer is still registered replaces the three
    add_channels(&mut ctx, actor_id, &[236]);
    let b2 = Barrier::new_test_barrier(2).with_mutation(Mutation::UpdateOutputs(vec![OutputsEntry {
        actor_id,
        infos: vec![local_actor(236)],
    }]));
    let out = executor.dispatch(Message::Barrier(b2), &mut ctx).unwrap();
    assert_eq!(out.len(), 1);
    assert_eq!(ctx.len(), 1);
    assert_eq!(edges_from(&ctx, actor_id), vec![236]);
    match &executor.inner {
        DispatcherImpl::Broadcast(d) => {
            assert_eq!(d.outputs.len(), 1);
            assert_eq!((d.outputs[0].actor_id, d.outputs[0].writer), (236, 236));
        },
        _ => panic!("the policy changed"),
    }
    // re-adding an edge that is present is refused
    assert_eq!(ctx.add_pair(actor_id, 236, 0, 0), Err(StreamError::DuplicateRoute { up: actor_id, down: 236 }));
}
