use iggy_core::cache::{CacheKey, CacheMetrics, PartitionCache};
use iggy_core::create_partitions::CreatePartitions;
use iggy_core::dispatch::{CommandPipeline, ServerCommand};
use iggy_core::error::IggyError;
use iggy_core::identifier::Identifier;
use iggy_core::partition::Partition;
use iggy_core::save_messages::{
    MessageSaverConfig, MessagesSaver, SaveMessagesCommand, SaveMessagesExecutor,
};
use iggy_core::system::{Stream, System, Topic};

fn small_system() -> System {
    let mut system = System::new(4);
    system.streams.push(Stream {
        stream_id: 1,
        name: b"default".to_vec(),
        topics: vec![Topic { topic_id: 1, name: b"events".to_vec(), partitions: Vec::new() }],
    });
    system
}

#[test]
fn append_offsets_are_gapless_from_zero() {
    let mut partition = Partition::new(1, 3);
    let mut offsets = Vec::new();
    for i in 0..10u8 {
        offsets.push(partition.append(vec![i]));
    }
    assert_eq!(offsets, (0..10).collect::<Vec<u64>>());
    assert_eq!(partition.next_offset, 10);
}

#[test]
fn concurrent_style_appends_get_unique_offsets() {
    // Appends to one partition are serialized through its dispatch shard;
    // each of the N appenders observes a distinct offset and together they
    // cover exactly 0..N-1.
    let n = 25u64;
    let mut partition = Partition::new(1, 4);
    let mut seen = std::collections::BTreeSet::new();
    for k in 0..n {
        let offset = partition.append(format!("payload-{k}").into_bytes());
        assert!(seen.insert(offset), "offset {offset} handed out twice");
    }
    assert_eq!(seen.into_iter().collect::<Vec<u64>>(), (0..n).collect::<Vec<u64>>());
}

#[test]
fn read_returns_consecutive_messages_across_segments() {
    let mut partition = Partition::new(1, 3);
    for i in 0..8u8 {
        partition.append(vec![i, i]);
    }
    let messages = partition.read(2, 4);
    assert_eq!(messages.len(), 4);
    for (k, m) in messages.iter().enumerate() {
        let expected = 2 + k as u8;
        assert_eq!(m.offset, expected as u64);
        assert_eq!(m.payload, vec![expected, expected]);
    }
    // Past the end: empty, not an error.
    assert!(partition.read(100, 4).is_empty());
    // Cut off at the end of the log.
    assert_eq!(partition.read(6, 10).len(), 2);
}

#[test]
fn flush_is_idempotent_with_nothing_appended() {
    let mut partition = Partition::new(1, 4);
    for i in 0..5u8 {
        partition.append(vec![i]);
    }
    let first = partition.flush(true);
    assert_eq!(first, 5 - 4); // rollover already persisted the first segment
    let segments_before = partition.segments.len();
    let second = partition.flush(false);
    assert_eq!(second, 0);
    assert_eq!(partition.segments.len(), segments_before);
    assert_eq!(partition.next_offset, 5);
    assert_eq!(partition.read(0, 10).len(), 5);
}

#[test]
fn persist_messages_counts_and_drains() {
    let mut system = small_system();
    let command = CreatePartitions {
        stream_id: Identifier::numeric(1).unwrap(),
        topic_id: Identifier::numeric(1).unwrap(),
        partitions_count: 2,
    };
    assert!(system.apply_create_partitions(&command).is_ok());
    system.streams[0].topics[0].partitions[0].append(b"a".to_vec());
    system.streams[0].topics[0].partitions[0].append(b"b".to_vec());
    system.streams[0].topics[0].partitions[1].append(b"c".to_vec());
    let mut executor = SaveMessagesExecutor;
    let saved = executor.execute(&mut system, SaveMessagesCommand { enforce_fsync: true });
    assert_eq!(saved, 3);
    let saved_again = executor.execute(&mut system, SaveMessagesCommand::default());
    assert_eq!(saved_again, 0);
}

#[test]
fn create_partitions_numbers_from_one() {
    let mut system = small_system();
    let command = CreatePartitions {
        stream_id: Identifier::named(b"default".to_vec()).unwrap(),
        topic_id: Identifier::named(b"events".to_vec()).unwrap(),
        partitions_count: 3,
    };
    assert!(system.apply_create_partitions(&command).is_ok());
    let ids: Vec<u32> = system.streams[0].topics[0]
        .partitions
        .iter()
        .map(|p| p.partition_id)
        .collect();
    assert_eq!(ids, vec![1, 2, 3]);
}

#[test]
fn create_partitions_unknown_targets() {
    let mut system = small_system();
    let mut command = CreatePartitions {
        stream_id: Identifier::numeric(9).unwrap(),
        topic_id: Identifier::numeric(1).unwrap(),
        partitions_count: 1,
    };
    assert_eq!(
        system.apply_create_partitions(&command),
        Err(IggyError::StreamIdNotFound)
    );
    command.stream_id = Identifier::numeric(1).unwrap();
    command.topic_id = Identifier::numeric(9).unwrap();
    assert_eq!(
        system.apply_create_partitions(&command),
        Err(IggyError::TopicIdNotFound)
    );
    command.topic_id = Identifier::numeric(1).unwrap();
    command.partitions_count = 0;
    assert_eq!(
        system.apply_create_partitions(&command),
        Err(IggyError::TooManyPartitions)
    );
    assert!(system.streams[0].topics[0].partitions.is_empty());
}

#[test]
fn cache_metrics_count_hits_and_misses() {
    let mut cache = PartitionCache::new(8);
    let key = CacheKey { stream_id: 1, topic_id: 1, partition_id: 1 };
    // Three misses before anything is cached.
    for _ in 0..3 {
        assert!(cache.get(key).is_none());
    }
    cache.put(key, b"cached".to_vec());
    // Five hits afterwards.
    for _ in 0..5 {
        assert_eq!(cache.get(key).unwrap(), b"cached".to_vec());
    }
    let metrics = cache
        .metrics
        .iter()
        .find(|(k, _)| *k == key)
        .map(|(_, m)| *m)
        .unwrap();
    assert_eq!(metrics, CacheMetrics { hits: 5, misses: 3 });
    // hit_ratio = 5 / 8, derived, in thousandths.
    assert_eq!(metrics.hit_ratio_permille(), 625);
    assert_eq!(CacheMetrics { hits: 0, misses: 0 }.hit_ratio_permille(), 0);
    assert_eq!(CacheMetrics { hits: 1, misses: 2 }.hit_ratio_permille(), 333);
}

#[test]
fn cache_evicts_oldest_at_capacity() {
    let mut cache = PartitionCache::new(2);
    let k1 = CacheKey { stream_id: 1, topic_id: 1, partition_id: 1 };
    let k2 = CacheKey { stream_id: 1, topic_id: 1, partition_id: 2 };
    let k3 = CacheKey { stream_id: 1, topic_id: 1, partition_id: 3 };
    cache.put(k1, vec![1]);
    cache.put(k2, vec![2]);
    cache.put(k3, vec![3]);
    assert!(cache.get(k1).is_none());
    assert_eq!(cache.get(k2).unwrap(), vec![2]);
    assert_eq!(cache.get(k3).unwrap(), vec![3]);
    // Overwriting keeps the slot; nothing is evicted.
    cache.put(k2, vec![9]);
    assert_eq!(cache.get(k2).unwrap(), vec![9]);
    assert_eq!(cache.entries.len(), 2);
}

#[test]
fn disabled_scheduler_emits_no_commands() {
    let saver = MessagesSaver::new(&MessageSaverConfig {
        enabled: false,
        enforce_fsync: true,
        interval_ms: 10,
    });
    let mut pipeline = CommandPipeline::new(1);
    for _ in 0..50 {
        if let Some(command) = saver.on_tick() {
            pipeline.send(ServerCommand::SaveMessages(command));
        }
    }
    pipeline.drop_producer();
    assert!(pipeline.queue.is_empty());
    assert!(pipeline.recv().is_none());
}

#[test]
fn running_scheduler_emits_one_command_per_tick() {
    let saver = MessagesSaver::new(&MessageSaverConfig {
        enabled: true,
        enforce_fsync: true,
        interval_ms: 10,
    });
    let mut pipeline = CommandPipeline::new(1);
    for _ in 0..4 {
        if let Some(command) = saver.on_tick() {
            pipeline.send(ServerCommand::SaveMessages(command));
        }
    }
    pipeline.drop_producer();
    let mut received = 0;
    while let Some(command) = pipeline.recv() {
        match command {
            ServerCommand::SaveMessages(c) => {
                assert!(c.enforce_fsync);
                received += 1;
            }
            _ => panic!("unexpected command kind"),
        }
    }
    assert_eq!(received, 4);
    assert!(pipeline.producers == 0);
}

#[test]
fn pipeline_preserves_arrival_order() {
    let mut pipeline = CommandPipeline::new(2);
    pipeline.send(ServerCommand::SaveMessages(SaveMessagesCommand { enforce_fsync: false }));
    pipeline.send(ServerCommand::CreatePartitions(CreatePartitions::default()));
    pipeline.send(ServerCommand::SaveMessages(SaveMessagesCommand { enforce_fsync: true }));
    pipeline.drop_producer();
    pipeline.drop_producer();
    assert!(matches!(
        pipeline.recv(),
        Some(ServerCommand::SaveMessages(SaveMessagesCommand { enforce_fsync: false }))
    ));
    assert!(matches!(pipeline.recv(), Some(ServerCommand::CreatePartitions(_))));
    assert!(matches!(
        pipeline.recv(),
        Some(ServerCommand::SaveMessages(SaveMessagesCommand { enforce_fsync: true }))
    ));
    assert!(pipeline.recv().is_none());
}
