use iggy_core::create_partitions::{CreatePartitions, CREATE_PARTITIONS_CODE, MAX_PARTITIONS_COUNT};
use iggy_core::error::IggyError;
use iggy_core::identifier::Identifier;
use iggy_core::stats::{
    decode_cache_metrics, encode_cache_metrics, parse_string_key, BenchmarkCacheMetrics,
    BenchmarkCacheMetricsKey,
};

#[test]
fn should_be_serialized_as_bytes() {
    let command = CreatePartitions {
        stream_id: Identifier::numeric(1).unwrap(),
        topic_id: Identifier::numeric(2).unwrap(),
        partitions_count: 3,
    };

    let bytes = command.to_bytes();
    let mut position = 0;
    let (stream_id, n1) = Identifier::from_bytes(&bytes).unwrap();
    position += n1;
    let tail: Vec<u8> = bytes[position..].to_vec();
    let (topic_id, n2) = Identifier::from_bytes(&tail).unwrap();
    position += n2;
    let partitions_count = u32::from_le_bytes(bytes[position..position + 4].try_into().unwrap());

    assert!(!bytes.is_empty());
    assert_eq!(stream_id, command.stream_id);
    assert_eq!(topic_id, command.topic_id);
    assert_eq!(partitions_count, command.partitions_count);
}

#[test]
fn should_be_deserialized_from_bytes() {
    let stream_id = Identifier::numeric(1).unwrap();
    let topic_id = Identifier::numeric(2).unwrap();
    let partitions_count = 3u32;
    let mut bytes = Vec::new();
    bytes.extend_from_slice(&stream_id.to_bytes());
    bytes.extend_from_slice(&topic_id.to_bytes());
    bytes.extend_from_slice(&partitions_count.to_le_bytes());
    let command = CreatePartitions::from_bytes(&bytes);
    assert!(command.is_ok());

    let command = command.unwrap();
    assert_eq!(command.stream_id, stream_id);
    assert_eq!(command.topic_id, topic_id);
    assert_eq!(command.partitions_count, partitions_count);
}

#[test]
fn round_trip_numeric_identifiers() {
    let command = CreatePartitions {
        stream_id: Identifier::numeric(7).unwrap(),
        topic_id: Identifier::numeric(4_000_000_000).unwrap(),
        partitions_count: 1000,
    };
    let decoded = CreatePartitions::from_bytes(&command.to_bytes()).unwrap();
    assert_eq!(decoded, command);
}

#[test]
fn round_trip_named_identifiers() {
    let command = CreatePartitions {
        stream_id: Identifier::named(b"orders".to_vec()).unwrap(),
        topic_id: Identifier::named(b"events-2024".to_vec()).unwrap(),
        partitions_count: 42,
    };
    let decoded = CreatePartitions::from_bytes(&command.to_bytes()).unwrap();
    assert_eq!(decoded, command);
}

#[test]
fn command_code_is_fixed() {
    let command = CreatePartitions::default();
    assert_eq!(command.code(), CREATE_PARTITIONS_CODE);
    assert_eq!(command.partitions_count, 1);
}

#[test]
fn decode_short_buffer_is_invalid_command() {
    let bytes: Vec<u8> = vec![1, 4, 9, 0, 0, 0, 1, 4, 9];
    assert_eq!(CreatePartitions::from_bytes(&bytes), Err(IggyError::InvalidCommand));
}

#[test]
fn decode_truncated_count_is_invalid_number_encoding() {
    let stream_id = Identifier::numeric(1).unwrap();
    let topic_id = Identifier::numeric(2).unwrap();
    let mut bytes = Vec::new();
    bytes.extend_from_slice(&stream_id.to_bytes());
    bytes.extend_from_slice(&topic_id.to_bytes());
    bytes.extend_from_slice(&[9, 9]);
    assert_eq!(
        CreatePartitions::from_bytes(&bytes),
        Err(IggyError::InvalidNumberEncoding)
    );
}

#[test]
fn decode_unknown_discriminant_is_invalid_identifier() {
    let mut bytes = vec![3u8, 4, 1, 0, 0, 0];
    bytes.extend_from_slice(&Identifier::numeric(2).unwrap().to_bytes());
    bytes.extend_from_slice(&5u32.to_le_bytes());
    assert_eq!(
        CreatePartitions::from_bytes(&bytes),
        Err(IggyError::InvalidIdentifier)
    );
}

#[test]
fn identifier_zero_is_rejected() {
    assert_eq!(Identifier::numeric(0), Err(IggyError::InvalidIdentifier));
    assert_eq!(Identifier::named(Vec::new()), Err(IggyError::InvalidIdentifier));
    assert_eq!(Identifier::named(vec![b'x'; 256]), Err(IggyError::InvalidIdentifier));
}

#[test]
fn validate_boundaries() {
    let mut command = CreatePartitions::default();
    command.partitions_count = 0;
    assert_eq!(command.validate(), Err(IggyError::TooManyPartitions));
    command.partitions_count = MAX_PARTITIONS_COUNT + 1;
    assert_eq!(command.validate(), Err(IggyError::TooManyPartitions));
    command.partitions_count = 1;
    assert!(command.validate().is_ok());
    command.partitions_count = MAX_PARTITIONS_COUNT;
    assert!(command.validate().is_ok());
}

#[test]
fn string_key_renders_dash_delimited() {
    let key = BenchmarkCacheMetricsKey { stream_id: 1, topic_id: 2, partition_id: 3 };
    assert_eq!(key.to_string_key(), "1-2-3");
    let key = BenchmarkCacheMetricsKey {
        stream_id: 0,
        topic_id: 4294967295,
        partition_id: 10,
    };
    assert_eq!(key.to_string_key(), "0-4294967295-10");
}

#[test]
fn parse_string_key_round_trips() {
    let key = BenchmarkCacheMetricsKey { stream_id: 12, topic_id: 0, partition_id: 4294967295 };
    assert_eq!(parse_string_key(&key.to_string_key()), Some(key));
}

#[test]
fn parse_string_key_rejects_malformed() {
    assert_eq!(parse_string_key("1-2"), None);
    assert_eq!(parse_string_key("1-2-3-4"), None);
    assert_eq!(parse_string_key("a-2-3"), None);
    assert_eq!(parse_string_key("1--3"), None);
    assert_eq!(parse_string_key("1-2-4294967296"), None);
    assert_eq!(parse_string_key(""), None);
    assert_eq!(
        parse_string_key("007-2-3"),
        Some(BenchmarkCacheMetricsKey { stream_id: 7, topic_id: 2, partition_id: 3 })
    );
}

#[test]
fn decode_metrics_map_skips_malformed_keys() {
    let m1 = BenchmarkCacheMetrics { hits: 5, misses: 2 };
    let m2 = BenchmarkCacheMetrics { hits: 1, misses: 1 };
    let pairs = vec![
        ("1-2".to_string(), m1),
        ("1-2-3".to_string(), m2),
    ];
    let decoded = decode_cache_metrics(&pairs);
    assert_eq!(decoded.len(), 1);
    assert_eq!(
        decoded[0].0,
        BenchmarkCacheMetricsKey { stream_id: 1, topic_id: 2, partition_id: 3 }
    );
    assert_eq!(decoded[0].1, m2);
}

#[test]
fn metrics_map_round_trips_through_string_keys() {
    let entries = vec![
        (
            BenchmarkCacheMetricsKey { stream_id: 1, topic_id: 2, partition_id: 3 },
            BenchmarkCacheMetrics { hits: 10, misses: 0 },
        ),
        (
            BenchmarkCacheMetricsKey { stream_id: 9, topic_id: 0, partition_id: 4294967295 },
            BenchmarkCacheMetrics { hits: 0, misses: 7 },
        ),
    ];
    let encoded = encode_cache_metrics(&entries);
    assert_eq!(encoded[0].0, "1-2-3");
    assert_eq!(encoded[1].0, "9-0-4294967295");
    let decoded = decode_cache_metrics(&encoded);
    assert_eq!(decoded, entries);
}
