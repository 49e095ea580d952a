use columnar_exec::cast::LogicalType;
use columnar_exec::ingest::{
    decode_file_region, read_le_u64, reader_kind_for, IngestError, IpcReadMode, IpcReaderExec,
    IpcReaderStream, PartitionMetrics, ReaderKind,
};
use columnar_exec::schema::{Field, Schema};

fn frame(payload: &[u8]) -> Vec<u8> {
    let compressed = zstd::stream::encode_all(payload, 0).unwrap();
    let mut out = (compressed.len() as u64).to_le_bytes().to_vec();
    out.extend_from_slice(&compressed);
    out
}

#[test]
fn le_u64_prefix() {
    let bytes = [0u8, 1, 2, 0x12, 0x34, 0, 0, 0, 0, 0, 0x99];
    assert_eq!(read_le_u64(&bytes, 1), 0x3412_0201u64);
    assert_eq!(read_le_u64(&bytes, 0), 0x34_1202_0100u64);
}

#[test]
fn region_round_trips_frames_in_order() {
    let first = b"first columnar stream".to_vec();
    let second = b"second columnar stream, longer than the first one".to_vec();
    let mut region = frame(&first);
    region.extend_from_slice(&frame(&second));
    let streams = decode_file_region(&region).unwrap();
    assert_eq!(streams, vec![first, second]);
}

#[test]
fn empty_region_is_clean_eof() {
    assert_eq!(decode_file_region(&[]), Ok(Vec::new()));
}

#[test]
fn overlong_final_frame_is_corrupt() {
    let good = frame(b"intact");
    let mut region = good.clone();
    // A final frame whose declared length exceeds the remaining bytes.
    region.extend_from_slice(&1000u64.to_le_bytes());
    region.extend_from_slice(&[1, 2, 3]);
    assert_eq!(decode_file_region(&region), Err(IngestError::CorruptFraming));
}

#[test]
fn truncated_length_prefix_is_corrupt() {
    let mut region = frame(b"intact");
    region.extend_from_slice(&[9, 9, 9]);
    assert_eq!(decode_file_region(&region), Err(IngestError::CorruptFraming));
}

#[test]
fn garbage_payload_fails_decompression() {
    let mut region = 4u64.to_le_bytes().to_vec();
    region.extend_from_slice(&[0xde, 0xad, 0xbe, 0xef]);
    assert_eq!(decode_file_region(&region), Err(IngestError::DecompressFailed));
}

#[test]
fn reader_kinds_per_mode() {
    assert!(matches!(
        reader_kind_for(IpcReadMode::ChannelUncompressed, false),
        ReaderKind::UncompressedChannel
    ));
    assert!(matches!(
        reader_kind_for(IpcReadMode::ChannelUncompressed, true),
        ReaderKind::UncompressedChannel
    ));
    assert!(matches!(
        reader_kind_for(IpcReadMode::Channel, false),
        ReaderKind::CompressedChannel
    ));
    assert!(matches!(
        reader_kind_for(IpcReadMode::Channel, true),
        ReaderKind::CompressedChannel
    ));
    assert!(matches!(
        reader_kind_for(IpcReadMode::ChannelAndFileSegment, true),
        ReaderKind::FileRegion
    ));
    assert!(matches!(
        reader_kind_for(IpcReadMode::ChannelAndFileSegment, false),
        ReaderKind::CompressedChannel
    ));
}

#[test]
fn stream_chains_segments_in_order() {
    let mut stream = IpcReaderStream::new(vec![vec![1u32, 2], vec![], vec![3], vec![]]);
    assert_eq!(stream.next_batch(), Some(1));
    assert_eq!(stream.next_batch(), Some(2));
    assert_eq!(stream.next_batch(), Some(3));
    assert_eq!(stream.next_batch(), None);
    assert_eq!(stream.next_batch(), None);
}

#[test]
fn stream_yields_sum_of_segment_batches() {
    let segments: Vec<Vec<u64>> = vec![vec![10, 11], vec![12], vec![], vec![13, 14, 15]];
    let total: usize = segments.iter().map(|s| s.len()).sum();
    let mut stream = IpcReaderStream::new(segments);
    let drained = stream.drain();
    assert_eq!(drained.len(), total);
    assert_eq!(drained, vec![10, 11, 12, 13, 14, 15]);
    assert_eq!(stream.next_batch(), None);
}

#[test]
fn stream_of_no_segments_ends_immediately() {
    let mut stream: IpcReaderStream<u8> = IpcReaderStream::new(Vec::new());
    assert_eq!(stream.next_batch(), None);
    assert_eq!(stream.drain(), Vec::<u8>::new());
}

#[test]
fn ingestion_node_is_a_leaf() {
    let schema = Schema::new(vec![
        Field { name: "id".to_string(), data_type: LogicalType::Int64, nullable: false },
        Field { name: "label".to_string(), data_type: LogicalType::Utf8, nullable: true },
    ]);
    let node = IpcReaderExec::new(4, "provider-17".to_string(), schema, IpcReadMode::Channel);
    assert_eq!(node.num_partitions, 4);
    assert_eq!(node.ipc_provider_resource_id, "provider-17");
    assert_eq!(node.output_partition_count(), 4);
    assert_eq!(node.schema().num_fields(), 2);
    assert_eq!(node.schema().fields[0].name, "id");
    assert!(node.schema().fields[1].nullable);
    assert!(node.with_new_children_ok(0));
    assert!(!node.with_new_children_ok(1));
}

#[test]
fn stream_accepts_segments_one_at_a_time() {
    let mut stream: IpcReaderStream<u32> = IpcReaderStream::new(Vec::new());
    assert_eq!(stream.next_batch(), None);
    stream.push_segment(vec![1, 2]);
    assert_eq!(stream.next_batch(), Some(1));
    stream.push_segment(vec![3]);
    assert_eq!(stream.next_batch(), Some(2));
    assert_eq!(stream.next_batch(), Some(3));
    assert_eq!(stream.next_batch(), None);
}

#[test]
fn metrics_count_bytes_and_saturate() {
    let mut metrics = PartitionMetrics::new();
    assert_eq!(metrics.size, 0);
    metrics.record(5);
    metrics.record(7);
    assert_eq!(metrics.size, 12);
    metrics.record(u64::MAX);
    assert_eq!(metrics.size, u64::MAX);
    metrics.record(1);
    assert_eq!(metrics.size, u64::MAX);
}
