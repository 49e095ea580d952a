//! Segmented ingestion: reconstructing one continuous batch stream from an
//! ordered sequence of segments.  A segment is either a byte channel
//! (optionally compressed) or a region of a seekable file holding a
//! concatenation of length-prefixed, independently compressed frames.

use crate::schema::Schema;
use vstd::prelude::*;

verus! {

// ---------------------------------------------------------------------------
// Read modes and reader classification.
// ---------------------------------------------------------------------------

/// How the segments of a partition are to be decoded.
#[derive(Clone, Copy, Debug)]
pub enum IpcReadMode {
    /// Every segment is an uncompressed byte channel.
    ChannelUncompressed,
    /// Every segment is a compressed byte channel.
    Channel,
    /// A segment may be a file region or a compressed byte channel.
    ChannelAndFileSegment,
}

/// The ingestion plan node: a leaf that, per partition, pulls the segments
/// of the provider registered under `ipc_provider_resource_id` and chains
/// their decoded batches into one stream of batches conforming to
/// `schema`.  The host runtime resolves the provider handle and runs the
/// I/O; the schema never changes after construction.
pub struct IpcReaderExec {
    pub num_partitions: usize,
    pub ipc_provider_resource_id: String,
    pub schema: Schema,
    pub mode: IpcReadMode,
}

impl IpcReaderExec {
    pub fn new(
        num_partitions: usize,
        ipc_provider_resource_id: String,
        schema: Schema,
        mode: IpcReadMode,
    ) -> (s: Self)
        ensures
            s.num_partitions == num_partitions,
            s.ipc_provider_resource_id == ipc_provider_resource_id,
            s.schema == schema,
            s.mode == mode,
    {
        IpcReaderExec { num_partitions, ipc_provider_resource_id, schema, mode }
    }

    pub fn schema(&self) -> (r: &Schema)
        ensures
            *r == self.schema,
    {
        &self.schema
    }

    /// Output partitioning is opaque, with as many partitions as requested.
    pub fn output_partition_count(&self) -> (r: usize)
        ensures
            r == self.num_partitions,
    {
        self.num_partitions
    }

    /// The node is always a leaf; supplying children when rebuilding it is
    /// the structural error reported at plan-rewrite time.
    pub fn with_new_children_ok(&self, n_children: usize) -> (r: bool)
        ensures
            r <==> n_children == 0,
    {
        n_children == 0
    }
}

/// Per-partition ingestion metrics: bytes of batch data produced so far.
/// Timers are kept by the host scheduler around its own polls.
pub struct PartitionMetrics {
    pub size: u64,
}

impl PartitionMetrics {
    pub fn new() -> (m: Self)
        ensures
            m.size == 0,
    {
        PartitionMetrics { size: 0 }
    }

    /// Adds one emitted batch's byte size to the counter, saturating
    /// rather than wrapping.
    pub fn record(&mut self, bytes: u64)
        ensures
            final(self).size == (if old(self).size + bytes <= u64::MAX {
                old(self).size + bytes
            } else {
                u64::MAX as int
            }),
    {
        self.size = if bytes <= u64::MAX - self.size {
            self.size + bytes
        } else {
            u64::MAX
        };
    }
}

/// The concrete reader built for one segment.
#[derive(Clone, Copy, Debug)]
pub enum ReaderKind {
    UncompressedChannel,
    CompressedChannel,
    FileRegion,
}

pub open spec fn spec_reader_kind(mode: IpcReadMode, is_file_segment: bool) -> ReaderKind {
    match mode {
        IpcReadMode::ChannelUncompressed => ReaderKind::UncompressedChannel,
        IpcReadMode::Channel => ReaderKind::CompressedChannel,
        IpcReadMode::ChannelAndFileSegment => if is_file_segment {
            ReaderKind::FileRegion
        } else {
            ReaderKind::CompressedChannel
        },
    }
}

/// Classifies one segment: only the mixed mode inspects the segment itself,
/// and only there does a file region get a file-region reader.
pub fn reader_kind_for(mode: IpcReadMode, is_file_segment: bool) -> (r: ReaderKind)
    ensures
        r == spec_reader_kind(mode, is_file_segment),
{
    match mode {
        IpcReadMode::ChannelUncompressed => ReaderKind::UncompressedChannel,
        IpcReadMode::Channel => ReaderKind::CompressedChannel,
        IpcReadMode::ChannelAndFileSegment => {
            if is_file_segment {
                ReaderKind::FileRegion
            } else {
                ReaderKind::CompressedChannel
            }
        },
    }
}

// ---------------------------------------------------------------------------
// File-region framing.
//
// A region is a concatenation of frames: an 8-byte little-endian length,
// then exactly that many compressed bytes forming one columnar stream.
// ---------------------------------------------------------------------------

/// Value of 8 little-endian bytes.
pub open spec fn le64_val(s: Seq<u8>) -> int
    recommends
        s.len() == 8,
{
    s[0] + s[1] * 0x100 + s[2] * 0x1_0000 + s[3] * 0x100_0000 + s[4] * 0x1_0000_0000 + s[5]
        * 0x100_0000_0000 + s[6] * 0x1_0000_0000_0000 + s[7] * 0x100_0000_0000_0000
}

/// Reads the 8-byte little-endian frame-length prefix at `pos`.
pub fn read_le_u64(bytes: &[u8], pos: usize) -> (r: u64)
    requires
        pos + 8 <= bytes@.len(),
    ensures
        r == le64_val(bytes@.subrange(pos as int, pos + 8)),
{
    let b0 = bytes[pos] as u64;
    let b1 = bytes[pos + 1] as u64;
    let b2 = bytes[pos + 2] as u64;
    let b3 = bytes[pos + 3] as u64;
    let b4 = bytes[pos + 4] as u64;
    let b5 = bytes[pos + 5] as u64;
    let b6 = bytes[pos + 6] as u64;
    let b7 = bytes[pos + 7] as u64;
    b0 + b1 * 0x100 + b2 * 0x1_0000 + b3 * 0x100_0000 + b4 * 0x1_0000_0000 + b5
        * 0x100_0000_0000 + b6 * 0x1_0000_0000_0000 + b7 * 0x100_0000_0000_0000
}

/// Why a partition stream failed.
#[derive(Clone, Copy, Debug, PartialEq, Eq, Structural)]
pub enum IngestError {
    /// The region's framing is malformed: a frame header is truncated, or a
    /// declared frame length exceeds the bytes remaining in the region.
    CorruptFraming,
    /// A frame's compressed payload did not decompress as one zstd stream.
    DecompressFailed,
}

/// Decompressed payload of one zstd stream, or `None` when the bytes do not
/// form one.
pub uninterp spec fn zstd_decoded(frame: Seq<u8>) -> Option<Seq<u8>>;

/// Relies on zstd: `zstd::stream::decode_all`, which decompresses one
/// complete zstd stream; the result depends on the input bytes alone.
#[verifier::external_body]
fn decompress_slice(bytes: &[u8], start: usize, len: usize) -> (r: Option<Vec<u8>>)
    requires
        start + len <= bytes@.len(),
    ensures
        match r {
            Some(v) => zstd_decoded(bytes@.subrange(start as int, start + len)) == Some(v@),
            None => zstd_decoded(bytes@.subrange(start as int, start + len)) is None,
        },
{
    zstd::stream::decode_all(&bytes[start..start + len]).ok()
}

/// The walk over a region's frames, starting at `pos`: either the sequence
/// of decompressed frame payloads, or the first error met.  Framing errors
/// are found header by header, so a frame that fails to decompress hides
/// anything malformed after it.
pub open spec fn region_decode_from(region: Seq<u8>, pos: int) -> Result<
    Seq<Seq<u8>>,
    IngestError,
>
    decreases region.len() - pos,
{
    if pos == region.len() {
        Ok(Seq::empty())
    } else if pos + 8 > region.len() {
        Err(IngestError::CorruptFraming)
    } else {
        let frame_len = le64_val(region.subrange(pos, pos + 8));
        if pos + 8 + frame_len > region.len() {
            Err(IngestError::CorruptFraming)
        } else {
            match zstd_decoded(region.subrange(pos + 8, pos + 8 + frame_len)) {
                None => Err(IngestError::DecompressFailed),
                Some(payload) => match region_decode_from(region, pos + 8 + frame_len) {
                    Ok(rest) => Ok(seq![payload] + rest),
                    Err(e) => Err(e),
                },
            }
        }
    }
}

/// What decoding a whole region yields.
pub open spec fn region_decode(region: Seq<u8>) -> Result<Seq<Seq<u8>>, IngestError> {
    region_decode_from(region, 0)
}

/// Splits a file region into its frames and decompresses each: the
/// decompressed columnar streams in frame order, or the first error met.
/// Succeeds if and only if the walk over the region's framing does.
#[verifier::loop_isolation(false)]
pub fn decode_file_region(region: &[u8]) -> (r: Result<Vec<Vec<u8>>, IngestError>)
    ensures
        match r {
            Ok(streams) => region_decode(region@) matches Ok(payloads) && streams@.len()
                == payloads.len() && (forall|i: int|
                0 <= i < payloads.len() ==> streams@[i]@ == payloads[i]),
            Err(e) => region_decode(region@) == Err::<Seq<Seq<u8>>, IngestError>(e),
        },
{
    let n = region.len();
    let mut pos: usize = 0;
    let mut out: Vec<Vec<u8>> = Vec::new();
    while pos < n
        invariant
            pos <= n,
            n == region@.len(),
            match region_decode_from(region@, pos as int) {
                Ok(rest) => region_decode(region@) matches Ok(all) && all == out@.map_values(
                    |v: Vec<u8>| v@,
                ) + rest,
                Err(e) => region_decode(region@) == Err::<Seq<Seq<u8>>, IngestError>(e),
            },
        decreases n - pos,
    {
        if n - pos < 8 {
            return Err(IngestError::CorruptFraming);
        }
        let frame_len64 = read_le_u64(region, pos);
        if frame_len64 > (n - pos - 8) as u64 {
            return Err(IngestError::CorruptFraming);
        }
        let frame_len = frame_len64 as usize;
        let ghost prev = out@;
        match decompress_slice(region, pos + 8, frame_len) {
            Some(stream) => {
                out.push(stream);
            },
            None => {
                return Err(IngestError::DecompressFailed);
            },
        }
        proof {
            let gpos = pos as int;
            let next = gpos + 8 + frame_len;
            assert(region_decode_from(region@, gpos) matches Ok(all_from) ==> all_from
                == seq![out@.last()@] + region_decode_from(region@, next).unwrap());
            assert(out@.map_values(|v: Vec<u8>| v@) =~= prev.map_values(|v: Vec<u8>| v@) + seq![
                out@.last()@,
            ]);
            assert(match region_decode_from(region@, next) {
                Ok(rest) => region_decode(region@) matches Ok(all) && all == out@.map_values(
                    |v: Vec<u8>| v@,
                ) + rest,
                Err(e) => region_decode(region@) == Err::<Seq<Seq<u8>>, IngestError>(e),
            }) by {
                if region_decode_from(region@, next) is Ok {
                    assert(prev.map_values(|v: Vec<u8>| v@) + (seq![out@.last()@]
                        + region_decode_from(region@, next).unwrap()) =~= out@.map_values(
                        |v: Vec<u8>| v@,
                    ) + region_decode_from(region@, next).unwrap());
                }
            }
        }
        pos = pos + 8 + frame_len;
    }
    proof {
        assert(out@.map_values(|v: Vec<u8>| v@) + Seq::<Seq<u8>>::empty() =~= out@.map_values(
            |v: Vec<u8>| v@,
        ));
    }
    Ok(out)
}

// ---------------------------------------------------------------------------
// The per-partition stream: chaining decoded segments.
//
// The provider hands over segments in a fixed order; each decodes to a
// sequence of batches.  The stream yields exactly the concatenation of those
// sequences, one batch per poll, advancing over empty segments in an
// explicit loop so that arbitrarily many of them cost no stack depth.
// ---------------------------------------------------------------------------

/// Concatenation of the batch sequences of the given segments, in order.
pub open spec fn flatten_segments<B>(segments: Seq<Vec<B>>) -> Seq<B>
    decreases segments.len(),
{
    if segments.len() == 0 {
        Seq::empty()
    } else {
        segments[0]@ + flatten_segments(segments.drop_first())
    }
}

/// Total number of batches the given segments decode to.
pub open spec fn total_batches<B>(segments: Seq<Vec<B>>) -> int
    decreases segments.len(),
{
    if segments.len() == 0 {
        0
    } else {
        segments[0]@.len() + total_batches(segments.drop_first())
    }
}

/// A partition stream over segments decoding to `n1, ..., nk` batches
/// yields exactly `n1 + ... + nk` batches.
pub proof fn lemma_flatten_segments_len<B>(segments: Seq<Vec<B>>)
    ensures
        flatten_segments(segments).len() == total_batches(segments),
    decreases segments.len(),
{
    if segments.len() > 0 {
        lemma_flatten_segments_len(segments.drop_first());
    }
}

/// Appending one more segment appends its batches to the chain.
proof fn lemma_flatten_segments_push<B>(segments: Seq<Vec<B>>, v: Vec<B>)
    ensures
        flatten_segments(segments.push(v)) == flatten_segments(segments) + v@,
    decreases segments.len(),
{
    let sp = segments.push(v);
    assert(sp[0] == if segments.len() == 0 {
        v
    } else {
        segments[0]
    });
    assert(flatten_segments(sp) == sp[0]@ + flatten_segments(sp.drop_first()));
    if segments.len() == 0 {
        assert(sp.drop_first() =~= Seq::<Vec<B>>::empty());
        assert(flatten_segments(sp.drop_first()) =~= Seq::<B>::empty());
        assert(flatten_segments(segments) =~= Seq::<B>::empty());
        assert(flatten_segments(sp) =~= flatten_segments(segments) + v@);
    } else {
        assert(sp.drop_first() =~= segments.drop_first().push(v));
        lemma_flatten_segments_push(segments.drop_first(), v);
        assert(flatten_segments(sp) =~= flatten_segments(segments) + v@);
    }
}

/// A partition's batch stream: the batches of the current reader, then the
/// batches of every segment not yet opened, in provider order.
pub struct IpcReaderStream<B> {
    current: Vec<B>,
    segments: Vec<Vec<B>>,
}

impl<B> IpcReaderStream<B> {
    /// The batches this stream has yet to yield, in order.
    pub closed spec fn remaining(&self) -> Seq<B> {
        self.current@ + flatten_segments(self.segments@)
    }

    pub fn new(segments: Vec<Vec<B>>) -> (s: Self)
        ensures
            s.remaining() == flatten_segments(segments@),
    {
        let s = IpcReaderStream { current: Vec::new(), segments };
        proof {
            assert(s.remaining() =~= flatten_segments(s.segments@));
        }
        s
    }

    /// Hands the stream the decoded batches of the provider's next segment:
    /// they are yielded after everything already pending, so feeding
    /// segments one by one, each only once the stream has run dry, keeps
    /// provider order and decodes nothing ahead of need.
    pub fn push_segment(&mut self, batches: Vec<B>)
        ensures
            final(self).remaining() == old(self).remaining() + batches@,
    {
        let ghost segs = self.segments@;
        let ghost b = batches;
        self.segments.push(batches);
        proof {
            lemma_flatten_segments_push(segs, b);
            assert(self.remaining() =~= old(self).remaining() + b@);
        }
    }

    /// Yields the next batch: the head of the current reader if it has one,
    /// otherwise the head of the first later segment with any batch; `None`
    /// is the clean end of the stream.
    pub fn next_batch(&mut self) -> (r: Option<B>)
        ensures
            old(self).remaining().len() == 0 ==> r is None && final(self).remaining().len() == 0,
            old(self).remaining().len() > 0 ==> (r matches Some(b) && b == old(
                self,
            ).remaining()[0] && final(self).remaining() == old(self).remaining().drop_first()),
    {
        loop
            invariant
                self.remaining() == old(self).remaining(),
            decreases 2 * self.segments@.len() + if self.current@.len() > 0 {
                1int
            } else {
                0int
            },
        {
            if self.current.len() > 0 {
                let ghost cur = self.current@;
                let b = self.current.remove(0);
                proof {
                    assert(cur + flatten_segments(self.segments@) =~= seq![b] + (
                    self.current@ + flatten_segments(self.segments@)));
                }
                return Some(b);
            }
            if self.segments.len() == 0 {
                return None;
            }
            let ghost segs = self.segments@;
            let next = self.segments.remove(0);
            proof {
                assert(segs.drop_first() =~= self.segments@);
            }
            self.current = next;
            proof {
                assert(Seq::<B>::empty() + flatten_segments(segs) =~= flatten_segments(segs));
            }
        }
    }

    /// Drains the stream: every batch of every segment, in provider order,
    /// then within-segment order.
    pub fn drain(&mut self) -> (out: Vec<B>)
        ensures
            out@ == old(self).remaining(),
            final(self).remaining().len() == 0,
    {
        let mut out: Vec<B> = Vec::new();
        loop
            invariant
                out@ + self.remaining() == old(self).remaining(),
            decreases self.remaining().len(),
        {
            let ghost rem = self.remaining();
            match self.next_batch() {
                Some(b) => {
                    out.push(b);
                    proof {
                        assert(out@ + self.remaining() =~= out@.drop_last() + rem);
                    }
                },
                None => {
                    proof {
                        assert(out@ + self.remaining() =~= out@);
                    }
                    return out;
                },
            }
        }
    }
}

} // verus!
