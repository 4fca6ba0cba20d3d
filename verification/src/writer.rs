//! Writing a file sample by sample: the samples of each track are gathered
//! into chunks and the tables of the track are kept as they come in; at the
//! end the movie is put together from the tables and written behind the
//! media data.

use vstd::prelude::*;

use crate::bytes::{be_u32, group_big_endian, put_bytes, put_u32, Decode, Encode};
use crate::data::{DataEntryView, DataInformationBox};
use crate::error::{too_large, Error, IoError};
use crate::file::{File, FileTypeBox, FileTypeView, FileView, MediaDataBox};
use crate::fixed_point::U16F16;
use crate::fourcc::{AV01, FourCC, FREE, ISO2, ISOM, MDAT, MP41};
use crate::framing::{
    all_bytes, box_bytes, encode_box_header, fits, update_box_header, views, BoxCodec,
};
use crate::text::nul_free;
use crate::media::VideoMediaHeaderBox;
use crate::fixed_point::U8F8;
use crate::fourcc::Language;
use crate::matrix::Matrix;
use crate::media::{
    HandlerBox, HandlerView, MediaBox, MediaHeaderBox, MediaInformationBox, MediaInformationHeader,
    MediaInformationHeaderView, MediaInformationView, MediaView,
};
use crate::movie::{MovieBox, MovieHeaderBox, MovieView};
use crate::sample_entry::{SampleDescriptionBox, SampleDescriptionView};
use crate::sample_table::{
    ChunkOffsetBox, SampleSizeBox, SampleTableBox, SampleTableView, SampleToChunkBox,
    SampleToChunkEntry, SyncSampleBox, TimeToSampleBox, TimeToSampleEntry,
};
use crate::table::lemma_table_len;
use crate::track::{TrackBox, TrackHeaderBox, TrackView};

verus! {

broadcast use vstd::slice::group_slice_axioms;

/// The time scale of the movie and of the media of every track: units in a
/// second.
pub const TIMESCALE: u32 = 1000;

/// The duration at which a chunk is full and is written.
pub const CHUNK_DURATION: u32 = 1000;

/// What a track is, said once when the writer is made: the kind of media
/// and its name, the header of the media information, the size at which it
/// is shown, and the description of its samples.
#[derive(Clone, Debug, PartialEq, Eq)]
pub struct TrackConfig {
    /// The kind of media, and a name for it.
    pub handler: HandlerBox,
    /// The header of the media information: that of video or that of sound.
    pub header: MediaInformationHeader,
    /// The width at which the track is shown.
    pub width: U16F16,
    /// The height at which the track is shown.
    pub height: U16F16,
    /// The description of the samples, with the configuration of the codec.
    pub description: SampleDescriptionBox,
}

/// A `TrackConfig` as a mathematical value.
pub struct TrackConfigView {
    pub handler: HandlerView,
    pub header: MediaInformationHeaderView,
    pub width: U16F16,
    pub height: U16F16,
    pub description: SampleDescriptionView,
}

impl View for TrackConfig {
    type V = TrackConfigView;

    open spec fn view(&self) -> TrackConfigView {
        TrackConfigView {
            handler: self.handler@,
            header: self.header@,
            width: self.width,
            height: self.height,
            description: self.description@,
        }
    }
}

/// The runs of durations after one more sample: the last run grows where
/// the sample has its duration, else a run of one sample begins.
pub open spec fn add_sample_time(times: Seq<TimeToSampleEntry>, duration: u32) -> Seq<
    TimeToSampleEntry,
> {
    if times.len() > 0 && times.last().sample_delta == duration {
        times.update(
            times.len() - 1,
            TimeToSampleEntry {
                sample_count: (times.last().sample_count + 1) as u32,
                sample_delta: duration,
            },
        )
    } else {
        times.push(TimeToSampleEntry { sample_count: 1, sample_delta: duration })
    }
}

/// The runs of chunks after one more chunk of `count` samples, where
/// `chunks` were written before it: the last run takes the chunk in where
/// its chunks have as many samples, else a run begins at the new chunk.
pub open spec fn add_chunk_samples(runs: Seq<SampleToChunkEntry>, count: u32, chunks: int) -> Seq<
    SampleToChunkEntry,
> {
    if runs.len() > 0 && runs.last().samples_per_chunk == count {
        runs
    } else {
        runs.push(
            SampleToChunkEntry {
                first_chunk: (chunks + 1) as u32,
                samples_per_chunk: count,
                sample_description_index: 1,
            },
        )
    }
}

/// The number of samples that runs of durations stand for.
pub open spec fn total_samples(times: Seq<TimeToSampleEntry>) -> int
    decreases times.len(),
{
    if times.len() == 0 {
        0
    } else {
        total_samples(times.drop_last()) + times.last().sample_count
    }
}

/// The duration of all samples that runs of durations stand for.
pub open spec fn total_time(times: Seq<TimeToSampleEntry>) -> int
    decreases times.len(),
{
    if times.len() == 0 {
        0
    } else {
        total_time(times.drop_last()) + times.last().sample_count * times.last().sample_delta
    }
}

/// The durations of the samples that runs of durations stand for, sample
/// by sample.
pub open spec fn durations(times: Seq<TimeToSampleEntry>) -> Seq<u32>
    decreases times.len(),
{
    if times.len() == 0 {
        Seq::empty()
    } else {
        durations(times.drop_last()) + Seq::new(
            times.last().sample_count as nat,
            |i: int| times.last().sample_delta,
        )
    }
}

/// Whether runs of durations are as few as can be: none is empty, and no
/// two neighbours have the same duration.
pub open spec fn compact(times: Seq<TimeToSampleEntry>) -> bool {
    &&& forall|i: int| 0 <= i < times.len() ==> (#[trigger] times[i]).sample_count > 0
    &&& forall|i: int|
        0 < i < times.len() ==> (#[trigger] times[i]).sample_delta != times[i - 1].sample_delta
}

/// Whether sample numbers go up strictly and lie between one and `count`.
pub open spec fn ascending(numbers: Seq<u32>, count: int) -> bool {
    &&& forall|i: int| 0 <= i < numbers.len() ==> 1 <= #[trigger] numbers[i] <= count
    &&& forall|i: int, j: int| 0 <= i < j < numbers.len() ==> numbers[i] < numbers[j]
}

/// The number of samples in the chunks that runs of chunks stand for, where
/// `chunks` chunks were written: a run reaches up to the next one, the last
/// up to the last chunk.
pub open spec fn chunked_samples(runs: Seq<SampleToChunkEntry>, chunks: int) -> int
    decreases runs.len(),
{
    if runs.len() == 0 {
        0
    } else {
        chunked_samples(runs.drop_last(), runs.last().first_chunk - 1) + (chunks
            - runs.last().first_chunk + 1) * runs.last().samples_per_chunk
    }
}

/// Whether runs of chunks are in order for `chunks` chunks: there is a run
/// exactly where there is a chunk, the first run begins at chunk one, each
/// begins after the one before it and with another number of samples, and
/// none begins after the last chunk.
pub open spec fn runs_in_order(runs: Seq<SampleToChunkEntry>, chunks: int) -> bool {
    &&& runs.len() == 0 <==> chunks == 0
    &&& runs.len() > 0 ==> runs[0].first_chunk == 1
    &&& forall|i: int| 0 <= i < runs.len() ==> 1 <= (#[trigger] runs[i]).first_chunk <= chunks
    &&& forall|i: int|
        0 < i < runs.len() ==> (#[trigger] runs[i]).first_chunk > runs[i - 1].first_chunk
            && runs[i].samples_per_chunk != runs[i - 1].samples_per_chunk
}

/// The numbers, counted from one, of the samples at which decoding can
/// start, in their order.
pub open spec fn sync_numbers(flags: Seq<bool>) -> Seq<u32>
    decreases flags.len(),
{
    if flags.len() == 0 {
        Seq::empty()
    } else if flags.last() {
        sync_numbers(flags.drop_last()).push(flags.len() as u32)
    } else {
        sync_numbers(flags.drop_last())
    }
}

/// Sequences of bytes, one after the other.
pub open spec fn joined(parts: Seq<Seq<u8>>) -> Seq<u8>
    decreases parts.len(),
{
    if parts.len() == 0 {
        Seq::empty()
    } else {
        joined(parts.drop_last()) + parts.last()
    }
}

/// What is known of a track while it is written.
pub struct TrackState {
    /// What the track is.
    pub config: TrackConfigView,
    /// The duration of all samples.
    pub total_duration: u32,
    /// The durations of the samples, as runs.
    pub sample_times: Seq<TimeToSampleEntry>,
    /// The numbers of the samples at which decoding can start.
    pub sample_syncs: Seq<u32>,
    /// The size of each sample.
    pub sample_sizes: Seq<u32>,
    /// The bytes of the samples of the chunk that is not written yet.
    pub chunk_buffer: Seq<u8>,
    /// The number of samples in that chunk.
    pub chunk_sample_count: u32,
    /// The duration of the samples in that chunk.
    pub chunk_duration: u32,
    /// The numbers of samples in the chunks that were written, as runs.
    pub chunk_samples: Seq<SampleToChunkEntry>,
    /// Where each chunk that was written begins.
    pub chunk_offsets: Seq<u32>,
    /// The bytes of each sample. The writer does not keep them: they are
    /// what its tables are about.
    pub samples: Seq<Seq<u8>>,
    /// The bytes of each chunk that was written.
    pub chunks: Seq<Seq<u8>>,
    /// The duration of each sample, as it was handed in.
    pub sample_durations: Seq<u32>,
    /// Whether decoding can start at each sample, as it was handed in.
    pub sample_flags: Seq<bool>,
}

impl TrackState {
    /// The track after one more sample, before a full chunk is written.
    pub open spec fn with_sample(self, duration: u32, sync: bool, data: Seq<u8>) -> TrackState {
        TrackState {
            total_duration: (self.total_duration + duration) as u32,
            sample_times: add_sample_time(self.sample_times, duration),
            sample_syncs: if sync {
                self.sample_syncs.push((self.sample_sizes.len() + 1) as u32)
            } else {
                self.sample_syncs
            },
            sample_sizes: self.sample_sizes.push(data.len() as u32),
            chunk_buffer: self.chunk_buffer + data,
            chunk_sample_count: (self.chunk_sample_count + 1) as u32,
            chunk_duration: (self.chunk_duration + duration) as u32,
            samples: self.samples.push(data),
            sample_durations: self.sample_durations.push(duration),
            sample_flags: self.sample_flags.push(sync),
            ..self
        }
    }

    /// The track after its chunk was written at `offset`.
    pub open spec fn with_chunk(self, offset: u32) -> TrackState {
        TrackState {
            chunk_buffer: Seq::empty(),
            chunk_sample_count: 0,
            chunk_duration: 0,
            chunk_samples: add_chunk_samples(
                self.chunk_samples,
                self.chunk_sample_count,
                self.chunk_offsets.len() as int,
            ),
            chunk_offsets: self.chunk_offsets.push(offset),
            chunks: self.chunks.push(self.chunk_buffer),
            ..self
        }
    }

    /// Whether the chunk is full and must be written.
    pub open spec fn chunk_full(self) -> bool {
        self.chunk_duration >= CHUNK_DURATION
    }

    /// What holds of a track between any two calls.
    pub open spec fn wf(self) -> bool {
        &&& self.sample_sizes.len() <= u32::MAX
        &&& self.chunk_offsets.len() <= u32::MAX
        &&& compact(self.sample_times)
        &&& total_samples(self.sample_times) == self.sample_sizes.len()
        &&& total_time(self.sample_times) == self.total_duration
        &&& ascending(self.sample_syncs, self.sample_sizes.len() as int)
        &&& runs_in_order(self.chunk_samples, self.chunk_offsets.len() as int)
        &&& chunked_samples(self.chunk_samples, self.chunk_offsets.len() as int)
            + self.chunk_sample_count == self.sample_sizes.len()
        &&& self.chunk_sample_count <= self.sample_sizes.len()
        &&& self.chunk_duration <= self.total_duration
        &&& self.chunk_duration < CHUNK_DURATION
        &&& self.chunk_sample_count == 0 ==> self.chunk_buffer.len() == 0
            && self.chunk_duration == 0
        &&& self.accounted()
        &&& self.recorded()
    }

    /// Whether the tables say what was handed in: the runs of durations
    /// stand for the durations of the samples, one by one and in their
    /// order, and the sync samples are the numbers, counted from one, of
    /// exactly the samples at which decoding can start.
    pub open spec fn recorded(self) -> bool {
        &&& self.sample_durations.len() == self.sample_sizes.len()
        &&& self.sample_flags.len() == self.sample_sizes.len()
        &&& durations(self.sample_times) == self.sample_durations
        &&& self.sample_syncs == sync_numbers(self.sample_flags)
    }

    /// Whether the bytes are accounted for: every sample has the size that
    /// is noted for it, every chunk has a place that is noted for it, and
    /// the chunks that were written, one after the other, and then the
    /// chunk that is not written yet, are the samples, one after the other.
    pub open spec fn accounted(self) -> bool {
        &&& self.samples.len() == self.sample_sizes.len()
        &&& forall|j: int|
            0 <= j < self.samples.len() ==> self.sample_sizes[j] == (#[trigger] self.samples[j]).len()
        &&& self.chunks.len() == self.chunk_offsets.len()
        &&& joined(self.chunks) + self.chunk_buffer == joined(self.samples)
    }

    /// Whether every chunk that was written lies in `output` where it is
    /// noted to begin, not before `begin`, and behind the chunks before it.
    pub open spec fn placed(self, output: Seq<u8>, begin: int) -> bool {
        &&& forall|k: int|
            0 <= k < self.chunk_offsets.len() ==> begin <= #[trigger] self.chunk_offsets[k]
                && self.chunk_offsets[k] + self.chunks[k].len() <= output.len()
                && output.subrange(
                self.chunk_offsets[k] as int,
                self.chunk_offsets[k] + self.chunks[k].len(),
            ) == self.chunks[k]
        &&& forall|k: int, l: int|
            0 <= k < l < self.chunk_offsets.len() ==> self.chunk_offsets[k] + self.chunks[k].len()
                <= self.chunk_offsets[l]
    }

    /// What holds of a track after a sample was added and before its full
    /// chunk is written.
    pub open spec fn wf_unflushed(self) -> bool {
        &&& self.sample_sizes.len() <= u32::MAX
        &&& self.chunk_offsets.len() <= u32::MAX
        &&& compact(self.sample_times)
        &&& total_samples(self.sample_times) == self.sample_sizes.len()
        &&& total_time(self.sample_times) == self.total_duration
        &&& ascending(self.sample_syncs, self.sample_sizes.len() as int)
        &&& runs_in_order(self.chunk_samples, self.chunk_offsets.len() as int)
        &&& chunked_samples(self.chunk_samples, self.chunk_offsets.len() as int)
            + self.chunk_sample_count == self.sample_sizes.len()
        &&& self.chunk_sample_count <= self.sample_sizes.len()
        &&& self.chunk_duration <= self.total_duration
        &&& self.chunk_sample_count > 0
        &&& self.accounted()
        &&& self.recorded()
    }
}

/// One more sample makes the runs stand for one more sample, of its
/// duration, and leaves them as few as can be.
pub proof fn law_add_sample_time(times: Seq<TimeToSampleEntry>, duration: u32)
    requires
        compact(times),
        total_samples(times) < u32::MAX,
    ensures
        compact(add_sample_time(times, duration)),
        total_samples(add_sample_time(times, duration)) == total_samples(times) + 1,
        total_time(add_sample_time(times, duration)) == total_time(times) + duration,
        durations(add_sample_time(times, duration)) == durations(times).push(duration),
{
    let after = add_sample_time(times, duration);
    lemma_total_samples_bounds(times);
    if times.len() > 0 && times.last().sample_delta == duration {
        let last = times.last();
        let grown = TimeToSampleEntry {
            sample_count: (last.sample_count + 1) as u32,
            sample_delta: duration,
        };
        assert(after.drop_last() =~= times.drop_last());
        assert(after.last() == grown);
        assert((last.sample_count + 1) * duration == last.sample_count * duration + duration)
            by (nonlinear_arith);
        assert(total_time(after) == total_time(times.drop_last()) + (last.sample_count + 1)
            * duration);
        assert(total_time(times) == total_time(times.drop_last()) + last.sample_count
            * duration);
        assert(Seq::new(grown.sample_count as nat, |i: int| duration) =~= Seq::new(
            last.sample_count as nat,
            |i: int| duration,
        ).push(duration));
        assert(durations(after) =~= durations(times).push(duration));
    } else {
        assert(after.drop_last() =~= times);
        assert(after.last().sample_count == 1 && after.last().sample_delta == duration);
        assert(total_time(after) == total_time(times) + 1 * duration);
        assert(Seq::new(1, |i: int| duration) =~= seq![duration]);
        assert(durations(after) =~= durations(times).push(duration));
    }
}

/// One more sample leaves of a track what holds of a track before its full
/// chunk is written, and all that holds of a track where the chunk is not
/// full: the runs of durations stand for one more sample, the sample has a
/// number that goes up where decoding can start at it, and its bytes are
/// accounted for.
pub proof fn law_with_sample(t: TrackState, duration: u32, sync: bool, data: Seq<u8>)
    requires
        t.wf(),
        t.total_duration + duration <= u32::MAX,
        data.len() <= u32::MAX,
        t.sample_sizes.len() < u32::MAX,
    ensures
        t.with_sample(duration, sync, data).wf_unflushed(),
        !t.with_sample(duration, sync, data).chunk_full() ==> t.with_sample(
            duration,
            sync,
            data,
        ).wf(),
{
    let after = t.with_sample(duration, sync, data);
    law_add_sample_time(t.sample_times, duration);
    assert(after.sample_flags.drop_last() =~= t.sample_flags);
    assert(after.samples.drop_last() =~= t.samples);
    assert(joined(after.chunks) + after.chunk_buffer =~= joined(t.chunks) + t.chunk_buffer + data);
}

/// No run stands for more samples than all runs together.
pub proof fn lemma_total_samples_bounds(times: Seq<TimeToSampleEntry>)
    ensures
        total_samples(times) >= 0,
        times.len() > 0 ==> times.last().sample_count <= total_samples(times),
    decreases times.len(),
{
    if times.len() > 0 {
        lemma_total_samples_bounds(times.drop_last());
    }
}

/// One more chunk makes the runs stand for the samples of one more chunk,
/// and leaves them in order.
pub proof fn law_add_chunk_samples(runs: Seq<SampleToChunkEntry>, count: u32, chunks: int)
    requires
        runs_in_order(runs, chunks),
        0 <= chunks < u32::MAX,
    ensures
        runs_in_order(add_chunk_samples(runs, count, chunks), chunks + 1),
        chunked_samples(add_chunk_samples(runs, count, chunks), chunks + 1) == chunked_samples(
            runs,
            chunks,
        ) + count,
{
    let after = add_chunk_samples(runs, count, chunks);
    if runs.len() > 0 && runs.last().samples_per_chunk == count {
        let last = runs.last();
        let before = chunked_samples(runs.drop_last(), last.first_chunk - 1);
        assert((chunks + 1 - last.first_chunk + 1) * count == (chunks - last.first_chunk + 1)
            * count + count) by (nonlinear_arith);
        assert(chunked_samples(runs, chunks + 1) == before + (chunks + 1 - last.first_chunk + 1)
            * count);
        assert(chunked_samples(runs, chunks) == before + (chunks - last.first_chunk + 1) * count);
    } else {
        assert(after.drop_last() =~= runs);
        assert(after.last().first_chunk == chunks + 1);
        assert(after.last().samples_per_chunk == count);
        assert(chunked_samples(after, chunks + 1) == chunked_samples(runs, chunks) + (chunks + 1
            - (chunks + 1) + 1) * count);
        assert((chunks + 1 - (chunks + 1) + 1) * count == count) by (nonlinear_arith);
        assert forall|i: int| 0 < i < after.len() implies (#[trigger] after[i]).first_chunk
            > after[i - 1].first_chunk && after[i].samples_per_chunk != after[i
            - 1].samples_per_chunk by {
            if i < runs.len() {
                assert(after[i] == runs[i]);
            }
        }
    }
}

/// Chunks that lie in an output lie in it where more was written behind
/// them.
pub proof fn lemma_placed_append(t: TrackState, output: Seq<u8>, more: Seq<u8>, begin: int)
    requires
        t.placed(output, begin),
    ensures
        t.placed(output + more, begin),
{
    let longer = output + more;
    assert forall|k: int| 0 <= k < t.chunk_offsets.len() implies begin
        <= #[trigger] t.chunk_offsets[k] && t.chunk_offsets[k] + t.chunks[k].len() <= longer.len()
        && longer.subrange(t.chunk_offsets[k] as int, t.chunk_offsets[k] + t.chunks[k].len())
        == t.chunks[k] by {
        assert(longer.subrange(t.chunk_offsets[k] as int, t.chunk_offsets[k] + t.chunks[k].len())
            =~= output.subrange(t.chunk_offsets[k] as int, t.chunk_offsets[k] + t.chunks[k].len()));
    }
}

/// A chunk that is written at the end of an output lies where it is noted
/// to lie, behind the chunks that were written before it.
pub proof fn lemma_placed_chunk(t: TrackState, output: Seq<u8>, begin: int)
    requires
        t.placed(output, begin),
        t.chunks.len() == t.chunk_offsets.len(),
        begin <= output.len() <= u32::MAX,
    ensures
        t.with_chunk(output.len() as u32).placed(output + t.chunk_buffer, begin),
{
    let after = t.with_chunk(output.len() as u32);
    let longer = output + t.chunk_buffer;
    let n = t.chunk_offsets.len() as int;
    lemma_placed_append(t, output, t.chunk_buffer, begin);
    assert forall|k: int| 0 <= k < after.chunk_offsets.len() implies begin
        <= #[trigger] after.chunk_offsets[k] && after.chunk_offsets[k] + after.chunks[k].len()
        <= longer.len() && longer.subrange(
        after.chunk_offsets[k] as int,
        after.chunk_offsets[k] + after.chunks[k].len(),
    ) == after.chunks[k] by {
        if k < n {
            assert(after.chunk_offsets[k] == t.chunk_offsets[k]);
            assert(after.chunks[k] == t.chunks[k]);
        } else {
            assert(longer.subrange(output.len() as int, (output.len() + t.chunk_buffer.len()) as int)
                =~= t.chunk_buffer);
        }
    }
    assert forall|k: int, l: int| 0 <= k < l < after.chunk_offsets.len() implies
        after.chunk_offsets[k] + after.chunks[k].len() <= after.chunk_offsets[l] by {
        assert(after.chunk_offsets[k] == t.chunk_offsets[k]);
        assert(after.chunks[k] == t.chunks[k]);
        if l < n {
            assert(after.chunk_offsets[l] == t.chunk_offsets[l]);
        }
    }
}

/// A track while it is written.
struct Track {
    config: TrackConfig,
    total_duration: u32,
    sample_times: Vec<TimeToSampleEntry>,
    sample_syncs: Vec<u32>,
    sample_sizes: Vec<u32>,
    chunk_buffer: Vec<u8>,
    chunk_sample_count: u32,
    chunk_duration: u32,
    chunk_samples: Vec<SampleToChunkEntry>,
    chunk_offsets: Vec<u32>,
    samples: Ghost<Seq<Seq<u8>>>,
    chunks: Ghost<Seq<Seq<u8>>>,
    sample_durations: Ghost<Seq<u32>>,
    sample_flags: Ghost<Seq<bool>>,
}

impl View for Track {
    type V = TrackState;

    closed spec fn view(&self) -> TrackState {
        TrackState {
            config: self.config@,
            total_duration: self.total_duration,
            sample_times: self.sample_times@,
            sample_syncs: self.sample_syncs@,
            sample_sizes: self.sample_sizes@,
            chunk_buffer: self.chunk_buffer@,
            chunk_sample_count: self.chunk_sample_count,
            chunk_duration: self.chunk_duration,
            chunk_samples: self.chunk_samples@,
            chunk_offsets: self.chunk_offsets@,
            samples: self.samples@,
            chunks: self.chunks@,
            sample_durations: self.sample_durations@,
            sample_flags: self.sample_flags@,
        }
    }
}

impl TrackState {
    /// A track without samples.
    pub open spec fn fresh(config: TrackConfigView) -> TrackState {
        TrackState {
            config,
            total_duration: 0,
            sample_times: Seq::empty(),
            sample_syncs: Seq::empty(),
            sample_sizes: Seq::empty(),
            chunk_buffer: Seq::empty(),
            chunk_sample_count: 0,
            chunk_duration: 0,
            chunk_samples: Seq::empty(),
            chunk_offsets: Seq::empty(),
            samples: Seq::empty(),
            chunks: Seq::empty(),
            sample_durations: Seq::empty(),
            sample_flags: Seq::empty(),
        }
    }
}

impl Track {
    /// A track without samples.
    fn new(config: TrackConfig) -> (r: Track)
        ensures
            r@ == TrackState::fresh(config@),
            r@.wf(),
    {
        Track {
            config,
            total_duration: 0,
            sample_times: Vec::new(),
            sample_syncs: Vec::new(),
            sample_sizes: Vec::new(),
            chunk_buffer: Vec::new(),
            chunk_sample_count: 0,
            chunk_duration: 0,
            chunk_samples: Vec::new(),
            chunk_offsets: Vec::new(),
            samples: Ghost(Seq::empty()),
            chunks: Ghost(Seq::empty()),
            sample_durations: Ghost(Seq::empty()),
            sample_flags: Ghost(Seq::empty()),
        }
    }

    /// Notes the duration of one more sample.
    fn add_sample_time(&mut self, duration: u32)
        requires
            compact(old(self)@.sample_times),
            total_samples(old(self)@.sample_times) < u32::MAX,
        ensures
            final(self)@ == (TrackState {
                sample_times: add_sample_time(old(self)@.sample_times, duration),
                ..old(self)@
            }),
    {
        proof {
            lemma_total_samples_bounds(self.sample_times@);
        }
        let n: usize = self.sample_times.len();
        if n > 0 && self.sample_times[n - 1].sample_delta == duration {
            let count: u32 = self.sample_times[n - 1].sample_count;
            self.sample_times[n - 1] = TimeToSampleEntry {
                sample_count: count + 1,
                sample_delta: duration,
            };
        } else {
            self.sample_times.push(TimeToSampleEntry { sample_count: 1, sample_delta: duration });
        }
    }

    /// Notes the number of samples of the chunk that is about to be
    /// written.
    fn add_chunk_samples(&mut self)
        requires
            old(self)@.chunk_offsets.len() < u32::MAX,
        ensures
            final(self)@ == (TrackState {
                chunk_samples: add_chunk_samples(
                    old(self)@.chunk_samples,
                    old(self)@.chunk_sample_count,
                    old(self)@.chunk_offsets.len() as int,
                ),
                ..old(self)@
            }),
    {
        let n: usize = self.chunk_samples.len();
        if n > 0 && self.chunk_samples[n - 1].samples_per_chunk == self.chunk_sample_count {
            return ;
        }
        let chunk_id: u32 = self.chunk_offsets.len() as u32 + 1;
        self.chunk_samples.push(
            SampleToChunkEntry {
                first_chunk: chunk_id,
                samples_per_chunk: self.chunk_sample_count,
                sample_description_index: 1,
            },
        );
    }

    /// Writes the chunk at the end of the output and notes where it lies.
    fn write_chunk(&mut self, output: &mut Vec<u8>)
        requires
            old(self)@.wf_unflushed(),
            old(output)@.len() <= u32::MAX,
            old(self)@.chunk_offsets.len() < u32::MAX,
        ensures
            final(self)@ == old(self)@.with_chunk(old(output)@.len() as u32),
            final(output)@ == old(output)@ + old(self)@.chunk_buffer,
            final(self)@.wf(),
    {
        proof {
            law_add_chunk_samples(
                self@.chunk_samples,
                self@.chunk_sample_count,
                self@.chunk_offsets.len() as int,
            );
        }
        let chunk_offset: u32 = output.len() as u32;
        put_bytes(output, self.chunk_buffer.as_slice());
        self.add_chunk_samples();
        self.chunk_offsets.push(chunk_offset);
        self.chunks = Ghost(self.chunks@.push(self.chunk_buffer@));
        proof {
            assert(self.chunks@.drop_last() =~= old(self)@.chunks);
            assert(joined(self.chunks@) + Seq::<u8>::empty() =~= joined(old(self)@.chunks)
                + old(self)@.chunk_buffer);
        }
        self.chunk_buffer.clear();
        self.chunk_sample_count = 0;
        self.chunk_duration = 0;
    }

    /// Notes one more sample and puts its bytes into the chunk.
    fn add_sample(&mut self, duration: u32, sync: bool, data: &[u8])
        requires
            old(self)@.wf(),
            old(self)@.total_duration + duration <= u32::MAX,
            data@.len() <= u32::MAX,
            old(self)@.sample_sizes.len() < u32::MAX,
        ensures
            final(self)@ == old(self)@.with_sample(duration, sync, data@),
            final(self)@.wf_unflushed(),
            !final(self)@.chunk_full() ==> final(self)@.wf(),
    {
        proof {
            law_add_sample_time(self@.sample_times, duration);
        }
        let ghost before = self@;
        self.total_duration = self.total_duration + duration;
        self.add_sample_time(duration);
        if sync {
            let sample_id: u32 = self.sample_sizes.len() as u32 + 1;
            self.sample_syncs.push(sample_id);
        }
        self.sample_sizes.push(data.len() as u32);
        self.chunk_buffer.extend_from_slice(data);
        self.chunk_sample_count = self.chunk_sample_count + 1;
        self.chunk_duration = self.chunk_duration + duration;
        self.samples = Ghost(self.samples@.push(data@));
        self.sample_durations = Ghost(self.sample_durations@.push(duration));
        self.sample_flags = Ghost(self.sample_flags@.push(sync));
        proof {
            let after = before.with_sample(duration, sync, data@);
            assert(after.samples.drop_last() =~= before.samples);
            assert(joined(after.chunks) + after.chunk_buffer =~= joined(before.chunks)
                + before.chunk_buffer + data@);
            assert(after.sample_flags.drop_last() =~= before.sample_flags);
            assert(self@.samples == after.samples);
            assert(self@.sample_durations == after.sample_durations);
            assert(self@.sample_flags == after.sample_flags);
            assert(self@.chunks == after.chunks);
            assert(self@.sample_times == after.sample_times);
            assert(self@.sample_syncs == after.sample_syncs);
            assert(self@.sample_sizes == after.sample_sizes);
            assert(self@.chunk_buffer == after.chunk_buffer);
            assert(self@.chunk_samples == after.chunk_samples);
            assert(self@.chunk_offsets == after.chunk_offsets);
            assert(self@.config == after.config);
            assert(self@ == after);
        }
    }

    /// Takes one more sample, and writes the chunk where the sample made it
    /// full.
    fn write_sample(&mut self, output: &mut Vec<u8>, duration: u32, sync: bool, data: &[u8])
        requires
            old(self)@.wf(),
            old(self)@.total_duration + duration <= u32::MAX,
            data@.len() <= u32::MAX,
            old(self)@.sample_sizes.len() < u32::MAX,
            old(self)@.chunk_duration + duration >= CHUNK_DURATION ==> old(output)@.len()
                <= u32::MAX && old(self)@.chunk_offsets.len() < u32::MAX,
        ensures
            final(self)@ == old(self)@.after_sample(duration, sync, data@, old(output)@.len()),
            final(output)@ == old(self)@.output_after_sample(duration, sync, data@, old(output)@),
            final(self)@.wf(),
    {
        self.add_sample(duration, sync, data);
        if self.chunk_duration >= CHUNK_DURATION {
            self.write_chunk(output);
        }
    }
}

impl TrackState {
    /// The track after one more sample: with the sample, and with its chunk
    /// written at the end of an output of `offset` bytes where the sample
    /// made it full.
    pub open spec fn after_sample(self, duration: u32, sync: bool, data: Seq<u8>, offset: nat)
        -> TrackState {
        let with = self.with_sample(duration, sync, data);
        if with.chunk_full() {
            with.with_chunk(offset as u32)
        } else {
            with
        }
    }

    /// The output after one more sample: with the chunk at its end where
    /// the sample made it full.
    pub open spec fn output_after_sample(
        self,
        duration: u32,
        sync: bool,
        data: Seq<u8>,
        output: Seq<u8>,
    ) -> Seq<u8> {
        let with = self.with_sample(duration, sync, data);
        if with.chunk_full() {
            output + with.chunk_buffer
        } else {
            output
        }
    }
}

impl TrackState {
    /// The track as a box of the movie, under the given number: its header
    /// and the header of its media say its duration, and its sample table
    /// holds what the writer has noted, the sizes in their shortest form.
    #[verifier::opaque]
    pub open spec fn track_box(self, track_id: u32) -> TrackView {
        TrackView {
            header: TrackHeaderBox {
                enabled: true,
                in_movie: true,
                in_preview: true,
                creation_time: 0,
                modification_time: 0,
                track_id,
                duration: self.total_duration as u64,
                layer: 0,
                alternate_group: 0,
                volume: U8F8 { bits: 0x100 },
                matrix: Matrix::spec_identity(),
                width: self.config.width,
                height: self.config.height,
            },
            media: MediaView {
                header: MediaHeaderBox {
                    creation_time: 0,
                    modification_time: 0,
                    timescale: TIMESCALE,
                    duration: self.total_duration as u64,
                    language: Language(0),
                },
                handler: self.config.handler,
                information: MediaInformationView {
                    header: self.config.header,
                    data_information: seq![DataEntryView::Url(None)],
                    sample_table: SampleTableView {
                        description: self.config.description,
                        time_to_sample: self.sample_times,
                        sync_sample: Some(self.sample_syncs),
                        sample_size: SampleSizeBox::shortest(self.sample_sizes),
                        sample_to_chunk: self.chunk_samples,
                        chunk_offset: self.chunk_offsets,
                        sample_to_group: None,
                    },
                },
            },
            edit: None,
        }
    }
}

impl Track {
    /// The track as a box of the movie, under the given number.
    fn into_box(self, track_id: u32) -> (r: TrackBox)
        ensures
            r@ == self@.track_box(track_id),
    {
        reveal(TrackState::track_box);
        let mut header = TrackHeaderBox::default();
        header.track_id = track_id;
        header.duration = self.total_duration as u64;
        header.width = self.config.width;
        header.height = self.config.height;
        let mut media_header = MediaHeaderBox::default();
        media_header.timescale = TIMESCALE;
        media_header.duration = self.total_duration as u64;
        TrackBox {
            header,
            media: MediaBox {
                header: media_header,
                handler: self.config.handler,
                information: MediaInformationBox {
                    header: self.config.header,
                    data_information: DataInformationBox::default(),
                    sample_table: SampleTableBox {
                        description: self.config.description,
                        time_to_sample: TimeToSampleBox(self.sample_times),
                        sync_sample: Some(SyncSampleBox(self.sample_syncs)),
                        sample_size: SampleSizeBox::from_sizes(self.sample_sizes),
                        sample_to_chunk: SampleToChunkBox(self.chunk_samples),
                        chunk_offset: ChunkOffsetBox(self.chunk_offsets),
                        sample_to_group: None,
                    },
                },
            },
            edit: None,
        }
    }
}

/// The file type that the writer writes.
pub open spec fn writer_file_type() -> FileTypeView {
    FileTypeView {
        major_brand: FourCC(ISOM),
        minor_version: 512,
        compatible_brands: seq![FourCC(ISOM), FourCC(AV01), FourCC(ISO2), FourCC(MP41)],
    }
}

/// What the writer writes before the media data: the file type, an empty
/// `free` box, and the header of the media data with a size of zero, which
/// is set when the writer finishes.
pub open spec fn writer_head() -> Seq<u8> {
    FileTypeBox::bytes(writer_file_type()) + File::free_bytes() + be_u32(0) + be_u32(MDAT)
}

/// The longest duration of a track.
pub open spec fn longest(tracks: Seq<TrackState>) -> u32
    decreases tracks.len(),
{
    if tracks.len() == 0 {
        0
    } else if longest(tracks.drop_last()) >= tracks.last().total_duration {
        longest(tracks.drop_last())
    } else {
        tracks.last().total_duration
    }
}

/// What is known of a file while it is written.
pub struct WriterState {
    /// The bytes that were written.
    pub output: Seq<u8>,
    /// Where in them the media data box begins.
    pub media_data_box_begin: u64,
    /// The tracks.
    pub tracks: Seq<TrackState>,
}

impl WriterState {
    /// The writer before the first sample: behind what the output held
    /// stand the head of the file, and the tracks have no samples.
    pub open spec fn fresh(output: Seq<u8>, configs: Seq<TrackConfigView>) -> WriterState {
        WriterState {
            output: output + writer_head(),
            media_data_box_begin: (output.len() + 40) as u64,
            tracks: Seq::new(configs.len(), |i: int| TrackState::fresh(configs[i])),
        }
    }

    /// What holds of a writer between any two calls: the head of the file
    /// stands before the media data, and of every track holds what holds of
    /// a track.
    pub open spec fn wf(self) -> bool {
        &&& 40 <= self.media_data_box_begin
        &&& self.media_data_box_begin + 8 <= self.output.len()
        &&& self.output.subrange(
            self.media_data_box_begin - 40,
            self.media_data_box_begin + 8,
        ) == writer_head()
        &&& forall|i: int| 0 <= i < self.tracks.len() ==> (#[trigger] self.tracks[i]).wf()
        &&& forall|i: int|
            0 <= i < self.tracks.len() ==> (#[trigger] self.tracks[i]).placed(
                self.output,
                self.media_data_box_begin + 8,
            )
    }

    /// One more sample leaves every chunk that was written where it is
    /// noted to lie, and a chunk that the sample made full lies where it is
    /// noted to lie.
    pub proof fn lemma_with_sample_placed(self, track: u32, duration: u32, sync: bool, data: Seq<u8>)
        requires
            self.wf(),
            self.accepts(track, duration, data),
        ensures
            forall|i: int|
                0 <= i < self.tracks.len() ==> (#[trigger] self.with_sample(
                    track,
                    duration,
                    sync,
                    data,
                ).tracks[i]).placed(
                    self.with_sample(track, duration, sync, data).output,
                    self.media_data_box_begin + 8,
                ),
    {
        let after = self.with_sample(track, duration, sync, data);
        let begin = self.media_data_box_begin + 8;
        let with = self.tracks[track as int].with_sample(duration, sync, data);
        assert(self.tracks[track as int].wf());
        assert(self.tracks[track as int].placed(self.output, begin));
        assert forall|i: int| 0 <= i < self.tracks.len() implies (#[trigger] after.tracks[i]).placed(
            after.output,
            begin,
        ) by {
            assert(self.tracks[i].placed(self.output, begin));
            if with.chunk_full() {
                if i == track {
                    assert(with.placed(self.output, begin));
                    lemma_placed_chunk(with, self.output, begin);
                } else {
                    lemma_placed_append(self.tracks[i], self.output, with.chunk_buffer, begin);
                }
            } else {
                if i == track {
                    assert(with.placed(self.output, begin));
                }
            }
        }
    }

    /// Writing the chunk that a track still holds leaves every chunk that
    /// was written where it is noted to lie, and the chunk lies where it is
    /// noted to lie.
    pub proof fn lemma_flush_track_placed(self, track: int)
        requires
            self.wf(),
            0 <= track < self.tracks.len(),
            self.can_flush(track),
        ensures
            forall|i: int|
                0 <= i < self.tracks.len() ==> (#[trigger] self.flush_track(track).tracks[i]).placed(
                    self.flush_track(track).output,
                    self.media_data_box_begin + 8,
                ),
    {
        let after = self.flush_track(track);
        let begin = self.media_data_box_begin + 8;
        let t = self.tracks[track];
        assert(t.wf());
        assert(t.placed(self.output, begin));
        assert forall|i: int| 0 <= i < self.tracks.len() implies (#[trigger] after.tracks[i]).placed(
            after.output,
            begin,
        ) by {
            assert(self.tracks[i].placed(self.output, begin));
            if t.chunk_sample_count > 0 {
                if i == track {
                    lemma_placed_chunk(t, self.output, begin);
                } else {
                    lemma_placed_append(self.tracks[i], self.output, t.chunk_buffer, begin);
                }
            }
        }
    }

    /// Whether one more sample can be taken: the track is there; the
    /// duration of the track, the number of its samples and the size of the
    /// sample stay within 32 bits; and where the sample makes the chunk
    /// full, so do its place in the file and the number of chunks.
    pub open spec fn accepts(self, track: u32, duration: u32, data: Seq<u8>) -> bool {
        &&& track < self.tracks.len()
        &&& self.tracks[track as int].total_duration + duration <= u32::MAX
        &&& data.len() <= u32::MAX
        &&& self.tracks[track as int].sample_sizes.len() < u32::MAX
        &&& self.tracks[track as int].chunk_duration + duration >= CHUNK_DURATION
            ==> self.output.len() <= u32::MAX && self.tracks[track as int].chunk_offsets.len()
            < u32::MAX
    }

    /// The writer after one more sample of a track: the sample is noted,
    /// and where it makes the chunk full the chunk stands at the end of the
    /// output and is noted as written there.
    pub open spec fn with_sample(self, track: u32, duration: u32, sync: bool, data: Seq<u8>)
        -> WriterState {
        let t = self.tracks[track as int];
        WriterState {
            output: t.output_after_sample(duration, sync, data, self.output),
            tracks: self.tracks.update(
                track as int,
                t.after_sample(duration, sync, data, self.output.len()),
            ),
            ..self
        }
    }

    /// Whether the chunk that a track still holds, if it holds one, can be
    /// written: its place in the file and the number of chunks stay within
    /// 32 bits.
    pub open spec fn can_flush(self, track: int) -> bool {
        self.tracks[track].chunk_sample_count > 0 ==> self.output.len() <= u32::MAX
            && self.tracks[track].chunk_offsets.len() < u32::MAX
    }

    /// The writer after the chunk that a track still holds, if it holds
    /// one, was written.
    pub open spec fn flush_track(self, track: int) -> WriterState {
        let t = self.tracks[track];
        if t.chunk_sample_count > 0 {
            WriterState {
                output: self.output + t.chunk_buffer,
                tracks: self.tracks.update(track, t.with_chunk(self.output.len() as u32)),
                ..self
            }
        } else {
            self
        }
    }

    /// Whether the chunks that the first `n` tracks still hold can be
    /// written one after the other.
    pub open spec fn flushable(self, n: int) -> bool
        decreases n,
    {
        n <= 0 || (self.flushable(n - 1) && self.flushed(n - 1).can_flush(n - 1))
    }

    /// The writer after the chunks that the first `n` tracks still hold
    /// were written one after the other.
    pub open spec fn flushed(self, n: int) -> WriterState
        decreases n,
    {
        if n <= 0 {
            self
        } else {
            self.flushed(n - 1).flush_track(n - 1)
        }
    }

    /// The movie that the tracks make up: they are numbered from one, and
    /// the movie lasts as long as its longest track.
    #[verifier::opaque]
    pub open spec fn movie(self) -> MovieView {
        MovieView {
            header: MovieHeaderBox {
                creation_time: 0,
                modification_time: 0,
                timescale: TIMESCALE,
                duration: longest(self.tracks) as u64,
                rate: U16F16 { bits: 0x1_0000 },
                volume: U8F8 { bits: 0x100 },
                matrix: Matrix::spec_identity(),
                next_track_id: (self.tracks.len() + 1) as u32,
            },
            tracks: Seq::new(
                self.tracks.len(),
                |i: int| self.tracks[i].track_box((i + 1) as u32),
            ),
        }
    }

    /// The media data: what was written behind the header of its box.
    pub open spec fn media_data(self) -> Seq<u8> {
        self.output.skip(self.media_data_box_begin + 8)
    }

    /// Whether the writer can finish: the chunks that the tracks still hold
    /// can be written, the media data fits a box, the tracks can be
    /// numbered with 32 bits, and the movie fits a box.
    pub open spec fn can_finish(self) -> bool {
        let done = self.flushed(self.tracks.len() as int);
        &&& self.flushable(self.tracks.len() as int)
        &&& done.output.len() - self.media_data_box_begin <= u32::MAX
        &&& self.tracks.len() < u32::MAX
        &&& MovieBox::encodable(done.movie())
    }

    /// The bytes of the finished file: the output with the last chunks,
    /// the size of the media data box set, and the movie behind it.
    pub open spec fn finished(self) -> Seq<u8> {
        let done = self.flushed(self.tracks.len() as int);
        done.output.take(self.media_data_box_begin as int) + be_u32(
            (done.output.len() - self.media_data_box_begin) as u32,
        ) + done.output.skip(self.media_data_box_begin + 4) + MovieBox::bytes(done.movie())
    }
}

/// Writes a file sample by sample: the samples of each track are gathered
/// into chunks, which are written into the media data as they become full,
/// and where they lie is noted in the tables of the track; at the end the
/// movie with the tables is written behind the media data.
pub struct Writer {
    output: Vec<u8>,
    media_data_box_begin: u64,
    tracks: Vec<Track>,
}

impl View for Writer {
    type V = WriterState;

    closed spec fn view(&self) -> WriterState {
        WriterState {
            output: self.output@,
            media_data_box_begin: self.media_data_box_begin,
            tracks: views(self.tracks@),
        }
    }
}

impl Writer {
    /// Begins a file behind what `output` holds: writes the file type, an
    /// empty `free` box and the header of the media data, and makes ready a
    /// track for each of `tracks`.
    pub fn new(output: Vec<u8>, tracks: Vec<TrackConfig>) -> (r: Writer)
        ensures
            r@ == WriterState::fresh(output@, views(tracks@)),
            r@.wf(),
    {
        broadcast use group_big_endian;

        let mut output = output;
        let mut configs = tracks;
        let ghost prefix = output@;
        let ghost all = views(configs@);
        let mut brands: Vec<FourCC> = Vec::new();
        brands.push(FourCC(ISOM));
        brands.push(FourCC(AV01));
        brands.push(FourCC(ISO2));
        brands.push(FourCC(MP41));
        let file_type = FileTypeBox {
            major_brand: FourCC(ISOM),
            minor_version: 512,
            compatible_brands: brands,
        };
        proof {
            assert(file_type@.compatible_brands =~= writer_file_type().compatible_brands);
            lemma_table_len(file_type@.compatible_brands);
        }
        let _ = file_type.encode(&mut output);
        put_u32(&mut output, 8);
        put_u32(&mut output, FREE);
        let begin: u64 = match encode_box_header(&mut output, FourCC(MDAT).to_bytes()) {
            Ok(begin) => begin,
            Err(_) => 0,
        };
        proof {
            assert(output@ =~= prefix + writer_head());
            assert(output@.subrange(begin - 40, begin + 8) =~= writer_head());
        }
        let mut made: Vec<Track> = Vec::new();
        let mut i: usize = 0;
        let count: usize = configs.len();
        while i < count
            invariant
                i <= count,
                count == all.len(),
                configs@.len() == count - i,
                made@.len() == i,
                views(configs@) == all.skip(i as int),
                forall|j: int| 0 <= j < i ==> (#[trigger] made@[j])@ == TrackState::fresh(all[j]),
                forall|j: int| 0 <= j < i ==> (#[trigger] made@[j])@.wf(),
            decreases count - i,
        {
            let ghost rest = views(configs@);
            let ghost held = configs@;
            let config = configs.remove(0);
            proof {
                assert(config@ == rest[0]);
                assert forall|k: int| 0 <= k < configs@.len() implies views(configs@)[k]
                    == all.skip(i + 1)[k] by {
                    assert(configs@[k] == held[k + 1]);
                    assert(rest[k + 1] == all.skip(i as int)[k + 1]);
                }
                assert(views(configs@) =~= all.skip(i + 1));
            }
            made.push(Track::new(config));
            i = i + 1;
        }
        let r = Writer { output, media_data_box_begin: begin, tracks: made };
        proof {
            assert(r@.tracks =~= WriterState::fresh(prefix, all).tracks);
        }
        r
    }

    /// The bytes that were written so far: the head of the file and the
    /// chunks that became full. The size of the media data box in them is
    /// zero until the writer finishes.
    pub fn output(&self) -> (r: &[u8])
        ensures
            r@ == self@.output,
    {
        self.output.as_slice()
    }

    /// Where in the output the media data box begins.
    pub fn media_data_box_begin(&self) -> (r: u64)
        ensures
            r == self@.media_data_box_begin,
    {
        self.media_data_box_begin
    }

    /// Whether one more sample can be taken.
    fn accepts(&self, track: u32, duration: u32, size: usize) -> (r: bool)
        requires
            self@.wf(),
        ensures
            r == (self@.accepts(track, duration, Seq::new(size as nat, |i: int| 0u8))),
    {
        let index: usize = track as usize;
        if index >= self.tracks.len() {
            return false;
        }
        assert(self@.tracks[index as int] == self.tracks@[index as int]@);
        assert(self@.tracks[index as int].wf());
        let t = &self.tracks[index];
        if duration > u32::MAX - t.total_duration || size > 0xffff_ffff || t.sample_sizes.len()
            >= 0xffff_ffff {
            return false;
        }
        if t.chunk_duration + duration >= CHUNK_DURATION && (self.output.len() > 0xffff_ffff
            || t.chunk_offsets.len() >= 0xffff_ffff) {
            return false;
        }
        true
    }

    /// Takes a sample that can be taken.
    fn take(&mut self, track: u32, duration: u32, sync: bool, data: &[u8])
        requires
            old(self)@.wf(),
            old(self)@.accepts(track, duration, data@),
        ensures
            final(self)@ == old(self)@.with_sample(track, duration, sync, data@),
            final(self)@.wf(),
    {
        let index: usize = track as usize;
        let ghost before = self@;
        let ghost tracks = self.tracks@;
        assert(before.tracks[index as int] == tracks[index as int]@);
        assert(before.tracks[index as int].wf());
        self.tracks[index].write_sample(&mut self.output, duration, sync, data);
        proof {
            let after = before.with_sample(track, duration, sync, data@);
            before.lemma_with_sample_placed(track, duration, sync, data@);
            assert forall|k: int| 0 <= k < tracks.len() implies self@.tracks[k]
                == after.tracks[k] by {
                if k != index {
                    assert(self.tracks@[k] == tracks[k]);
                    assert(before.tracks[k] == tracks[k]@);
                }
            }
            assert(self@.tracks =~= after.tracks);
            assert(self@.output.subrange(
                self.media_data_box_begin - 40,
                self.media_data_box_begin + 8,
            ) =~= before.output.subrange(
                self.media_data_box_begin - 40,
                self.media_data_box_begin + 8,
            ));
            assert forall|k: int| 0 <= k < self@.tracks.len() implies (
            #[trigger] self@.tracks[k]).wf() by {
                if k != index {
                    assert(self@.tracks[k] == before.tracks[k]);
                }
            }
        }
    }

    /// Takes one more sample of a track: its duration, whether decoding can
    /// start at it, and its bytes. A sample that cannot be taken changes
    /// nothing.
    pub fn sample(&mut self, track: u32, duration: u32, sync: bool, data: &[u8]) -> (r: Result<
        (),
        Error,
    >)
        requires
            old(self)@.wf(),
        ensures
            r is Ok <==> old(self)@.accepts(track, duration, data@),
            r is Ok ==> final(self)@ == old(self)@.with_sample(track, duration, sync, data@),
            r is Err ==> r == Err::<(), Error>(too_large()) && final(self)@ == old(self)@,
            final(self)@.wf(),
    {
        if !self.accepts(track, duration, data.len()) {
            return Err(Error::Io(IoError::InvalidInput));
        }
        self.take(track, duration, sync, data);
        Ok(())
    }
}

impl WriterState {
    /// Writing the chunks that tracks still hold leaves the number of the
    /// tracks and the place of the media data box as they are.
    pub proof fn lemma_flushed(self, n: int)
        requires
            n <= self.tracks.len(),
        ensures
            self.flushed(n).tracks.len() == self.tracks.len(),
            self.flushed(n).media_data_box_begin == self.media_data_box_begin,
        decreases n,
    {
        if n > 0 {
            self.lemma_flushed(n - 1);
        }
    }
}

impl Writer {
    /// Writes the chunk that a track still holds, if it holds one.
    fn flush_track(&mut self, index: usize) -> (r: Result<(), Error>)
        requires
            old(self)@.wf(),
            index < old(self)@.tracks.len(),
        ensures
            r is Ok <==> old(self)@.can_flush(index as int),
            r is Ok ==> final(self)@ == old(self)@.flush_track(index as int) && final(self)@.wf(),
            r is Err ==> r == Err::<(), Error>(too_large()) && final(self)@ == old(self)@,
    {
        let ghost before = self@;
        let ghost tracks = self.tracks@;
        assert(before.tracks[index as int] == tracks[index as int]@);
        assert(before.tracks[index as int].wf());
        if self.tracks[index].chunk_sample_count == 0 {
            return Ok(());
        }
        if self.output.len() > 0xffff_ffff || self.tracks[index].chunk_offsets.len()
            >= 0xffff_ffff {
            return Err(Error::Io(IoError::InvalidInput));
        }
        self.tracks[index].write_chunk(&mut self.output);
        proof {
            let after = before.flush_track(index as int);
            before.lemma_flush_track_placed(index as int);
            assert forall|k: int| 0 <= k < tracks.len() implies self@.tracks[k]
                == after.tracks[k] by {
                if k != index {
                    assert(self.tracks@[k] == tracks[k]);
                    assert(before.tracks[k] == tracks[k]@);
                }
            }
            assert(self@.tracks =~= after.tracks);
            assert(self@.output.subrange(
                self.media_data_box_begin - 40,
                self.media_data_box_begin + 8,
            ) =~= before.output.subrange(
                self.media_data_box_begin - 40,
                self.media_data_box_begin + 8,
            ));
            assert forall|k: int| 0 <= k < self@.tracks.len() implies (
            #[trigger] self@.tracks[k]).wf() by {
                if k != index {
                    assert(self@.tracks[k] == before.tracks[k]);
                }
            }
        }
        Ok(())
    }

    /// Writes the chunks that the tracks still hold, one after the other.
    fn flush(&mut self) -> (r: Result<(), Error>)
        requires
            old(self)@.wf(),
        ensures
            r is Ok <==> old(self)@.flushable(old(self)@.tracks.len() as int),
            r is Ok ==> final(self)@ == old(self)@.flushed(old(self)@.tracks.len() as int)
                && final(self)@.wf(),
            r is Err ==> r == Err::<(), Error>(too_large()),
    {
        let ghost start = self@;
        let count: usize = self.tracks.len();
        let mut i: usize = 0;
        while i < count
            invariant
                i <= count,
                start == old(self)@,
                count == start.tracks.len(),
                self@.tracks.len() == count,
                start.flushable(i as int),
                self@ == start.flushed(i as int),
                self@.wf(),
            decreases count - i,
        {
            match self.flush_track(i) {
                Ok(()) => {},
                Err(e) => {
                    proof {
                        start.lemma_flushable(i + 1, count as int);
                    }
                    return Err(e);
                },
            }
            i = i + 1;
        }
        Ok(())
    }

    /// The movie that tracks make up.
    fn into_movie(tracks: Vec<Track>) -> (r: MovieBox)
        requires
            tracks@.len() < u32::MAX,
        ensures
            r@ == (WriterState {
                output: Seq::empty(),
                media_data_box_begin: 0,
                tracks: views(tracks@),
            }).movie(),
    {
        reveal(WriterState::movie);
        let mut tracks = tracks;
        let ghost all = views(tracks@);
        let ghost state = WriterState { output: Seq::empty(), media_data_box_begin: 0, tracks: all };
        let count: usize = tracks.len();
        let mut boxes: Vec<TrackBox> = Vec::new();
        let mut duration: u32 = 0;
        let mut i: usize = 0;
        assert(all.take(0) =~= Seq::empty());
        while i < count
            invariant
                i <= count,
                count == all.len(),
                count < u32::MAX,
                tracks@.len() == count - i,
                views(tracks@) == all.skip(i as int),
                boxes@.len() == i,
                forall|j: int| 0 <= j < i ==> (#[trigger] boxes@[j])@ == all[j].track_box((j + 1) as u32),
                duration == longest(all.take(i as int)),
            decreases count - i,
        {
            let ghost rest = views(tracks@);
            let ghost held = tracks@;
            let track = tracks.remove(0);
            proof {
                assert(track@ == rest[0]);
                assert forall|k: int| 0 <= k < tracks@.len() implies views(tracks@)[k]
                    == all.skip(i + 1)[k] by {
                    assert(tracks@[k] == held[k + 1]);
                    assert(rest[k + 1] == all.skip(i as int)[k + 1]);
                }
                assert(views(tracks@) =~= all.skip(i + 1));
                assert(all.take(i + 1).drop_last() =~= all.take(i as int));
                assert(all.take(i + 1).last() == all[i as int]);
            }
            if track.total_duration > duration {
                duration = track.total_duration;
            }
            boxes.push(track.into_box(i as u32 + 1));
            i = i + 1;
        }
        let mut header = MovieHeaderBox::default();
        header.timescale = TIMESCALE;
        header.duration = duration as u64;
        header.next_track_id = count as u32 + 1;
        let r = MovieBox { header, tracks: boxes };
        proof {
            assert(all.take(count as int) =~= all);
            assert(r@.tracks =~= state.movie().tracks);
        }
        r
    }

    /// Ends the file: writes the chunks that the tracks still hold, sets
    /// the size of the media data box, writes the movie behind it, and
    /// hands out the bytes.
    pub fn finish(self) -> (r: Result<Vec<u8>, Error>)
        requires
            self@.wf(),
        ensures
            r is Ok <==> self@.can_finish(),
            r is Ok ==> r->Ok_0@ == self@.finished(),
            r is Err ==> r == Err::<Vec<u8>, Error>(too_large()),
    {
        let ghost start = self@;
        let mut this = self;
        proof {
            start.lemma_flushed(start.tracks.len() as int);
        }
        this.flush()?;
        let ghost done = this@;
        let mut output = this.output;
        let tracks = this.tracks;
        update_box_header(&mut output, this.media_data_box_begin)?;
        if tracks.len() >= 0xffff_ffff {
            return Err(Error::Io(IoError::InvalidInput));
        }
        let movie = Writer::into_movie(tracks);
        assert(movie@ == done.movie()) by {
            reveal(WriterState::movie);
        }
        movie.encode(&mut output)?;
        Ok(output)
    }
}

impl WriterState {
    /// Chunks that cannot be written for the first tracks cannot be
    /// written for more of them.
    pub proof fn lemma_flushable(self, n: int, m: int)
        requires
            n <= m,
            !self.flushable(n),
        ensures
            !self.flushable(m),
        decreases m - n,
    {
        if n < m {
            self.lemma_flushable(n, m - 1);
        }
    }
}

impl TrackConfigView {
    /// Whether decoding the bytes of what is configured gives it back: the
    /// name of the handler holds no NUL character, and the header and the
    /// description are such as bytes can hold.
    pub open spec fn canonical(self) -> bool {
        &&& nul_free(self.handler.name)
        &&& self.header matches MediaInformationHeaderView::Video(header)
            ==> VideoMediaHeaderBox::canonical(header)
        &&& SampleDescriptionBox::canonical(self.description)
    }
}

impl TrackState {
    /// A chunk that is written leaves of the track what holds of a track.
    pub proof fn lemma_with_chunk_wf(self, offset: u32)
        requires
            self.wf_unflushed(),
            self.chunk_offsets.len() < u32::MAX,
        ensures
            self.with_chunk(offset).wf(),
    {
        let after = self.with_chunk(offset);
        law_add_chunk_samples(
            self.chunk_samples,
            self.chunk_sample_count,
            self.chunk_offsets.len() as int,
        );
        assert(after.chunks.drop_last() =~= self.chunks);
        assert(joined(after.chunks) + after.chunk_buffer =~= joined(self.chunks)
            + self.chunk_buffer);
    }

    /// The box of a track is such that decoding its bytes gives it back,
    /// where what is configured is.
    pub proof fn lemma_track_box_canonical(self, track_id: u32)
        requires
            self.config.canonical(),
        ensures
            TrackBox::canonical(self.track_box(track_id)),
    {
        reveal(TrackState::track_box);
        let sizes = SampleSizeBox::shortest(self.sample_sizes);
        assert(SampleSizeBox::canonical(sizes));
        let places = seq![DataEntryView::Url(None)];
        assert(DataInformationBox::canonical(places)) by {
            assert forall|i: int| 0 <= i < places.len() implies crate::data::DataEntry::canonical(
                #[trigger] places[i],
            ) by {}
        }
    }
}

impl WriterState {
    /// Writing the chunk that a track still holds leaves of the writer what
    /// holds of a writer.
    pub proof fn lemma_flush_track_wf(self, track: int)
        requires
            self.wf(),
            0 <= track < self.tracks.len(),
            self.can_flush(track),
        ensures
            self.flush_track(track).wf(),
            self.flush_track(track).tracks.len() == self.tracks.len(),
            self.flush_track(track).media_data_box_begin == self.media_data_box_begin,
            self.output.is_prefix_of(self.flush_track(track).output),
    {
        let after = self.flush_track(track);
        let t = self.tracks[track];
        let begin = self.media_data_box_begin;
        if t.chunk_sample_count > 0 {
            assert(t.wf());
            assert(t.wf_unflushed());
            t.lemma_with_chunk_wf(self.output.len() as u32);
            self.lemma_flush_track_placed(track);
            assert(after.output.subrange(begin - 40, begin + 8) == writer_head()) by {
                assert(after.output.subrange(begin - 40, begin + 8) =~= self.output.subrange(
                    begin - 40,
                    begin + 8,
                ));
            }
            assert forall|i: int| 0 <= i < after.tracks.len() implies (
            #[trigger] after.tracks[i]).wf() by {
                if i != track {
                    assert(after.tracks[i] == self.tracks[i]);
                    assert(self.tracks[i].wf());
                }
            }
        }
    }

    /// Writing the chunks that tracks still hold leaves of the writer what
    /// holds of a writer, and leaves what was written where it was.
    pub proof fn lemma_flushed_wf(self, n: int)
        requires
            self.wf(),
            0 <= n <= self.tracks.len(),
            self.flushable(n),
        ensures
            self.flushed(n).wf(),
            self.flushed(n).tracks.len() == self.tracks.len(),
            self.flushed(n).media_data_box_begin == self.media_data_box_begin,
            self.output.is_prefix_of(self.flushed(n).output),
        decreases n,
    {
        if n > 0 {
            self.lemma_flushed_wf(n - 1);
            self.flushed(n - 1).lemma_flush_track_wf(n - 1);
        }
    }

    /// The writer after the chunks that the tracks still hold were written.
    pub open spec fn done(self) -> WriterState {
        self.flushed(self.tracks.len() as int)
    }

    /// The file that the writer has written when it has finished: its one
    /// media data box holds the chunks in the order in which they were
    /// written, and its movie holds the tables of the tracks.
    pub open spec fn file(self) -> FileView {
        FileView {
            file_type: writer_file_type(),
            movie: self.done().movie(),
            media_data: seq![self.done().media_data()],
        }
    }

    /// What the output held before the writer began.
    pub open spec fn before(self) -> Seq<u8> {
        self.output.take(self.media_data_box_begin - 40)
    }
}

/// An output that holds the head of a file and media data behind it is,
/// once the size of the media data box is set and a movie is written behind
/// it, the bytes of a file.
proof fn lemma_closed(before: Seq<u8>, data: Seq<u8>, movie: Seq<u8>, output: Seq<u8>, begin: int)
    requires
        output == before + writer_head() + data,
        begin == before.len() + 40,
        fits(data),
    ensures
        output.take(begin) + be_u32((output.len() - begin) as u32) + output.skip(begin + 4) + movie
            == before + (FileTypeBox::bytes(writer_file_type()) + (File::free_bytes() + (box_bytes(
            MDAT,
            data,
        ) + movie))),
{
    broadcast use group_big_endian;

    let file_type = FileTypeBox::bytes(writer_file_type());
    lemma_table_len(writer_file_type().compatible_brands);
    assert(file_type.len() == 32);
    assert(File::free_bytes().len() == 8);
    assert(writer_head().len() == 48);
    assert(output.take(begin) =~= before + file_type + File::free_bytes());
    assert(output.skip(begin + 4) =~= be_u32(MDAT) + data);
    assert(output.len() - begin == 8 + data.len());
    assert(before + file_type + File::free_bytes() + be_u32((8 + data.len()) as u32) + (be_u32(
        MDAT,
    ) + data) + movie =~= before + (file_type + (File::free_bytes() + (box_bytes(MDAT, data)
        + movie))));
}

/// What a writer hands out when it finishes is, behind what the output held
/// before, the bytes of a file: the file type, the media data with all
/// chunks, and the movie with the tables.
#[verifier::rlimit(50)]
pub proof fn law_finished_is_file(s: WriterState)
    requires
        s.wf(),
        s.can_finish(),
    ensures
        s.finished() == s.before() + File::bytes(s.file()),
        File::encodable(s.file()),
{
    let n = s.tracks.len() as int;
    let done = s.done();
    let begin = s.media_data_box_begin as int;
    let data = done.media_data();
    let movie = MovieBox::bytes(done.movie());
    s.lemma_flushed_wf(n);
    assert(done.output.subrange(begin - 40, begin + 8) == writer_head());
    assert(done.output.take(begin - 40) =~= s.before());
    assert(done.output =~= s.before() + done.output.subrange(begin - 40, begin + 8) + data);
    assert(fits(data));
    lemma_closed(s.before(), data, movie, done.output, begin);
    assert(all_bytes::<MediaDataBox>(seq![data]) =~= box_bytes(MDAT, data)) by {
        assert(seq![data].drop_first() =~= Seq::<Seq<u8>>::empty());
        assert(all_bytes::<MediaDataBox>(Seq::<Seq<u8>>::empty()) =~= Seq::<u8>::empty());
    }
    assert(File::encodable(s.file())) by {
        lemma_table_len(writer_file_type().compatible_brands);
        assert(MediaDataBox::encodable(data));
        assert forall|i: int| 0 <= i < s.file().media_data.len() implies MediaDataBox::encodable(
            #[trigger] s.file().media_data[i],
        ) by {}
    }
}

/// What a writer with a track hands out when it finishes decodes, behind
/// what the output held before, to the file with the media data and the
/// tables of the tracks, where what is configured of the tracks can be
/// decoded.
#[verifier::rlimit(50)]
pub proof fn law_finished_decodes(s: WriterState)
    requires
        s.wf(),
        s.can_finish(),
        s.tracks.len() > 0,
        forall|i: int| 0 <= i < s.tracks.len() ==> (#[trigger] s.tracks[i]).config.canonical(),
    ensures
        File::parse(s.finished().skip(s.before().len() as int)) == Ok::<(FileView, int), Error>(
            (s.file(), File::bytes(s.file()).len() as int),
        ),
{
    let n = s.tracks.len() as int;
    let done = s.done();
    law_finished_is_file(s);
    s.lemma_flushed_wf(n);
    s.lemma_flushed_config(n);
    assert(s.finished().skip(s.before().len() as int) =~= File::bytes(s.file()));
    assert(File::canonical(s.file())) by {
        reveal(WriterState::movie);
        let movie = done.movie();
        assert forall|i: int| 0 <= i < movie.tracks.len() implies TrackBox::canonical(
            #[trigger] movie.tracks[i],
        ) by {
            assert(done.tracks[i].config == s.tracks[i].config);
            done.tracks[i].lemma_track_box_canonical((i + 1) as u32);
        }
    }
    File::lemma_round_trip(s.file());
}

impl WriterState {
    /// Writing the chunks that tracks still hold leaves what is configured
    /// of the tracks as it is.
    pub proof fn lemma_flushed_config(self, n: int)
        requires
            0 <= n <= self.tracks.len(),
        ensures
            self.flushed(n).tracks.len() == self.tracks.len(),
            forall|i: int|
                0 <= i < self.tracks.len() ==> (#[trigger] self.flushed(n).tracks[i]).config
                    == self.tracks[i].config,
        decreases n,
    {
        if n > 0 {
            self.lemma_flushed_config(n - 1);
        }
    }
}

/// Chunks that are not empty begin at places that go up strictly.
pub proof fn law_offsets_ascend(t: TrackState, output: Seq<u8>, begin: int)
    requires
        t.placed(output, begin),
        forall|k: int| 0 <= k < t.chunk_offsets.len() ==> (#[trigger] t.chunks[k]).len() > 0,
    ensures
        forall|k: int, l: int|
            0 <= k < l < t.chunk_offsets.len() ==> t.chunk_offsets[k] < t.chunk_offsets[l],
{
    assert forall|k: int, l: int| 0 <= k < l < t.chunk_offsets.len() implies t.chunk_offsets[k]
        < t.chunk_offsets[l] by {
        assert(t.chunks[k].len() > 0);
        assert(t.chunk_offsets[k] + t.chunks[k].len() <= t.chunk_offsets[l]);
    }
}

impl WriterState {
    /// Once the chunks that the first `n` tracks still hold were written,
    /// these tracks hold no chunk, and the others are as they were.
    pub proof fn lemma_flushed_tracks(self, n: int)
        requires
            self.wf(),
            0 <= n <= self.tracks.len(),
            self.flushable(n),
        ensures
            self.flushed(n).tracks.len() == self.tracks.len(),
            forall|i: int| 0 <= i < n ==> (#[trigger] self.flushed(n).tracks[i]).chunk_sample_count == 0,
            forall|i: int| n <= i < self.tracks.len() ==> #[trigger] self.flushed(n).tracks[i]
                == self.tracks[i],
        decreases n,
    {
        if n > 0 {
            self.lemma_flushed_tracks(n - 1);
            self.lemma_flushed_wf(n - 1);
        }
    }
}

/// When a writer has finished, every sample of every track lies in a chunk
/// that was written: the runs of chunks stand for as many samples as the
/// runs of durations, which is the number of sizes; and the chunks, one
/// after the other, are the samples, one after the other.
pub proof fn law_finished_tables(s: WriterState, track: int)
    requires
        s.wf(),
        s.can_finish(),
        0 <= track < s.tracks.len(),
    ensures
        ({
            let t = s.done().tracks[track];
            &&& t.wf()
            &&& t.placed(s.done().output, s.media_data_box_begin + 8)
            &&& chunked_samples(t.chunk_samples, t.chunk_offsets.len() as int)
                == t.sample_sizes.len()
            &&& total_samples(t.sample_times) == t.sample_sizes.len()
            &&& joined(t.chunks) == joined(t.samples)
        }),
{
    let n = s.tracks.len() as int;
    s.lemma_flushed_wf(n);
    s.lemma_flushed_tracks(n);
    let t = s.done().tracks[track];
    assert(t.wf());
    assert(t.chunk_sample_count == 0);
    assert(joined(t.chunks) + t.chunk_buffer =~= joined(t.chunks));
}

/// The numbers of the sync samples go up strictly, lie between one and the
/// number of samples, and are the numbers of exactly the samples at which
/// decoding can start.
pub proof fn law_sync_numbers(flags: Seq<bool>)
    requires
        flags.len() <= u32::MAX,
    ensures
        ascending(sync_numbers(flags), flags.len() as int),
        forall|k: int|
            0 <= k < sync_numbers(flags).len() ==> flags[(#[trigger] sync_numbers(flags)[k]) - 1],
        forall|i: int|
            0 <= i < flags.len() && #[trigger] flags[i] ==> sync_numbers(flags).contains(
                (i + 1) as u32,
            ),
    decreases flags.len(),
{
    let numbers = sync_numbers(flags);
    if flags.len() > 0 {
        let n = flags.len() as int;
        let before = flags.drop_last();
        let earlier = sync_numbers(before);
        law_sync_numbers(before);
        assert forall|k: int| 0 <= k < numbers.len() implies 1 <= #[trigger] numbers[k] <= n
            && flags[numbers[k] - 1] by {
            if k < earlier.len() {
                assert(numbers[k] == earlier[k]);
                assert(before[earlier[k] - 1] == flags[earlier[k] - 1]);
            }
        }
        assert forall|k: int, l: int| 0 <= k < l < numbers.len() implies numbers[k] < numbers[l] by {
            assert(numbers[k] == earlier[k]);
            if l < earlier.len() {
                assert(numbers[l] == earlier[l]);
            }
        }
        assert forall|i: int| 0 <= i < flags.len() && #[trigger] flags[i] implies numbers.contains(
            (i + 1) as u32,
        ) by {
            if i < n - 1 {
                assert(before[i] == flags[i]);
                let k = choose|k: int| 0 <= k < earlier.len() && earlier[k] == (i + 1) as u32;
                assert(numbers[k] == (i + 1) as u32);
            } else {
                assert(numbers[numbers.len() - 1] == n as u32);
            }
        }
    }
}

/// What the tables of a track say of the samples that were handed in, from
/// the first on: the runs of durations stand for their durations, one by one
/// and in their order, and are as few as can be; there are as many sizes as
/// samples; and the sync samples are the numbers, counted from one, of
/// exactly the samples at which decoding can start, going up strictly.
pub proof fn law_tables_say_the_samples(t: TrackState)
    requires
        t.wf(),
    ensures
        durations(t.sample_times) == t.sample_durations,
        compact(t.sample_times),
        total_samples(t.sample_times) == t.sample_durations.len(),
        t.sample_sizes.len() == t.sample_durations.len(),
        t.sample_syncs == sync_numbers(t.sample_flags),
        ascending(t.sample_syncs, t.sample_flags.len() as int),
        forall|i: int|
            0 <= i < t.sample_flags.len() ==> (#[trigger] t.sample_flags[i]
                <==> t.sample_syncs.contains((i + 1) as u32)),
{
    law_sync_numbers(t.sample_flags);
    assert forall|i: int| 0 <= i < t.sample_flags.len() implies (#[trigger] t.sample_flags[i]
        <==> t.sample_syncs.contains((i + 1) as u32)) by {
        if t.sample_syncs.contains((i + 1) as u32) {
            let k = choose|k: int| 0 <= k < t.sample_syncs.len() && t.sample_syncs[k] == (i
                + 1) as u32;
            assert(t.sample_flags[t.sample_syncs[k] - 1]);
        }
    }
}

} // verus!
