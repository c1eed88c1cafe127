//! Turning the packets of a file into one mono signal at a common sample rate.
//!
//! `MonoDecoding` decides and keeps the samples; whoever drives it reads packets, decodes them
//! and runs the resampler. It asks with `request`, and each answer has a method of its own.
use vstd::prelude::*;

use crate::single::Single;

verus! {

/// The chunk length that a resampler is made with.
pub const RESAMPLER_CHUNK: usize = 1024;

/// The number of parts that a resampler is to process a chunk in.
pub const RESAMPLER_PARTS: usize = 2;

/// The number of channels that a resampler is made for.
pub const RESAMPLER_CHANNELS: usize = 1;

/// How many consumed samples may stand before the unread ones.
const COMPACT_AT: usize = 65536;

/// What stays fixed while a file is decoded.
#[derive(Clone, Copy, Debug, PartialEq, Eq, Structural)]
pub struct Job {
    /// The track whose packets count.
    pub track_id: u32,
    /// The sample rate of the result.
    pub target_sr: u32,
    /// The sample rate that the container gives, where it gives one.
    pub declared_sr: Option<u32>,
    /// How many samples the result has at most.
    pub max_samples: usize,
}

/// What is waited for.
#[derive(Clone, Copy, Debug, PartialEq, Eq, Structural)]
pub enum Phase {
    /// A resampler.
    Setup,
    /// A packet.
    Reading,
    /// The samples of the packet read last.
    Decoding,
    /// The output of the resampler for one chunk.
    Resampling,
    /// The output of the resampler for the samples that fill no chunk.
    Flushing,
    /// Nothing.
    Finished,
}

/// What the driver is asked to do.
#[derive(Debug)]
pub enum Request {
    /// Make a resampler, and tell how many samples it takes at once.
    MakeResampler { input_sr: u32, target_sr: u32, chunk: usize, parts: usize, channels: usize },
    /// Read the next packet, and tell its track, or that there is none.
    ReadPacket,
    /// Decode the packet, and give its sample rate and its samples mixed to mono.
    DecodePacket,
    /// Resample these samples, a whole chunk.
    Resample { input: Vec<Single> },
    /// Resample these samples, the end of the stream.
    ResampleRest { input: Vec<Single> },
    /// Stop.
    Stop,
}

/// Why decoding cannot go on.
#[derive(Clone, Copy, Debug, PartialEq, Eq, Structural)]
pub enum DecodingError {
    /// The resampler takes no samples.
    EmptyChunk,
}

impl DecodingError {
    /// What to tell the user.
    pub fn message(&self) -> (text: String)
        ensures
            text@ == "resampler input chunk size is 0"@,
    {
        "resampler input chunk size is 0".to_string()
    }
}

/// The state of a decoding.
#[verifier::ext_equal]
pub struct Progress {
    pub phase: Phase,
    /// The sample rate of the decoded blocks.
    pub input_sr: u32,
    /// How many samples the resampler takes, where there is one.
    pub chunk: Option<usize>,
    /// The block that waits for a resampler.
    pub held: Option<Seq<Single>>,
    /// The samples that the resampler has not had.
    pub unread: Seq<Single>,
    /// The result so far.
    pub out: Seq<Single>,
}

/// An answer of the driver.
pub enum Reply {
    /// A resampler that takes this many samples at once.
    Ready(usize),
    /// The track of the packet read, or the end of the stream.
    Packet(Option<u32>),
    /// The sample rate and samples of the packet, unless it cannot be decoded.
    Decoded(Option<(u32, Seq<Single>)>),
    /// What the resampler made of a chunk.
    Resampled(Seq<Single>),
    /// What the resampler made of the rest.
    Flushed(Seq<Single>),
}

/// The first `max` samples, or all if there are fewer.
pub open spec fn cut(samples: Seq<Single>, max: usize) -> Seq<Single> {
    if samples.len() <= max {
        samples
    } else {
        samples.take(max as int)
    }
}

/// The first channel, or nothing.
pub open spec fn first_channel(channels: Seq<Vec<Single>>) -> Seq<Single> {
    if channels.len() == 0 {
        Seq::empty()
    } else {
        channels[0]@
    }
}

/// No packet is read any more: what the resampler has not had goes to it while the result has
/// room, and then the result is cut to length.
pub open spec fn winding_up(job: Job, p: Progress) -> Progress {
    if p.chunk is Some && p.out.len() < job.max_samples && p.unread.len() > 0 {
        Progress { phase: Phase::Flushing, ..p }
    } else {
        Progress { phase: Phase::Finished, out: cut(p.out, job.max_samples), ..p }
    }
}

/// Packets are read until the result is long enough.
pub open spec fn next_packet(job: Job, p: Progress) -> Progress {
    if p.out.len() >= job.max_samples {
        winding_up(job, p)
    } else {
        Progress { phase: Phase::Reading, ..p }
    }
}

/// Whole chunks go to the resampler until the result is long enough.
pub open spec fn next_chunk(job: Job, p: Progress) -> Progress {
    if p.unread.len() >= p.chunk->0 && p.out.len() < job.max_samples {
        Progress { phase: Phase::Resampling, ..p }
    } else {
        next_packet(job, p)
    }
}

/// A decoded block goes to the resampler, or straight to the result where there is none.
pub open spec fn taking(job: Job, p: Progress, block: Seq<Single>) -> Progress {
    if p.chunk is Some {
        next_chunk(job, Progress { unread: p.unread + block, ..p })
    } else {
        next_packet(job, Progress { out: p.out + block, ..p })
    }
}

/// The sample rate that a block decoded at `rate` is taken to have: a rate that the container
/// gives stands, else that of the block counts.
pub open spec fn effective_rate(job: Job, p: Progress, rate: u32) -> u32 {
    if job.declared_sr is None {
        rate
    } else {
        p.input_sr
    }
}

/// The state that a decoding begins in.
pub open spec fn beginning(job: Job) -> Progress {
    let input_sr = match job.declared_sr {
        Some(rate) => rate,
        None => job.target_sr,
    };
    let p = Progress {
        phase: Phase::Setup,
        input_sr,
        chunk: None,
        held: None,
        unread: Seq::empty(),
        out: Seq::empty(),
    };
    if input_sr != job.target_sr {
        p
    } else {
        next_packet(job, p)
    }
}

/// Whether `reply` answers what `p` waits for.
pub open spec fn fits(p: Progress, reply: Reply) -> bool {
    match reply {
        Reply::Ready(chunk) => p.phase == Phase::Setup && chunk > 0,
        Reply::Packet(_) => p.phase == Phase::Reading,
        Reply::Decoded(_) => p.phase == Phase::Decoding,
        Reply::Resampled(_) => p.phase == Phase::Resampling,
        Reply::Flushed(_) => p.phase == Phase::Flushing,
    }
}

/// The state after a reply.
pub open spec fn step(job: Job, p: Progress, reply: Reply) -> Progress {
    match reply {
        Reply::Ready(chunk) => {
            let q = Progress { chunk: Some(chunk), held: None, unread: Seq::empty(), ..p };
            match p.held {
                None => next_packet(job, q),
                Some(block) => taking(job, q, block),
            }
        },
        Reply::Packet(None) => winding_up(job, p),
        Reply::Packet(Some(track_id)) => if track_id == job.track_id {
            Progress { phase: Phase::Decoding, ..p }
        } else {
            p
        },
        Reply::Decoded(None) => Progress { phase: Phase::Reading, ..p },
        Reply::Decoded(Some((rate, block))) => {
            let input_sr = effective_rate(job, p, rate);
            if input_sr == p.input_sr {
                taking(job, p, block)
            } else {
                let q = Progress { input_sr, chunk: None, unread: Seq::empty(), ..p };
                if input_sr != job.target_sr {
                    Progress { phase: Phase::Setup, held: Some(block), ..q }
                } else {
                    taking(job, q, block)
                }
            }
        },
        Reply::Resampled(output) => next_chunk(
            job,
            Progress { unread: p.unread.skip(p.chunk->0 as int), out: p.out + output, ..p },
        ),
        Reply::Flushed(output) => Progress {
            phase: Phase::Finished,
            unread: Seq::empty(),
            out: cut(p.out + output, job.max_samples),
            ..p
        },
    }
}

/// What holds of a state between two replies.
pub open spec fn consistent(job: Job, p: Progress) -> bool {
    &&& job.declared_sr matches Some(rate) ==> p.input_sr == rate
    &&& p.phase != Phase::Setup ==> p.held is None && (p.chunk is Some <==> p.input_sr
        != job.target_sr)
    &&& p.chunk is None ==> p.unread.len() == 0
    &&& p.chunk matches Some(chunk) ==> chunk > 0
    &&& match p.phase {
        Phase::Setup => {
            &&& p.input_sr != job.target_sr
            &&& p.chunk is None
            &&& p.held is None ==> p.out.len() == 0
            &&& p.held is Some ==> p.out.len() < job.max_samples
        },
        Phase::Reading | Phase::Decoding => {
            &&& p.out.len() < job.max_samples
            &&& p.chunk matches Some(chunk) ==> p.unread.len() < chunk
        },
        Phase::Resampling => {
            &&& p.out.len() < job.max_samples
            &&& p.chunk matches Some(chunk) && p.unread.len() >= chunk
        },
        Phase::Flushing => {
            &&& p.out.len() < job.max_samples
            &&& p.chunk matches Some(chunk) && 0 < p.unread.len() < chunk
        },
        Phase::Finished => p.out.len() <= job.max_samples,
    }
}

/// Whether `request` asks for what `p` waits for.
pub open spec fn asks(job: Job, p: Progress, request: Request) -> bool {
    match p.phase {
        Phase::Setup => request == (Request::MakeResampler {
            input_sr: p.input_sr,
            target_sr: job.target_sr,
            chunk: RESAMPLER_CHUNK,
            parts: RESAMPLER_PARTS,
            channels: RESAMPLER_CHANNELS,
        }),
        Phase::Reading => request is ReadPacket,
        Phase::Decoding => request is DecodePacket,
        Phase::Resampling => request matches Request::Resample { input } && input@
            == p.unread.take(p.chunk->0 as int),
        Phase::Flushing => request matches Request::ResampleRest { input } && input@ == p.unread,
        Phase::Finished => request is Stop,
    }
}

/// A decoding under way.
pub struct MonoDecoding {
    job: Job,
    phase: Phase,
    input_sr: u32,
    chunk: Option<usize>,
    held: Option<Vec<Single>>,
    pending: Vec<Single>,
    /// How many samples at the start of `pending` the resampler has had.
    pending_offset: usize,
    out: Vec<Single>,
}

impl View for MonoDecoding {
    type V = Progress;

    closed spec fn view(&self) -> Progress {
        Progress {
            phase: self.phase,
            input_sr: self.input_sr,
            chunk: self.chunk,
            held: match self.held {
                None => None,
                Some(block) => Some(block@),
            },
            unread: self.pending@.skip(self.pending_offset as int),
            out: self.out@,
        }
    }
}

fn copy_range(from: &Vec<Single>, start: usize, end: usize) -> (part: Vec<Single>)
    requires
        start <= end <= from@.len(),
    ensures
        part@ == from@.subrange(start as int, end as int),
{
    let mut part: Vec<Single> = Vec::with_capacity(end - start);
    let mut i: usize = start;
    while i < end
        invariant
            start <= i <= end <= from@.len(),
            part@ =~= from@.subrange(start as int, i as int),
        decreases end - i,
    {
        part.push(from[i]);
        i += 1;
    }
    part
}

impl MonoDecoding {
    /// The job that this decoding was begun with.
    pub closed spec fn job(&self) -> Job {
        self.job
    }

    /// Whether the state is one that a decoding can be in.
    pub closed spec fn wf(&self) -> bool {
        &&& self.pending_offset <= self.pending@.len()
        &&& consistent(self.job, self@)
    }

    /// A well-formed decoding is in a consistent state.
    pub proof fn law_wf_is_consistent(&self)
        requires
            self.wf(),
        ensures
            consistent(self.job(), self@),
    {
    }

    /// Begins a decoding.
    pub fn new(job: Job) -> (d: MonoDecoding)
        ensures
            d.wf(),
            d.job() == job,
            d@ == beginning(job),
    {
        let input_sr: u32 = match job.declared_sr {
            Some(rate) => rate,
            None => job.target_sr,
        };
        let mut d = MonoDecoding {
            job,
            phase: Phase::Setup,
            input_sr,
            chunk: None,
            held: None,
            pending: Vec::new(),
            pending_offset: 0,
            out: Vec::new(),
        };
        assert(d@.unread =~= Seq::<Single>::empty());
        if input_sr == job.target_sr {
            d.enter_loop();
        }
        d
    }

    /// What is waited for.
    pub fn phase(&self) -> (phase: Phase)
        ensures
            phase == self@.phase,
    {
        self.phase
    }

    /// What the driver is to do next.
    pub fn request(&self) -> (request: Request)
        requires
            self.wf(),
        ensures
            asks(self.job(), self@, request),
    {
        match self.phase {
            Phase::Setup => Request::MakeResampler {
                input_sr: self.input_sr,
                target_sr: self.job.target_sr,
                chunk: RESAMPLER_CHUNK,
                parts: RESAMPLER_PARTS,
                channels: RESAMPLER_CHANNELS,
            },
            Phase::Reading => Request::ReadPacket,
            Phase::Decoding => Request::DecodePacket,
            Phase::Resampling => {
                let chunk: usize = match self.chunk {
                    Some(chunk) => chunk,
                    None => 0,
                };
                assert(self.pending_offset + chunk <= self.pending.len());
                let input = copy_range(
                    &self.pending,
                    self.pending_offset,
                    self.pending_offset + chunk,
                );
                assert(input@ =~= self@.unread.take(chunk as int));
                Request::Resample { input }
            },
            Phase::Flushing => {
                let input = copy_range(&self.pending, self.pending_offset, self.pending.len());
                assert(input@ =~= self@.unread);
                Request::ResampleRest { input }
            },
            Phase::Finished => Request::Stop,
        }
    }

    /// Answers `MakeResampler` with the number of samples that the resampler takes at once.
    pub fn resampler_ready(&mut self, chunk: usize) -> (r: Result<(), DecodingError>)
        requires
            old(self).wf(),
            old(self)@.phase == Phase::Setup,
        ensures
            final(self).wf(),
            final(self).job() == old(self).job(),
            r is Err <==> chunk == 0,
            r matches Err(e) ==> e == DecodingError::EmptyChunk && final(self)@ == old(self)@,
            r is Ok ==> final(self)@ == step(old(self).job(), old(self)@, Reply::Ready(chunk)),
    {
        if chunk == 0 {
            return Err(DecodingError::EmptyChunk);
        }
        self.chunk = Some(chunk);
        self.pending = Vec::new();
        self.pending_offset = 0;
        assert(self@.unread =~= Seq::<Single>::empty());
        match self.held.take() {
            None => self.enter_loop(),
            Some(block) => self.take_block(block),
        }
        Ok(())
    }

    /// Answers `ReadPacket` with the track of the packet, or `None` where there is none.
    pub fn packet_read(&mut self, track_id: Option<u32>)
        requires
            old(self).wf(),
            old(self)@.phase == Phase::Reading,
        ensures
            final(self).wf(),
            final(self).job() == old(self).job(),
            final(self)@ == step(old(self).job(), old(self)@, Reply::Packet(track_id)),
    {
        match track_id {
            None => self.wind_up(),
            Some(track_id) => {
                if track_id == self.job.track_id {
                    self.phase = Phase::Decoding;
                }
            },
        }
    }

    /// Answers `DecodePacket` with the sample rate and the mono samples of the packet, or
    /// `None` where it cannot be decoded.
    pub fn packet_decoded(&mut self, decoded: Option<(u32, Vec<Single>)>)
        requires
            old(self).wf(),
            old(self)@.phase == Phase::Decoding,
        ensures
            final(self).wf(),
            final(self).job() == old(self).job(),
            final(self)@ == step(
                old(self).job(),
                old(self)@,
                Reply::Decoded(
                    match decoded {
                        None => None,
                        Some((rate, block)) => Some((rate, block@)),
                    },
                ),
            ),
    {
        match decoded {
            None => {
                self.phase = Phase::Reading;
            },
            Some((rate, block)) => {
                if self.job.declared_sr.is_none() && rate != self.input_sr {
                    self.input_sr = rate;
                    self.chunk = None;
                    self.pending.clear();
                    self.pending_offset = 0;
                    assert(self@.unread =~= Seq::<Single>::empty());
                    if rate != self.job.target_sr {
                        self.held = Some(block);
                        self.phase = Phase::Setup;
                    } else {
                        self.take_block(block);
                    }
                } else {
                    self.take_block(block);
                }
            },
        }
    }

    /// Answers `Resample` with what the resampler gave, channel by channel.
    pub fn chunk_resampled(&mut self, channels: Vec<Vec<Single>>)
        requires
            old(self).wf(),
            old(self)@.phase == Phase::Resampling,
        ensures
            final(self).wf(),
            final(self).job() == old(self).job(),
            final(self)@ == step(
                old(self).job(),
                old(self)@,
                Reply::Resampled(first_channel(channels@)),
            ),
    {
        let chunk: usize = match self.chunk {
            Some(chunk) => chunk,
            None => 0,
        };
        let ghost before = self@;
        assert(self.pending_offset + chunk <= self.pending.len());
        self.add_output(channels);
        self.pending_offset = self.pending_offset + chunk;
        assert(self@.unread =~= before.unread.skip(chunk as int));
        self.enter_chunks();
    }

    /// Answers `ResampleRest` with what the resampler gave, channel by channel.
    pub fn rest_resampled(&mut self, channels: Vec<Vec<Single>>)
        requires
            old(self).wf(),
            old(self)@.phase == Phase::Flushing,
        ensures
            final(self).wf(),
            final(self).job() == old(self).job(),
            final(self)@ == step(
                old(self).job(),
                old(self)@,
                Reply::Flushed(first_channel(channels@)),
            ),
    {
        self.add_output(channels);
        self.pending.clear();
        self.pending_offset = 0;
        assert(self@.unread =~= Seq::<Single>::empty());
        self.cut_output();
        self.phase = Phase::Finished;
    }

    /// The result.
    pub fn into_samples(self) -> (samples: Vec<Single>)
        requires
            self.wf(),
            self@.phase == Phase::Finished,
        ensures
            samples@ == self@.out,
            samples@.len() <= self.job().max_samples,
    {
        self.out
    }

    fn add_output(&mut self, channels: Vec<Vec<Single>>)
        ensures
            final(self).job() == old(self).job(),
            final(self).pending == old(self).pending,
            final(self).pending_offset == old(self).pending_offset,
            final(self)@ == (Progress {
                out: old(self)@.out + first_channel(channels@),
                ..old(self)@
            }),
    {
        if channels.len() > 0 {
            let mut first = copy_range(&channels[0], 0, channels[0].len());
            assert(first@ =~= channels@[0]@);
            self.out.append(&mut first);
        }
    }

    fn cut_output(&mut self)
        ensures
            final(self).job() == old(self).job(),
            final(self).pending == old(self).pending,
            final(self).pending_offset == old(self).pending_offset,
            final(self)@ == (Progress {
                out: cut(old(self)@.out, old(self).job().max_samples),
                ..old(self)@
            }),
    {
        self.out.truncate(self.job.max_samples);
    }

    /// What holds before the loop over packets is entered again.
    spec fn between_packets(&self) -> bool {
        &&& self.pending_offset <= self.pending@.len()
        &&& self.job.declared_sr matches Some(rate) ==> self.input_sr == rate
        &&& self.held is None
        &&& self.chunk is Some <==> self.input_sr != self.job.target_sr
        &&& self.chunk is None ==> self@.unread.len() == 0
        &&& self.chunk matches Some(chunk) ==> chunk > 0 && (self@.out.len()
            < self.job.max_samples ==> self@.unread.len() < chunk)
    }

    fn wind_up(&mut self)
        requires
            old(self).between_packets(),
        ensures
            final(self).wf(),
            final(self).job() == old(self).job(),
            final(self)@ == winding_up(old(self).job(), old(self)@),
    {
        if self.chunk.is_some() && self.out.len() < self.job.max_samples && self.pending_offset
            < self.pending.len() {
            self.phase = Phase::Flushing;
        } else {
            self.cut_output();
            self.phase = Phase::Finished;
        }
    }

    fn enter_loop(&mut self)
        requires
            old(self).between_packets(),
        ensures
            final(self).wf(),
            final(self).job() == old(self).job(),
            final(self)@ == next_packet(old(self).job(), old(self)@),
    {
        if self.out.len() >= self.job.max_samples {
            self.wind_up();
        } else {
            self.phase = Phase::Reading;
        }
    }

    /// What holds before the loop over chunks is entered again.
    spec fn between_chunks(&self) -> bool {
        &&& self.pending_offset <= self.pending@.len()
        &&& self.job.declared_sr matches Some(rate) ==> self.input_sr == rate
        &&& self.held is None
        &&& self.input_sr != self.job.target_sr
        &&& self.chunk matches Some(chunk) && chunk > 0
    }

    fn enter_chunks(&mut self)
        requires
            old(self).between_chunks(),
        ensures
            final(self).wf(),
            final(self).job() == old(self).job(),
            final(self)@ == next_chunk(old(self).job(), old(self)@),
    {
        let chunk: usize = match self.chunk {
            Some(chunk) => chunk,
            None => 0,
        };
        if self.pending.len() - self.pending_offset >= chunk && self.out.len()
            < self.job.max_samples {
            self.phase = Phase::Resampling;
        } else {
            self.compact();
            self.enter_loop();
        }
    }

    /// Lets go of the consumed samples once there are many, and keeps the unread ones.
    fn compact(&mut self)
        requires
            old(self).pending_offset <= old(self).pending@.len(),
        ensures
            old(self).pending_offset >= COMPACT_AT ==> {
                &&& final(self).pending@ == old(self).pending@.skip(
                    old(self).pending_offset as int,
                )
                &&& final(self).pending_offset == 0
            },
            old(self).pending_offset < COMPACT_AT ==> *final(self) == *old(self),
            final(self).job() == old(self).job(),
            final(self).held == old(self).held,
            final(self)@ == old(self)@,
    {
        let ghost before = self@;
        if self.pending_offset >= COMPACT_AT {
            self.pending = self.pending.split_off(self.pending_offset);
            self.pending_offset = 0;
            assert(self@.unread =~= before.unread);
        }
    }

    fn take_block(&mut self, block: Vec<Single>)
        requires
            old(self).between_packets(),
            old(self)@.out.len() < old(self).job().max_samples,
        ensures
            final(self).wf(),
            final(self).job() == old(self).job(),
            final(self)@ == taking(old(self).job(), old(self)@, block@),
    {
        let mut block = block;
        let ghost before = self@;
        let ghost added = block@;
        if self.chunk.is_some() {
            self.pending.append(&mut block);
            assert(self@.unread =~= before.unread + added);
            self.enter_chunks();
        } else {
            self.out.append(&mut block);
            self.enter_loop();
        }
    }
}

} // verus!
