//! What a decoding makes of a whole stream.
//!
//! A run of replies leads through many states; here its result is given in closed form, as a
//! function of the packets and of what the resamplers answer, and compared between streams.
use vstd::prelude::*;

use crate::decoding::{
    consistent, cut, effective_rate, fits, next_chunk, next_packet, taking, Job, MonoDecoding,
    Phase, Progress, Reply,
};
use crate::single::Single;
use crate::stream::{answered, handed, law_runs_stay_consistent, run};

verus! {

/// A packet: its track, and its sample rate and mono samples unless it cannot be decoded.
pub struct Packet {
    pub track_id: u32,
    pub decoded: Option<(u32, Seq<Single>)>,
}

/// How resamplers to the target rate behave. Each function takes the input rate first.
pub struct Resamplers {
    /// How many samples a resampler takes at once.
    pub chunk: spec_fn(u32) -> usize,
    /// What it makes of a chunk, after the samples that it was handed earlier.
    pub whole: spec_fn(u32, Seq<Single>, Seq<Single>) -> Seq<Single>,
    /// What it makes of the end of a stream, after the samples that it was handed earlier.
    pub rest: spec_fn(u32, Seq<Single>, Seq<Single>) -> Seq<Single>,
}

/// How many packets were asked for.
pub open spec fn reads(replies: Seq<Reply>) -> nat
    decreases replies.len(),
{
    if replies.len() == 0 {
        0
    } else {
        reads(replies.drop_last()) + if replies.last() is Packet {
            1nat
        } else {
            0
        }
    }
}

/// Whether `reply` is what `stream` and `resamplers` give after `earlier`.
pub open spec fn comes_from(
    job: Job,
    stream: Seq<Packet>,
    resamplers: Resamplers,
    earlier: Seq<Reply>,
    reply: Reply,
) -> bool {
    let p = run(job, earlier);
    let k = reads(earlier) as int;
    match reply {
        Reply::Ready(chunk) => chunk == (resamplers.chunk)(p.input_sr),
        Reply::Packet(track_id) => track_id == if k < stream.len() {
            Some(stream[k].track_id)
        } else {
            None
        },
        Reply::Decoded(decoded) => decoded == stream[k - 1].decoded,
        Reply::Resampled(output) => output == (resamplers.whole)(
            p.input_sr,
            handed(job, earlier),
            p.unread.take(p.chunk->0 as int),
        ),
        Reply::Flushed(output) => output == (resamplers.rest)(
            p.input_sr,
            handed(job, earlier),
            p.unread,
        ),
    }
}

/// Whether each of `replies` answers what was asked for, from `stream` and `resamplers`.
pub open spec fn driven(
    job: Job,
    stream: Seq<Packet>,
    resamplers: Resamplers,
    replies: Seq<Reply>,
) -> bool
    decreases replies.len(),
{
    replies.len() > 0 ==> {
        &&& driven(job, stream, resamplers, replies.drop_last())
        &&& fits(run(job, replies.drop_last()), replies.last())
        &&& comes_from(job, stream, resamplers, replies.drop_last(), replies.last())
    }
}

/// Whether `replies` lead through all of `stream`, or as much of it as the result takes.
pub open spec fn completes(
    job: Job,
    stream: Seq<Packet>,
    resamplers: Resamplers,
    replies: Seq<Reply>,
) -> bool {
    &&& driven(job, stream, resamplers, replies)
    &&& run(job, replies).phase == Phase::Finished
}

/// Where the samples of a stream are while no limit is set.
#[verifier::ext_equal]
pub struct Feed {
    /// The sample rate of the blocks.
    pub input_sr: u32,
    /// The samples that the resampler has not had.
    pub unread: Seq<Single>,
    /// The samples that the resampler has had.
    pub handed: Seq<Single>,
    /// The samples that came out.
    pub out: Seq<Single>,
}

/// One chunk goes to the resampler.
pub open spec fn after_chunk(resamplers: Resamplers, f: Feed) -> Feed {
    let chunk = (resamplers.chunk)(f.input_sr) as int;
    Feed {
        input_sr: f.input_sr,
        unread: f.unread.skip(chunk),
        handed: f.handed + f.unread.take(chunk),
        out: f.out + (resamplers.whole)(f.input_sr, f.handed, f.unread.take(chunk)),
    }
}

/// All whole chunks go to the resampler.
pub open spec fn chunked(resamplers: Resamplers, f: Feed) -> Feed
    decreases f.unread.len(),
{
    if 0 < (resamplers.chunk)(f.input_sr) <= f.unread.len() {
        chunked(resamplers, after_chunk(resamplers, f))
    } else {
        f
    }
}

/// Where samples stand before the first packet.
pub open spec fn unfed(job: Job) -> Feed {
    Feed {
        input_sr: match job.declared_sr {
            Some(rate) => rate,
            None => job.target_sr,
        },
        unread: Seq::empty(),
        handed: Seq::empty(),
        out: Seq::empty(),
    }
}

/// Whether a packet belongs to the track and can be decoded.
pub open spec fn is_useful(job: Job, packet: Packet) -> bool {
    packet.track_id == job.track_id && packet.decoded is Some
}

/// A decoded block at the rate `f.input_sr` is taken.
pub open spec fn fed_block(job: Job, resamplers: Resamplers, f: Feed, block: Seq<Single>) -> Feed {
    if f.input_sr == job.target_sr {
        Feed { out: f.out + block, ..f }
    } else {
        chunked(resamplers, Feed { unread: f.unread + block, ..f })
    }
}

/// The feed at another rate: what the resampler has not had is dropped, and a new one begins.
pub open spec fn at_rate(f: Feed, rate: u32) -> Feed {
    if rate == f.input_sr {
        f
    } else {
        Feed { input_sr: rate, unread: Seq::empty(), handed: Seq::empty(), out: f.out }
    }
}

/// A packet is taken.
pub open spec fn fed_packet(job: Job, resamplers: Resamplers, f: Feed, packet: Packet) -> Feed {
    if is_useful(job, packet) {
        let (rate, block) = packet.decoded->0;
        let rate = if job.declared_sr is None {
            rate
        } else {
            f.input_sr
        };
        fed_block(job, resamplers, at_rate(f, rate), block)
    } else {
        f
    }
}

/// The packets of `stream` are taken, one after the other.
pub open spec fn fed_from(
    job: Job,
    resamplers: Resamplers,
    f: Feed,
    stream: Seq<Packet>,
) -> Feed
    decreases stream.len(),
{
    if stream.len() == 0 {
        f
    } else {
        fed_packet(
            job,
            resamplers,
            fed_from(job, resamplers, f, stream.drop_last()),
            stream.last(),
        )
    }
}

/// Where the samples of `stream` are once all its packets were taken.
pub open spec fn fed(job: Job, resamplers: Resamplers, stream: Seq<Packet>) -> Feed {
    fed_from(job, resamplers, unfed(job), stream)
}

/// What came out before the end of the stream is resampled.
pub open spec fn came_out(job: Job, resamplers: Resamplers, stream: Seq<Packet>) -> Seq<Single> {
    fed(job, resamplers, stream).out
}

/// What the resampler makes of the samples that fill no chunk.
pub open spec fn rest_of(job: Job, resamplers: Resamplers, f: Feed) -> Seq<Single> {
    if f.input_sr != job.target_sr && f.unread.len() > 0 {
        (resamplers.rest)(f.input_sr, f.handed, f.unread)
    } else {
        Seq::empty()
    }
}

/// All that comes out of a stream while no limit is set.
pub open spec fn all_out(job: Job, resamplers: Resamplers, stream: Seq<Packet>) -> Seq<Single> {
    let f = fed(job, resamplers, stream);
    f.out + rest_of(job, resamplers, f)
}

/// The samples of the useful packets of `stream`, one after the other.
pub open spec fn blocks(job: Job, stream: Seq<Packet>) -> Seq<Single>
    decreases stream.len(),
{
    if stream.len() == 0 {
        Seq::empty()
    } else {
        let before = blocks(job, stream.drop_last());
        if is_useful(job, stream.last()) {
            let (_, block) = stream.last().decoded->0;
            before + block
        } else {
            before
        }
    }
}

/// Whether every useful packet of `stream` has the sample rate `rate`.
pub open spec fn has_rate(job: Job, stream: Seq<Packet>, rate: u32) -> bool {
    forall|i: int|
        0 <= i < stream.len() && is_useful(job, #[trigger] stream[i]) ==> {
            let (own, _) = stream[i].decoded->0;
            own == rate
        }
}

/// `samples` of the rate `rate`, before a resampler has had any.
pub open spec fn fresh(rate: u32, samples: Seq<Single>) -> Feed {
    Feed { input_sr: rate, unread: samples, handed: Seq::empty(), out: Seq::empty() }
}

/// What a resampler makes of the whole chunks of `samples`.
pub open spec fn whole_chunks(
    resamplers: Resamplers,
    rate: u32,
    samples: Seq<Single>,
) -> Seq<Single> {
    chunked(resamplers, fresh(rate, samples)).out
}

/// `samples` of the rate `rate`, brought to the target rate.
pub open spec fn converted(
    job: Job,
    resamplers: Resamplers,
    rate: u32,
    samples: Seq<Single>,
) -> Seq<Single> {
    if rate == job.target_sr {
        samples
    } else {
        let f = chunked(resamplers, fresh(rate, samples));
        f.out + rest_of(job, resamplers, f)
    }
}

proof fn lemma_prefix_chain(a: Seq<Single>, b: Seq<Single>, c: Seq<Single>)
    requires
        a.is_prefix_of(b),
        b.is_prefix_of(c),
    ensures
        a.is_prefix_of(c),
{
    assert(a =~= c.subrange(0, a.len() as int)) by {
        assert(a =~= b.subrange(0, a.len() as int));
        assert(b =~= c.subrange(0, b.len() as int));
        assert forall|i: int| 0 <= i < a.len() implies a[i] == c[i] by {
            assert(a[i] == b.subrange(0, a.len() as int)[i]);
            assert(b[i] == c.subrange(0, b.len() as int)[i]);
        }
    }
}

proof fn lemma_prefix_add(a: Seq<Single>, b: Seq<Single>)
    ensures
        a.is_prefix_of(a + b),
{
    assert(a =~= (a + b).subrange(0, a.len() as int));
}

proof fn lemma_prefix_cut(a: Seq<Single>, b: Seq<Single>, max: usize)
    requires
        a.is_prefix_of(b),
        a.len() >= max,
    ensures
        cut(a, max) == cut(b, max),
{
    assert(a =~= b.subrange(0, a.len() as int));
    assert(cut(a, max) =~= cut(b, max));
}

/// Chunks leave the rate alone and add to what came out.
proof fn lemma_chunked(resamplers: Resamplers, f: Feed)
    ensures
        chunked(resamplers, f).input_sr == f.input_sr,
        f.out.is_prefix_of(chunked(resamplers, f).out),
    decreases f.unread.len(),
{
    if 0 < (resamplers.chunk)(f.input_sr) <= f.unread.len() {
        let g = after_chunk(resamplers, f);
        lemma_chunked(resamplers, g);
        lemma_prefix_add(
            f.out,
            (resamplers.whole)(
                f.input_sr,
                f.handed,
                f.unread.take((resamplers.chunk)(f.input_sr) as int),
            ),
        );
        lemma_prefix_chain(f.out, g.out, chunked(resamplers, g).out);
    } else {
        assert(f.out =~= f.out.subrange(0, f.out.len() as int));
    }
}

proof fn lemma_fed_packet_grows(job: Job, resamplers: Resamplers, f: Feed, packet: Packet)
    ensures
        f.out.is_prefix_of(fed_packet(job, resamplers, f, packet).out),
{
    assert(f.out =~= f.out.subrange(0, f.out.len() as int));
    if is_useful(job, packet) {
        let (rate, block) = packet.decoded->0;
        let rate = if job.declared_sr is None {
            rate
        } else {
            f.input_sr
        };
        let g = at_rate(f, rate);
        lemma_prefix_add(f.out, block);
        lemma_chunked(resamplers, Feed { unread: g.unread + block, ..g });
    }
}

proof fn lemma_fed_grows(job: Job, resamplers: Resamplers, stream: Seq<Packet>, k: int)
    requires
        0 <= k <= stream.len(),
    ensures
        came_out(job, resamplers, stream.take(k)).is_prefix_of(came_out(job, resamplers, stream)),
    decreases stream.len() - k,
{
    let a = came_out(job, resamplers, stream.take(k));
    if k == stream.len() {
        assert(stream.take(k) =~= stream);
        assert(a =~= a.subrange(0, a.len() as int));
    } else {
        assert(stream.take(k + 1).drop_last() =~= stream.take(k));
        lemma_fed_packet_grows(
            job,
            resamplers,
            fed(job, resamplers, stream.take(k)),
            stream[k],
        );
        lemma_fed_grows(job, resamplers, stream, k + 1);
        lemma_prefix_chain(
            a,
            came_out(job, resamplers, stream.take(k + 1)),
            came_out(job, resamplers, stream),
        );
    }
}

/// Once what came out is long enough, the rest of the stream does not show in the result.
proof fn lemma_long_enough(
    job: Job,
    resamplers: Resamplers,
    stream: Seq<Packet>,
    k: int,
    out: Seq<Single>,
)
    requires
        0 <= k <= stream.len(),
        out.is_prefix_of(came_out(job, resamplers, stream.take(k))),
        out.len() >= job.max_samples,
    ensures
        cut(out, job.max_samples) == cut(all_out(job, resamplers, stream), job.max_samples),
{
    let f = fed(job, resamplers, stream);
    lemma_fed_grows(job, resamplers, stream, k);
    lemma_prefix_chain(out, came_out(job, resamplers, stream.take(k)), f.out);
    lemma_prefix_add(f.out, rest_of(job, resamplers, f));
    lemma_prefix_chain(out, f.out, all_out(job, resamplers, stream));
    lemma_prefix_cut(out, all_out(job, resamplers, stream), job.max_samples);
}

/// The samples of a state, where `given` went to the resampler.
spec fn feed_of(p: Progress, given: Seq<Single>) -> Feed {
    Feed { input_sr: p.input_sr, unread: p.unread, handed: given, out: p.out }
}

/// How a state stands to the packets read so far.
spec fn keeps_pace(
    job: Job,
    stream: Seq<Packet>,
    resamplers: Resamplers,
    k: int,
    given: Seq<Single>,
    p: Progress,
) -> bool {
    &&& p.chunk matches Some(chunk) ==> chunk == (resamplers.chunk)(p.input_sr)
    &&& p.phase != Phase::Finished && p.phase != Phase::Flushing ==> 0 <= k <= stream.len()
    &&& match p.phase {
        Phase::Setup => match p.held {
            None => k == 0 && feed_of(p, given) == unfed(job),
            Some(block) => {
                &&& given.len() == 0
                &&& chunked(resamplers, Feed { unread: block, ..feed_of(p, given) }) == fed(
                    job,
                    resamplers,
                    stream.take(k),
                )
            },
        },
        Phase::Reading => feed_of(p, given) == fed(job, resamplers, stream.take(k)),
        Phase::Decoding => {
            &&& k > 0
            &&& stream[k - 1].track_id == job.track_id
            &&& feed_of(p, given) == fed(job, resamplers, stream.take(k - 1))
        },
        Phase::Resampling => chunked(resamplers, feed_of(p, given)) == fed(
            job,
            resamplers,
            stream.take(k),
        ),
        Phase::Flushing => feed_of(p, given) == fed(job, resamplers, stream),
        Phase::Finished => p.out == cut(all_out(job, resamplers, stream), job.max_samples),
    }
}

proof fn lemma_next_packet(
    job: Job,
    stream: Seq<Packet>,
    resamplers: Resamplers,
    k: int,
    given: Seq<Single>,
    q: Progress,
)
    requires
        0 <= k <= stream.len(),
        q.chunk matches Some(chunk) ==> chunk == (resamplers.chunk)(q.input_sr),
        feed_of(q, given) == fed(job, resamplers, stream.take(k)),
    ensures
        keeps_pace(job, stream, resamplers, k, given, next_packet(job, q)),
{
    if q.out.len() >= job.max_samples {
        assert(q.out =~= q.out.subrange(0, q.out.len() as int));
        lemma_long_enough(job, resamplers, stream, k, q.out);
    }
}

proof fn lemma_next_chunk(
    job: Job,
    stream: Seq<Packet>,
    resamplers: Resamplers,
    k: int,
    given: Seq<Single>,
    q: Progress,
)
    requires
        0 <= k <= stream.len(),
        q.chunk matches Some(chunk) && chunk > 0 && chunk == (resamplers.chunk)(q.input_sr),
        chunked(resamplers, feed_of(q, given)) == fed(job, resamplers, stream.take(k)),
    ensures
        keeps_pace(job, stream, resamplers, k, given, next_chunk(job, q)),
{
    let f = feed_of(q, given);
    if q.out.len() >= job.max_samples {
        lemma_chunked(resamplers, f);
        lemma_long_enough(job, resamplers, stream, k, q.out);
    } else if q.unread.len() < q.chunk->0 {
        lemma_next_packet(job, stream, resamplers, k, given, q);
    }
}

/// Every state of a run keeps pace with the packets read.
proof fn lemma_keeps_pace(
    job: Job,
    stream: Seq<Packet>,
    resamplers: Resamplers,
    replies: Seq<Reply>,
)
    requires
        driven(job, stream, resamplers, replies),
    ensures
        answered(job, replies),
        keeps_pace(
            job,
            stream,
            resamplers,
            reads(replies) as int,
            handed(job, replies),
            run(job, replies),
        ),
    decreases replies.len(),
{
    if replies.len() == 0 {
        assert(stream.take(0) =~= Seq::empty());
        let q = Progress {
            phase: Phase::Setup,
            input_sr: unfed(job).input_sr,
            chunk: None,
            held: None,
            unread: Seq::empty(),
            out: Seq::empty(),
        };
        assert(feed_of(q, Seq::empty()) =~= unfed(job));
        if q.input_sr == job.target_sr {
            lemma_next_packet(job, stream, resamplers, 0, Seq::empty(), q);
        }
    } else {
        let earlier = replies.drop_last();
        lemma_keeps_pace(job, stream, resamplers, earlier);
        law_runs_stay_consistent(job, earlier);
        lemma_reply_keeps_pace(job, stream, resamplers, earlier, replies.last());
        assert(earlier.push(replies.last()) =~= replies);
    }
}

proof fn lemma_reply_keeps_pace(
    job: Job,
    stream: Seq<Packet>,
    resamplers: Resamplers,
    earlier: Seq<Reply>,
    reply: Reply,
)
    requires
        keeps_pace(
            job,
            stream,
            resamplers,
            reads(earlier) as int,
            handed(job, earlier),
            run(job, earlier),
        ),
        consistent(job, run(job, earlier)),
        fits(run(job, earlier), reply),
        comes_from(job, stream, resamplers, earlier, reply),
    ensures
        keeps_pace(
            job,
            stream,
            resamplers,
            reads(earlier.push(reply)) as int,
            handed(job, earlier.push(reply)),
            run(job, earlier.push(reply)),
        ),
{
    let all = earlier.push(reply);
    assert(all.drop_last() =~= earlier);
    assert(all.last() == reply);
    let p = run(job, earlier);
    let k = reads(earlier) as int;
    let given = handed(job, earlier);
    match reply {
        Reply::Ready(chunk) => {
            let q = Progress { chunk: Some(chunk), held: None, unread: Seq::empty(), ..p };
            match p.held {
                None => {
                    assert(stream.take(0) =~= Seq::empty());
                    assert(feed_of(q, given) =~= unfed(job));
                    lemma_next_packet(job, stream, resamplers, k, given, q);
                },
                Some(block) => {
                    let r = Progress { unread: q.unread + block, ..q };
                    assert(r.unread =~= block);
                    assert(feed_of(r, given) =~= Feed { unread: block, ..feed_of(p, given) });
                    lemma_next_chunk(job, stream, resamplers, k, given, r);
                },
            }
        },
        Reply::Packet(None) => {
            assert(stream.take(k) =~= stream);
            let f = fed(job, resamplers, stream);
            if !(p.chunk is Some && p.unread.len() > 0) {
                assert(all_out(job, resamplers, stream) =~= f.out);
            }
        },
        Reply::Packet(Some(track_id)) => {
            assert(stream.take(k + 1).drop_last() =~= stream.take(k));
        },
        Reply::Decoded(None) => {
            assert(stream.take(k).drop_last() =~= stream.take(k - 1));
        },
        Reply::Decoded(Some((rate, block))) => {
            assert(stream.take(k).drop_last() =~= stream.take(k - 1));
            assert(stream.take(k).last() == stream[k - 1]);
            assert(is_useful(job, stream[k - 1]));
            let f = feed_of(p, given);
            let input_sr = effective_rate(job, p, rate);
            let g = at_rate(f, input_sr);
            assert(fed(job, resamplers, stream.take(k)) == fed_block(job, resamplers, g, block));
            if input_sr == p.input_sr {
                lemma_taken(job, stream, resamplers, k, given, p, block);
            } else {
                let q = Progress { input_sr, chunk: None, unread: Seq::empty(), ..p };
                assert(feed_of(q, Seq::empty()) =~= g);
                if input_sr != job.target_sr {
                    assert(g.unread + block =~= block);
                } else {
                    lemma_taken(job, stream, resamplers, k, Seq::empty(), q, block);
                }
            }
        },
        Reply::Resampled(output) => {
            let f = feed_of(p, given);
            let chunk = p.chunk->0 as int;
            let q = Progress { unread: p.unread.skip(chunk), out: p.out + output, ..p };
            assert(feed_of(q, handed(job, all)) =~= after_chunk(resamplers, f));
            lemma_next_chunk(job, stream, resamplers, k, handed(job, all), q);
        },
        Reply::Flushed(output) => {},
    }
}

proof fn lemma_taken(
    job: Job,
    stream: Seq<Packet>,
    resamplers: Resamplers,
    k: int,
    given: Seq<Single>,
    q: Progress,
    block: Seq<Single>,
)
    requires
        0 <= k <= stream.len(),
        q.chunk is Some <==> q.input_sr != job.target_sr,
        q.chunk matches Some(chunk) ==> chunk > 0 && chunk == (resamplers.chunk)(q.input_sr),
        fed_block(job, resamplers, feed_of(q, given), block) == fed(
            job,
            resamplers,
            stream.take(k),
        ),
    ensures
        keeps_pace(job, stream, resamplers, k, given, taking(job, q, block)),
{
    if q.chunk is Some {
        let r = Progress { unread: q.unread + block, ..q };
        assert(feed_of(r, given) =~= Feed { unread: q.unread + block, ..feed_of(q, given) });
        lemma_next_chunk(job, stream, resamplers, k, given, r);
    } else {
        let r = Progress { out: q.out + block, ..q };
        assert(feed_of(r, given) =~= Feed { out: q.out + block, ..feed_of(q, given) });
        lemma_next_packet(job, stream, resamplers, k, given, r);
    }
}

/// The result of a stream is all that comes out of it without a limit, cut to length.
pub proof fn law_result_of_stream(
    job: Job,
    stream: Seq<Packet>,
    resamplers: Resamplers,
    replies: Seq<Reply>,
)
    requires
        completes(job, stream, resamplers, replies),
    ensures
        run(job, replies).out == cut(all_out(job, resamplers, stream), job.max_samples),
{
    lemma_keeps_pace(job, stream, resamplers, replies);
}

proof fn lemma_limit_has_no_part(
    job: Job,
    other: Job,
    resamplers: Resamplers,
    stream: Seq<Packet>,
)
    requires
        other == (Job { max_samples: other.max_samples, ..job }),
    ensures
        fed(job, resamplers, stream) == fed(other, resamplers, stream),
    decreases stream.len(),
{
    if stream.len() > 0 {
        lemma_limit_has_no_part(job, other, resamplers, stream.drop_last());
    }
}

/// Of one stream, a shorter limit gives the beginning of what a longer one gives.
pub proof fn law_shorter_limit_gives_a_prefix(
    job: Job,
    longer: Job,
    stream: Seq<Packet>,
    resamplers: Resamplers,
    replies: Seq<Reply>,
    longer_replies: Seq<Reply>,
)
    requires
        longer == (Job { max_samples: longer.max_samples, ..job }),
        job.max_samples <= longer.max_samples,
        completes(job, stream, resamplers, replies),
        completes(longer, stream, resamplers, longer_replies),
    ensures
        run(job, replies).out == cut(run(longer, longer_replies).out, job.max_samples),
{
    law_result_of_stream(job, stream, resamplers, replies);
    law_result_of_stream(longer, stream, resamplers, longer_replies);
    lemma_limit_has_no_part(job, longer, resamplers, stream);
    let all = all_out(job, resamplers, stream);
    assert(cut(all, job.max_samples) =~= cut(cut(all, longer.max_samples), job.max_samples));
}

/// Chunks may be taken before more samples come, or after.
proof fn lemma_chunked_add(resamplers: Resamplers, f: Feed, more: Seq<Single>)
    ensures
        ({
            let g = chunked(resamplers, f);
            chunked(resamplers, Feed { unread: g.unread + more, ..g }) == chunked(
                resamplers,
                Feed { unread: f.unread + more, ..f },
            )
        }),
    decreases f.unread.len(),
{
    let chunk = (resamplers.chunk)(f.input_sr) as int;
    if 0 < chunk <= f.unread.len() {
        let next = after_chunk(resamplers, f);
        let joined = Feed { unread: f.unread + more, ..f };
        lemma_chunked_add(resamplers, next, more);
        assert(joined.unread.take(chunk) =~= f.unread.take(chunk));
        assert(joined.unread.skip(chunk) =~= f.unread.skip(chunk) + more);
        assert(after_chunk(resamplers, joined) =~= Feed { unread: next.unread + more, ..next });
    }
}

/// Where the samples of blocks of one rate are.
spec fn of_one_rate(job: Job, resamplers: Resamplers, rate: u32, samples: Seq<Single>) -> Feed {
    if rate == job.target_sr {
        Feed { input_sr: rate, unread: Seq::empty(), handed: Seq::empty(), out: samples }
    } else {
        chunked(resamplers, fresh(rate, samples))
    }
}

proof fn lemma_block_of_one_rate(
    job: Job,
    resamplers: Resamplers,
    rate: u32,
    samples: Seq<Single>,
    block: Seq<Single>,
)
    ensures
        of_one_rate(job, resamplers, rate, samples).input_sr == rate,
        fed_block(job, resamplers, of_one_rate(job, resamplers, rate, samples), block)
            == of_one_rate(job, resamplers, rate, samples + block),
{
    if rate != job.target_sr {
        lemma_chunked(resamplers, fresh(rate, samples));
        lemma_chunked_add(resamplers, fresh(rate, samples), block);
        assert(Feed { unread: samples + block, ..fresh(rate, samples) } =~= fresh(
            rate,
            samples + block,
        ));
    }
}

/// Whether the blocks of `stream` are taken to have the sample rate `rate`: by the account of
/// the container, or, where it gives no rate, by that of the packets.
pub open spec fn taken_at(job: Job, stream: Seq<Packet>, rate: u32) -> bool {
    match job.declared_sr {
        Some(declared) => declared == rate,
        None => has_rate(job, stream, rate),
    }
}

proof fn lemma_fed_at_one_rate(
    job: Job,
    resamplers: Resamplers,
    stream: Seq<Packet>,
    rate: u32,
)
    requires
        taken_at(job, stream, rate),
    ensures
        ({
            let f = fed(job, resamplers, stream);
            ||| f == of_one_rate(job, resamplers, rate, blocks(job, stream))
            ||| job.declared_sr is None && f == unfed(job) && blocks(job, stream).len() == 0
        }),
    decreases stream.len(),
{
    let none = Seq::<Single>::empty();
    if stream.len() == 0 {
        assert(of_one_rate(job, resamplers, rate, none) =~= fresh(rate, none));
        if job.declared_sr is Some {
            assert(unfed(job) =~= fresh(rate, none));
        }
    } else {
        let rest = stream.drop_last();
        assert forall|i: int| 0 <= i < rest.len() implies rest[i] == #[trigger] stream[i] by {
        }
        lemma_fed_at_one_rate(job, resamplers, rest, rate);
        let f = fed(job, resamplers, rest);
        let before = blocks(job, rest);
        if is_useful(job, stream.last()) {
            assert(is_useful(job, stream[stream.len() - 1]));
            let (own, block) = stream.last().decoded->0;
            if f == of_one_rate(job, resamplers, rate, before) {
                lemma_block_of_one_rate(job, resamplers, rate, before, block);
            } else {
                assert(own == rate);
                assert(before =~= none);
                lemma_block_of_one_rate(job, resamplers, rate, none, block);
                assert(at_rate(f, rate) =~= fresh(rate, none));
                assert(of_one_rate(job, resamplers, rate, none) =~= fresh(rate, none));
            }
        }
    }
}

/// What comes out of a stream whose blocks have one rate depends on the samples of the blocks,
/// one after the other: they are cut into chunks anew, and the end is resampled once.
pub proof fn law_stream_of_one_rate(
    job: Job,
    stream: Seq<Packet>,
    resamplers: Resamplers,
    rate: u32,
)
    requires
        taken_at(job, stream, rate),
    ensures
        all_out(job, resamplers, stream) == converted(job, resamplers, rate, blocks(job, stream)),
{
    lemma_fed_at_one_rate(job, resamplers, stream, rate);
    let f = fed(job, resamplers, stream);
    let samples = blocks(job, stream);
    if f == of_one_rate(job, resamplers, rate, samples) {
        lemma_chunked(resamplers, fresh(rate, samples));
        assert(all_out(job, resamplers, stream) =~= converted(job, resamplers, rate, samples));
    } else {
        assert(samples =~= Seq::<Single>::empty());
        assert(all_out(job, resamplers, stream) =~= converted(job, resamplers, rate, samples));
    }
}

/// Where packets end never shows: two streams of one declared rate whose blocks hold the same
/// samples, one after the other, give the same result.
pub proof fn law_packet_boundaries_do_not_show(
    job: Job,
    first: Seq<Packet>,
    second: Seq<Packet>,
    resamplers: Resamplers,
    first_replies: Seq<Reply>,
    second_replies: Seq<Reply>,
)
    requires
        job.declared_sr is Some,
        blocks(job, first) == blocks(job, second),
        completes(job, first, resamplers, first_replies),
        completes(job, second, resamplers, second_replies),
    ensures
        run(job, first_replies).out == run(job, second_replies).out,
{
    let rate = job.declared_sr->0;
    law_result_of_stream(job, first, resamplers, first_replies);
    law_result_of_stream(job, second, resamplers, second_replies);
    law_stream_of_one_rate(job, first, resamplers, rate);
    law_stream_of_one_rate(job, second, resamplers, rate);
}

/// The packets of `stream` that belong to the track and can be decoded.
pub open spec fn useful(job: Job, stream: Seq<Packet>) -> Seq<Packet> {
    stream.filter(|packet: Packet| is_useful(job, packet))
}

proof fn lemma_useful_packets_count(
    job: Job,
    resamplers: Resamplers,
    f: Feed,
    stream: Seq<Packet>,
)
    ensures
        fed_from(job, resamplers, f, stream) == fed_from(job, resamplers, f, useful(job, stream)),
    decreases stream.len(),
{
    reveal(Seq::filter);
    if stream.len() > 0 {
        let rest = stream.drop_last();
        lemma_useful_packets_count(job, resamplers, f, rest);
        if is_useful(job, stream.last()) {
            let kept = useful(job, stream);
            assert(kept == useful(job, rest).push(stream.last()));
            assert(kept.drop_last() =~= useful(job, rest));
        }
    }
}

/// Packets of other tracks, and packets that cannot be decoded, never show: two streams with the
/// same useful packets give the same result.
pub proof fn law_useless_packets_do_not_show(
    job: Job,
    first: Seq<Packet>,
    second: Seq<Packet>,
    resamplers: Resamplers,
    first_replies: Seq<Reply>,
    second_replies: Seq<Reply>,
)
    requires
        useful(job, first) == useful(job, second),
        completes(job, first, resamplers, first_replies),
        completes(job, second, resamplers, second_replies),
    ensures
        run(job, first_replies).out == run(job, second_replies).out,
{
    law_result_of_stream(job, first, resamplers, first_replies);
    law_result_of_stream(job, second, resamplers, second_replies);
    lemma_useful_packets_count(job, resamplers, unfed(job), first);
    lemma_useful_packets_count(job, resamplers, unfed(job), second);
}

proof fn lemma_declaration_has_no_part(job: Job, other: Job, stream: Seq<Packet>)
    requires
        other == (Job { declared_sr: other.declared_sr, ..job }),
    ensures
        blocks(job, stream) == blocks(other, stream),
    decreases stream.len(),
{
    if stream.len() > 0 {
        lemma_declaration_has_no_part(job, other, stream.drop_last());
    }
}

/// A rate that only the packets give does as well as one that the container gives: where all
/// blocks have the rate `rate`, the result is that of the same stream with this rate declared.
pub proof fn law_detected_rate_equals_declared_rate(
    job: Job,
    declaring: Job,
    stream: Seq<Packet>,
    resamplers: Resamplers,
    rate: u32,
    replies: Seq<Reply>,
    declaring_replies: Seq<Reply>,
)
    requires
        job.declared_sr is None,
        has_rate(job, stream, rate),
        declaring == (Job { declared_sr: Some(rate), ..job }),
        completes(job, stream, resamplers, replies),
        completes(declaring, stream, resamplers, declaring_replies),
    ensures
        run(job, replies).out == run(declaring, declaring_replies).out,
{
    law_result_of_stream(job, stream, resamplers, replies);
    law_result_of_stream(declaring, stream, resamplers, declaring_replies);
    law_stream_of_one_rate(job, stream, resamplers, rate);
    law_stream_of_one_rate(declaring, stream, resamplers, rate);
    lemma_declaration_has_no_part(job, declaring, stream);
}

/// The feed with `earlier` before what came out.
spec fn behind(earlier: Seq<Single>, f: Feed) -> Feed {
    Feed { out: earlier + f.out, ..f }
}

proof fn lemma_chunked_behind(resamplers: Resamplers, earlier: Seq<Single>, f: Feed)
    ensures
        chunked(resamplers, behind(earlier, f)) == behind(earlier, chunked(resamplers, f)),
    decreases f.unread.len(),
{
    let chunk = (resamplers.chunk)(f.input_sr) as int;
    if 0 < chunk <= f.unread.len() {
        lemma_chunked_behind(resamplers, earlier, after_chunk(resamplers, f));
        assert(after_chunk(resamplers, behind(earlier, f)) =~= behind(
            earlier,
            after_chunk(resamplers, f),
        ));
    }
}

proof fn lemma_packet_behind(
    job: Job,
    resamplers: Resamplers,
    earlier: Seq<Single>,
    f: Feed,
    packet: Packet,
)
    ensures
        fed_packet(job, resamplers, behind(earlier, f), packet) == behind(
            earlier,
            fed_packet(job, resamplers, f, packet),
        ),
{
    if is_useful(job, packet) {
        let (rate, block) = packet.decoded->0;
        let rate = if job.declared_sr is None {
            rate
        } else {
            f.input_sr
        };
        let g = at_rate(f, rate);
        assert(at_rate(behind(earlier, f), rate) =~= behind(earlier, g));
        if rate == job.target_sr {
            assert((earlier + g.out) + block =~= earlier + (g.out + block));
        } else {
            lemma_chunked_behind(resamplers, earlier, Feed { unread: g.unread + block, ..g });
        }
    }
}

/// Whether the first useful packet of `stream` has a rate other than `rate`.
pub open spec fn leaves_rate(job: Job, stream: Seq<Packet>, rate: u32) -> bool {
    exists|i: int|
        {
            &&& 0 <= i < stream.len()
            &&& is_useful(job, #[trigger] stream[i])
            &&& forall|j: int| 0 <= j < i ==> !is_useful(job, #[trigger] stream[j])
            &&& {
                let (own, _) = stream[i].decoded->0;
                own != rate
            }
        }
}

proof fn lemma_nothing_useful(job: Job, resamplers: Resamplers, f: Feed, stream: Seq<Packet>)
    requires
        forall|j: int| 0 <= j < stream.len() ==> !is_useful(job, #[trigger] stream[j]),
    ensures
        fed_from(job, resamplers, f, stream) == f,
    decreases stream.len(),
{
    if stream.len() > 0 {
        let rest = stream.drop_last();
        assert forall|j: int| 0 <= j < rest.len() implies !is_useful(
            job,
            #[trigger] rest[j],
        ) by {
            assert(rest[j] == stream[j]);
        }
        assert(!is_useful(job, stream[stream.len() - 1]));
        lemma_nothing_useful(job, resamplers, f, rest);
    }
}

/// From the packet on at which the rate changes, a stream goes on as one that begins there.
proof fn lemma_begins_anew(
    job: Job,
    resamplers: Resamplers,
    f: Feed,
    stream: Seq<Packet>,
    at: int,
)
    requires
        job.declared_sr is None,
        0 <= at < stream.len(),
        is_useful(job, stream[at]),
        forall|j: int| 0 <= j < at ==> !is_useful(job, #[trigger] stream[j]),
        ({
            let (own, _) = stream[at].decoded->0;
            own != f.input_sr
        }),
    ensures
        fed_from(job, resamplers, f, stream) == behind(f.out, fed(job, resamplers, stream)),
    decreases stream.len(),
{
    let rest = stream.drop_last();
    assert forall|j: int| 0 <= j < rest.len() implies #[trigger] rest[j] == stream[j] by {
    }
    if at == stream.len() - 1 {
        let (own, block) = stream[at].decoded->0;
        lemma_nothing_useful(job, resamplers, f, rest);
        lemma_nothing_useful(job, resamplers, unfed(job), rest);
        let start = at_rate(unfed(job), own);
        assert(start =~= fresh(own, Seq::empty()));
        assert(at_rate(f, own) =~= behind(f.out, start));
        if own == job.target_sr {
            assert(f.out + (start.out + block) =~= (f.out + start.out) + block);
        } else {
            lemma_chunked_behind(
                resamplers,
                f.out,
                Feed { unread: start.unread + block, ..start },
            );
        }
    } else {
        lemma_begins_anew(job, resamplers, f, rest, at);
        lemma_packet_behind(job, resamplers, f.out, fed(job, resamplers, rest), stream.last());
    }
}

proof fn lemma_fed_joined(
    job: Job,
    resamplers: Resamplers,
    f: Feed,
    first: Seq<Packet>,
    second: Seq<Packet>,
)
    ensures
        fed_from(job, resamplers, f, first + second) == fed_from(
            job,
            resamplers,
            fed_from(job, resamplers, f, first),
            second,
        ),
    decreases second.len(),
{
    if second.len() == 0 {
        assert(first + second =~= first);
    } else {
        lemma_fed_joined(job, resamplers, f, first, second.drop_last());
        assert((first + second).drop_last() =~= first + second.drop_last());
        assert((first + second).last() == second.last());
    }
}

/// Where no rate is declared and it changes after the packets `first`, what came out before
/// stays and is followed by all that comes out of the stream that begins there. Samples of the
/// old rate that fill no chunk are dropped: if `first` has one rate that is not the target
/// rate, what stays is what the resampler made of its whole chunks.
pub proof fn law_rate_change_joins_two_streams(
    job: Job,
    first: Seq<Packet>,
    second: Seq<Packet>,
    resamplers: Resamplers,
    rate: u32,
    replies: Seq<Reply>,
)
    requires
        job.declared_sr is None,
        leaves_rate(job, second, fed(job, resamplers, first).input_sr),
        completes(job, first + second, resamplers, replies),
    ensures
        run(job, replies).out == cut(
            came_out(job, resamplers, first) + all_out(job, resamplers, second),
            job.max_samples,
        ),
        has_rate(job, first, rate) && rate != job.target_sr ==> came_out(job, resamplers, first)
            == whole_chunks(resamplers, rate, blocks(job, first)),
{
    let f = fed(job, resamplers, first);
    let at = choose|i: int|
        {
            &&& 0 <= i < second.len()
            &&& is_useful(job, #[trigger] second[i])
            &&& forall|j: int| 0 <= j < i ==> !is_useful(job, #[trigger] second[j])
            &&& {
                let (own, _) = second[i].decoded->0;
                own != f.input_sr
            }
        };
    law_result_of_stream(job, first + second, resamplers, replies);
    lemma_fed_joined(job, resamplers, unfed(job), first, second);
    lemma_begins_anew(job, resamplers, f, second, at);
    let g = fed(job, resamplers, second);
    assert((f.out + g.out) + rest_of(job, resamplers, g) =~= f.out + (g.out + rest_of(
        job,
        resamplers,
        g,
    )));
    if has_rate(job, first, rate) && rate != job.target_sr {
        lemma_fed_at_one_rate(job, resamplers, first, rate);
    }
}

/// The samples of the packets of the track `track_id` that can be decoded, one after the other.
pub open spec fn track_samples(track_id: u32, stream: Seq<Packet>) -> Seq<Single> {
    stream.filter(
        |packet: Packet| packet.track_id == track_id && packet.decoded is Some,
    ).map_values(
        |packet: Packet|
            {
                let (_, block) = packet.decoded->0;
                block
            },
    ).flatten()
}

proof fn lemma_track_samples(job: Job, stream: Seq<Packet>)
    ensures
        blocks(job, stream) == track_samples(job.track_id, stream),
    decreases stream.len(),
{
    reveal(Seq::filter);
    let counts = |packet: Packet|
        packet.track_id == job.track_id && packet.decoded is Some;
    let block_of = |packet: Packet|
        {
            let (_, block) = packet.decoded->0;
            block
        };
    if stream.len() > 0 {
        let rest = stream.drop_last();
        lemma_track_samples(job, rest);
        let before = rest.filter(counts).map_values(block_of);
        if counts(stream.last()) {
            let (_, block) = stream.last().decoded->0;
            assert(stream.filter(counts) == rest.filter(counts).push(stream.last()));
            assert(stream.filter(counts).map_values(block_of) =~= before.push(block));
            before.lemma_flatten_push(block);
        } else {
            assert(stream.filter(counts) == rest.filter(counts));
        }
    }
}

/// What a resampler makes of the whole chunks of `samples`, after it was handed `earlier`.
pub open spec fn chunk_outputs(
    resamplers: Resamplers,
    rate: u32,
    chunk: int,
    earlier: Seq<Single>,
    samples: Seq<Single>,
) -> Seq<Seq<Single>> {
    Seq::new(
        (samples.len() / chunk as nat) as nat,
        |i: int|
            (resamplers.whole)(
                rate,
                earlier + samples.take(i * chunk),
                samples.subrange(i * chunk, i * chunk + chunk),
            ),
    )
}

proof fn lemma_chunk_outputs(resamplers: Resamplers, f: Feed, chunk: int)
    requires
        chunk == (resamplers.chunk)(f.input_sr),
        chunk > 0,
    ensures
        ({
            let whole = f.unread.len() as int / chunk * chunk;
            let g = chunked(resamplers, f);
            &&& 0 <= whole <= f.unread.len()
            &&& g.input_sr == f.input_sr
            &&& g.unread == f.unread.skip(whole)
            &&& g.handed == f.handed + f.unread.take(whole)
            &&& g.out == f.out + chunk_outputs(
                resamplers,
                f.input_sr,
                chunk,
                f.handed,
                f.unread,
            ).flatten()
        }),
    decreases f.unread.len(),
{
    let len = f.unread.len() as int;
    let all = chunk_outputs(resamplers, f.input_sr, chunk, f.handed, f.unread);
    assert(0 <= len / chunk * chunk <= len && len - len / chunk * chunk < chunk) by (
        nonlinear_arith)
        requires
            len >= 0,
            chunk > 0,
    ;
    if chunk <= len {
        let next = after_chunk(resamplers, f);
        let rest = chunk_outputs(resamplers, next.input_sr, chunk, next.handed, next.unread);
        lemma_chunk_outputs(resamplers, next, chunk);
        assert((len - chunk) / chunk == len / chunk - 1) by (nonlinear_arith)
            requires
                chunk > 0,
        ;
        assert(len / chunk >= 1) by (nonlinear_arith)
            requires
                chunk > 0,
                chunk <= len,
        ;
        let count = len / chunk;
        assert((count - 1) * chunk == count * chunk - chunk) by (nonlinear_arith);
        let whole = count * chunk;
        assert(f.unread.skip(chunk).skip(whole - chunk) =~= f.unread.skip(whole));
        assert((f.handed + f.unread.take(chunk)) + f.unread.skip(chunk).take(whole - chunk)
            =~= f.handed + f.unread.take(whole));
        assert forall|i: int| 0 <= i < rest.len() implies rest[i] == all.drop_first()[i] by {
            assert((i + 1) * chunk == i * chunk + chunk) by (nonlinear_arith);
            assert(0 <= i * chunk && i * chunk + chunk <= len - chunk) by (nonlinear_arith)
                requires
                    0 <= i < count - 1,
                    chunk > 0,
                    count * chunk <= len,
            ;
            assert((f.handed + f.unread.take(chunk)) + next.unread.take(i * chunk) =~= f.handed
                + f.unread.take((i + 1) * chunk));
            assert(next.unread.subrange(i * chunk, i * chunk + chunk) =~= f.unread.subrange(
                (i + 1) * chunk,
                (i + 1) * chunk + chunk,
            ));
        }
        assert(rest =~= all.drop_first());
        assert(all.first() == (resamplers.whole)(f.input_sr, f.handed, f.unread.take(chunk))) by {
            assert(0 * chunk == 0) by (nonlinear_arith);
            assert(f.handed + f.unread.take(0) =~= f.handed);
            assert(f.unread.subrange(0, chunk) =~= f.unread.take(chunk));
        }
        assert(all.flatten() == all.first() + all.drop_first().flatten());
        assert((f.out + all.first()) + rest.flatten() =~= f.out + (all.first() + rest.flatten()));
    } else {
        assert(len / chunk == 0) by (nonlinear_arith)
            requires
                0 <= len < chunk,
        ;
        assert(0 * chunk == 0) by (nonlinear_arith);
        assert(all.flatten() =~= Seq::<Single>::empty());
        assert(f.out + all.flatten() =~= f.out);
        assert(f.unread.skip(0) =~= f.unread);
        assert(f.handed + f.unread.take(0) =~= f.handed);
    }
}

/// The signal of a stream with a declared rate. If it is the target rate, the signal is the
/// samples of the track's packets, one after the other. Else it is what the resampler makes of
/// these samples, cut into chunks of the length that it takes, followed by what it makes of the
/// rest that fills no chunk. Either way it ends where it has the length asked for.
pub proof fn law_signal_of_a_declared_rate(
    d: MonoDecoding,
    rate: u32,
    stream: Seq<Packet>,
    resamplers: Resamplers,
    replies: Seq<Reply>,
    signal: Vec<Single>,
)
    requires
        d.job().declared_sr == Some(rate),
        d@ == run(d.job(), replies),
        completes(d.job(), stream, resamplers, replies),
        call_ensures(MonoDecoding::into_samples, (d,), signal),
    ensures
        ({
            let samples = track_samples(d.job().track_id, stream);
            let chunk = (resamplers.chunk)(rate) as int;
            let whole = samples.len() as int / chunk * chunk;
            let all = if rate == d.job().target_sr {
                samples
            } else {
                chunk_outputs(resamplers, rate, chunk, Seq::empty(), samples).flatten() + if whole
                    < samples.len() {
                    (resamplers.rest)(rate, samples.take(whole), samples.skip(whole))
                } else {
                    Seq::empty()
                }
            };
            &&& signal@.len() <= d.job().max_samples
            &&& signal@.is_prefix_of(all)
            &&& signal@.len() == all.len() || signal@.len() == d.job().max_samples
        }),
{
    let job = d.job();
    let samples = track_samples(job.track_id, stream);
    law_result_of_stream(job, stream, resamplers, replies);
    law_stream_of_one_rate(job, stream, resamplers, rate);
    lemma_track_samples(job, stream);
    let all = converted(job, resamplers, rate, samples);
    assert(signal@ == cut(all, job.max_samples));
    assert(signal@ =~= all.subrange(0, signal@.len() as int));
    if rate != job.target_sr {
        lemma_keeps_pace(job, stream, resamplers, replies);
        law_runs_stay_consistent(job, replies);
        let chunk = (resamplers.chunk)(rate) as int;
        assert(chunk > 0);
        let f = fresh(rate, samples);
        lemma_chunk_outputs(resamplers, f, chunk);
        let whole = samples.len() as int / chunk * chunk;
        let outputs = chunk_outputs(resamplers, rate, chunk, Seq::empty(), samples).flatten();
        assert(Seq::<Single>::empty() + outputs =~= outputs);
        assert(Seq::<Single>::empty() + samples.take(whole) =~= samples.take(whole));
    }
}

} // verus!
