use crate::error::RainbowError;
use crate::hash::digest_of;
use crate::hash::{lemma_pow10_mono, pow10, Hasher};
use core::ops::Range;
use vstd::arithmetic::div_mod::{
    lemma_fundamental_div_mod, lemma_multiply_divide_lt,
};
use vstd::arithmetic::mul::lemma_mul_inequality;
use vstd::prelude::*;

verus! {

/// Whether `id` falls inside one of the given half-open ranges.
pub open spec fn in_some_job(jobs: Seq<Range<u64>>, id: u64) -> bool {
    exists|i: int| 0 <= i < jobs.len() && (#[trigger] jobs[i]).start <= id < jobs[i].end
}

/// The exact shape the partitioner produces for a positive `job_count`: no
/// jobs at all when there is no work, else `job_count` ranges of size
/// `max_value / job_count`, then one shorter trailing range whenever the
/// division leaves a remainder.
pub open spec fn partition_shape(max_value: u64, job_count: int, jobs: Seq<Range<u64>>) -> bool {
    if max_value == 0 {
        jobs.len() == 0
    } else {
        let js = (max_value as int) / job_count;
        let rem = (max_value as int) % job_count;
        &&& jobs.len() == job_count + (if rem != 0 {
            1int
        } else {
            0int
        })
        &&& forall|i: int|
            0 <= i < job_count ==> (#[trigger] jobs[i]).start == i * js && jobs[i].end == (i + 1)
                * js
        &&& (rem != 0 ==> jobs[job_count].start == job_count * js && jobs[job_count].end
            == max_value)
    }
}

/// The ranges are sorted, pairwise disjoint, and their union is exactly
/// `[0, max_value)`: no id is missed and none is hashed twice.
pub open spec fn covers_exactly(max_value: u64, jobs: Seq<Range<u64>>) -> bool {
    &&& forall|i: int| 0 <= i < jobs.len() ==> (#[trigger] jobs[i]).start <= jobs[i].end
    &&& forall|i: int| 0 <= i < jobs.len() ==> (#[trigger] jobs[i]).end <= max_value
    &&& forall|i: int, j: int|
        0 <= i < j < jobs.len() ==> (#[trigger] jobs[i]).end <= (#[trigger] jobs[j]).start
    &&& forall|id: u64| id < max_value ==> #[trigger] in_some_job(jobs, id)
}

/// Splits `[0, max_value)` into `job_count` contiguous ranges of size
/// `max_value / job_count` plus, when the division leaves a remainder, one
/// shorter trailing range; an empty keyspace yields zero jobs, no work.  The
/// ranges are sorted, pairwise disjoint, and cover `[0, max_value)` exactly;
/// calling twice with the same inputs gives the same ranges.
pub fn partition_jobs(max_value: u64, job_count: usize) -> (jobs: Vec<Range<u64>>)
    requires
        1 <= job_count,
    ensures
        partition_shape(max_value, job_count as int, jobs@),
        covers_exactly(max_value, jobs@),
{
    if max_value == 0 {
        return Vec::new();
    }
    let jc: u64 = job_count as u64;
    let job_size: u64 = max_value / jc;
    let remainder: u64 = max_value % jc;
    proof {
        lemma_fundamental_div_mod(max_value as int, jc as int);
    }
    let mut chunks: Vec<Range<u64>> = Vec::new();
    let mut i: u64 = 0;
    while i < jc
        invariant
            i <= jc,
            job_size == max_value as int / jc as int,
            jc * job_size <= max_value,
            chunks@.len() == i,
            forall|k: int|
                0 <= k < i ==> (#[trigger] chunks@[k]).start == k * job_size && chunks@[k].end == (
                k + 1) * job_size,
        decreases jc - i,
    {
        proof {
            lemma_mul_inequality(i as int, i as int + 1, job_size as int);
            lemma_mul_inequality(i as int + 1, jc as int, job_size as int);
        }
        let lo = i * job_size;
        let hi = (i + 1) * job_size;
        chunks.push(lo..hi);
        i = i + 1;
    }
    if remainder != 0 {
        chunks.push((jc * job_size)..max_value);
    }
    proof {
        let jci = jc as int;
        let js = job_size as int;
        assert forall|k: int| 0 <= k < chunks@.len() implies (#[trigger] chunks@[k]).start
            <= chunks@[k].end && chunks@[k].end <= max_value by {
            if k < jci {
                lemma_mul_inequality(k, k + 1, js);
                lemma_mul_inequality(k + 1, jci, js);
            }
        }
        assert forall|a: int, b: int| 0 <= a < b < chunks@.len() implies (#[trigger] chunks@[a]).end
            <= (#[trigger] chunks@[b]).start by {
            if b < jci {
                lemma_mul_inequality(a + 1, b, js);
            } else {
                lemma_mul_inequality(a + 1, jci, js);
            }
        }
        assert forall|id: u64| id < max_value implies #[trigger] in_some_job(chunks@, id) by {
            if job_size > 0 && id < jc * job_size {
                assert(id < js * jci) by (nonlinear_arith)
                    requires
                        (id as int) < jci * js,
                ;
                lemma_multiply_divide_lt(id as int, js, jci);
                lemma_fundamental_div_mod(id as int, js);
                let k = id as int / js;
                assert(0 <= k < jci);
                assert(k * js <= id < (k + 1) * js) by (nonlinear_arith)
                    requires
                        id as int == js * k + (id as int) % js,
                        0 <= (id as int) % js < js,
                ;
                assert(chunks@[k].start <= id < chunks@[k].end);
            } else {
                assert(jci * js <= id) by (nonlinear_arith)
                    requires
                        js == 0 || jci * js <= id,
                        0 <= id,
                ;
                assert(remainder != 0);
                assert(chunks@[jci].start <= id < chunks@[jci].end);
            }
        }
    }
    chunks
}

/// The ASCII byte of the uppercase hexadecimal digit for `v < 16`.
pub open spec fn hex_digit(v: u8) -> u8 {
    if v < 10 {
        (48 + v) as u8
    } else {
        (55 + v) as u8
    }
}

/// Uppercase hexadecimal: two digit bytes per input byte, high nibble first.
pub open spec fn hex_upper_of(s: Seq<u8>) -> Seq<u8> {
    Seq::new(
        2 * s.len(),
        |i: int|
            if i % 2 == 0 {
                hex_digit(((s[i / 2] as int) / 16) as u8)
            } else {
                hex_digit(((s[i / 2] as int) % 16) as u8)
            },
    )
}

/// Relies on `data_encoding::HEXUPPER.encode`: RFC 4648 base16 with the
/// symbols `0123456789ABCDEF`, two digits per byte, high nibble first.
/// Computing the output length may fail above `usize::MAX / 512` input
/// bytes, so such inputs are left out.
#[verifier::external_body]
fn hex_upper(data: &Vec<u8>) -> (r: Vec<u8>)
    requires
        data@.len() <= usize::MAX / 512,
    ensures
        r@ == hex_upper_of(data@),
{
    data_encoding::HEXUPPER.encode(data.as_slice()).into_bytes()
}

/// `n` written as plain ASCII decimal digits, no padding, one `0` for zero.
pub open spec fn dec_of(n: nat) -> Seq<u8>
    decreases n,
{
    if n < 10 {
        seq![(48 + n) as u8]
    } else {
        dec_of(n / 10) + seq![(48 + n % 10) as u8]
    }
}

fn dec_bytes(n: u64) -> (r: Vec<u8>)
    ensures
        r@ == dec_of(n as nat),
    decreases n,
{
    if n < 10 {
        let mut r: Vec<u8> = Vec::new();
        r.push(48 + n as u8);
        assert(r@ =~= dec_of(n as nat));
        r
    } else {
        let mut r = dec_bytes(n / 10);
        r.push(48 + (n % 10) as u8);
        assert(r@ =~= dec_of(n as nat));
        r
    }
}

/// One output line: the id in plain decimal, a tab, the digest in uppercase
/// hexadecimal, a newline.
pub open spec fn line_bytes(id: u64, digest: Seq<u8>) -> Seq<u8> {
    dec_of(id as nat) + seq![9u8] + hex_upper_of(digest) + seq![10u8]
}

/// The line printed for `id` under `pepper`.
pub open spec fn line_for(pepper: Seq<u8>, id: u64) -> Seq<u8> {
    line_bytes(id, digest_of(pepper, id))
}

/// Serializes one record as its output line.
pub fn format_range(n: u64, digest: &Vec<u8>) -> (r: Vec<u8>)
    requires
        digest@.len() <= usize::MAX / 512,
    ensures
        r@ == line_bytes(n, digest@),
{
    let mut r = dec_bytes(n);
    r.push(9);
    let mut h = hex_upper(digest);
    r.append(&mut h);
    r.push(10);
    assert(r@ =~= line_bytes(n, digest@));
    r
}

/// The concatenation of the lines for a batch of buffered records.
pub open spec fn records_output(records: Seq<(u64, Vec<u8>)>) -> Seq<u8>
    decreases records.len(),
{
    if records.len() == 0 {
        Seq::empty()
    } else {
        records_output(records.drop_last()) + line_bytes(records.last().0, records.last().1@)
    }
}

/// Serializes a whole record buffer into one output chunk, keeping the
/// buffer's record order.
pub fn buffer_to_output(buffer: &Vec<(u64, Vec<u8>)>) -> (r: Vec<u8>)
    requires
        forall|i: int|
            0 <= i < buffer@.len() ==> (#[trigger] buffer@[i]).1@.len() <= usize::MAX / 512,
    ensures
        r@ == records_output(buffer@),
{
    let mut out: Vec<u8> = Vec::new();
    let mut i: usize = 0;
    while i < buffer.len()
        invariant
            i <= buffer@.len(),
            forall|k: int|
                0 <= k < buffer@.len() ==> (#[trigger] buffer@[k]).1@.len() <= usize::MAX / 512,
            out@ == records_output(buffer@.take(i as int)),
        decreases buffer@.len() - i,
    {
        let mut line = format_range(buffer[i].0, &buffer[i].1);
        out.append(&mut line);
        proof {
            assert(buffer@.take(i + 1).drop_last() =~= buffer@.take(i as int));
            assert(buffer@.take(i + 1).last() == buffer@[i as int]);
        }
        i = i + 1;
    }
    proof {
        assert(buffer@.take(buffer@.len() as int) =~= buffer@);
    }
    out
}

/// Everything the table prints for ids in `[start, end)` under `pepper`, in
/// ascending id order.
pub open spec fn range_output(pepper: Seq<u8>, start: int, end: int) -> Seq<u8>
    decreases end - start,
{
    if start >= end {
        Seq::empty()
    } else {
        range_output(pepper, start, end - 1) + line_for(pepper, (end - 1) as u64)
    }
}

/// Chunk boundaries carry no information: the output for `[a, b)` followed
/// by the output for `[b, c)` is the output for `[a, c)`.  Flushing the
/// record buffer at any count moves the cuts between chunks and changes
/// nothing else — neither how many records appear nor any digest.
pub proof fn lemma_output_split(pepper: Seq<u8>, a: int, b: int, c: int)
    requires
        a <= b <= c,
    ensures
        range_output(pepper, a, b) + range_output(pepper, b, c) == range_output(pepper, a, c),
    decreases c - b,
{
    if b == c {
        assert(range_output(pepper, a, b) + range_output(pepper, b, c) =~= range_output(
            pepper,
            a,
            b,
        ));
    } else {
        lemma_output_split(pepper, a, b, c - 1);
        assert(range_output(pepper, a, b) + range_output(pepper, b, c) =~= (range_output(
            pepper,
            a,
            b,
        ) + range_output(pepper, b, c - 1)) + line_for(pepper, (c - 1) as u64));
    }
}

/// A buffer whose records are the consecutive ids from `start` with their
/// digests serializes to exactly the output of that id interval.
proof fn lemma_records_output_matches(pepper: Seq<u8>, records: Seq<(u64, Vec<u8>)>, start: int)
    requires
        forall|k: int|
            0 <= k < records.len() ==> (#[trigger] records[k]).0 == start + k && records[k].1@
                == digest_of(pepper, (start + k) as u64),
    ensures
        records_output(records) == range_output(pepper, start, start + records.len()),
    decreases records.len(),
{
    if records.len() > 0 {
        lemma_records_output_matches(pepper, records.drop_last(), start);
    }
}

/// The worker step: drains up to `max_records` ids from the hasher into a
/// record buffer and serializes them as one chunk; at the end of the range
/// there is no further chunk.  The hasher advances exactly past the records
/// the chunk holds.
pub fn next_chunk(h: &mut Hasher, max_records: usize) -> (chunk: Option<Vec<u8>>)
    requires
        old(h).wf(),
        1 <= max_records,
    ensures
        final(h).wf(),
        final(h).pepper() == old(h).pepper(),
        final(h).end_id() == old(h).end_id(),
        final(h).pos() <= final(h).end_id(),
        old(h).pos() == old(h).end_id() ==> chunk is None && final(h).pos() == old(h).pos(),
        old(h).pos() < old(h).end_id() ==> {
            &&& final(h).pos() == if old(h).pos() + max_records <= old(h).end_id() {
                old(h).pos() + max_records as int
            } else {
                old(h).end_id() as int
            }
            &&& chunk matches Some(c) && c@ == range_output(
                old(h).pepper(),
                old(h).pos() as int,
                final(h).pos() as int,
            )
        },
{
    let total = h.remaining();
    if total == 0 {
        return None;
    }
    let count: usize = if (max_records as u64) < total {
        max_records
    } else {
        total as usize
    };
    let ghost p0 = h.pos();
    let mut records: Vec<(u64, Vec<u8>)> = Vec::new();
    let mut i: usize = 0;
    while i < count
        invariant
            i <= count,
            h.wf(),
            h.pepper() == old(h).pepper(),
            h.end_id() == old(h).end_id(),
            p0 + count <= h.end_id(),
            h.pos() == p0 + i,
            records@.len() == i,
            forall|k: int|
                0 <= k < i ==> (#[trigger] records@[k]).0 == p0 + k && records@[k].1@ == digest_of(
                    old(h).pepper(),
                    (p0 + k) as u64,
                ) && records@[k].1@.len() == 32,
        decreases count - i,
    {
        match h.next() {
            Some(rec) => {
                records.push(rec);
            },
            None => {
                proof {
                    assert(false);
                }
            },
        }
        i = i + 1;
    }
    let out = buffer_to_output(&records);
    proof {
        lemma_records_output_matches(old(h).pepper(), records@, p0 as int);
    }
    Some(out)
}

/// A unit of work queued for the workers: one id range, or the marker that
/// no more jobs will come.
pub enum Job {
    JobRange(Range<u64>),
    Done,
}

/// A message for the output sink: one serialized chunk, or one worker's
/// completion signal.
pub enum Output {
    BulkOutput(Vec<u8>),
    Done,
}

/// The exact message sequence queued for the worker pool: every job in
/// order, then one end-of-queue marker per worker, so that each worker sees
/// the queue close and sends its own completion signal.
pub fn job_messages(jobs: &Vec<Range<u64>>, worker_count: usize) -> (msgs: Vec<Job>)
    requires
        jobs@.len() + worker_count <= usize::MAX,
    ensures
        msgs@.len() == jobs@.len() + worker_count,
        forall|i: int| 0 <= i < jobs@.len() ==> msgs@[i] == Job::JobRange(jobs@[i]),
        forall|i: int| jobs@.len() <= i < msgs@.len() ==> msgs@[i] == Job::Done,
{
    let mut msgs: Vec<Job> = Vec::new();
    let mut i: usize = 0;
    while i < jobs.len()
        invariant
            i <= jobs@.len(),
            msgs@.len() == i,
            forall|k: int| 0 <= k < i ==> msgs@[k] == Job::JobRange(jobs@[k]),
        decreases jobs@.len() - i,
    {
        let start = jobs[i].start;
        let end = jobs[i].end;
        msgs.push(Job::JobRange(start..end));
        i = i + 1;
    }
    let mut w: usize = 0;
    while w < worker_count
        invariant
            w <= worker_count,
            msgs@.len() == jobs@.len() + w,
            forall|k: int| 0 <= k < jobs@.len() ==> msgs@[k] == Job::JobRange(jobs@[k]),
            forall|k: int| jobs@.len() <= k < msgs@.len() ==> msgs@[k] == Job::Done,
        decreases worker_count - w,
    {
        msgs.push(Job::Done);
        w = w + 1;
    }
    msgs
}

/// Fan-in bookkeeping of the single output consumer: one countdown of the
/// workers that have not yet reported completion.  Chunks pass through to
/// the sink in receipt order and leave the countdown alone, so the sink is
/// written from exactly one place and no line is ever interleaved.
pub struct Aggregator {
    remaining: usize,
}

impl Aggregator {
    /// How many workers have not yet sent their completion signal.
    pub closed spec fn remaining_workers(self) -> nat {
        self.remaining as nat
    }

    /// Starts waiting for `worker_count` completion signals.
    pub fn new(worker_count: usize) -> (a: Aggregator)
        ensures
            a.remaining_workers() == worker_count,
    {
        Aggregator { remaining: worker_count }
    }

    /// True once every worker has completed; the receive loop stops here.
    pub fn is_done(&self) -> (b: bool)
        ensures
            b == (self.remaining_workers() == 0),
    {
        self.remaining == 0
    }

    /// Consumes one message: a chunk comes back unchanged for the sink, a
    /// completion signal lowers the countdown by one and writes nothing.
    pub fn step(&mut self, msg: Output) -> (write: Option<Vec<u8>>)
        requires
            old(self).remaining_workers() > 0,
        ensures
            msg matches Output::BulkOutput(bytes) ==> final(self).remaining_workers() == old(
                self,
            ).remaining_workers() && write == Some(bytes),
            msg is Done ==> final(self).remaining_workers() == old(self).remaining_workers() - 1
                && write is None,
    {
        match msg {
            Output::BulkOutput(bytes) => Some(bytes),
            Output::Done => {
                self.remaining = self.remaining - 1;
                None
            },
        }
    }
}

/// A requested job count of zero means "use the available parallelism".
pub fn resolve_job_count(requested: usize, worker_count: usize) -> (jc: usize)
    ensures
        jc == if requested == 0 {
            worker_count as int
        } else {
            requested as int
        },
{
    if requested == 0 {
        worker_count
    } else {
        requested
    }
}

/// Relies on `num_cpus::get`: the number of available logical CPUs, which is
/// always at least one.
#[verifier::external_body]
pub fn available_workers() -> (n: usize)
    ensures
        1 <= n,
{
    num_cpus::get()
}

/// The `(id, digest)` pairs produced for the ids in `[lo, hi)` under
/// `pepper` — what a run over that interval yields, as a set, since no
/// ordering across workers is promised.
pub open spec fn record_set(pepper: Seq<u8>, lo: int, hi: int) -> Set<(u64, Seq<u8>)> {
    Set::new(|p: (u64, Seq<u8>)| lo <= p.0 < hi && p.1 == digest_of(pepper, p.0))
}

/// The union of the pairs produced by every job in the list.
pub open spec fn jobs_record_set(pepper: Seq<u8>, jobs: Seq<Range<u64>>) -> Set<(u64, Seq<u8>)>
    decreases jobs.len(),
{
    if jobs.len() == 0 {
        Set::empty()
    } else {
        jobs_record_set(pepper, jobs.drop_last()).union(
            record_set(pepper, jobs.last().start as int, jobs.last().end as int),
        )
    }
}

proof fn lemma_jobs_record_set_member(pepper: Seq<u8>, jobs: Seq<Range<u64>>, p: (u64, Seq<u8>))
    ensures
        jobs_record_set(pepper, jobs).contains(p) <==> exists|i: int|
            0 <= i < jobs.len() && #[trigger] record_set(
                pepper,
                jobs[i].start as int,
                jobs[i].end as int,
            ).contains(p),
    decreases jobs.len(),
{
    if jobs.len() > 0 {
        let prefix = jobs.drop_last();
        lemma_jobs_record_set_member(pepper, prefix, p);
        let last = jobs.len() - 1;
        if jobs_record_set(pepper, jobs).contains(p) {
            if record_set(pepper, jobs[last].start as int, jobs[last].end as int).contains(p) {
                assert(0 <= last < jobs.len() && record_set(
                    pepper,
                    jobs[last].start as int,
                    jobs[last].end as int,
                ).contains(p));
            } else {
                let i = choose|i: int|
                    0 <= i < prefix.len() && #[trigger] record_set(
                        pepper,
                        prefix[i].start as int,
                        prefix[i].end as int,
                    ).contains(p);
                assert(jobs[i] == prefix[i]);
                assert(record_set(pepper, jobs[i].start as int, jobs[i].end as int).contains(p));
            }
        }
        if exists|i: int|
            0 <= i < jobs.len() && #[trigger] record_set(
                pepper,
                jobs[i].start as int,
                jobs[i].end as int,
            ).contains(p) {
            let i = choose|i: int|
                0 <= i < jobs.len() && #[trigger] record_set(
                    pepper,
                    jobs[i].start as int,
                    jobs[i].end as int,
                ).contains(p);
            if i < last {
                assert(prefix[i] == jobs[i]);
                assert(record_set(pepper, prefix[i].start as int, prefix[i].end as int).contains(
                    p,
                ));
                assert(jobs_record_set(pepper, prefix).contains(p));
            }
            assert(jobs_record_set(pepper, jobs).contains(p));
        }
    }
}

/// Serial mode and parallel mode agree: whenever the job list covers
/// `[0, max_id)` — every id below `max_id` inside some job and every job
/// within bounds, as `partition_jobs` guarantees — the union of the records
/// of all jobs is exactly the record set of one serial pass, whatever order
/// the workers' chunks reach the sink in.
pub proof fn lemma_modes_agree(pepper: Seq<u8>, max_id: u64, jobs: Seq<Range<u64>>)
    requires
        covers_exactly(max_id, jobs),
    ensures
        jobs_record_set(pepper, jobs) == record_set(pepper, 0, max_id as int),
{
    let whole = record_set(pepper, 0, max_id as int);
    assert forall|p: (u64, Seq<u8>)| jobs_record_set(pepper, jobs).contains(p) implies
        whole.contains(p) by {
        lemma_jobs_record_set_member(pepper, jobs, p);
        let i = choose|i: int|
            0 <= i < jobs.len() && #[trigger] record_set(
                pepper,
                jobs[i].start as int,
                jobs[i].end as int,
            ).contains(p);
        assert(p.0 < jobs[i].end <= max_id);
    }
    assert forall|p: (u64, Seq<u8>)| whole.contains(p) implies jobs_record_set(
        pepper,
        jobs,
    ).contains(p) by {
        assert(in_some_job(jobs, p.0));
        let i = choose|i: int|
            0 <= i < jobs.len() && (#[trigger] jobs[i]).start <= p.0 < jobs[i].end;
        assert(record_set(pepper, jobs[i].start as int, jobs[i].end as int).contains(p));
        lemma_jobs_record_set_member(pepper, jobs, p);
    }
    assert(jobs_record_set(pepper, jobs) =~= whole);
}

/// The keyspace size `10^digits`.  Nineteen digits are the most the 64-bit
/// id space can hold; a wider keyspace is an invalid configuration and is
/// rejected before any work starts.
pub fn compute_max_id(digits: u32) -> (r: Result<u64, RainbowError>)
    ensures
        digits <= 19 ==> (r matches Ok(m) && m == pow10(digits as nat)),
        digits > 19 ==> (r matches Err(e) && e == RainbowError::InvalidConfiguration),
{
    if digits > 19 {
        return Err(RainbowError::InvalidConfiguration);
    }
    proof {
        assert(pow10(19) == 10000000000000000000) by {
            reveal_with_fuel(pow10, 20);
        }
    }
    let mut m: u64 = 1;
    let mut i: u32 = 0;
    while i < digits
        invariant
            i <= digits <= 19,
            m == pow10(i as nat),
            pow10(19) == 10000000000000000000,
        decreases digits - i,
    {
        proof {
            lemma_pow10_mono(i as nat + 1, 19);
        }
        m = m * 10;
        i = i + 1;
    }
    Ok(m)
}

/// The orchestrator's job plan: a requested job count of zero resolves to
/// the available parallelism, and a plan that still has no jobs — a zero
/// job count where one is required — is an invalid configuration.
pub fn plan_jobs(max_id: u64, requested: usize, worker_count: usize) -> (r: Result<
    Vec<Range<u64>>,
    RainbowError,
>)
    ensures
        ({
            let jc = if requested == 0 {
                worker_count as int
            } else {
                requested as int
            };
            &&& jc == 0 ==> (r matches Err(e) && e == RainbowError::InvalidConfiguration)
            &&& jc > 0 ==> (r matches Ok(jobs) && partition_shape(max_id, jc, jobs@)
                && covers_exactly(max_id, jobs@))
        }),
{
    let jc = resolve_job_count(requested, worker_count);
    if jc == 0 {
        Err(RainbowError::InvalidConfiguration)
    } else {
        Ok(partition_jobs(max_id, jc))
    }
}

} // verus!

