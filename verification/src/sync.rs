//! Request pacing, batching and trigger coalescing shared by every remote adapter.
use vstd::arithmetic::power2::{lemma2_to64, lemma_pow2_strictly_increases, lemma_pow2_unfold, pow2};
use vstd::prelude::*;

verus! {

/// How a synchronization job was started.
#[derive(Clone, Copy, Debug, PartialEq, Eq, Structural)]
pub enum SyncTrigger {
    /// The user explicitly requested synchronization.
    Manual,
    /// A configured schedule started synchronization.
    Scheduled,
    /// A local file change started synchronization.
    FileChanged,
}

/// Direction of one immutable archive transfer.
#[derive(Clone, Copy, Debug, PartialEq, Eq, Structural)]
pub enum TransferDirection {
    /// Publish a local archive to the remote repository.
    Upload,
    /// Materialize a remote archive in the local repository.
    Download,
}

/// One immutable object transfer selected by the comparison phase.
#[derive(Clone, Debug, PartialEq, Eq)]
pub struct Transfer {
    /// Repository-relative archive path.
    pub object_key: String,
    /// Expected size used for progress and verification.
    pub size_bytes: u64,
    /// Transfer direction.
    pub direction: TransferDirection,
}

/// Conservative request limits shared by every remote adapter.
#[derive(Clone, Copy, Debug, PartialEq, Eq, Structural)]
pub struct RequestPolicy {
    /// Maximum simultaneous catalog or timeline reads.
    pub max_concurrent_metadata_reads: usize,
    /// Maximum combined simultaneous uploads and downloads.
    pub max_concurrent_transfers: usize,
    /// Minimum spacing between starting remote requests.
    pub request_delay_ms: u64,
    /// Maximum retries for one temporary failure.
    pub retry_limit: u8,
    /// Initial exponential-backoff delay.
    pub base_retry_delay_ms: u64,
    /// Maximum client-generated exponential-backoff delay.
    pub max_retry_delay_ms: u64,
}

impl Default for RequestPolicy {
    fn default() -> (policy: Self)
        ensures
            policy.max_concurrent_metadata_reads == 2,
            policy.max_concurrent_transfers == 2,
            policy.request_delay_ms == 150,
            policy.retry_limit == 5,
            policy.base_retry_delay_ms == 1_000,
            policy.max_retry_delay_ms == 30_000,
    {
        RequestPolicy {
            max_concurrent_metadata_reads: 2,
            max_concurrent_transfers: 2,
            request_delay_ms: 150,
            retry_limit: 5,
            base_retry_delay_ms: 1_000,
            max_retry_delay_ms: 30_000,
        }
    }
}

/// HTTP statuses that describe a temporary condition worth retrying.
pub open spec fn spec_is_temporary_status(status: u16) -> bool {
    status == 408 || status == 425 || status == 429 || status == 500 || status == 502 || status
        == 503 || status == 504
}

/// Splits `items` into consecutive waves of at most `size` elements (`size` >= 1).
pub open spec fn chunks<T>(items: Seq<T>, size: nat) -> Seq<Seq<T>>
    recommends
        size >= 1,
    decreases items.len(),
{
    if items.len() == 0 || size == 0 {
        Seq::empty()
    } else if items.len() <= size {
        seq![items]
    } else {
        seq![items.take(size as int)] + chunks(items.skip(size as int), size)
    }
}

/// The wave width actually used: a configured width of zero behaves as one.
pub open spec fn effective_width(width: usize) -> nat {
    if width == 0 {
        1
    } else {
        width as nat
    }
}

/// `2^attempt`, or the largest `u64` once the shift leaves the word.
pub open spec fn backoff_multiplier(attempt: u8) -> int {
    if attempt < 64 {
        pow2(attempt as nat) as int
    } else {
        u64::MAX as int
    }
}

pub open spec fn saturate_u64(value: int) -> int {
    if value > u64::MAX {
        u64::MAX as int
    } else {
        value
    }
}

pub open spec fn min_int(a: int, b: int) -> int {
    if a <= b {
        a
    } else {
        b
    }
}

pub open spec fn max_int(a: int, b: int) -> int {
    if a >= b {
        a
    } else {
        b
    }
}

impl RequestPolicy {
    /// The capped exponential delay before jitter.
    pub open spec fn spec_exponential_delay(self, attempt: u8) -> int {
        min_int(
            saturate_u64(self.base_retry_delay_ms * backoff_multiplier(attempt)),
            self.max_retry_delay_ms as int,
        )
    }

    /// The delay `retry_delay_ms` returns, or `None` when the failure must not be retried.
    pub open spec fn spec_retry_delay_ms(
        self,
        status: u16,
        attempt: u8,
        retry_after_ms: Option<u64>,
        jitter_seed: u64,
    ) -> Option<u64> {
        if attempt >= self.retry_limit || !spec_is_temporary_status(status) {
            None
        } else {
            let exponential = self.spec_exponential_delay(attempt);
            let jitter = jitter_seed as int % (exponential / 4 + 1);
            let server = match retry_after_ms {
                Some(ms) => ms as int,
                None => 0,
            };
            Some(max_int(saturate_u64(exponential + jitter), server) as u64)
        }
    }

    /// Returns metadata reads in waves that never exceed the configured concurrency.
    pub fn metadata_batches<'a, T>(&self, items: &'a [T]) -> (batches: Vec<&'a [T]>)
        ensures
            batches@.map_values(|b: &'a [T]| b@) == chunks(
                items@,
                effective_width(self.max_concurrent_metadata_reads),
            ),
    {
        let width = if self.max_concurrent_metadata_reads == 0 {
            1
        } else {
            self.max_concurrent_metadata_reads
        };
        slice_chunks(items, width)
    }

    /// Returns uploads and downloads in one bounded queue.
    pub fn transfer_batches<'a>(&self, transfers: &'a [Transfer]) -> (batches: Vec<&'a [Transfer]>)
        ensures
            batches@.map_values(|b: &'a [Transfer]| b@) == chunks(
                transfers@,
                effective_width(self.max_concurrent_transfers),
            ),
    {
        let width = if self.max_concurrent_transfers == 0 {
            1
        } else {
            self.max_concurrent_transfers
        };
        slice_chunks(transfers, width)
    }

    /// Computes the next delay for a temporary HTTP failure.
    ///
    /// `attempt` starts at zero. A parsed `Retry-After` value is always honored
    /// when it exceeds the client-generated delay.
    pub fn retry_delay_ms(
        &self,
        status: u16,
        attempt: u8,
        retry_after_ms: Option<u64>,
        jitter_seed: u64,
    ) -> (delay: Option<u64>)
        ensures
            delay == self.spec_retry_delay_ms(status, attempt, retry_after_ms, jitter_seed),
    {
        if attempt >= self.retry_limit || !is_temporary_status(status) {
            return None;
        }
        let multiplier = backoff_multiplier_exec(attempt);
        let scaled = match self.base_retry_delay_ms.checked_mul(multiplier) {
            Some(value) => value,
            None => u64::MAX,
        };
        let exponential = if scaled <= self.max_retry_delay_ms {
            scaled
        } else {
            self.max_retry_delay_ms
        };
        let jitter = jitter_seed % (exponential / 4 + 1);
        let delayed = exponential.saturating_add(jitter);
        let server = match retry_after_ms {
            Some(ms) => ms,
            None => 0,
        };
        Some(
            if delayed >= server {
                delayed
            } else {
                server
            },
        )
    }
}

fn backoff_multiplier_exec(attempt: u8) -> (m: u64)
    ensures
        m == backoff_multiplier(attempt),
{
    if attempt >= 64 {
        return u64::MAX;
    }
    let mut m: u64 = 1;
    let mut i: u8 = 0;
    proof {
        lemma2_to64();
    }
    while i < attempt
        invariant
            i <= attempt < 64,
            m == pow2(i as nat),
        decreases attempt - i,
    {
        proof {
            lemma_pow2_unfold((i + 1) as nat);
            lemma2_to64();
            lemma_pow2_strictly_increases((i + 1) as nat, 64);
        }
        m = m * 2;
        i = i + 1;
    }
    m
}

fn slice_chunks<'a, T>(items: &'a [T], width: usize) -> (batches: Vec<&'a [T]>)
    requires
        width >= 1,
    ensures
        batches@.map_values(|b: &'a [T]| b@) == chunks(items@, width as nat),
{
    let mut batches: Vec<&'a [T]> = Vec::new();
    let mut start: usize = 0;
    let len = items.len();
    proof {
        assert(items@.skip(0) =~= items@);
        assert(batches@.map_values(|b: &'a [T]| b@) =~= Seq::<Seq<T>>::empty());
        assert(Seq::<Seq<T>>::empty() + chunks(items@, width as nat) =~= chunks(items@, width as nat));
    }
    while start < len
        invariant
            width >= 1,
            len == items@.len(),
            start <= len,
            batches@.map_values(|b: &'a [T]| b@) + chunks(items@.skip(start as int), width as nat)
                == chunks(items@, width as nat),
        decreases len - start,
    {
        let ghost rest = items@.skip(start as int);
        let end = if len - start > width {
            start + width
        } else {
            len
        };
        let batch = &items[start..end];
        let ghost old_view = batches@.map_values(|b: &'a [T]| b@);
        batches.push(batch);
        proof {
            let tail = chunks(items@.skip(end as int), width as nat);
            if rest.len() <= width {
                assert(rest =~= batch@);
                assert(items@.skip(end as int) =~= Seq::<T>::empty());
                assert(tail =~= Seq::<Seq<T>>::empty());
                assert(chunks(rest, width as nat) =~= seq![batch@] + tail);
            } else {
                assert(rest.take(width as int) =~= batch@);
                assert(rest.skip(width as int) =~= items@.skip(end as int));
                assert(chunks(rest, width as nat) =~= seq![batch@] + tail);
            }
            assert(batches@.map_values(|b: &'a [T]| b@) =~= old_view.push(batch@));
            assert(old_view.push(batch@) + tail =~= old_view + (seq![batch@] + tail));
        }
        start = end;
    }
    proof {
        assert(items@.skip(len as int) =~= Seq::<T>::empty());
        assert(chunks(items@.skip(len as int), width as nat) =~= Seq::<Seq<T>>::empty());
        assert(batches@.map_values(|b: &'a [T]| b@) + Seq::<Seq<T>>::empty() =~= batches@.map_values(
            |b: &'a [T]| b@,
        ));
    }
    batches
}

/// Every wave is non-empty and no wider than `size`, and the waves, read in order,
/// are exactly the original items: nothing is dropped, duplicated or reordered.
pub proof fn lemma_chunks_partition<T>(items: Seq<T>, size: nat)
    requires
        size >= 1,
    ensures
        chunks(items, size).flatten() == items,
        forall|i: int|
            0 <= i < chunks(items, size).len() ==> 1 <= #[trigger] chunks(items, size)[i].len()
                <= size,
    decreases items.len(),
{
    if items.len() == 0 {
    } else if items.len() <= size {
        let c = chunks(items, size);
        assert(c == seq![items]);
        assert(c.drop_first() =~= Seq::<Seq<T>>::empty());
        assert(c.drop_first().flatten() =~= Seq::<T>::empty());
        assert(c.first() + c.drop_first().flatten() =~= items);
    } else {
        let rest = items.skip(size as int);
        lemma_chunks_partition(rest, size);
        let c = chunks(items, size);
        assert(c =~= seq![items.take(size as int)] + chunks(rest, size));
        assert(c.first() == items.take(size as int));
        assert(c.drop_first() =~= chunks(rest, size));
        assert(items.take(size as int) + rest =~= items);
        assert forall|i: int| 0 <= i < c.len() implies 1 <= #[trigger] c[i].len() <= size by {
            if i > 0 {
                assert(c[i] == chunks(rest, size)[i - 1]);
            }
        }
    }
}

/// Whether a new synchronization request should start or join pending work.
#[derive(Clone, Copy, Debug, PartialEq, Eq, Structural)]
pub enum TriggerDecision {
    /// No job is running, so the caller should start one.
    Start,
    /// A job is already running and one follow-up pass has been recorded.
    Coalesced,
}

/// Coalesces repeated events and button presses into at most one follow-up pass.
#[derive(Debug)]
pub struct TriggerGate {
    running: bool,
    pending: bool,
}

/// The observable state of a trigger gate: whether a pass runs and whether one more is owed.
pub struct GateState {
    pub running: bool,
    pub pending: bool,
}

/// The trigger state after one request, with the decision it reports.
pub open spec fn request_step(s: GateState) -> (TriggerDecision, GateState) {
    if s.running {
        (TriggerDecision::Coalesced, GateState { running: true, pending: true })
    } else {
        (TriggerDecision::Start, GateState { running: true, pending: s.pending })
    }
}

/// The trigger state after one finished pass, with whether a consolidated pass remains.
pub open spec fn finish_step(s: GateState) -> (bool, GateState) {
    if s.pending {
        (true, GateState { running: s.running, pending: false })
    } else {
        (false, GateState { running: false, pending: false })
    }
}

/// A pending follow-up only ever exists while a pass is running.
pub open spec fn gate_consistent(s: GateState) -> bool {
    s.pending ==> s.running
}

/// The trigger state after `n` consecutive requests.
pub open spec fn requests(s: GateState, n: nat) -> GateState
    decreases n,
{
    if n == 0 {
        s
    } else {
        requests(request_step(s).1, (n - 1) as nat)
    }
}

impl TriggerGate {
    pub closed spec fn state(&self) -> GateState {
        GateState { running: self.running, pending: self.pending }
    }

    #[verifier::type_invariant]
    closed spec fn consistent(&self) -> bool {
        gate_consistent(self.state())
    }

    /// Registers a synchronization request.
    pub fn request(&mut self) -> (decision: TriggerDecision)
        ensures
            (decision, final(self).state()) == request_step(old(self).state()),
            gate_consistent(final(self).state()),
    {
        proof {
            use_type_invariant(&*self);
        }
        if self.running {
            self.pending = true;
            TriggerDecision::Coalesced
        } else {
            self.running = true;
            TriggerDecision::Start
        }
    }

    /// Completes the current pass and reports whether one consolidated pass remains.
    pub fn finish_pass(&mut self) -> (again: bool)
        ensures
            (again, final(self).state()) == finish_step(old(self).state()),
            gate_consistent(final(self).state()),
    {
        proof {
            use_type_invariant(&*self);
        }
        if self.pending {
            self.pending = false;
            true
        } else {
            self.running = false;
            false
        }
    }
}

impl Default for TriggerGate {
    fn default() -> (gate: Self)
        ensures
            gate.state() == (GateState { running: false, pending: false }),
    {
        TriggerGate { running: false, pending: false }
    }
}

/// However many requests arrive while a pass runs, they leave exactly one follow-up
/// pass: the next finished pass reports one more, and the one after that leaves nothing running.
pub proof fn lemma_repeated_requests_coalesce(s: GateState, n: nat)
    requires
        s.running,
        n >= 1,
    ensures
        requests(s, n) == (GateState { running: true, pending: true }),
        finish_step(requests(s, n)).0,
        !finish_step(finish_step(requests(s, n)).1).0,
        !finish_step(finish_step(requests(s, n)).1).1.running,
    decreases n,
{
    let next = request_step(s).1;
    if n > 1 {
        lemma_repeated_requests_coalesce(next, (n - 1) as nat);
    } else {
        assert(requests(next, 0) == next);
    }
    assert(requests(s, n) == requests(next, (n - 1) as nat));
}

/// Every transition keeps the trigger state consistent.
pub proof fn lemma_gate_steps_preserve_consistency(s: GateState)
    requires
        gate_consistent(s),
    ensures
        gate_consistent(request_step(s).1),
        gate_consistent(finish_step(s).1),
{
}

/// Whether an HTTP status is worth retrying.
pub fn is_temporary_status(status: u16) -> (r: bool)
    ensures
        r == spec_is_temporary_status(status),
{
    status == 408 || status == 425 || status == 429 || status == 500 || status == 502 || status
        == 503 || status == 504
}

/// What a client does after a response.
#[derive(Clone, Copy, Debug, PartialEq, Eq, Structural)]
pub enum ResponseStep {
    /// The request succeeded.
    Done,
    /// The object does not exist.
    NotFound,
    /// Wait this many milliseconds and send the request again.
    Retry(u64),
    /// Report the status as an error.
    Fail,
}

/// The step a WebDAV client takes after status `status` on attempt `attempt`: success (and a
/// collection that already exists) ends the request, 404 reports a missing object, temporary
/// failures are retried after the policy's backoff (honoring `Retry-After` seconds), anything
/// else fails.
pub open spec fn webdav_step_spec(
    policy: RequestPolicy,
    creates_collection: bool,
    status: u16,
    attempt: u8,
    retry_after_seconds: Option<u64>,
) -> ResponseStep {
    if (200 <= status < 300) || (creates_collection && status == 405) {
        ResponseStep::Done
    } else if status == 404 {
        ResponseStep::NotFound
    } else {
        let retry_after_ms = match retry_after_seconds {
            Some(s) => Some(saturate_u64(s * 1000) as u64),
            None => None,
        };
        match policy.spec_retry_delay_ms(status, attempt, retry_after_ms, (attempt * 7919) as u64) {
            Some(d) => ResponseStep::Retry(d),
            None => ResponseStep::Fail,
        }
    }
}

/// The step a WebDAV client takes after a response.
pub fn webdav_response_step(
    policy: &RequestPolicy,
    creates_collection: bool,
    status: u16,
    attempt: u8,
    retry_after_seconds: Option<u64>,
) -> (r: ResponseStep)
    ensures
        r == webdav_step_spec(*policy, creates_collection, status, attempt, retry_after_seconds),
{
    if (200 <= status && status < 300) || (creates_collection && status == 405) {
        return ResponseStep::Done;
    }
    if status == 404 {
        return ResponseStep::NotFound;
    }
    let retry_after_ms = match retry_after_seconds {
        Some(seconds) => Some(
            match seconds.checked_mul(1000) {
                Some(ms) => ms,
                None => u64::MAX,
            },
        ),
        None => None,
    };
    let seed = (attempt as u64) * 7919;
    match policy.retry_delay_ms(status, attempt, retry_after_ms, seed) {
        Some(delay) => ResponseStep::Retry(delay),
        None => ResponseStep::Fail,
    }
}

/// The step a GitHub client takes after status `status` on attempt `attempt`: success ends
/// the request, 404 reports a missing object, rate limiting and server errors are retried
/// after `200 · 2^attempt` milliseconds while attempts remain, anything else fails.
pub open spec fn github_step_spec(policy: RequestPolicy, status: u16, attempt: u8) -> ResponseStep {
    if 200 <= status < 300 {
        ResponseStep::Done
    } else if status == 404 {
        ResponseStep::NotFound
    } else if (status == 429 || (500 <= status < 600)) && attempt < policy.retry_limit {
        ResponseStep::Retry((200 * pow2(attempt as nat)) as u64)
    } else {
        ResponseStep::Fail
    }
}

/// The step a GitHub client takes after a response.
pub fn github_response_step(policy: &RequestPolicy, status: u16, attempt: u8) -> (r: ResponseStep)
    requires
        attempt < policy.retry_limit ==> 200 * pow2(attempt as nat) <= u64::MAX,
    ensures
        r == github_step_spec(*policy, status, attempt),
{
    if 200 <= status && status < 300 {
        return ResponseStep::Done;
    }
    if status == 404 {
        return ResponseStep::NotFound;
    }
    if (status == 429 || (500 <= status && status < 600)) && attempt < policy.retry_limit {
        proof {
            if attempt >= 64 {
                lemma2_to64();
                lemma_pow2_strictly_increases(64, attempt as nat);
            }
        }
        let m = backoff_multiplier_exec(attempt);
        return ResponseStep::Retry(200 * m);
    }
    ResponseStep::Fail
}

/// Temporary failures are retried: after a 408, 425, 429, 500, 502, 503 or 504 on an
/// attempt below the retry limit there is a delay, never shorter than the server's
/// `Retry-After`, and a WebDAV client waits that delay and sends the request again.
pub proof fn law_temporary_statuses_are_retried(
    policy: RequestPolicy,
    creates_collection: bool,
    status: u16,
    attempt: u8,
    retry_after_ms: Option<u64>,
    retry_after_seconds: Option<u64>,
    jitter_seed: u64,
)
    requires
        status == 408 || status == 425 || status == 429 || status == 500 || status == 502 || status == 503
            || status == 504,
        attempt < policy.retry_limit,
    ensures
        policy.spec_retry_delay_ms(status, attempt, retry_after_ms, jitter_seed) is Some,
        retry_after_ms matches Some(ms) ==> policy.spec_retry_delay_ms(status, attempt, retry_after_ms, jitter_seed)->Some_0 >= ms,
        webdav_step_spec(policy, creates_collection, status, attempt, retry_after_seconds) is Retry,
{
}

/// Other failures are never retried: a status outside 200–299, other than 404 and the
/// temporary ones (and other than 405 when a collection is created), fails at once.
pub proof fn law_permanent_statuses_fail(
    policy: RequestPolicy,
    creates_collection: bool,
    status: u16,
    attempt: u8,
    retry_after_ms: Option<u64>,
    retry_after_seconds: Option<u64>,
    jitter_seed: u64,
)
    requires
        !(status == 408 || status == 425 || status == 429 || status == 500 || status == 502 || status == 503
            || status == 504),
    ensures
        policy.spec_retry_delay_ms(status, attempt, retry_after_ms, jitter_seed) is None,
        !(200 <= status < 300) && status != 404 && !(creates_collection && status == 405) ==> webdav_step_spec(
            policy,
            creates_collection,
            status,
            attempt,
            retry_after_seconds,
        ) == ResponseStep::Fail,
{
}

/// No request is retried once the attempts reach the policy's limit.
pub proof fn law_retries_stop_at_the_limit(
    policy: RequestPolicy,
    status: u16,
    attempt: u8,
    retry_after_ms: Option<u64>,
    jitter_seed: u64,
)
    requires
        attempt >= policy.retry_limit,
    ensures
        policy.spec_retry_delay_ms(status, attempt, retry_after_ms, jitter_seed) is None,
{
}

/// The backoff before a retry: without `Retry-After` it is the base delay doubled once per
/// earlier attempt, capped at the policy's maximum, plus a jitter of at most a quarter of
/// that; a `Retry-After` longer than this is waited out instead.
pub proof fn law_backoff_is_capped_and_jittered(
    policy: RequestPolicy,
    status: u16,
    attempt: u8,
    retry_after_ms: Option<u64>,
    jitter_seed: u64,
)
    requires
        attempt < 64,
        policy.spec_retry_delay_ms(status, attempt, retry_after_ms, jitter_seed) is Some,
    ensures
        ({
            let d = policy.spec_retry_delay_ms(status, attempt, retry_after_ms, jitter_seed)->Some_0 as int;
            let doubled = policy.base_retry_delay_ms * pow2(attempt as nat);
            let capped = if doubled <= policy.max_retry_delay_ms { doubled } else { policy.max_retry_delay_ms as int };
            let server = match retry_after_ms {
                Some(ms) => ms as int,
                None => 0,
            };
            &&& d >= capped
            &&& d >= server
            &&& d <= capped + capped / 4 || d == server
        }),
{
}

} // verus!

