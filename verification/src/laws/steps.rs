//! Steps that follow one another: dials, hops, attempts, endings.

use vstd::prelude::*;

use crate::builder::{limits_failure, ClientConfigValues};
use crate::error::{class_of, Cause, ErrorKind, ErrorView};
use crate::exchange::upload_step;
use crate::http_client::{dialed, is_scheme, leads_to, DialStep};
use crate::laws::lists::{lemma_words_in_any_case, writes_word};
use crate::metadata::{attempt_after, crossed_by};
use crate::multipart::preload_step;
use crate::request_builder::timeout_of;
use crate::resolver::SocketAddr;
use crate::stats::counted;
use crate::streaming::{failed_ending, tells, Ending};
use crate::time::{Duration, Instant};
use crate::tls::{hop_loads, selected, settled_by, TlsConfigFailurePolicy, TlsConfigSnapshot};
use crate::uri::UriView;

verus! {

proof fn lemma_web_schemes(scheme: Seq<char>)
    ensures
        is_scheme(scheme, "http"@) <==> writes_word(scheme, "http"@),
        is_scheme(scheme, "https"@) <==> writes_word(scheme, "https"@),
        !(writes_word(scheme, "http"@) && writes_word(scheme, "https"@)),
{
    reveal_strlit("http");
    reveal_strlit("https");
    lemma_words_in_any_case(scheme, "http"@);
    lemma_words_in_any_case(scheme, "https"@);
}

/// An address leads to its host: over TLS and to port 443 for https, without and to port 80 for
/// http, and to its own port where it names one; any other scheme leads nowhere.
pub proof fn lemma_addresses_lead_to_their_hosts(uri: UriView)
    requires
        uri.scheme is Some,
        uri.host is Some,
    ensures
        writes_word(uri.scheme->0, "https"@) ==> leads_to(uri) == Some(
            (
                uri.host->0,
                match uri.port {
                    Some(port) => port,
                    None => 443,
                },
                true,
            ),
        ),
        writes_word(uri.scheme->0, "http"@) ==> leads_to(uri) == Some(
            (
                uri.host->0,
                match uri.port {
                    Some(port) => port,
                    None => 80,
                },
                false,
            ),
        ),
        !writes_word(uri.scheme->0, "http"@) && !writes_word(uri.scheme->0, "https"@)
            ==> leads_to(uri) is None,
{
    lemma_web_schemes(uri.scheme->0);
}

/// A dial tries the addresses of a host in their order, each once, and gives each exactly the time
/// that is left before its deadline.
pub proof fn lemma_addresses_are_tried_in_order<E>(
    left: Seq<Seq<SocketAddr>>,
    limit: Instant,
    clock: Seq<Instant>,
    steps: Seq<DialStep<E>>,
    k: int,
)
    requires
        0 <= k < steps.len(),
        clock.len() == steps.len(),
        left.len() == steps.len() + 1,
        forall|i: int|
            0 <= i < steps.len() ==> #[trigger] steps[i] is Try && dialed(
                left[i],
                limit,
                clock[i],
                steps[i],
                left[i + 1],
            ),
    ensures
        k < left[0].len(),
        steps[k] matches DialStep::Try { address, timeout } && address == left[0][k]
            && timeout.nanos > 0 && clock[k].nanos + timeout.nanos == limit.nanos,
        left[k + 1] == left[0].skip(k + 1),
    decreases k,
{
    assert(steps[k] is Try);
    if k > 0 {
        lemma_addresses_are_tried_in_order(
            left.take(k + 1),
            limit,
            clock.take(k),
            steps.take(k),
            k - 1,
        );
        assert(left.take(k + 1)[0] == left[0]);
        assert(left.take(k + 1)[k] == left[k]);
    }
    assert(left[k] =~= left[0].skip(k));
    assert(left[k + 1] =~= left[0].skip(k + 1));
}

/// A dial does not give up while it has both an address and time.
pub proof fn lemma_dials_go_on<E>(
    before: Seq<SocketAddr>,
    limit: Instant,
    now: Instant,
    step: DialStep<E>,
    after: Seq<SocketAddr>,
)
    requires
        dialed(before, limit, now, step, after),
        before.len() > 0,
        now.nanos < limit.nanos,
    ensures
        step is Try,
{
}

/// A snapshot that was loaded is the one that is used; the last good one stands in for a missing
/// one exactly under the policy that says so.
pub proof fn lemma_loaded_snapshots_are_used<C>(
    policy: TlsConfigFailurePolicy,
    loaded: TlsConfigSnapshot<C>,
    last: TlsConfigSnapshot<C>,
)
    ensures
        selected(policy, Some(loaded), last) == Some(loaded),
        selected(TlsConfigFailurePolicy::UseLastKnownGood, None, last) == Some(last),
        selected(TlsConfigFailurePolicy::FailRequest, None::<TlsConfigSnapshot<C>>, last) is None,
{
}

/// Whether a configuration was loaded by the first `k` hops of a request.
pub open spec fn settled_before(https: Seq<bool>, k: int) -> bool
    decreases k,
{
    if k <= 0 {
        false
    } else {
        settled_by(settled_before(https, k - 1), https[k - 1])
    }
}

proof fn lemma_settled(https: Seq<bool>, k: int)
    requires
        0 <= k <= https.len(),
    ensures
        settled_before(https, k) <==> exists|j: int| 0 <= j < k && #[trigger] https[j],
    decreases k,
{
    if k > 0 {
        lemma_settled(https, k - 1);
        if https[k - 1] {
            assert(https[k - 1]);
        }
    }
}

/// One logical request loads its TLS configuration once: at its first hop over https.
pub proof fn lemma_configuration_is_loaded_once(https: Seq<bool>, k: int)
    requires
        0 <= k < https.len(),
    ensures
        hop_loads(settled_before(https, k), https[k]) <==> https[k] && forall|j: int|
            0 <= j < k ==> !#[trigger] https[j],
{
    lemma_settled(https, k);
}

/// The number of the attempt after `k` others.
pub open spec fn attempt_number(k: nat) -> u32
    decreases k,
{
    if k == 0 {
        0
    } else {
        attempt_after(attempt_number((k - 1) as nat))
    }
}

/// Attempts are numbered from one on, without a gap.
pub proof fn lemma_attempts_are_numbered(k: nat)
    ensures
        k <= u32::MAX ==> attempt_number(k) == k,
        k > u32::MAX ==> attempt_number(k) == u32::MAX,
    decreases k,
{
    if k > 0 {
        lemma_attempts_are_numbered((k - 1) as nat);
    }
}

/// Whether a request has left its origin after redirects, each of which stayed within it or not.
pub open spec fn crossed_after(within: Seq<bool>) -> bool
    decreases within.len(),
{
    if within.len() == 0 {
        false
    } else {
        crossed_by(crossed_after(within.drop_last()), within.last())
    }
}

/// A request has left its origin once any of its redirects did, and coming back changes nothing of
/// that.
pub proof fn lemma_leaving_an_origin_is_remembered(within: Seq<bool>)
    ensures
        crossed_after(within) <==> exists|i: int| 0 <= i < within.len() && !#[trigger] within[i],
    decreases within.len(),
{
    if within.len() > 0 {
        let before = within.drop_last();
        lemma_leaving_an_origin_is_remembered(before);
        if crossed_after(before) {
            let i = choose|i: int| 0 <= i < before.len() && !#[trigger] before[i];
            assert(!within[i]);
        }
        if !within.last() {
            assert(!within[within.len() - 1]);
        }
        if exists|i: int| 0 <= i < within.len() && !#[trigger] within[i] {
            let i = choose|i: int| 0 <= i < within.len() && !#[trigger] within[i];
            if i < before.len() {
                assert(!before[i]);
            }
        }
    }
}

/// Of all steps of a streaming response, at most one tells how it ended.
pub proof fn lemma_endings_are_told_once(
    observed: Seq<bool>,
    endings: Seq<Option<Ending>>,
    i: int,
    j: int,
)
    requires
        observed.len() == endings.len() + 1,
        forall|k: int|
            0 <= k < endings.len() ==> tells(observed[k], #[trigger] endings[k], observed[k + 1]),
        0 <= i < j < endings.len(),
        endings[i] is Some,
    ensures
        endings[j] is None,
{
    lemma_observed_stays(observed, endings, i + 1, j);
    assert(tells(observed[i], endings[i], observed[i + 1]));
    assert(tells(observed[j], endings[j], observed[j + 1]));
}

proof fn lemma_observed_stays(
    observed: Seq<bool>,
    endings: Seq<Option<Ending>>,
    from: int,
    to: int,
)
    requires
        observed.len() == endings.len() + 1,
        forall|k: int|
            0 <= k < endings.len() ==> tells(observed[k], #[trigger] endings[k], observed[k + 1]),
        0 <= from <= to < observed.len(),
    ensures
        observed[from] ==> observed[to],
    decreases to - from,
{
    if from < to {
        assert(tells(observed[from], endings[from], observed[from + 1]));
        lemma_observed_stays(observed, endings, from + 1, to);
    }
}

/// A response that its owner cancelled ends as cancelled, and every other failure under its class.
pub proof fn lemma_failed_endings(e: ErrorView)
    ensures
        failed_ending(e) == Ending::Cancelled <==> e.cause == Cause::Cancellation,
        e.cause != Cause::Cancellation ==> failed_ending(e) == Ending::Failed(class_of(e)),
{
}

/// A counter counts events one by one.
pub proof fn lemma_counters_count(n: u64)
    ensures
        n < u64::MAX ==> counted(n) == n + 1,
        n == u64::MAX ==> counted(n) == 0,
{
}

/// A body that is sent from a reader is read in steps of at most 8192 bytes, never beyond its
/// declared length, and until that is reached.
pub proof fn lemma_uploads_are_read_to_their_end(rest: nat)
    ensures
        upload_step(rest) <= rest,
        upload_step(rest) <= 8192,
        rest > 0 ==> upload_step(rest) > 0,
        rest <= 8192 ==> upload_step(rest) == rest,
{
}

/// A part that is loaded from a reader is read in steps of at most 8192 bytes, and never further
/// than one byte beyond its limit; while it is within the limit, reading goes on.
pub proof fn lemma_parts_are_read_to_their_end(max_bytes: nat, held: nat)
    requires
        held <= max_bytes + 1,
    ensures
        preload_step(max_bytes, held) <= 8192,
        held + preload_step(max_bytes, held) <= max_bytes + 1,
        held <= max_bytes <==> preload_step(max_bytes, held) > 0,
        held <= max_bytes && max_bytes - held < 8192 ==> held + preload_step(max_bytes, held)
            == max_bytes + 1,
{
}

/// The timeout of a request is its own where it has one, whatever the client says.
pub proof fn lemma_own_timeouts_win(own: Duration, config: ClientConfigValues)
    ensures
        timeout_of(Some(own), config) == own,
        timeout_of(None, config) == config.request_timeout,
{
}

/// The settings of a client are accepted exactly where every limit leaves room for something: at
/// least one connection for an origin and no more for one than for all, a body of at least one
/// byte, and a head of at least four.
pub proof fn lemma_client_limits(config: ClientConfigValues)
    ensures
        limits_failure(config) is None <==> {
            &&& 1 <= config.max_connections_per_origin <= config.max_connections
            &&& config.max_response_body >= 1
            &&& config.max_response_header_bytes >= 4
        },
        limits_failure(config) matches Some(e) ==> e.kind == ErrorKind::InvalidInput,
{
}

} // verus!
