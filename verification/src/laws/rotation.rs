//! Answers for a host go round its addresses.

use vstd::prelude::*;

use crate::error::ErrorView;
use crate::resolver::{
    answered, caches, next_start, registered, rotated, served, CacheEntry, CachedValue, ResolverCacheConfig, ServiceEntry,
    SocketAddr,
};
use crate::time::Instant;

verus! {

/// Where answer number `k` starts, when answer number 0 starts at `first`.
pub open spec fn start_of(first: nat, len: nat, k: nat) -> nat
    decreases k,
{
    if k == 0 {
        first
    } else {
        next_start(start_of(first, len, (k - 1) as nat), len)
    }
}

/// A rotation lists the addresses in their order, from the one at `n` and counted round.
pub proof fn lemma_rotation_keeps_order(addresses: Seq<SocketAddr>, n: nat, i: int)
    requires
        0 <= i < addresses.len(),
    ensures
        rotated(addresses, n).len() == addresses.len(),
        rotated(addresses, n)[i] == addresses[(n + i) % (addresses.len() as int)],
{
    let len = addresses.len() as int;
    let at = n as int % len;
    assert((n + i) % len == (at + i) % len) by {
        vstd::arithmetic::div_mod::lemma_add_mod_noop(n as int, i, len);
        vstd::arithmetic::div_mod::lemma_small_mod(i as nat, len as nat);
    }
    if at + i < len {
        vstd::arithmetic::div_mod::lemma_small_mod((at + i) as nat, len as nat);
    } else {
        vstd::arithmetic::div_mod::lemma_small_mod((at + i - len) as nat, len as nat);
        vstd::arithmetic::div_mod::lemma_mod_sub_multiples_vanish(at + i, len);
    }
}

/// Answer number `k` starts `k` addresses after answer number 0, counted round.
pub proof fn lemma_starts_advance(first: nat, len: nat, k: nat)
    requires
        len > 0,
    ensures
        start_of(first, len, k) % len == (first + k) as int % (len as int),
    decreases k,
{
    if k > 0 {
        let before = start_of(first, len, (k - 1) as nat);
        lemma_starts_advance(first, len, (k - 1) as nat);
        vstd::arithmetic::div_mod::lemma_mod_twice((before + 1) as int, len as int);
        vstd::arithmetic::div_mod::lemma_add_mod_noop(before as int, 1, len as int);
        vstd::arithmetic::div_mod::lemma_add_mod_noop((first + k - 1) as int, 1, len as int);
    }
}

/// Round robin: answer number `k` for a host lists all its addresses in order and starts with the
/// one at `first + k`, counted round.
pub proof fn lemma_answers_go_round(addresses: Seq<SocketAddr>, first: nat, k: nat)
    requires
        addresses.len() > 0,
    ensures
        rotated(addresses, start_of(first, addresses.len(), k))[0] == addresses[(first
            + k) as int % (addresses.len() as int)],
        forall|i: int|
            0 <= i < addresses.len() ==> #[trigger] rotated(
                addresses,
                start_of(first, addresses.len(), k),
            )[i] == addresses[(first + k + i) % (addresses.len() as int)],
{
    let len = addresses.len();
    let start = start_of(first, len, k);
    lemma_starts_advance(first, len, k);
    assert forall|i: int| 0 <= i < len implies #[trigger] rotated(addresses, start)[i]
        == addresses[(first + k + i) % (len as int)] by {
        lemma_rotation_keeps_order(addresses, start, i);
        vstd::arithmetic::div_mod::lemma_add_mod_noop(start as int, i, len as int);
        vstd::arithmetic::div_mod::lemma_add_mod_noop((first + k) as int, i, len as int);
    }
}

/// Over as many consecutive answers as a host has addresses, each address comes first exactly
/// once.
pub proof fn lemma_each_address_leads_once(addresses: Seq<SocketAddr>, first: nat, k: nat, at: int)
    requires
        0 <= at < addresses.len(),
    ensures
        exists|n: nat|
            k <= n < k + addresses.len() && (first + n) as int % (addresses.len() as int) == at
                && #[trigger] rotated(addresses, start_of(first, addresses.len(), n))[0]
                == addresses[at],
        forall|m: nat, n: nat|
            k <= m < n < k + addresses.len() && addresses.no_duplicates() ==> #[trigger] rotated(
                addresses,
                start_of(first, addresses.len(), m),
            )[0] != #[trigger] rotated(addresses, start_of(first, addresses.len(), n))[0],
{
    let len = addresses.len() as int;
    let base = (first + k) as int % len;
    let step = if at >= base {
        at - base
    } else {
        at - base + len
    };
    let n = (k + step) as nat;
    assert((first + n) as int % len == at) by {
        vstd::arithmetic::div_mod::lemma_add_mod_noop((first + k) as int, step, len);
        vstd::arithmetic::div_mod::lemma_small_mod(step as nat, len as nat);
        if at >= base {
            vstd::arithmetic::div_mod::lemma_small_mod(at as nat, len as nat);
        } else {
            vstd::arithmetic::div_mod::lemma_mod_add_multiples_vanish(at, len);
            vstd::arithmetic::div_mod::lemma_small_mod(at as nat, len as nat);
        }
    }
    lemma_answers_go_round(addresses, first, n);
    assert(rotated(addresses, start_of(first, addresses.len(), n))[0] == addresses[at]);
    assert forall|m: nat, n: nat|
        k <= m < n < k + addresses.len() && addresses.no_duplicates() implies #[trigger] rotated(
        addresses,
        start_of(first, addresses.len(), m),
    )[0] != #[trigger] rotated(addresses, start_of(first, addresses.len(), n))[0] by {
        lemma_answers_go_round(addresses, first, m);
        lemma_answers_go_round(addresses, first, n);
        let i = (first + m) as int % len;
        let j = (first + n) as int % len;
        assert(i != j) by {
            vstd::arithmetic::div_mod::lemma_fundamental_div_mod((first + m) as int, len);
            vstd::arithmetic::div_mod::lemma_fundamental_div_mod((first + n) as int, len);
            if i == j {
                let p = (first + m) as int / len;
                let q = (first + n) as int / len;
                assert(len * q - len * p == n - m);
                assert(len * (q - p) == n - m) by (nonlinear_arith)
                    requires
                        len * q - len * p == n - m,
                ;
                assert(false) by (nonlinear_arith)
                    requires
                        len * (q - p) == n - m,
                        0 < n - m < len,
                ;
            }
        }
    }
}

/// One answer follows another.
pub open spec fn answered_in_turn(
    entries: Seq<CacheEntry>,
    answers: Seq<Result<Seq<SocketAddr>, ErrorView>>,
) -> bool {
    &&& entries.len() == answers.len() + 1
    &&& forall|k: int|
        #![trigger answers[k]]
        0 <= k < answers.len() ==> answered(entries[k], answers[k], entries[k + 1])
}

proof fn lemma_cached_starts(
    entries: Seq<CacheEntry>,
    answers: Seq<Result<Seq<SocketAddr>, ErrorView>>,
    addresses: Seq<SocketAddr>,
    k: int,
)
    requires
        answered_in_turn(entries, answers),
        0 <= k <= answers.len(),
        entries[0].value matches CachedValue::Addresses(held) && held@ == addresses,
    ensures
        entries[k].value == entries[0].value,
        entries[k].expires_at == entries[0].expires_at,
        entries[k].next_address == start_of(
            entries[0].next_address as nat,
            addresses.len(),
            k as nat,
        ),
    decreases k,
{
    if k > 0 {
        lemma_cached_starts(entries, answers, addresses, k - 1);
        assert(answered(entries[k - 1], answers[k - 1], entries[k]));
    }
}

/// A lookup answers with its addresses in order; the cached answers after it go round: answer
/// number `k` after the lookup, counted from 0, starts with the address at `k + 1`, counted round,
/// and lists all of them. None of the answers makes the entry last longer.
pub proof fn lemma_cached_answers_go_round(
    addresses: Seq<SocketAddr>,
    now: Instant,
    config: ResolverCacheConfig,
    entries: Seq<CacheEntry>,
    answers: Seq<Result<Seq<SocketAddr>, ErrorView>>,
    k: int,
)
    requires
        addresses.len() > 0,
        answered_in_turn(entries, answers),
        0 <= k < answers.len(),
        caches(entries[0], Ok::<Seq<SocketAddr>, ErrorView>(addresses), now, config),
    ensures
        answers[k] matches Ok(answer) && answer.len() == addresses.len() && forall|i: int|
            0 <= i < addresses.len() ==> #[trigger] answer[i] == addresses[(k + 1 + i) % (
            addresses.len() as int)],
        entries[k + 1].expires_at == entries[0].expires_at,
{
    lemma_cached_starts(entries, answers, addresses, k);
    lemma_cached_starts(entries, answers, addresses, k + 1);
    let len = addresses.len() as int;
    let first = entries[0].next_address as nat;
    lemma_answers_go_round(addresses, first, k as nat);
    assert(answered(entries[k], answers[k], entries[k + 1]));
    let answer = answers[k]->Ok_0;
    assert(answer.len() == len) by {
        lemma_rotation_keeps_order(addresses, entries[k].next_address as nat, 0);
    }
    assert forall|i: int| 0 <= i < len implies #[trigger] answer[i] == addresses[(k + 1 + i)
        % len] by {
        if len == 1 {
            assert((k + 1 + i) % 1 == 0 && (first + k + i) % 1 == 0);
        } else {
            assert(first == 1);
        }
    }
}

/// One answer of the registry follows another.
pub open spec fn served_in_turn(
    entries: Seq<ServiceEntry>,
    answers: Seq<Seq<SocketAddr>>,
) -> bool {
    &&& entries.len() == answers.len() + 1
    &&& forall|k: int|
        #![trigger answers[k]]
        0 <= k < answers.len() ==> served(entries[k], answers[k], entries[k + 1])
}

proof fn lemma_service_starts(
    entries: Seq<ServiceEntry>,
    answers: Seq<Seq<SocketAddr>>,
    k: int,
)
    requires
        served_in_turn(entries, answers),
        0 <= k <= answers.len(),
    ensures
        entries[k].addresses == entries[0].addresses,
        entries[k].next_address == start_of(
            entries[0].next_address as nat,
            entries[0].addresses@.len(),
            k as nat,
        ),
    decreases k,
{
    if k > 0 {
        lemma_service_starts(entries, answers, k - 1);
        assert(served(entries[k - 1], answers[k - 1], entries[k]));
    }
}

/// A registered service answers round robin: answer number `k` after its addresses were registered,
/// counted from 0, lists all of them in order and starts with the one at `k`, counted round.
pub proof fn lemma_service_answers_go_round(
    addresses: Seq<SocketAddr>,
    entries: Seq<ServiceEntry>,
    answers: Seq<Seq<SocketAddr>>,
    k: int,
    i: int,
)
    requires
        served_in_turn(entries, answers),
        0 <= k < answers.len(),
        registered(entries[0], addresses),
        0 <= i < addresses.len(),
    ensures
        answers[k].len() == addresses.len(),
        answers[k][i] == addresses[(k + i) % (addresses.len() as int)],
        answers[k][0] == addresses[k % (addresses.len() as int)],
{
    lemma_service_starts(entries, answers, k);
    assert(served(entries[k], answers[k], entries[k + 1]));
    lemma_rotation_keeps_order(addresses, entries[k].next_address as nat, i);
    lemma_answers_go_round(addresses, 0, k as nat);
}

/// Over as many consecutive answers as a registered service has addresses, each of them comes
/// first exactly once.
pub proof fn lemma_each_service_address_leads_once(
    entries: Seq<ServiceEntry>,
    answers: Seq<Seq<SocketAddr>>,
    k: int,
    at: int,
)
    requires
        served_in_turn(entries, answers),
        0 <= k,
        k + entries[0].addresses@.len() <= answers.len(),
        0 <= at < entries[0].addresses@.len(),
        entries[0].addresses@.no_duplicates(),
    ensures
        exists|n: int|
            k <= n < k + entries[0].addresses@.len() && (#[trigger] answers[n])[0]
                == entries[0].addresses@[at],
        forall|m: int, n: int|
            k <= m < n < k + entries[0].addresses@.len() ==> (#[trigger] answers[m])[0] != (
            #[trigger] answers[n])[0],
{
    let addresses = entries[0].addresses@;
    let first = entries[0].next_address as nat;
    lemma_each_address_leads_once(addresses, first, k as nat, at);
    let n = choose|n: nat|
        k <= n < k + addresses.len() && (first + n) as int % (addresses.len() as int) == at
            && #[trigger] rotated(addresses, start_of(first, addresses.len(), n))[0]
            == addresses[at];
    lemma_service_starts(entries, answers, n as int);
    assert(served(entries[n as int], answers[n as int], entries[n as int + 1]));
    assert(answers[n as int][0] == addresses[at]);
    assert forall|m: int, n: int| k <= m < n < k + addresses.len() implies (
    #[trigger] answers[m])[0] != (#[trigger] answers[n])[0] by {
        lemma_service_starts(entries, answers, m);
        lemma_service_starts(entries, answers, n);
        assert(served(entries[m], answers[m], entries[m + 1]));
        assert(served(entries[n], answers[n], entries[n + 1]));
        assert(rotated(addresses, start_of(first, addresses.len(), m as nat))[0] != rotated(
            addresses,
            start_of(first, addresses.len(), n as nat),
        )[0]);
    }
}

} // verus!
