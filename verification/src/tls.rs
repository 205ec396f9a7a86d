//! Configuration snapshots for long-running service clients.

use vstd::prelude::*;

use crate::error::{failure, Error, ErrorKind, ErrorView};

verus! {

/// An immutable TLS configuration and its monotonically increasing generation.
///
/// Generation zero is reserved for non-TLS pool keys. A provider must retain a generation while
/// its effective identity and trust material are unchanged, and increase it whenever they change.
pub struct TlsConfigSnapshot<C> {
    generation: u64,
    config: C,
}

impl<C> TlsConfigSnapshot<C> {
    pub closed spec fn number(&self) -> u64 {
        self.generation
    }

    pub closed spec fn material(&self) -> C {
        self.config
    }

    pub fn new(generation: u64, config: C) -> (r: TlsConfigSnapshot<C>)
        ensures
            r.number() == generation,
            r.material() == config,
    {
        TlsConfigSnapshot { generation, config }
    }

    pub fn generation(&self) -> (r: u64)
        ensures
            r == self.number(),
    {
        self.generation
    }

    /// The configuration itself.
    pub fn config(&self) -> (r: &C)
        ensures
            *r == self.material(),
    {
        &self.config
    }
}

/// Request behavior when a configured TLS provider cannot load a replacement snapshot.
#[derive(Debug, Clone, Copy, PartialEq, Eq, Structural)]
pub enum TlsConfigFailurePolicy {
    /// Fail the new request before DNS, connect, or request bytes. This is the default.
    FailRequest,
    /// Continue with the last snapshot successfully accepted by the client.
    UseLastKnownGood,
}

impl Default for TlsConfigFailurePolicy {
    fn default() -> (r: TlsConfigFailurePolicy)
        ensures
            r == TlsConfigFailurePolicy::FailRequest,
    {
        TlsConfigFailurePolicy::FailRequest
    }
}

/// The failure of a request whose TLS configuration could not be loaded.
pub open spec fn provider_failure() -> ErrorView {
    failure(ErrorKind::Other, "TLS configuration provider failed"@)
}

/// The snapshot for a new request, if there is one: the one that was loaded, or where none could
/// be, the last one, if the policy allows it.
pub open spec fn selected<C>(
    policy: TlsConfigFailurePolicy,
    loaded: Option<TlsConfigSnapshot<C>>,
    last_known_good: TlsConfigSnapshot<C>,
) -> Option<TlsConfigSnapshot<C>> {
    match loaded {
        Some(snapshot) => Some(snapshot),
        None => match policy {
            TlsConfigFailurePolicy::UseLastKnownGood => Some(last_known_good),
            TlsConfigFailurePolicy::FailRequest => None,
        },
    }
}

/// The snapshot for a new request: the one that was loaded, or where none could be, what the
/// policy says. The message of the provider is not told on.
pub fn select_snapshot<C>(
    policy: TlsConfigFailurePolicy,
    loaded: Result<TlsConfigSnapshot<C>, Error>,
    last_known_good: TlsConfigSnapshot<C>,
) -> (r: Result<TlsConfigSnapshot<C>, Error>)
    ensures
        ({
            let found = match loaded {
                Ok(snapshot) => Some(snapshot),
                Err(_) => None,
            };
            match r {
                Ok(snapshot) => selected(policy, found, last_known_good) == Some(snapshot),
                Err(_) => selected(policy, found, last_known_good) is None,
            }
        }),
        match loaded {
            Ok(snapshot) => r == Ok::<TlsConfigSnapshot<C>, Error>(snapshot),
            Err(_) => match policy {
                TlsConfigFailurePolicy::UseLastKnownGood => r == Ok::<TlsConfigSnapshot<C>, Error>(
                    last_known_good,
                ),
                TlsConfigFailurePolicy::FailRequest => r is Err && r->Err_0@ == provider_failure(),
            },
        },
{
    match loaded {
        Ok(snapshot) => Ok(snapshot),
        Err(_) => match policy {
            TlsConfigFailurePolicy::UseLastKnownGood => Ok(last_known_good),
            TlsConfigFailurePolicy::FailRequest => Err(
                Error::new(ErrorKind::Other, "TLS configuration provider failed"),
            ),
        },
    }
}

/// Whether a hop loads a configuration, for whether one was loaded before.
pub open spec fn hop_loads(settled: bool, https: bool) -> bool {
    https && !settled
}

/// Whether a configuration was loaded after a hop.
pub open spec fn settled_by(settled: bool, https: bool) -> bool {
    settled || https
}

/// Which TLS configuration one logical request uses: it loads one when it first needs it, and
/// keeps to that one on every later hop.
#[derive(Debug)]
pub struct IdentityState {
    loaded: bool,
}

impl IdentityState {
    /// A configuration was loaded for this request.
    pub closed spec fn settled(&self) -> bool {
        self.loaded
    }

    pub fn new() -> (r: IdentityState)
        ensures
            !r.settled(),
    {
        IdentityState { loaded: false }
    }

    /// Begin a hop: whether a configuration has to be loaded for it, which happens once, at the
    /// first hop over HTTPS.
    pub fn begin_hop(&mut self, https: bool) -> (load: bool)
        ensures
            load == hop_loads(old(self).settled(), https),
            final(self).settled() == settled_by(old(self).settled(), https),
            load == (https && !old(self).settled()),
            final(self).settled() == (old(self).settled() || https),
    {
        let load = https && !self.loaded;
        if https {
            self.loaded = true;
        }
        load
    }
}

} // verus!
