//! Configuration of the byte-forwarding service.
//!
//! The service copies bytes between an incoming connection and a destination
//! stream until one side closes, optionally giving up when a graceful
//! shutdown is requested, after an optional delay. The copying is I/O and is
//! performed by the surrounding runtime glue; this type carries the
//! destination and the shutdown policy the runner honours.

use vstd::prelude::*;

verus! {

/// Forwards incoming connection bytes to the destination and the
/// destination's bytes back.
#[derive(Debug)]
pub struct ForwardService<D> {
    destination: D,
    respect_shutdown: bool,
    shutdown_delay: Option<core::time::Duration>,
}

impl<D> ForwardService<D> {
    /// The destination the bytes are copied to.
    pub closed spec fn spec_destination(&self) -> D {
        self.destination
    }

    /// Whether the service stops when a graceful shutdown is requested.
    pub closed spec fn spec_respect_shutdown(&self) -> bool {
        self.respect_shutdown
    }

    /// The grace period granted after a shutdown request, if any.
    pub closed spec fn spec_shutdown_delay(&self) -> Option<core::time::Duration> {
        self.shutdown_delay
    }

    /// A forwarding service to the given destination that ignores graceful
    /// shutdown requests.
    pub fn new(destination: D) -> (r: Self)
        ensures
            r.spec_destination() == destination,
            !r.spec_respect_shutdown(),
            r.spec_shutdown_delay() is None,
    {
        ForwardService { destination, respect_shutdown: false, shutdown_delay: None }
    }

    /// Makes the service stop its work as soon as a graceful shutdown is
    /// requested, optionally after a delay that gives the work time to
    /// finish.
    pub fn respect_shutdown(self, delay: Option<core::time::Duration>) -> (r: Self)
        ensures
            r.spec_destination() == self.spec_destination(),
            r.spec_respect_shutdown(),
            r.spec_shutdown_delay() == delay,
    {
        ForwardService {
            destination: self.destination,
            respect_shutdown: true,
            shutdown_delay: delay,
        }
    }

    /// Hands the destination and the shutdown policy to the runner.
    pub fn into_parts(self) -> (r: (D, bool, Option<core::time::Duration>))
        ensures
            r.0 == self.spec_destination(),
            r.1 == self.spec_respect_shutdown(),
            r.2 == self.spec_shutdown_delay(),
    {
        (self.destination, self.respect_shutdown, self.shutdown_delay)
    }
}

} // verus!
