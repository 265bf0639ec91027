//! A Honey Badger builder, to configure the parameters and create new
//! instances of [`HoneyBadger`].

use vstd::prelude::*;

use crate::driver::HoneyBadger;
use crate::netinfo::NetworkInfo;

verus! {

/// Configures `max_future_epochs` and constructs the epoch driver.
pub struct HoneyBadgerBuilder {
    /// Shared network data.
    pub netinfo: NetworkInfo,
    /// The maximum number of future epochs for which we handle messages
    /// simultaneously.
    pub max_future_epochs: usize,
}

impl HoneyBadgerBuilder {
    /// Returns a new builder configured to use the node identities and
    /// fault bound specified by `netinfo`, with a lookahead of 3 epochs.
    pub fn new(netinfo: NetworkInfo) -> (r: HoneyBadgerBuilder)
        ensures
            r.netinfo == netinfo,
            r.max_future_epochs == 3usize,
    {
        HoneyBadgerBuilder { netinfo, max_future_epochs: 3 }
    }

    /// Sets the maximum number of future epochs for which we handle
    /// messages simultaneously.
    pub fn max_future_epochs(&mut self, max_future_epochs: usize)
        ensures
            final(self).netinfo == old(self).netinfo,
            final(self).max_future_epochs == max_future_epochs,
    {
        self.max_future_epochs = max_future_epochs;
    }

    /// Creates a new Honey Badger instance at epoch 0.
    pub fn build(&self) -> (r: HoneyBadger)
        requires
            self.netinfo.wf(),
        ensures
            r.wf(),
            r.netinfo == self.netinfo,
            r.epoch == 0,
            !r.has_input,
            r.max_future_epochs == self.max_future_epochs as u64,
            r.incoming_queue@.len() == 0,
            r.state.fresh(),
    {
        HoneyBadger::new(self.netinfo, self.max_future_epochs as u64)
    }
}

} // verus!
