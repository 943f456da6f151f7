//! A client-side session with the cluster, as plain data plus the pure
//! decisions a client proxy makes. Connecting, sending and receiving
//! happen outside this crate.

use crate::replica::sat_add;
use vstd::prelude::*;

verus! {

/// What a client remembers about the cluster it talked to.
pub struct Proxy {
    /// The sorted replica addresses; index `current_view mod N` is the
    /// primary.
    pub configuration: Vec<String>,
    /// The view the client believes current.
    pub current_view: u64,
    /// This client's stable identifier.
    pub id: String,
    /// The next request number; strictly monotonic.
    pub request_number: u64,
    /// The configuration epoch the client believes current.
    pub epoch: u64,
}

impl Proxy {
    /// A session built from what the primary's `Connect` answer carried.
    pub fn from_connect(configuration: Vec<String>, current_view: u64, epoch: u64, id: String) -> (
        r: Proxy)
        ensures
            r.configuration@ == configuration@,
            r.current_view == current_view,
            r.epoch == epoch,
            r.id@ == id@,
            r.request_number == 0,
    {
        Proxy { configuration, current_view, id, request_number: 0, epoch }
    }

    /// The address a request should go to: the current view's primary.
    pub fn primary_address(&self) -> (r: Option<&String>)
        ensures
            match r {
                Some(a) => self.configuration@.len() > 0 && *a == self.configuration@[(
                self.current_view as int % self.configuration@.len() as int)],
                None => self.configuration@.len() == 0,
            },
    {
        let n = self.configuration.len();
        if n == 0 {
            None
        } else {
            Some(&self.configuration[(self.current_view % (n as u64)) as usize])
        }
    }

    /// The request number to put on the next request; each call hands
    /// out the next one.
    pub fn take_request_number(&mut self) -> (r: u64)
        ensures
            r == old(self).request_number,
            final(self).request_number == crate::replica::spec_sat_add(
                old(self).request_number,
                1,
            ),
            final(self).configuration == old(self).configuration,
            final(self).current_view == old(self).current_view,
            final(self).id == old(self).id,
            final(self).epoch == old(self).epoch,
    {
        let r = self.request_number;
        self.request_number = sat_add(self.request_number, 1);
        r
    }
}

/// The interactive client's whole state: its session and its local copy
/// of what it has written.
pub struct State {
    pub proxy: Proxy,
    pub state: Vec<(String, String)>,
}

impl State {
    /// A fresh client state around an established session.
    pub fn new(proxy: Proxy) -> (r: State)
        ensures
            r.proxy == proxy,
            r.state@.len() == 0,
    {
        State { proxy, state: Vec::new() }
    }
}

} // verus!
