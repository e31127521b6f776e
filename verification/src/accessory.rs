//! The Manson HCS-3304 power supply as an accessory of a peer.

use tokio::sync::watch::Receiver;
use vstd::prelude::*;

verus! {

#[verifier::external_type_specification]
#[verifier::external_body]
#[verifier::reject_recursive_types(T)]
pub struct ExReceiver<T>(Receiver<T>);

/// A Manson HCS-3304 attached to a serial port, with the channel that tells it to
/// terminate.
pub struct MansonHcs3304 {
    rx_termination_channel: Receiver<bool>,
    serial_port: String,
}

impl MansonHcs3304 {
    pub closed spec fn spec_termination_channel(self) -> Receiver<bool> {
        self.rx_termination_channel
    }

    pub closed spec fn spec_serial_port(self) -> String {
        self.serial_port
    }

    /// The accessory on `serial_port`, listening on `rx_termination_channel`.
    pub fn new(rx_termination_channel: Receiver<bool>, serial_port: String) -> (r: Self)
        ensures
            r.spec_termination_channel() == rx_termination_channel,
            r.spec_serial_port() == serial_port,
    {
        MansonHcs3304 { rx_termination_channel, serial_port }
    }

    /// The channel that tells the accessory to terminate.
    pub fn get_termination_channel(&self) -> (r: &Receiver<bool>)
        ensures
            *r == self.spec_termination_channel(),
    {
        &self.rx_termination_channel
    }

    /// The serial port the accessory is attached to.
    pub fn serial_port(&self) -> (r: &String)
        ensures
            *r == self.spec_serial_port(),
    {
        &self.serial_port
    }
}

} // verus!
