//! The messages that relay clients and the relay backend exchange, and the
//! device information that they carry.

use vstd::prelude::*;

verus! {

/// The kind of device that announces itself.
#[derive(Clone, Copy, Debug, PartialEq, Eq, Structural)]
pub enum DeviceType {
    Mobile,
    Desktop,
    Web,
    Headless,
    Server,
}

/// Information a device announces about itself to the relay backend.
#[derive(Debug, Clone)]
pub struct RelayDeviceInfo {
    pub alias: String,
    pub version: String,
    pub device_model: Option<String>,
    pub device_type: Option<DeviceType>,
    pub fingerprint: String,
    pub cert_fingerprint: Option<String>,
    pub download: bool,
}

/// A copy of an optional string.
pub fn copy_opt_string(s: &Option<String>) -> (r: Option<String>)
    ensures
        r == *s,
{
    match s {
        Some(v) => Some(v.clone()),
        None => None,
    }
}

impl RelayDeviceInfo {
    /// A copy of this information, field for field.
    pub fn duplicate(&self) -> (r: Self)
        ensures
            r == *self,
    {
        RelayDeviceInfo {
            alias: self.alias.clone(),
            version: self.version.clone(),
            device_model: copy_opt_string(&self.device_model),
            device_type: self.device_type,
            fingerprint: self.fingerprint.clone(),
            cert_fingerprint: copy_opt_string(&self.cert_fingerprint),
            download: self.download,
        }
    }
}

/// A device in a room: its id, assigned by the backend, and its information.
#[derive(Debug, Clone)]
pub struct RelayPeer {
    pub client_id: u128,
    pub info: RelayDeviceInfo,
}

impl RelayPeer {
    /// A copy of this peer, field for field.
    pub fn duplicate(&self) -> (r: Self)
        ensures
            r == *self,
    {
        RelayPeer { client_id: self.client_id, info: self.info.duplicate() }
    }
}

/// A message from a device to the backend.
#[derive(Debug)]
pub enum RelayClientMessage {
    /// The first message of a connection: the room to join and the device.
    Hello { room: String, info: RelayDeviceInfo },
    /// New information about the device.
    Update { info: RelayDeviceInfo },
    /// Opens the session `session_id` to the device `target_id`.
    Open { session_id: u128, target_id: u128 },
    /// Ends the session `session_id`.
    Close { session_id: u128 },
}

/// A message from the backend to a device.
#[derive(Debug)]
pub enum RelayServerMessage {
    /// The device joined: its id and the devices already in the room.
    Welcome { client_id: u128, peers: Vec<RelayPeer> },
    /// A device joined the room.
    PeerJoined { peer: RelayPeer },
    /// A device of the room updated its information.
    PeerUpdate { peer: RelayPeer },
    /// A device left the room.
    PeerLeft { peer_id: u128 },
    /// A device of the room opened the session `session_id` to this device.
    Incoming { session_id: u128, peer: RelayPeer },
    /// The session `session_id` that this device asked for is open.
    Opened { session_id: u128 },
    /// The session `session_id` has ended, or could not be opened.
    Closed { session_id: u128 },
    /// The backend refused the device (`503`: the room is full; `429`: too
    /// many requests).
    Error { code: u16 },
}

} // verus!
