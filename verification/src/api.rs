//! The relay as the app sees it: device information and peers in the form
//! that crosses into the app, and the reading of the ids that the app hands
//! back.

use vstd::prelude::*;
use vstd::std_specs::convert::FromSpecImpl;
use crate::ids::{lemma_uuid_text_parses, uuid_parse, uuid_parse_str, uuid_text, uuid_to_string};
use crate::messages::{copy_opt_string, DeviceType, RelayDeviceInfo, RelayPeer};

verus! {

/// Information a device announces about itself to the relay backend.
///
/// A subset of the v2 `RegisterDtoV2`, without the address-dependent fields.
#[derive(Debug, Clone)]
pub struct RsRelayInfo {
    pub alias: String,
    pub version: String,
    pub device_model: Option<String>,
    pub device_type: Option<DeviceType>,
    pub fingerprint: String,
    pub cert_fingerprint: Option<String>,
    pub download: bool,
}

/// A peer announced by the relay backend, as presented to this device.
#[derive(Debug, Clone)]
pub struct RsRelayPeer {
    pub client_id: String,
    pub info: RsRelayInfo,
}

/// The device information of `info`, field for field.
pub open spec fn info_of(info: RsRelayInfo) -> RelayDeviceInfo {
    RelayDeviceInfo {
        alias: info.alias,
        version: info.version,
        device_model: info.device_model,
        device_type: info.device_type,
        fingerprint: info.fingerprint,
        cert_fingerprint: info.cert_fingerprint,
        download: info.download,
    }
}

impl From<RsRelayInfo> for RelayDeviceInfo {
    fn from(info: RsRelayInfo) -> (r: Self) {
        RelayDeviceInfo {
            alias: info.alias,
            version: info.version,
            device_model: info.device_model,
            device_type: info.device_type,
            fingerprint: info.fingerprint,
            cert_fingerprint: info.cert_fingerprint,
            download: info.download,
        }
    }
}

impl FromSpecImpl<RsRelayInfo> for RelayDeviceInfo {
    open spec fn obeys_from_spec() -> bool {
        true
    }

    open spec fn from_spec(info: RsRelayInfo) -> RelayDeviceInfo {
        info_of(info)
    }
}

/// `peer` as the app sees it: its id as UUID text and its information, field
/// for field.
pub open spec fn is_rs_peer_of(r: RsRelayPeer, peer: RelayPeer) -> bool {
    &&& r.client_id@ == uuid_text(peer.client_id)
    &&& info_of(r.info) == peer.info
}

impl RsRelayPeer {
    /// `peer` as the app sees it.
    pub fn from_peer(peer: &RelayPeer) -> (r: RsRelayPeer)
        ensures
            is_rs_peer_of(r, *peer),
    {
        RsRelayPeer {
            client_id: uuid_to_string(peer.client_id),
            info: RsRelayInfo {
                alias: peer.info.alias.clone(),
                version: peer.info.version.clone(),
                device_model: copy_opt_string(&peer.info.device_model),
                device_type: peer.info.device_type,
                fingerprint: peer.info.fingerprint.clone(),
                cert_fingerprint: copy_opt_string(&peer.info.cert_fingerprint),
                download: peer.info.download,
            },
        }
    }
}

/// The answer to a relay target that is not a device id.
#[derive(Debug, Clone, Copy, PartialEq, Eq, Structural)]
pub struct InvalidRelayTarget;

/// The device id that the app names by `target_id`, read as UUID text in
/// any of its forms; the hyphenated text of an id names that id.
pub fn parse_relay_target(target_id: &str) -> (r: Result<u128, InvalidRelayTarget>)
    ensures
        match uuid_parse(target_id@) {
            Some(id) => r == Ok::<u128, InvalidRelayTarget>(id),
            None => r == Err::<u128, InvalidRelayTarget>(InvalidRelayTarget),
        },
        forall|v: u128| target_id@ == #[trigger] uuid_text(v) ==> r == Ok::<u128, InvalidRelayTarget>(v),
{
    proof {
        assert forall|v: u128| target_id@ == #[trigger] uuid_text(v) implies uuid_parse(
            target_id@,
        ) == Some(v) by {
            lemma_uuid_text_parses(v);
        }
    }
    match uuid_parse_str(target_id) {
        Some(id) => Ok(id),
        None => Err(InvalidRelayTarget),
    }
}

/// The text of the id that the backend assigned to this device, once it did.
pub fn client_id_text(client_id: Option<u128>) -> (r: Option<String>)
    ensures
        match client_id {
            Some(id) => r matches Some(s) && s@ == uuid_text(id),
            None => r is None,
        },
{
    match client_id {
        Some(id) => Some(uuid_to_string(id)),
        None => None,
    }
}

} // verus!
