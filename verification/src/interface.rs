//! Editor state that does not depend on a window: the hot-reload connection and the track list
//! panel.

use vstd::prelude::*;

verus! {

/// What the editor knows of its connection to an emulator ('hot-reloading').
pub struct Hot {
    is_client_connected: bool,
}

impl Hot {
    /// No client connected.
    pub fn new() -> (r: Self)
        ensures
            !r.has_connections_spec(),
    {
        Hot { is_client_connected: false }
    }

    /// Whether a client is connected.
    pub closed spec fn has_connections_spec(&self) -> bool {
        self.is_client_connected
    }

    /// Takes the latest connection state reported since the last check, if any. Returns
    /// whether the state changed.
    pub fn update(&mut self, latest: Option<bool>) -> (r: bool)
        ensures
            r == (latest matches Some(s) && s != old(self).has_connections_spec()),
            final(self).has_connections_spec() == match latest {
                Some(s) => s,
                None => old(self).has_connections_spec(),
            },
    {
        if let Some(new_state) = latest {
            if new_state != self.is_client_connected {
                self.is_client_connected = new_state;
                return true;
            }
        }
        false
    }

    /// Whether a client is connected.
    pub fn has_connections(&self) -> (r: bool)
        ensures
            r == self.has_connections_spec(),
    {
        self.is_client_connected
    }
}

/// The state of the track list panel.
#[derive(Clone, Debug, PartialEq, Eq, Structural)]
pub struct TrackListInterface {
    /// Index of the track being edited, if any.
    pub editing_index: Option<usize>,
    pub is_edit_voice: bool,
    pub is_set_instrument: bool,
}

impl TrackListInterface {
    /// No track being edited.
    pub fn new() -> (r: Self)
        ensures
            r == (TrackListInterface { editing_index: None, is_edit_voice: false, is_set_instrument: false }),
    {
        TrackListInterface { editing_index: None, is_edit_voice: false, is_set_instrument: false }
    }
}

} // verus!
