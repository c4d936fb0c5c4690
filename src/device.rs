//! Devices that accept commands, and the registry that owns them by id.
use vstd::prelude::*;
use crate::error::ConfigurationError;

verus! {

/// Why a device did not carry out a command.
#[derive(Clone, Debug, PartialEq, Eq)]
pub enum DeviceError {
    ConnectionFailed(String),
    CommandFailed(String),
    DeviceNotFound(String),
}

/// The one capability every protocol adapter offers: take a command and report
/// whether it was carried out.
pub trait Device {
    fn send_command(&mut self, command: &str) -> Result<(), DeviceError>;
}

/// Where a device's connection stands.
#[derive(Debug, PartialEq, Eq)]
pub enum ConnectionState {
    Disconnected,
    Connecting,
    Ready,
    Failed(String),
}

/// A connection attempt runs `Disconnected -> Connecting -> Ready | Failed`;
/// `Ready` and `Failed` go back to `Connecting` only to reconnect.
pub open spec fn may_become(from: ConnectionState, to: ConnectionState) -> bool {
    match from {
        ConnectionState::Disconnected => to is Connecting,
        ConnectionState::Connecting => to is Ready || to is Failed,
        ConnectionState::Ready => to is Connecting,
        ConnectionState::Failed(_) => to is Connecting,
    }
}

impl ConnectionState {
    /// Whether a connection may move from `self` to `next`.
    pub fn may_become(&self, next: &ConnectionState) -> (r: bool)
        ensures
            r == may_become(*self, *next),
    {
        match self {
            ConnectionState::Disconnected => matches!(next, ConnectionState::Connecting),
            ConnectionState::Connecting => matches!(next, ConnectionState::Ready | ConnectionState::Failed(_)),
            ConnectionState::Ready => matches!(next, ConnectionState::Connecting),
            ConnectionState::Failed(_) => matches!(next, ConnectionState::Connecting),
        }
    }
}

/// A registered device, the id it answers to, and its connection state.
pub struct DeviceEntry<D> {
    pub id: String,
    pub device: D,
    pub state: ConnectionState,
}

/// Owns the registered devices, each under an id of its own.
pub struct DeviceManager<D> {
    devices: Vec<DeviceEntry<D>>,
    /// Every (device id, command) handed to a device, oldest first.
    handed: Ghost<Seq<(Seq<char>, Seq<char>)>>,
}

/// Some entry of `ids` equals `id`.
pub open spec fn has_id(ids: Seq<Seq<char>>, id: Seq<char>) -> bool {
    exists|i: int| 0 <= i < ids.len() && #[trigger] ids[i] == id
}

/// Once an id is registered, registering it again is refused: after a
/// successful `register`, the id is among the registered ids.
pub proof fn lemma_registered_id_is_taken(ids: Seq<Seq<char>>, id: Seq<char>)
    ensures
        has_id(ids.push(id), id),
{
    assert(ids.push(id)[ids.len() as int] == id);
}

impl<D: Device> DeviceManager<D> {
    /// The registered ids, in order of registration.
    pub closed spec fn ids(&self) -> Seq<Seq<char>> {
        self.devices@.map_values(|e: DeviceEntry<D>| e.id@)
    }

    /// Every (device id, command) that `send` handed to a device, oldest first.
    pub closed spec fn handed(&self) -> Seq<(Seq<char>, Seq<char>)> {
        self.handed@
    }

    /// The connection states, aligned with `ids`.
    pub closed spec fn states(&self) -> Seq<ConnectionState> {
        self.devices@.map_values(|e: DeviceEntry<D>| e.state)
    }

    pub open spec fn wf(&self) -> bool {
        forall|i: int, j: int| 0 <= i < j < self.ids().len() ==> self.ids()[i] != self.ids()[j]
    }

    pub fn new() -> (r: DeviceManager<D>)
        ensures
            r.wf(),
            r.ids() == Seq::<Seq<char>>::empty(),
            r.handed() == Seq::<(Seq<char>, Seq<char>)>::empty(),
    {
        let r = DeviceManager { devices: Vec::new(), handed: Ghost(Seq::empty()) };
        assert(r.ids() =~= Seq::<Seq<char>>::empty());
        r
    }

    /// Number of registered devices.
    pub fn len(&self) -> (r: usize)
        ensures
            r == self.ids().len(),
    {
        self.devices.len()
    }

    fn find(&self, id: &String) -> (r: Option<usize>)
        requires
            self.wf(),
        ensures
            match r {
                Some(i) => i < self.ids().len() && self.ids()[i as int] == id@,
                None => !has_id(self.ids(), id@),
            },
    {
        let mut i: usize = 0;
        while i < self.devices.len()
            invariant
                0 <= i <= self.devices@.len(),
                forall|k: int| 0 <= k < i ==> #[trigger] self.ids()[k] != id@,
            decreases self.devices@.len() - i,
        {
            if self.devices[i].id == *id {
                return Some(i);
            }
            i = i + 1;
        }
        None
    }

    /// The connection state of the device registered under `id`, if any.
    pub fn state_of(&self, id: &String) -> (r: Option<&ConnectionState>)
        requires
            self.wf(),
        ensures
            match r {
                Some(st) => exists|i: int|
                    0 <= i < self.ids().len() && self.ids()[i] == id@ && #[trigger] self.states()[i] == *st,
                None => !has_id(self.ids(), id@),
            },
    {
        match self.find(id) {
            Some(i) => {
                assert(self.states()[i as int] == self.devices@[i as int].state);
                Some(&self.devices[i].state)
            },
            None => None,
        }
    }

    /// Moves the connection of the device registered under `id` to `next`,
    /// where `may_become` allows it. Returns whether the state changed; ids and
    /// every other state are kept.
    pub fn set_state(&mut self, id: &String, next: ConnectionState) -> (r: bool)
        requires
            old(self).wf(),
        ensures
            final(self).wf(),
            final(self).ids() == old(self).ids(),
            final(self).handed() == old(self).handed(),
            r <==> exists|i: int|
                0 <= i < old(self).ids().len() && old(self).ids()[i] == id@ && may_become(
                    #[trigger] old(self).states()[i],
                    next,
                ),
            r ==> exists|i: int|
                0 <= i < old(self).ids().len() && old(self).ids()[i] == id@
                    && #[trigger] final(self).states() == old(self).states().update(i, next),
            !r ==> final(self).states() == old(self).states(),
    {
        match self.find(id) {
            None => false,
            Some(i) => {
                let ghost before = self.ids();
                let ghost before_states = self.states();
                assert(before_states[i as int] == self.devices@[i as int].state);
                if !self.devices[i].state.may_become(&next) {
                    assert forall|j: int|
                        0 <= j < before.len() && before[j] == id@ implies !may_become(
                        #[trigger] before_states[j],
                        next,
                    ) by {
                        assert(j == i);
                    }
                    return false;
                }
                let mut entry = self.devices.remove(i);
                entry.state = next;
                self.devices.insert(i, entry);
                assert(self.ids() =~= before);
                assert(self.states() =~= before_states.update(i as int, next));
                true
            },
        }
    }

    /// Whether a device is registered under `id`.
    pub fn contains(&self, id: &String) -> (r: bool)
        requires
            self.wf(),
        ensures
            r == has_id(self.ids(), id@),
    {
        self.find(id).is_some()
    }

    /// Registers `device` under `id`; fails when the id is taken.
    pub fn register(&mut self, id: String, device: D) -> (r: Result<(), ConfigurationError>)
        requires
            old(self).wf(),
        ensures
            final(self).wf(),
            final(self).handed() == old(self).handed(),
            has_id(old(self).ids(), id@) ==> {
                &&& r == Err::<(), ConfigurationError>(ConfigurationError::DuplicateDeviceId(id))
                &&& final(self).ids() == old(self).ids()
            },
            !has_id(old(self).ids(), id@) ==> {
                &&& r == Ok::<(), ConfigurationError>(())
                &&& final(self).ids() == old(self).ids().push(id@)
                &&& final(self).states() == old(self).states().push(ConnectionState::Disconnected)
            },
            has_id(old(self).ids(), id@) ==> final(self).states() == old(self).states(),
    {
        if self.find(&id).is_some() {
            return Err(ConfigurationError::DuplicateDeviceId(id));
        }
        let ghost before = self.ids();
        let ghost before_states = self.states();
        self.devices.push(DeviceEntry { id, device, state: ConnectionState::Disconnected });
        assert(self.ids() =~= before.push(id@));
        assert(self.states() =~= before_states.push(ConnectionState::Disconnected));
        Ok(())
    }

    /// Hands `command` to the device registered under `device_id` and returns its
    /// answer unchanged; fails with `DeviceNotFound` when no device has that id.
    pub fn send(&mut self, device_id: &String, command: &str) -> (r: Result<(), DeviceError>)
        requires
            old(self).wf(),
        ensures
            final(self).wf(),
            final(self).ids() == old(self).ids(),
            final(self).states() == old(self).states(),
            !has_id(old(self).ids(), device_id@) ==> r == Err::<(), DeviceError>(
                DeviceError::DeviceNotFound(*device_id),
            ) && final(self).handed() == old(self).handed(),
            has_id(old(self).ids(), device_id@) ==> final(self).handed() == old(self).handed().push(
                (device_id@, command@),
            ),
    {
        match self.find(device_id) {
            None => Err(DeviceError::DeviceNotFound(device_id.clone())),
            Some(i) => {
                let ghost before = self.ids();
                let ghost before_states = self.states();
                let mut entry = self.devices.remove(i);
                let r = entry.device.send_command(command);
                self.devices.insert(i, entry);
                self.handed = Ghost(self.handed@.push((device_id@, command@)));
                assert(self.ids() =~= before);
                assert(self.states() =~= before_states);
                r
            },
        }
    }
}

} // verus!
