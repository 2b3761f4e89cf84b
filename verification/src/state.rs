//! The state of the server as a mathematical value, and how it changes.
use crate::action::Deed;
use crate::client::Client;
use crate::clipboard::Contents;
use crate::device::Device;
use crate::event::{Event, KeyEvent};
use crate::shell::hook_text;
use crate::slots::{
    accounted, in_order, lemma_in_order, lemma_left, lemma_used, next_slot, still_free,
};
use crate::update::News;
use vstd::prelude::*;

verus! {

/// Where a shortcut leads.
#[verifier::ext_equal]
pub enum Aim {
    /// To the next machine.
    Cycle,
    /// To the machine that has the keyboard.
    Server,
    /// To the client of that name.
    Client(Seq<char>),
}

/// Keys that lead somewhere when they are held together.
#[verifier::ext_equal]
pub struct Combination {
    pub keys: Set<u16>,
    pub aim: Aim,
}

/// What became of switching.
#[verifier::ext_equal]
pub enum Switching {
    /// No shortcut was completed.
    Stayed,
    /// Control moved to the machine that is called so.
    To(Seq<char>),
    /// The shortcut leads to a client of that name, and none is connected.
    NotConnected(Seq<char>),
}

/// Who gets the events.
#[derive(Clone, Copy, Debug, PartialEq, Eq, Structural)]
pub enum Route {
    /// The machine that has the keyboard. Each event goes back to the device it came from.
    Server,
    /// The client in a slot.
    Client(usize),
    /// Nobody: the client that they were for has left.
    Nowhere,
}

/// The state of the server. Machines are numbered: the server is 0, and the client in slot `n`
/// is `n + 1`.
#[verifier::ext_equal]
pub struct State {
    /// The shortcuts, as they are configured.
    pub combinations: Seq<Combination>,
    /// The keys that occur in a shortcut.
    pub switch_keys: Set<u16>,
    /// Whether switch keys reach the machine that is being controlled.
    pub propagate: bool,
    /// Whether the caps lock light shows that a client is being controlled.
    pub indicator: bool,
    /// The command that runs on a switch.
    pub on_switch: Option<Seq<char>>,
    /// The clients, by slot.
    pub clients: Map<usize, Client>,
    /// The devices, by slot.
    pub devices: Map<usize, Device>,
    /// The slots that clients have left, the last one to be left at the end.
    pub free_clients: Seq<usize>,
    /// The slots that devices have left, the last one to be left at the end.
    pub free_devices: Seq<usize>,
    /// The machine that is being controlled.
    pub current: usize,
    /// The machine that was, when a shortcut was last completed.
    pub previous: usize,
    /// Whether a switch key has been held ever since a shortcut was last completed.
    pub changed: bool,
    /// The switch keys that are held, each with the device it is held on.
    pub pressed: Map<u16, usize>,
    /// Events held back until it is known whether a shortcut will be completed.
    pub deferred: Seq<(usize, Event)>,
    /// The switch keys that were let through and not released since.
    pub propagated: Map<u16, usize>,
    /// Whether switch keys are swallowed, until all are released.
    pub suppressed: bool,
    /// What is on the shared clipboard.
    pub clipboard: Option<Contents>,
}

/// The end of a group of events of a device.
pub open spec fn sync(id: usize) -> (usize, Event) {
    (id, Event::Sync)
}

/// What releases `keys`, each on the device that `held` has for it.
pub open spec fn releases(keys: Seq<u16>, held: Map<u16, usize>) -> Seq<(usize, Event)>
    decreases keys.len(),
{
    if keys.len() == 0 {
        seq![]
    } else {
        let key = keys.last();
        releases(keys.drop_last(), held) + seq![
            (held[key], Event::Key(KeyEvent { key, down: false })),
            sync(held[key]),
        ]
    }
}

/// Whether `events` release each key of `held` once, and do nothing else. In which order is left
/// open.
pub open spec fn release_all(held: Map<u16, usize>, events: Seq<(usize, Event)>) -> bool {
    exists|keys: Seq<u16>| #[trigger]
        keys.no_duplicates() && keys.to_set() == held.dom() && events == releases(keys, held)
}

/// The keys of `among` that are down after `events`, if those of `down` were before.
pub open spec fn down_after(
    down: Map<u16, usize>,
    among: Set<u16>,
    events: Seq<(usize, Event)>,
) -> Map<u16, usize>
    decreases events.len(),
{
    if events.len() == 0 {
        down
    } else {
        let before = down_after(down, among, events.drop_last());
        let (id, event) = events.last();
        match event {
            Event::Key(KeyEvent { key, down }) => if !among.contains(key) {
                before
            } else if down {
                before.insert(key, id)
            } else {
                before.remove(key)
            },
            _ => before,
        }
    }
}

/// Whether the machine of every client has a number.
pub open spec fn numbered(clients: Map<usize, Client>) -> bool {
    forall|slot: usize| #[trigger] clients.contains_key(slot) ==> slot < usize::MAX
}

/// Whether `machine` is that of a client.
pub open spec fn occupied(clients: Map<usize, Client>, machine: usize) -> bool {
    machine > 0 && clients.contains_key((machine - 1) as usize)
}

/// Whether all keys of a shortcut are held.
pub open spec fn complete(
    combinations: Seq<Combination>,
    i: int,
    held: Map<u16, usize>,
) -> bool {
    &&& 0 <= i < combinations.len()
    &&& combinations[i].keys.subset_of(held.dom())
}

/// Whether a shortcut is the one that counts: of those that are complete it is the longest, and
/// the first of that length.
pub open spec fn wins(combinations: Seq<Combination>, i: int, held: Map<u16, usize>) -> bool {
    &&& complete(combinations, i, held)
    &&& forall|j: int| #[trigger]
        complete(combinations, j, held) ==> {
            &&& combinations[j].keys.len() <= combinations[i].keys.len()
            &&& j < i ==> combinations[j].keys.len() < combinations[i].keys.len()
        }
}

/// Whether `machine` is the first client after the machine `current`.
pub open spec fn follows(clients: Map<usize, Client>, current: usize, machine: usize) -> bool {
    &&& machine > current
    &&& occupied(clients, machine)
    &&& forall|other: usize| #[trigger]
        occupied(clients, other) && other > current ==> machine <= other
}

/// Whether `slot` holds a client of that name, and is the lowest that does.
pub open spec fn goes_by(clients: Map<usize, Client>, slot: usize, name: Seq<char>) -> bool {
    &&& clients.contains_key(slot)
    &&& clients[slot].named(name)
    &&& forall|other: usize| #[trigger]
        clients.contains_key(other) && clients[other].named(name) ==> slot <= other
}

/// The machine that comes after `current`: the next client, and after the last of them the
/// server.
pub open spec fn next_machine(clients: Map<usize, Client>, current: usize) -> usize {
    if exists|machine: usize| follows(clients, current, machine) {
        choose|machine: usize| follows(clients, current, machine)
    } else {
        0
    }
}

/// The machine of the first client of that name.
pub open spec fn machine_named(clients: Map<usize, Client>, name: Seq<char>) -> Option<usize> {
    if exists|slot: usize| goes_by(clients, slot, name) {
        Some(((choose|slot: usize| goes_by(clients, slot, name)) + 1) as usize)
    } else {
        None
    }
}

impl State {
    /// What holds of the state at all times.
    pub open spec fn wf(self) -> bool {
        &&& accounted(self.clients.dom(), self.free_clients)
        &&& accounted(self.devices.dom(), self.free_devices)
        &&& numbered(self.clients)
        &&& self.current == 0 || occupied(self.clients, self.current)
        &&& forall|i: int|
            0 <= i < self.combinations.len() ==> self.switch_key_set(
                (#[trigger] self.combinations[i]).keys,
            )
        &&& forall|key: u16| #[trigger]
            self.pressed.contains_key(key) ==> self.switch_keys.contains(key)
                && self.devices.contains_key(self.pressed[key])
        &&& forall|key: u16| #[trigger]
            self.propagated.contains_key(key) ==> self.switch_keys.contains(key)
                && self.devices.contains_key(self.propagated[key])
        &&& forall|i: int|
            0 <= i < self.deferred.len() ==> self.devices.contains_key(
                (#[trigger] self.deferred[i]).0,
            )
        &&& self.pressed.is_empty() ==> !self.changed && !self.suppressed
        &&& self.propagate ==> !self.suppressed
        &&& self.propagate || self.suppressed ==> {
            &&& self.deferred.len() == 0
            &&& self.propagated.dom() =~= Set::<u16>::empty()
        }
    }

    /// Whether `keys` can make a shortcut: there is one at least, and all are switch keys.
    pub open spec fn switch_key_set(self, keys: Set<u16>) -> bool {
        &&& keys.finite()
        &&& keys.len() > 0
        &&& keys.subset_of(self.switch_keys)
    }

    /// Whether the event is of a switch key.
    pub open spec fn of_switch_key(self, event: Event) -> bool {
        event matches Event::Key(key) && self.switch_keys.contains(key.key)
    }

    /// Whether the event is of a switch key that goes down.
    pub open spec fn press(self, event: Event) -> bool {
        event matches Event::Key(key) && self.switch_keys.contains(key.key) && key.down
    }

    /// The switch keys that are held after the event.
    pub open spec fn held(self, id: usize, event: Event) -> Map<u16, usize> {
        match event {
            Event::Key(KeyEvent { key, down }) => if !self.switch_keys.contains(key) {
                self.pressed
            } else if down {
                self.pressed.insert(key, id)
            } else {
                self.pressed.remove(key)
            },
            _ => self.pressed,
        }
    }

    /// The shortcut that an event completes, if any. Only a key that goes down completes one.
    pub open spec fn completed(self, id: usize, event: Event) -> Option<int> {
        let held = self.held(id, event);
        if self.press(event) && exists|i: int| wins(self.combinations, i, held) {
            Some(choose|i: int| wins(self.combinations, i, held))
        } else {
            None
        }
    }

    /// The machine that a shortcut leads to, if there is one.
    pub open spec fn goal(self, aim: Aim) -> Option<usize> {
        match aim {
            Aim::Cycle => Some(next_machine(self.clients, self.current)),
            Aim::Server => Some(0),
            Aim::Client(name) => machine_named(self.clients, name),
        }
    }

    /// The machine that the event moves control to, if it does so.
    pub open spec fn moves_to(self, id: usize, event: Event) -> Option<usize> {
        match self.completed(id, event) {
            Some(i) => self.goal(self.combinations[i].aim),
            None => None,
        }
    }

    /// What a machine is called.
    pub open spec fn label(self, machine: usize) -> Seq<char> {
        if machine == 0 {
            "server"@
        } else {
            self.clients[(machine - 1) as usize].label_text()
        }
    }

    /// What becomes of switching on an event.
    pub open spec fn switching(self, id: usize, event: Event) -> Switching {
        match self.completed(id, event) {
            Some(i) => match (self.moves_to(id, event), self.combinations[i].aim) {
                (Some(machine), _) => Switching::To(self.label(machine)),
                (None, Aim::Client(name)) => Switching::NotConnected(name),
                _ => Switching::Stayed,
            },
            None => Switching::Stayed,
        }
    }

    /// Tells a machine that it is being controlled, or is no more. The server is not told.
    pub open spec fn notice(self, machine: usize, active: bool) -> Seq<Deed> {
        if occupied(self.clients, machine) {
            seq![Deed::Send { client: (machine - 1) as usize, update: News::Active(active) }]
        } else {
            seq![]
        }
    }

    /// Runs the command that is configured for switches.
    pub open spec fn hook(self, machine: usize) -> Seq<Deed> {
        match self.on_switch {
            Some(command) => seq![
                Deed::Run(hook_text(command, "RKVM_TARGET"@, self.label(machine))),
            ],
            None => seq![],
        }
    }

    /// Switches the caps lock lights of all devices, if they serve as the indicator.
    pub open spec fn lights(self, on: bool) -> Seq<Deed> {
        if self.indicator {
            in_order(self.devices.dom()).map_values(|device: usize| Deed::Light { device, on })
        } else {
            seq![]
        }
    }

    /// What is done when a shortcut moves control.
    pub open spec fn arrival(self, machine: usize) -> Seq<Deed> {
        (if machine != self.current {
            self.notice(self.current, false) + self.notice(machine, true)
        } else {
            seq![]
        }) + self.hook(machine) + self.lights(machine != 0)
    }

    /// What is done on an event.
    pub open spec fn reaction(self, id: usize, event: Event) -> Seq<Deed> {
        match self.moves_to(id, event) {
            Some(machine) => self.arrival(machine),
            None => seq![],
        }
    }

    /// The machine that an event is for. While keys of a completed shortcut are still held, their
    /// events go where they went before the switch.
    pub open spec fn addressee(self, id: usize, event: Event) -> usize {
        if self.of_switch_key(event) && self.completed(id, event) is None && self.changed {
            self.previous
        } else {
            self.current
        }
    }

    /// Who gets what a machine is sent.
    pub open spec fn route(self, machine: usize) -> Route {
        if machine == 0 {
            Route::Server
        } else if self.clients.contains_key((machine - 1) as usize) {
            Route::Client((machine - 1) as usize)
        } else {
            Route::Nowhere
        }
    }

    /// Whether the event is of a switch key, and switch keys do not simply pass.
    pub open spec fn withheld(self, event: Event) -> bool {
        self.of_switch_key(event) && !self.propagate
    }

    /// The events that an event lets through, where it does not complete a shortcut or switch
    /// keys simply pass.
    pub open spec fn passed(self, id: usize, event: Event) -> Seq<(usize, Event)> {
        if self.withheld(event) {
            if !self.suppressed && self.held(id, event).is_empty() {
                self.deferred + seq![(id, event), sync(id)]
            } else {
                seq![]
            }
        } else if self.of_switch_key(event) {
            self.deferred + seq![(id, event), sync(id)]
        } else {
            self.deferred + seq![(id, event)]
        }
    }

    /// Whether `events` are what an event lets through. One that completes a shortcut, where
    /// switch keys do not simply pass, releases those that did get through.
    pub open spec fn delivers(self, id: usize, event: Event, events: Seq<(usize, Event)>) -> bool {
        if self.withheld(event) && self.completed(id, event) is Some {
            release_all(self.propagated, events)
        } else {
            events == self.passed(id, event)
        }
    }

    /// The events that are held back after an event.
    pub open spec fn deferred_after(self, id: usize, event: Event) -> Seq<(usize, Event)> {
        if self.withheld(event) && self.completed(id, event) is None && !self.suppressed
            && !self.held(id, event).is_empty() {
            self.deferred + seq![(id, event), sync(id)]
        } else {
            seq![]
        }
    }

    /// The switch keys that were let through and not released, after an event.
    pub open spec fn propagated_after(self, id: usize, event: Event) -> Map<u16, usize> {
        if self.propagate {
            self.propagated
        } else if self.withheld(event) && self.completed(id, event) is Some {
            Map::empty()
        } else {
            down_after(self.propagated, self.switch_keys, self.passed(id, event))
        }
    }

    /// Whether switch keys are swallowed after an event.
    pub open spec fn suppressed_after(self, id: usize, event: Event) -> bool {
        if self.withheld(event) {
            self.completed(id, event) is Some || (self.suppressed && !self.held(
                id,
                event,
            ).is_empty())
        } else {
            self.suppressed
        }
    }

    /// The state after an event.
    pub open spec fn after(self, id: usize, event: Event) -> State {
        let switched = self.completed(id, event) is Some;
        State {
            pressed: self.held(id, event),
            current: match self.moves_to(id, event) {
                Some(machine) => machine,
                None => self.current,
            },
            previous: if switched {
                self.current
            } else {
                self.previous
            },
            changed: switched || (self.changed && !(self.of_switch_key(event) && self.held(
                id,
                event,
            ).is_empty())),
            deferred: self.deferred_after(id, event),
            propagated: self.propagated_after(id, event),
            suppressed: self.suppressed_after(id, event),
            ..self
        }
    }
}

/// Which events are not of a device.
pub open spec fn not_of(id: usize) -> spec_fn((usize, Event)) -> bool {
    |event: (usize, Event)| event.0 != id
}

/// The entries of `held` that are not of a device.
pub open spec fn elsewhere(held: Map<u16, usize>, id: usize) -> Map<u16, usize> {
    Map::new(|key: u16| held.contains_key(key) && held[key] != id, |key: u16| held[key])
}

impl State {
    /// The state of a server that was just started.
    pub open spec fn initial(
        combinations: Seq<Combination>,
        switch_keys: Set<u16>,
        propagate: bool,
        indicator: bool,
        on_switch: Option<Seq<char>>,
    ) -> State {
        State {
            combinations,
            switch_keys,
            propagate,
            indicator,
            on_switch,
            clients: Map::empty(),
            devices: Map::empty(),
            free_clients: seq![],
            free_devices: seq![],
            current: 0,
            previous: 0,
            changed: false,
            pressed: Map::empty(),
            deferred: seq![],
            propagated: Map::empty(),
            suppressed: false,
            clipboard: None,
        }
    }

    /// The state without the clients in some slots. If one of them was being controlled, the
    /// server is from now on.
    pub open spec fn without(self, gone: Set<usize>) -> State {
        let clients = self.clients.remove_keys(gone);
        State {
            clients,
            free_clients: self.free_clients + in_order(self.clients.dom().intersect(gone)),
            current: if occupied(clients, self.current) {
                self.current
            } else {
                0
            },
            ..self
        }
    }

    /// What is done when clients are gone: if one of them was being controlled, control moves to
    /// the server.
    pub open spec fn farewell(self, gone: Set<usize>) -> Seq<Deed> {
        if self.current != self.without(gone).current {
            self.hook(0) + self.lights(false)
        } else {
            seq![]
        }
    }

    /// What a client is told when it connects: every device.
    pub open spec fn greeting(self) -> Seq<News> {
        in_order(self.devices.dom()).map_values(
            |id: usize| News::CreateDevice { id, device: self.devices[id]@ },
        )
    }

    /// The slot that the next client will get.
    pub open spec fn next_client(self) -> usize {
        next_slot(self.clients.dom(), self.free_clients)
    }

    /// The state with a client more.
    pub open spec fn joined(self, client: Client) -> State {
        State {
            clients: self.clients.insert(self.next_client(), client),
            free_clients: still_free(self.free_clients),
            ..self
        }
    }

    /// Hands the contents of the clipboard to a client that was just registered.
    pub open spec fn gift(self, slot: usize) -> Seq<Deed> {
        match self.clipboard {
            Some(contents) => seq![
                Deed::Send { client: slot, update: News::Clipboard(contents) },
            ],
            None => seq![],
        }
    }

    /// Whether a client goes by that name.
    pub open spec fn known(self, name: Seq<char>) -> bool {
        exists|slot: usize| #[trigger]
            self.clients.contains_key(slot) && self.clients[slot].named(name)
    }

    /// Tells every client.
    pub open spec fn send_all(self, update: News) -> Seq<Deed> {
        in_order(self.clients.dom()).map_values(|client: usize| Deed::Send { client, update })
    }

    /// The slot that the next device will get.
    pub open spec fn next_device(self) -> usize {
        next_slot(self.devices.dom(), self.free_devices)
    }

    /// The state with a device more.
    pub open spec fn plugged(self, device: Device) -> State {
        State {
            devices: self.devices.insert(self.next_device(), device),
            free_devices: still_free(self.free_devices),
            ..self
        }
    }

    /// What is done when a device is there: every client is told, and if a client is being
    /// controlled the light of the device shows it.
    pub open spec fn introduction(self, id: usize, device: Device) -> Seq<Deed> {
        self.send_all(News::CreateDevice { id, device: device@ }) + if self.indicator
            && self.current != 0 {
            seq![Deed::Light { device: id, on: true }]
        } else {
            seq![]
        }
    }

    /// The state without a device, and without anything that came from it. If no switch key is
    /// held any more, a shortcut that was completed is over.
    pub open spec fn unplugged(self, id: usize) -> State {
        let held = elsewhere(self.pressed, id);
        State {
            devices: self.devices.remove(id),
            free_devices: self.free_devices.push(id),
            deferred: self.deferred.filter(not_of(id)),
            propagated: elsewhere(self.propagated, id),
            pressed: held,
            changed: self.changed && !held.is_empty(),
            suppressed: self.suppressed && !held.is_empty(),
            ..self
        }
    }

    /// The state with other contents on the shared clipboard.
    pub open spec fn holding(self, contents: Contents) -> State {
        State { clipboard: Some(contents), ..self }
    }
}

proof fn lemma_down_after(
    down: Map<u16, usize>,
    among: Set<u16>,
    events: Seq<(usize, Event)>,
    devices: Set<usize>,
    key: u16,
)
    requires
        down_after(down, among, events).contains_key(key),
        forall|key: u16| #[trigger]
            down.contains_key(key) ==> among.contains(key) && devices.contains(down[key]),
        forall|i: int| 0 <= i < events.len() ==> devices.contains((#[trigger] events[i]).0),
    ensures
        among.contains(key),
        devices.contains(down_after(down, among, events)[key]),
    decreases events.len(),
{
    if events.len() > 0 {
        let before = down_after(down, among, events.drop_last());
        assert(devices.contains(events[events.len() - 1].0));
        assert forall|i: int| 0 <= i < events.drop_last().len() implies devices.contains(
            (#[trigger] events.drop_last()[i]).0,
        ) by {
            assert(devices.contains(events[i].0));
        }
        if before.contains_key(key) {
            lemma_down_after(down, among, events.drop_last(), devices, key);
        }
    }
}

proof fn lemma_released_devices(
    keys: Seq<u16>,
    held: Map<u16, usize>,
    devices: Set<usize>,
    i: int,
)
    requires
        forall|k: int| 0 <= k < keys.len() ==> devices.contains(held[#[trigger] keys[k]]),
        0 <= i < releases(keys, held).len(),
    ensures
        devices.contains(releases(keys, held)[i].0),
    decreases keys.len(),
{
    if keys.len() > 0 {
        let before = releases(keys.drop_last(), held);
        assert(devices.contains(held[keys[keys.len() - 1]]));
        if i < before.len() {
            assert forall|k: int| 0 <= k < keys.drop_last().len() implies devices.contains(
                held[#[trigger] keys.drop_last()[k]],
            ) by {
                assert(devices.contains(held[keys[k]]));
            }
            lemma_released_devices(keys.drop_last(), held, devices, i);
            assert(releases(keys, held)[i] == before[i]);
        }
    }
}

/// Releasing keys leaves down those that are not among them.
pub proof fn lemma_down_after_releases(keys: Seq<u16>, held: Map<u16, usize>, among: Set<u16>)
    requires
        held.dom().subset_of(among),
        forall|k: int| 0 <= k < keys.len() ==> held.contains_key(#[trigger] keys[k]),
    ensures
        down_after(held, among, releases(keys, held)) == held.remove_keys(keys.to_set()),
    decreases keys.len(),
{
    if keys.len() == 0 {
        assert(held.remove_keys(keys.to_set()) =~= held);
    } else {
        let fewer = keys.drop_last();
        let key = keys.last();
        let first = releases(fewer, held);
        let all = releases(keys, held);
        assert forall|k: int| 0 <= k < fewer.len() implies held.contains_key(
            #[trigger] fewer[k],
        ) by {
            assert(held.contains_key(keys[k]));
        }
        lemma_down_after_releases(fewer, held, among);
        assert(held.contains_key(keys[keys.len() - 1]));
        assert(among.contains(key));
        assert(all.drop_last().drop_last() =~= first);
        reveal_with_fuel(down_after, 3);
        assert(all.last() == sync(held[key]));
        assert(all.drop_last().last() == (
            held[key],
            Event::Key(KeyEvent { key, down: false }),
        ));
        assert(keys =~= fewer.push(key));
        assert forall|k: u16| keys.to_set().contains(k) == (fewer.to_set().contains(k) || k
            == key) by {
            if fewer.contains(k) {
                let i = choose|i: int| 0 <= i < fewer.len() && fewer[i] == k;
                assert(keys[i] == k);
            }
            assert(keys[keys.len() - 1] == key);
        }
        assert(held.remove_keys(fewer.to_set()).remove(key) =~= held.remove_keys(keys.to_set()));
    }
}

/// Once all keys are released, none is down.
pub proof fn lemma_none_down(held: Map<u16, usize>, among: Set<u16>, events: Seq<(usize, Event)>)
    requires
        held.dom().subset_of(among),
        release_all(held, events),
    ensures
        down_after(held, among, events) == Map::<u16, usize>::empty(),
{
    let keys = choose|keys: Seq<u16>| #[trigger]
        keys.no_duplicates() && keys.to_set() == held.dom() && events == releases(keys, held);
    assert forall|k: int| 0 <= k < keys.len() implies held.contains_key(#[trigger] keys[k]) by {
        assert(keys.to_set().contains(keys[k]));
    }
    lemma_down_after_releases(keys, held, among);
    assert(held.remove_keys(keys.to_set()) =~= Map::empty());
}

/// What is let through on an event comes from devices that are there.
pub proof fn lemma_delivered_devices(
    state: State,
    id: usize,
    event: Event,
    events: Seq<(usize, Event)>,
)
    requires
        state.wf(),
        state.devices.contains_key(id),
        state.delivers(id, event, events),
    ensures
        forall|i: int|
            0 <= i < events.len() ==> state.devices.contains_key((#[trigger] events[i]).0),
{
    let devices = state.devices.dom();
    if state.withheld(event) && state.completed(id, event) is Some {
        let held = state.propagated;
        let keys = choose|keys: Seq<u16>| #[trigger]
            keys.no_duplicates() && keys.to_set() == held.dom() && events == releases(keys, held);
        assert forall|k: int| 0 <= k < keys.len() implies devices.contains(
            held[#[trigger] keys[k]],
        ) by {
            assert(keys.to_set().contains(keys[k]));
            assert(held.contains_key(keys[k]));
        }
        assert forall|i: int| 0 <= i < events.len() implies state.devices.contains_key(
            (#[trigger] events[i]).0,
        ) by {
            lemma_released_devices(keys, held, devices, i);
        }
    } else {
        let deferred = state.deferred;
        assert forall|i: int| 0 <= i < events.len() implies state.devices.contains_key(
            (#[trigger] events[i]).0,
        ) by {
            if i < deferred.len() {
                assert(events[i] == deferred[i]);
            }
        }
    }
}

/// Events keep what holds of the state.
pub proof fn lemma_after_keeps_wf(state: State, id: usize, event: Event)
    requires
        state.wf(),
        state.devices.contains_key(id),
    ensures
        state.after(id, event).wf(),
{
    let after = state.after(id, event);
    let devices = state.devices.dom();
    if let Event::Key(KeyEvent { key, down }) = event {
        if state.press(event) {
            assert(after.pressed.dom().contains(key));
        }
    }
    if state.withheld(event) && state.completed(id, event) is Some {
    } else {
        let passed = state.passed(id, event);
        lemma_delivered_devices(state, id, event, passed);
        if state.suppressed {
            reveal_with_fuel(down_after, 2);
            assert(passed =~= seq![] || passed =~= seq![(id, event)]);
            assert(seq![(id, event)].drop_last() =~= seq![]);
        }
        assert forall|key: u16| #[trigger] after.propagated.contains_key(
            key,
        ) implies state.switch_keys.contains(key) && state.devices.contains_key(
            after.propagated[key],
        ) by {
            if !state.propagate {
                lemma_down_after(
                    state.propagated,
                    state.switch_keys,
                    state.passed(id, event),
                    devices,
                    key,
                );
            }
        }
    }
    if let Some(machine) = state.moves_to(id, event) {
        lemma_goal_is_there(state, state.combinations[state.completed(id, event)->0].aim);
    }
}

/// A shortcut leads to the server or to a client that is there.
pub proof fn lemma_goal_is_there(state: State, aim: Aim)
    requires
        state.wf(),
    ensures
        state.goal(aim) matches Some(machine) ==> machine == 0 || occupied(state.clients, machine),
{
}

/// Removing clients keeps what holds of the state.
pub proof fn lemma_without_keeps_wf(state: State, gone: Set<usize>)
    requires
        state.wf(),
    ensures
        state.without(gone).wf(),
{
    assert(state.without(gone).clients.dom() =~= state.clients.dom().difference(gone));
    lemma_left(state.clients.dom(), state.free_clients, gone);
}

/// One slot that is left is listed by itself.
pub proof fn lemma_one_left(taken: Set<usize>, slot: usize)
    requires
        taken.contains(slot),
    ensures
        in_order(taken.intersect(set![slot])) == seq![slot],
{
    assert(seq![slot][0] == slot);
    assert(seq![slot].to_set() =~= taken.intersect(set![slot]));
    lemma_in_order(seq![slot], taken.intersect(set![slot]));
}

/// A client more keeps what holds of the state, as long as its machine has a number.
pub proof fn lemma_joined_keeps_wf(state: State, client: Client)
    requires
        state.wf(),
        state.next_client() < usize::MAX,
    ensures
        state.joined(client).wf(),
{
    lemma_used(state.clients.dom(), state.free_clients);
    let after = state.joined(client);
    assert(after.clients.dom() =~= state.clients.dom().insert(state.next_client()));
    assert(state.current != 0 ==> state.clients.contains_key((state.current - 1) as usize));
}

/// A device more keeps what holds of the state, as long as there is a slot for it.
pub proof fn lemma_plugged_keeps_wf(state: State, device: Device)
    requires
        state.wf(),
        state.next_device() < usize::MAX,
    ensures
        state.plugged(device).wf(),
{
    lemma_used(state.devices.dom(), state.free_devices);
    assert(state.plugged(device).devices.dom() =~= state.devices.dom().insert(
        state.next_device(),
    ));
}

/// Removing a device keeps what holds of the state.
pub proof fn lemma_unplugged_keeps_wf(state: State, id: usize)
    requires
        state.wf(),
        state.devices.contains_key(id),
    ensures
        state.unplugged(id).wf(),
{
    let after = state.unplugged(id);
    let devices = state.devices.dom();
    lemma_left(devices, state.free_devices, set![id]);
    lemma_one_left(devices, id);
    assert(after.devices.dom() =~= devices.difference(set![id]));
    assert(after.free_devices =~= state.free_devices + seq![id]);
    let other = not_of(id);
    assert forall|i: int| 0 <= i < after.deferred.len() implies after.devices.contains_key(
        (#[trigger] after.deferred[i]).0,
    ) by {
        lemma_filter_source(state.deferred, other, i);
    }
    if state.deferred.len() == 0 {
        reveal(Seq::filter);
    }
}

/// What is left after filtering was there before and passes the filter.
pub proof fn lemma_filter_source(
    events: Seq<(usize, Event)>,
    pred: spec_fn((usize, Event)) -> bool,
    i: int,
)
    requires
        0 <= i < events.filter(pred).len(),
    ensures
        pred(events.filter(pred)[i]),
        events.contains(events.filter(pred)[i]),
    decreases events.len(),
{
    reveal(Seq::filter);
    if events.len() > 0 {
        let fewer = events.drop_last();
        if i < fewer.filter(pred).len() {
            lemma_filter_source(fewer, pred, i);
            let k = choose|k: int| 0 <= k < fewer.len() && fewer[k] == fewer.filter(pred)[i];
            assert(events[k] == fewer.filter(pred)[i]);
        } else {
            assert(events[events.len() - 1] == events.filter(pred)[i]);
        }
    }
}

/// A name leads to a machine if a client goes by it.
pub proof fn lemma_known(state: State, name: Seq<char>)
    ensures
        machine_named(state.clients, name) is Some <==> state.known(name),
{
    if state.known(name) {
        let slot = choose|slot: usize| #[trigger]
            state.clients.contains_key(slot) && state.clients[slot].named(name);
        lemma_first(state.clients, name, slot);
    }
    if machine_named(state.clients, name) is Some {
        let slot = choose|slot: usize| goes_by(state.clients, slot, name);
        assert(state.clients.contains_key(slot));
    }
}

proof fn lemma_first(clients: Map<usize, Client>, name: Seq<char>, slot: usize)
    requires
        clients.contains_key(slot),
        clients[slot].named(name),
    ensures
        exists|first: usize| goes_by(clients, first, name),
    decreases slot,
{
    if !goes_by(clients, slot, name) {
        let other = choose|other: usize| #[trigger]
            clients.contains_key(other) && clients[other].named(name) && other < slot;
        lemma_first(clients, name, other);
    }
}

} // verus!
