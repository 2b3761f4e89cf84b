//! The server: who is connected, who is being controlled, and what becomes of each event.
use crate::action::{deeds, Action, Deed};
use crate::client::Client;
use crate::clipboard::{data_view, Data};
use crate::device::Device;
use crate::error::{broken_pipe, is_broken_pipe, Error};
use crate::event::{Event, KeyEvent};
use crate::shell::run_on_switch;
use crate::shortcut::{any_empty, combined, keys_of, occurring, shortcuts, Shortcut, Target};
use crate::slots;
use crate::slots::{lemma_in_order, listed, Slotted};
use crate::state::{
    complete, down_after, elsewhere, follows, goes_by, lemma_after_keeps_wf,
    lemma_delivered_devices, lemma_joined_keeps_wf, lemma_known, lemma_none_down, lemma_one_left,
    lemma_plugged_keeps_wf, lemma_unplugged_keeps_wf, lemma_without_keeps_wf, machine_named,
    next_machine, not_of, numbered, occupied, release_all, releases, wins, Aim, Combination,
    Route, State, Switching,
};
use crate::text::text_view;
use crate::update::{News, Update};
use slab::Slab;
use std::collections::{HashMap, HashSet};
use std::io;
use vstd::prelude::*;

verus! {

broadcast use vstd::std_specs::hash::group_hash_axioms;

/// How it shows that a client is being controlled.
#[derive(Clone, Copy, Debug, PartialEq, Eq, Structural)]
pub enum Indicator {
    /// It does not.
    Off,
    /// The caps lock light is on.
    CapsLock,
}

/// What the configuration says of switching.
#[derive(Debug)]
pub struct Settings {
    /// The keys that, held together, hand control to the next machine.
    pub switch_keys: Vec<u16>,
    /// The shortcuts that lead to one machine, by its name.
    pub switch_to: Vec<(String, Vec<u16>)>,
    /// Whether the switch keys also reach the machine that is being controlled. They do if
    /// nothing is said.
    pub propagate_switch_keys: Option<bool>,
    /// How to show that a client is being controlled.
    pub indicator: Indicator,
    /// The command to run on every switch.
    pub on_switch: Option<String>,
}

impl Settings {
    /// The shortcuts, as they are configured.
    pub open spec fn combinations(self) -> Seq<Combination> {
        combined(self.switch_keys@, self.switch_to@)
    }

    /// Whether a shortcut has no keys.
    pub open spec fn has_empty(self) -> bool {
        exists|i: int|
            0 <= i < self.combinations().len() && (#[trigger] self.combinations()[i]).keys.len()
                == 0
    }

    /// The state to start with.
    pub open spec fn start(self) -> State {
        State::initial(
            self.combinations(),
            occurring(self.combinations()),
            self.propagate_switch_keys != Some(false),
            self.indicator is CapsLock,
            text_view(self.on_switch),
        )
    }
}

/// The server.
pub struct Server {
    shortcuts: Vec<Shortcut>,
    switch_keys: HashSet<u16>,
    propagate: bool,
    indicator: bool,
    on_switch: Option<String>,
    clients: Slab<Client>,
    devices: Slab<Device>,
    current: usize,
    previous: usize,
    changed: bool,
    pressed: HashMap<u16, usize>,
    deferred: Vec<(usize, Event)>,
    propagated: HashMap<u16, usize>,
    suppressed: bool,
    clipboard: Option<Data>,
}

/// What became of switching.
#[derive(Debug, PartialEq, Eq)]
pub enum Switch {
    /// No shortcut was completed.
    Stayed,
    /// Control moved to the machine that is called so.
    To(String),
    /// The shortcut leads to a client of that name, and none is connected.
    NotConnected(String),
}

impl View for Switch {
    type V = Switching;

    open spec fn view(&self) -> Switching {
        match *self {
            Switch::Stayed => Switching::Stayed,
            Switch::To(label) => Switching::To(label@),
            Switch::NotConnected(name) => Switching::NotConnected(name@),
        }
    }
}

/// What becomes of an event.
pub struct Reaction {
    /// Whether control moved, and where to.
    pub switch: Switch,
    /// What has to be done first.
    pub actions: Vec<Action>,
    /// Who gets the events.
    pub route: Route,
    /// The events, each with the device it is from.
    pub events: Vec<(usize, Event)>,
}

impl View for Server {
    type V = State;

    closed spec fn view(&self) -> State {
        State {
            combinations: self.shortcuts@.map_values(|shortcut: Shortcut| shortcut@),
            switch_keys: self.switch_keys@,
            propagate: self.propagate,
            indicator: self.indicator,
            on_switch: text_view(self.on_switch),
            clients: Client::slots(self.clients),
            devices: Device::slots(self.devices),
            free_clients: Client::free(self.clients),
            free_devices: Device::free(self.devices),
            current: self.current,
            previous: self.previous,
            changed: self.changed,
            pressed: self.pressed@,
            deferred: self.deferred@,
            propagated: self.propagated@,
            suppressed: self.suppressed,
            clipboard: data_view(self.clipboard),
        }
    }
}

impl Server {
    /// What holds of a server at all times.
    pub open spec fn wf(self) -> bool {
        self@.wf()
    }

    /// Starts a server without clients or devices, unless a shortcut has no keys.
    pub fn new(settings: Settings) -> (r: Result<Server, Error>)
        ensures
            r is Err <==> settings.has_empty(),
            r matches Ok(server) ==> server.wf() && server@ == settings.start(),
            r matches Err(err) ==> err == Error::Config("A switch key combination is empty"),
    {
        let shortcuts = shortcuts(&settings.switch_keys, &settings.switch_to);
        let ghost combinations = settings.combinations();
        if any_empty(&shortcuts) {
            proof {
                let i = choose|i: int|
                    0 <= i < shortcuts@.len() && (#[trigger] shortcuts@[i])@.keys.len() == 0;
                assert(combinations[i].keys.len() == 0);
            }
            return Err(Error::Config("A switch key combination is empty"));
        }
        let switch_keys = keys_of(&shortcuts);
        let propagate = match settings.propagate_switch_keys {
            Some(propagate) => propagate,
            None => true,
        };
        let indicator = match settings.indicator {
            Indicator::CapsLock => true,
            Indicator::Off => false,
        };
        let server = Server {
            shortcuts,
            switch_keys,
            propagate,
            indicator,
            on_switch: settings.on_switch,
            clients: slots::no_clients(),
            devices: slots::no_devices(),
            current: 0,
            previous: 0,
            changed: false,
            pressed: HashMap::new(),
            deferred: Vec::new(),
            propagated: HashMap::new(),
            suppressed: false,
            clipboard: None,
        };
        proof {
            assert forall|i: int| 0 <= i < combinations.len() implies (
            #[trigger] combinations[i]).keys.len() != 0 by {
                assert(shortcuts@[i]@.keys.len() != 0);
            }
            assert(server@ =~= settings.start());
            assert forall|i: int| 0 <= i < combinations.len() implies server@.switch_key_set(
                (#[trigger] combinations[i]).keys,
            ) by {
                assert(combinations[i] == shortcuts@[i]@);
                assert(combinations[i].keys.subset_of(server@.switch_keys));
            }
        }
        Ok(server)
    }

    /// Whether all keys of a shortcut are held.
    fn all_held(&self, keys: &HashSet<u16>) -> (r: bool)
        ensures
            r == keys@.subset_of(self@.pressed.dom()),
    {
        let ghost listed = vstd::std_specs::iter::IteratorSpec::remaining(
            &vstd::std_specs::hash::spec_hash_keys_iter(keys),
        );
        for key in it: keys.iter()
            invariant
                it.seq() == listed,
                listed.unref().to_set() == keys@,
                forall|j: int|
                    0 <= j < it.index() ==> self.pressed@.contains_key(*#[trigger] listed[j]),
        {
            assert(listed.unref()[it.index()] == *key);
            if !self.pressed.contains_key(key) {
                assert(listed.unref().contains(*key));
                return false;
            }
        }
        assert forall|key: u16| keys@.contains(key) implies #[trigger] self.pressed@.contains_key(
            key,
        ) by {
            assert(listed.unref().contains(key));
            let j = choose|j: int| 0 <= j < listed.unref().len() && listed.unref()[j] == key;
            assert(*listed[j] == key);
        }
        true
    }

    /// The shortcut that counts among those whose keys are all held.
    fn find_shortcut(&self) -> (r: Option<usize>)
        ensures
            r matches Some(i) ==> wins(self@.combinations, i as int, self@.pressed),
            r is None ==> forall|i: int| !wins(self@.combinations, i, self@.pressed),
    {
        let mut best: Option<usize> = None;
        let mut i: usize = 0;
        while i < self.shortcuts.len()
            invariant
                i <= self.shortcuts@.len(),
                best is None ==> forall|j: int|
                    0 <= j < i ==> !#[trigger] complete(self@.combinations, j, self@.pressed),
                best matches Some(b) ==> b < i && complete(
                    self@.combinations,
                    b as int,
                    self@.pressed,
                ) && forall|j: int| #[trigger]
                    complete(self@.combinations, j, self@.pressed) && j < i ==> {
                        &&& self@.combinations[j].keys.len() <= self@.combinations[
                            b as int
                        ].keys.len()
                        &&& j < b ==> self@.combinations[j].keys.len() < self@.combinations[
                            b as int
                        ].keys.len()
                    },
            decreases self.shortcuts.len() - i,
        {
            assert(self@.combinations[i as int] == self.shortcuts@[i as int]@);
            let longer = match best {
                Some(b) => {
                    assert(self@.combinations[b as int] == self.shortcuts@[b as int]@);
                    self.shortcuts[i].keys.len() > self.shortcuts[b].keys.len()
                },
                None => true,
            };
            if longer && self.all_held(&self.shortcuts[i].keys) {
                best = Some(i);
            }
            i += 1;
        }
        best
    }

    /// The machine after the one that is being controlled.
    fn next(&self) -> (r: usize)
        requires
            numbered(self@.clients),
        ensures
            r == next_machine(self@.clients, self@.current),
            r == 0 || occupied(self@.clients, r),
    {
        let taken = slots::taken(&self.clients);
        let mut i: usize = 0;
        while i < taken.len()
            invariant
                i <= taken@.len(),
                numbered(self@.clients),
                listed(taken@, self@.clients.dom()),
                forall|j: int| 0 <= j < i ==> #[trigger] taken@[j] + 1 <= self.current,
            decreases taken.len() - i,
        {
            assert(taken@.to_set().contains(taken@[i as int]));
            assert(self@.clients.contains_key(taken@[i as int]));
            let machine = taken[i] + 1;
            if machine > self.current {
                proof {
                    assert forall|other: usize| #[trigger]
                        occupied(self@.clients, other) && other > self.current implies machine
                        <= other by {
                        lemma_among(taken@, self@.clients.dom(), (other - 1) as usize);
                        let k = choose|k: int| 0 <= k < taken@.len() && taken@[k] == other - 1;
                        if k < i {
                            assert(taken@[k] + 1 <= self.current);
                        }
                    }
                    assert(follows(self@.clients, self@.current, machine));
                    let chosen = choose|machine: usize|
                        follows(self@.clients, self@.current, machine);
                    assert(occupied(self@.clients, chosen) && occupied(self@.clients, machine));
                }
                return machine;
            }
            i += 1;
        }
        proof {
            assert forall|machine: usize| !follows(self@.clients, self@.current, machine) by {
                if occupied(self@.clients, machine) {
                    lemma_among(taken@, self@.clients.dom(), (machine - 1) as usize);
                    let k = choose|k: int| 0 <= k < taken@.len() && taken@[k] == machine - 1;
                    assert(taken@[k] + 1 <= self.current);
                }
            }
        }
        0
    }

    /// The machine of the first client of that name.
    fn find_named(&self, name: &String) -> (r: Option<usize>)
        requires
            numbered(self@.clients),
        ensures
            r == machine_named(self@.clients, name@),
            r matches Some(machine) ==> occupied(self@.clients, machine),
    {
        let taken = slots::taken(&self.clients);
        let mut i: usize = 0;
        while i < taken.len()
            invariant
                i <= taken@.len(),
                numbered(self@.clients),
                listed(taken@, self@.clients.dom()),
                forall|j: int|
                    0 <= j < i ==> !self@.clients[#[trigger] taken@[j]].named(name@),
            decreases taken.len() - i,
        {
            assert(taken@.to_set().contains(taken@[i as int]));
            assert(self@.clients.contains_key(taken@[i as int]));
            let slot = taken[i];
            let found = match slots::get(&self.clients, slot) {
                Some(client) => client.is_named(name),
                None => false,
            };
            if found {
                proof {
                    assert forall|other: usize| #[trigger]
                        self@.clients.contains_key(other) && self@.clients[other].named(
                            name@,
                        ) implies slot <= other by {
                        lemma_among(taken@, self@.clients.dom(), other);
                    }
                    assert(goes_by(self@.clients, slot, name@));
                    let chosen = choose|slot: usize| goes_by(self@.clients, slot, name@);
                    assert(self@.clients.contains_key(chosen) && chosen <= slot && slot <= chosen);
                }
                return Some(slot + 1);
            }
            i += 1;
        }
        proof {
            assert forall|slot: usize| !goes_by(self@.clients, slot, name@) by {
                if self@.clients.contains_key(slot) {
                    lemma_among(taken@, self@.clients.dom(), slot);
                }
            }
        }
        None
    }

    /// The machine that a shortcut leads to, if there is one.
    fn goal(&self, target: &Target) -> (r: Option<usize>)
        requires
            numbered(self@.clients),
        ensures
            r == self@.goal(target@),
            r matches Some(machine) ==> machine == 0 || occupied(self@.clients, machine),
    {
        match target {
            Target::Cycle => Some(self.next()),
            Target::Server => Some(0),
            Target::Client(name) => self.find_named(name),
        }
    }

    /// What a machine is called.
    fn label(&self, machine: usize) -> (r: String)
        requires
            machine == 0 || occupied(self@.clients, machine),
        ensures
            r@ == self@.label(machine),
    {
        if machine == 0 {
            return "server".to_owned();
        }
        match slots::get(&self.clients, machine - 1) {
            Some(client) => client.label(),
            None => "".to_owned(),
        }
    }

    /// Tells a machine that it is being controlled, or is no more. The server is not told.
    fn notice(&self, machine: usize, active: bool, actions: &mut Vec<Action>)
        ensures
            deeds(final(actions)@) == deeds(old(actions)@) + self@.notice(machine, active),
    {
        let ghost before = actions@;
        if machine > 0 && slots::contains(&self.clients, machine - 1) {
            actions.push(Action::Send { client: machine - 1, update: Update::Active(active) });
            assert(deeds(actions@) =~= deeds(before).push(actions@.last()@));
        }
        assert(deeds(actions@) =~= deeds(before) + self@.notice(machine, active));
    }

    /// Runs the command that is configured for switches.
    fn hook(&self, machine: usize, actions: &mut Vec<Action>)
        requires
            machine == 0 || occupied(self@.clients, machine),
        ensures
            deeds(final(actions)@) == deeds(old(actions)@) + self@.hook(machine),
    {
        let ghost before = actions@;
        match &self.on_switch {
            Some(command) => {
                let label = self.label(machine);
                actions.push(Action::Run(run_on_switch(command.as_str(), label.as_str())));
                assert(deeds(actions@) =~= deeds(before).push(actions@.last()@));
            },
            None => {},
        }
        assert(deeds(actions@) =~= deeds(before) + self@.hook(machine));
    }

    /// Switches the caps lock lights of all devices, if they serve as the indicator.
    fn lights(&self, on: bool, actions: &mut Vec<Action>)
        ensures
            deeds(final(actions)@) == deeds(old(actions)@) + self@.lights(on),
    {
        let ghost before = actions@;
        if self.indicator {
            let taken = slots::taken(&self.devices);
            proof {
                lemma_in_order(taken@, self@.devices.dom());
            }
            let mut i: usize = 0;
            while i < taken.len()
                invariant
                    i <= taken@.len(),
                    deeds(actions@) == deeds(before) + taken@.take(i as int).map_values(
                        |device: usize| Deed::Light { device, on },
                    ),
                decreases taken.len() - i,
            {
                let ghost earlier = actions@;
                actions.push(Action::Light { device: taken[i], on });
                proof {
                    assert(deeds(actions@) =~= deeds(earlier).push(actions@.last()@));
                    assert(taken@.take(i + 1) =~= taken@.take(i as int).push(taken@[i as int]));
                    assert(taken@.take(i + 1).map_values(
                        |device: usize| Deed::Light { device, on },
                    ) =~= taken@.take(i as int).map_values(
                        |device: usize| Deed::Light { device, on },
                    ).push(actions@.last()@));
                    assert(deeds(actions@) =~= deeds(before) + taken@.take(i + 1).map_values(
                        |device: usize| Deed::Light { device, on },
                    ));
                }
                i += 1;
            }
            assert(taken@.take(i as int) =~= taken@);
        }
        assert(deeds(actions@) =~= deeds(before) + self@.lights(on));
    }

    /// What is done when a shortcut moves control.
    fn arrive(&self, machine: usize) -> (r: Vec<Action>)
        requires
            machine == 0 || occupied(self@.clients, machine),
        ensures
            deeds(r@) == self@.arrival(machine),
    {
        let mut r: Vec<Action> = Vec::new();
        assert(deeds(r@) =~= Seq::<Deed>::empty());
        if machine != self.current {
            self.notice(self.current, false, &mut r);
            self.notice(machine, true, &mut r);
        }
        self.hook(machine, &mut r);
        self.lights(machine != 0, &mut r);
        assert(deeds(r@) =~= self@.arrival(machine));
        r
    }

    /// Releases the switch keys that were let through.
    fn release(&self) -> (r: Vec<(usize, Event)>)
        ensures
            release_all(self@.propagated, r@),
    {
        let mut r: Vec<(usize, Event)> = Vec::new();
        let ghost listed = vstd::std_specs::iter::IteratorSpec::remaining(
            &vstd::std_specs::hash::spec_keys_iter(&self.propagated),
        );
        let ghost keys = listed.unref();
        for key in it: self.propagated.keys()
            invariant
                it.seq() == listed,
                keys == listed.unref(),
                keys.to_set() == self.propagated@.dom(),
                r@ == releases(keys.take(it.index()), self.propagated@),
        {
            proof {
                assert(keys[it.index()] == *key);
                assert(keys.contains(*key));
                assert(keys.to_set().contains(*key));
                assert(keys.take(it.index() + 1).drop_last() =~= keys.take(it.index()));
            }
            if let Some(id) = self.propagated.get(key) {
                r.push((*id, Event::Key(KeyEvent { key: *key, down: false })));
                r.push((*id, Event::Sync));
            }
            assert(r@ =~= releases(keys.take(it.index() + 1), self.propagated@));
        }
        assert(keys.take(keys.len() as int) =~= keys);
        assert(keys.no_duplicates());
        r
    }

    /// Tells every client.
    fn send_all(&self, update: &Update, actions: &mut Vec<Action>)
        ensures
            deeds(final(actions)@) == deeds(old(actions)@) + self@.send_all(update@),
    {
        let ghost before = actions@;
        let taken = slots::taken(&self.clients);
        proof {
            lemma_in_order(taken@, self@.clients.dom());
        }
        let mut i: usize = 0;
        while i < taken.len()
            invariant
                i <= taken@.len(),
                actions@.len() == before.len() + i,
                forall|j: int| 0 <= j < before.len() ==> actions@[j] == before[j],
                forall|j: int|
                    before.len() <= j < actions@.len() ==> (#[trigger] actions@[j])@
                        == (Deed::Send { client: taken@[j - before.len()], update: update@ }),
            decreases taken.len() - i,
        {
            actions.push(Action::Send { client: taken[i], update: update.clone() });
            i += 1;
        }
        assert(deeds(actions@) =~= deeds(before) + self@.send_all(update@));
    }

    /// Takes in an event of a device.
    pub fn input(&mut self, id: usize, event: Event) -> (r: Reaction)
        requires
            old(self).wf(),
            old(self)@.devices.contains_key(id),
        ensures
            final(self).wf(),
            final(self)@ == old(self)@.after(id, event),
            r.switch@ == old(self)@.switching(id, event),
            deeds(r.actions@) == old(self)@.reaction(id, event),
            r.route == old(self)@.route(old(self)@.addressee(id, event)),
            old(self)@.delivers(id, event, r.events@),
            forall|i: int|
                0 <= i < r.events@.len() ==> old(self)@.devices.contains_key(
                    (#[trigger] r.events@[i]).0,
                ),
    {
        let ghost before = self@;
        let mut of_switch_key = false;
        let mut press = false;
        if let Event::Key(KeyEvent { key, down }) = event {
            if self.switch_keys.contains(&key) {
                of_switch_key = true;
                press = down;
                if down {
                    self.pressed.insert(key, id);
                } else {
                    self.pressed.remove(&key);
                }
            }
        }
        let ghost held = before.held(id, event);
        assert(self@ =~= State { pressed: held, ..before });
        assert(press == before.press(event) && of_switch_key == before.of_switch_key(event));

        let shortcut = if press {
            self.find_shortcut()
        } else {
            None
        };
        proof {
            assert(self@.pressed == held && self@.combinations == before.combinations);
            lemma_completed(before, id, event, shortcut);
        }
        let switched = shortcut.is_some();
        let mut machine = self.current;
        let mut switch = Switch::Stayed;
        let mut actions: Vec<Action> = Vec::new();
        match shortcut {
            Some(i) => {
                assert(before.combinations[i as int] == self.shortcuts@[i as int]@);
                let target = self.goal(&self.shortcuts[i].target);
                assert(target == before.moves_to(id, event));
                self.previous = self.current;
                self.changed = true;
                match target {
                    Some(to) => {
                        switch = Switch::To(self.label(to));
                        actions = self.arrive(to);
                        self.current = to;
                    },
                    None => {
                        if let Target::Client(name) = &self.shortcuts[i].target {
                            switch = Switch::NotConnected(name.clone());
                        }
                    },
                }
            },
            None => {
                if of_switch_key && self.changed {
                    machine = self.previous;
                    if self.pressed.is_empty() {
                        self.changed = false;
                    }
                }
            },
        }
        assert(deeds(actions@) =~= before.reaction(id, event));
        assert(switch@ == before.switching(id, event));

        let mut events: Vec<(usize, Event)> = Vec::new();
        if of_switch_key && !self.propagate {
            if switched {
                events = self.release();
                self.deferred.clear();
                self.suppressed = true;
            } else if self.suppressed {
                self.suppressed = !self.pressed.is_empty();
            } else {
                self.deferred.push((id, event));
                self.deferred.push((id, Event::Sync));
                if self.pressed.is_empty() {
                    events.append(&mut self.deferred);
                }
            }
        } else {
            events.append(&mut self.deferred);
            events.push((id, event));
            if of_switch_key {
                events.push((id, Event::Sync));
            }
        }
        if !self.propagate {
            track(&mut self.propagated, &self.switch_keys, &events);
        }
        proof {
            if before.withheld(event) && switched {
                lemma_none_down(before.propagated, before.switch_keys, events@);
            } else {
                assert(events@ =~= before.passed(id, event));
            }
            assert(self@ =~= before.after(id, event));
            lemma_after_keeps_wf(before, id, event);
            lemma_delivered_devices(before, id, event, events@);
        }
        let route = if machine == 0 {
            Route::Server
        } else if slots::contains(&self.clients, machine - 1) {
            Route::Client(machine - 1)
        } else {
            Route::Nowhere
        };
        Reaction { switch, actions, route, events }
    }

    /// Takes note of what was copied on this machine.
    pub fn clipboard_changed(&mut self, data: Data) -> (r: Vec<Action>)
        requires
            old(self).wf(),
        ensures
            final(self).wf(),
            final(self)@ == old(self)@.holding(data@),
            deeds(r@) == old(self)@.send_all(News::Clipboard(data@)),
    {
        let mut r: Vec<Action> = Vec::new();
        assert(deeds(r@) =~= Seq::<Deed>::empty());
        let update = Update::Clipboard(data);
        self.send_all(&update, &mut r);
        assert(deeds(r@) =~= self@.send_all(News::Clipboard(data@)));
        if let Update::Clipboard(data) = update {
            self.clipboard = Some(data);
        }
        r
    }

    /// Takes note of what was copied on the machine of a client.
    pub fn clipboard_shared(&mut self, data: Data) -> (r: Vec<Action>)
        requires
            old(self).wf(),
        ensures
            final(self).wf(),
            final(self)@ == old(self)@.holding(data@),
            deeds(r@) == seq![Deed::Apply(data@)] + old(self)@.send_all(News::Clipboard(data@)),
    {
        let mut r: Vec<Action> = Vec::new();
        r.push(Action::Apply(data.clone()));
        assert(deeds(r@) =~= seq![Deed::Apply(data@)]);
        let update = Update::Clipboard(data);
        self.send_all(&update, &mut r);
        if let Update::Clipboard(data) = update {
            self.clipboard = Some(data);
        }
        r
    }

    /// Lets control fall back to the server, if it was with a client that is gone.
    fn fall_back(&mut self) -> (r: Vec<Action>)
        ensures
            final(self)@ == (State {
                current: if occupied(old(self)@.clients, old(self)@.current) {
                    old(self)@.current
                } else {
                    0
                },
                ..old(self)@
            }),
            final(self).clients == old(self).clients,
            deeds(r@) == if final(self)@.current != old(self)@.current {
                old(self)@.hook(0) + old(self)@.lights(false)
            } else {
                seq![]
            },
    {
        let mut r: Vec<Action> = Vec::new();
        assert(deeds(r@) =~= Seq::<Deed>::empty());
        if self.current != 0 && !slots::contains(&self.clients, self.current - 1) {
            self.hook(0, &mut r);
            self.lights(false, &mut r);
            assert(deeds(r@) =~= self@.hook(0) + self@.lights(false));
            self.current = 0;
        }
        r
    }

    /// Removes clients that are gone.
    fn remove_clients(&mut self, gone: &Vec<usize>) -> (r: Vec<Action>)
        requires
            old(self).wf(),
        ensures
            final(self).wf(),
            final(self)@ == old(self)@.without(gone@.to_set()),
            deeds(r@) == old(self)@.farewell(gone@.to_set()),
    {
        let ghost before = self@;
        slots::retain(&mut self.clients, gone);
        proof {
            lemma_without_keeps_wf(before, gone@.to_set());
        }
        let r = self.fall_back();
        assert(self@ =~= before.without(gone@.to_set()));
        r
    }

    /// Gets ready for a client that has authenticated: the clients in the slots `gone` have
    /// closed their connections and are removed. The new one has to be told what is returned,
    /// and can be registered if it takes that in.
    pub fn welcome(&mut self, gone: &Vec<usize>) -> (r: (Vec<Action>, Vec<Update>))
        requires
            old(self).wf(),
        ensures
            final(self).wf(),
            final(self)@ == old(self)@.without(gone@.to_set()),
            deeds(r.0@) == old(self)@.farewell(gone@.to_set()),
            r.1@.map_values(|update: Update| update@) == old(self)@.greeting(),
    {
        let actions = self.remove_clients(gone);
        let ghost before = self@;
        let taken = slots::taken(&self.devices);
        proof {
            lemma_in_order(taken@, self@.devices.dom());
        }
        let mut greeting: Vec<Update> = Vec::new();
        let mut i: usize = 0;
        while i < taken.len()
            invariant
                i <= taken@.len(),
                self@ == before,
                listed(taken@, before.devices.dom()),
                greeting@.len() == i,
                forall|j: int|
                    0 <= j < i ==> (#[trigger] greeting@[j])@ == (News::CreateDevice {
                        id: taken@[j],
                        device: before.devices[taken@[j]]@,
                    }),
            decreases taken.len() - i,
        {
            let id = taken[i];
            assert(taken@.to_set().contains(id));
            assert(before.devices.contains_key(id));
            if let Some(device) = slots::get(&self.devices, id) {
                greeting.push(Update::CreateDevice { id, device: device.clone() });
            }
            i += 1;
        }
        assert(greeting@.map_values(|update: Update| update@) =~= before.greeting());
        (actions, greeting)
    }

    /// Registers a client. Tells its slot, what has to be done, and whether another client goes
    /// by the same name already.
    pub fn register(&mut self, client: Client) -> (r: (usize, Vec<Action>, bool))
        requires
            old(self).wf(),
        ensures
            final(self).wf(),
            r.0 == old(self)@.next_client(),
            !old(self)@.clients.contains_key(r.0),
            final(self)@ == old(self)@.joined(client),
            deeds(r.1@) == old(self)@.gift(r.0),
            r.2 <==> (client.name matches Some(name) && old(self)@.known(name@)),
    {
        let ghost before = self@;
        let ambiguous = match &client.name {
            Some(name) => {
                let found = self.find_named(name).is_some();
                proof {
                    lemma_known(before, name@);
                }
                found
            },
            None => false,
        };
        let slot = slots::insert(&mut self.clients, client);
        let mut actions: Vec<Action> = Vec::new();
        if let Some(data) = &self.clipboard {
            actions.push(
                Action::Send { client: slot, update: Update::Clipboard(data.clone()) },
            );
        }
        assert(deeds(actions@) =~= before.gift(slot));
        proof {
            assert(self@ =~= before.joined(client));
            lemma_joined_keeps_wf(before, client);
        }
        (slot, actions, ambiguous)
    }

    /// Removes a client that could not be told something.
    pub fn client_lost(&mut self, slot: usize) -> (r: Vec<Action>)
        requires
            old(self).wf(),
            old(self)@.clients.contains_key(slot),
        ensures
            final(self).wf(),
            final(self)@ == old(self)@.without(set![slot]),
            deeds(r@) == old(self)@.farewell(set![slot]),
    {
        let ghost before = self@;
        let _ = slots::remove(&mut self.clients, slot);
        proof {
            assert(before.clients.remove(slot) =~= before.clients.remove_keys(set![slot]));
            lemma_one_left(before.clients.dom(), slot);
            assert(before.free_clients.push(slot) =~= before.free_clients + seq![slot]);
        }
        proof {
            lemma_without_keeps_wf(before, set![slot]);
        }
        let r = self.fall_back();
        assert(self@ =~= before.without(set![slot]));
        r
    }

    /// Registers a device. Tells its slot, and what has to be done.
    pub fn register_device(&mut self, device: Device) -> (r: (usize, Vec<Action>))
        requires
            old(self).wf(),
        ensures
            final(self).wf(),
            r.0 == old(self)@.next_device(),
            !old(self)@.devices.contains_key(r.0),
            final(self)@ == old(self)@.plugged(device),
            deeds(r.1@) == old(self)@.introduction(r.0, device),
    {
        let ghost before = self@;
        let id = slots::vacant_key(&self.devices);
        let mut actions: Vec<Action> = Vec::new();
        assert(deeds(actions@) =~= Seq::<Deed>::empty());
        let update = Update::CreateDevice { id, device: device.clone() };
        self.send_all(&update, &mut actions);
        let ghost told = actions@;
        if self.indicator && self.current != 0 {
            actions.push(Action::Light { device: id, on: true });
            assert(deeds(actions@) =~= deeds(told).push(actions@.last()@));
        }
        assert(deeds(actions@) =~= before.introduction(id, device));
        let _ = slots::insert(&mut self.devices, device);
        proof {
            assert(self@ =~= before.plugged(device));
            lemma_plugged_keeps_wf(before, device);
        }
        (id, actions)
    }

    /// Removes a device that is gone.
    pub fn device_gone(&mut self, id: usize) -> (r: Vec<Action>)
        requires
            old(self).wf(),
            old(self)@.devices.contains_key(id),
        ensures
            final(self).wf(),
            final(self)@ == old(self)@.unplugged(id),
            deeds(r@) == old(self)@.send_all(News::DestroyDevice { id }),
    {
        let ghost before = self@;
        let mut r: Vec<Action> = Vec::new();
        assert(deeds(r@) =~= Seq::<Deed>::empty());
        self.send_all(&Update::DestroyDevice { id }, &mut r);
        assert(deeds(r@) =~= before.send_all(News::DestroyDevice { id }));
        let _ = slots::remove(&mut self.devices, id);
        forget_events(&mut self.deferred, id);
        forget_keys(&mut self.propagated, id);
        forget_keys(&mut self.pressed, id);
        if self.pressed.is_empty() {
            self.changed = false;
            self.suppressed = false;
        }
        proof {
            assert(self@ =~= before.unplugged(id));
            lemma_unplugged_keeps_wf(before, id);
        }
        r
    }

    /// Takes in that a device failed: one that is gone is removed, and the server gives up on any
    /// other failure.
    pub fn device_failed(&mut self, id: usize, err: io::Error, gone: bool) -> (r: Result<
        Vec<Action>,
        Error,
    >)
        requires
            old(self).wf(),
            old(self)@.devices.contains_key(id),
        ensures
            final(self).wf(),
            r is Ok <==> gone,
            r matches Ok(actions) ==> final(self)@ == old(self)@.unplugged(id) && deeds(actions@)
                == old(self)@.send_all(News::DestroyDevice { id }),
            r matches Err(reason) ==> reason == Error::Input(err) && final(self)@ == old(self)@,
    {
        if gone {
            Ok(self.device_gone(id))
        } else {
            Err(Error::Input(err))
        }
    }

    /// Takes in an error of a device. A broken pipe says that the device is gone.
    pub fn device_error(&mut self, id: usize, err: io::Error) -> (r: Result<Vec<Action>, Error>)
        requires
            old(self).wf(),
            old(self)@.devices.contains_key(id),
        ensures
            final(self).wf(),
            r is Ok <==> is_broken_pipe(err),
            r matches Ok(actions) ==> final(self)@ == old(self)@.unplugged(id) && deeds(actions@)
                == old(self)@.send_all(News::DestroyDevice { id }),
            r matches Err(reason) ==> reason == Error::Input(err) && final(self)@ == old(self)@,
    {
        let gone = broken_pipe(&err);
        self.device_failed(id, err, gone)
    }

    /// Whether a device is registered.
    pub fn has_device(&self, id: usize) -> (r: bool)
        ensures
            r == self@.devices.contains_key(id),
    {
        slots::contains(&self.devices, id)
    }

    /// Whether a client is registered.
    pub fn has_client(&self, slot: usize) -> (r: bool)
        ensures
            r == self@.clients.contains_key(slot),
    {
        slots::contains(&self.clients, slot)
    }

    /// The machine that is being controlled.
    pub fn controlled(&self) -> (r: usize)
        ensures
            r == self@.current,
    {
        self.current
    }
}

/// What came of handing an event back to the device it is from.
#[derive(Clone, Copy, Debug, PartialEq, Eq, Structural)]
pub enum Handover {
    /// The device has it.
    Taken,
    /// The device has no room for it.
    Full,
    /// The device is gone.
    Gone,
}

/// Whether the server can go on: an event that does not find room would be lost.
pub fn handed_back(handover: Handover) -> (r: Result<(), Error>)
    ensures
        r is Err <==> handover is Full,
        r matches Err(err) ==> err is Overflow,
{
    match handover {
        Handover::Full => Err(Error::Overflow),
        _ => Ok(()),
    }
}

/// Drops the events of a device.
fn forget_events(events: &mut Vec<(usize, Event)>, id: usize)
    ensures
        final(events)@ == old(events)@.filter(not_of(id)),
{
    let mut kept: Vec<(usize, Event)> = Vec::new();
    let mut i: usize = 0;
    assert(events@.take(0) =~= seq![]);
    proof {
        reveal(Seq::filter);
    }
    while i < events.len()
        invariant
            i <= events@.len(),
            kept@ == events@.take(i as int).filter(not_of(id)),
        decreases events.len() - i,
    {
        proof {
            reveal(Seq::filter);
            assert(events@.take(i + 1).drop_last() =~= events@.take(i as int));
        }
        if events[i].0 != id {
            kept.push(events[i]);
        }
        i += 1;
    }
    assert(events@.take(i as int) =~= events@);
    *events = kept;
}

/// Drops the keys of a device.
fn forget_keys(keys: &mut HashMap<u16, usize>, id: usize)
    ensures
        final(keys)@ == elsewhere(old(keys)@, id),
{
    let mut kept: HashMap<u16, usize> = HashMap::new();
    let ghost listed = vstd::std_specs::iter::IteratorSpec::remaining(
        &vstd::std_specs::hash::spec_keys_iter(keys),
    );
    let ghost all = listed.unref();
    for key in it: keys.keys()
        invariant
            it.seq() == listed,
            all == listed.unref(),
            all.to_set() == keys@.dom(),
            forall|j: int|
                0 <= j < it.index() && keys@[#[trigger] all[j]] != id ==> kept@.contains_key(
                    all[j],
                ),
            forall|key: u16| #[trigger]
                kept@.contains_key(key) ==> keys@.contains_key(key) && keys@[key] != id
                    && kept@[key] == keys@[key],
    {
        proof {
            assert(all[it.index()] == *key);
            assert(all.contains(*key));
            assert(all.to_set().contains(*key));
        }
        if let Some(device) = keys.get(key) {
            if *device != id {
                kept.insert(*key, *device);
            }
        }
    }
    proof {
        assert forall|key: u16| keys@.contains_key(key) && keys@[key] != id implies #[trigger]
            kept@.contains_key(key) by {
            assert(all.to_set().contains(key));
            let j = choose|j: int| 0 <= j < all.len() && all[j] == key;
        }
        assert(kept@ =~= elsewhere(keys@, id));
    }
    *keys = kept;
}

/// Keeps the keys of `among` that are down up to date with `events`.
fn track(down: &mut HashMap<u16, usize>, among: &HashSet<u16>, events: &Vec<(usize, Event)>)
    ensures
        final(down)@ == down_after(old(down)@, among@, events@),
{
    let ghost before = down@;
    let mut i: usize = 0;
    while i < events.len()
        invariant
            i <= events@.len(),
            down@ == down_after(before, among@, events@.take(i as int)),
        decreases events.len() - i,
    {
        assert(events@.take(i + 1).drop_last() =~= events@.take(i as int));
        if let Event::Key(KeyEvent { key, down: pressed }) = events[i].1 {
            if among.contains(&key) {
                if pressed {
                    down.insert(key, events[i].0);
                } else {
                    down.remove(&key);
                }
            }
        }
        i += 1;
    }
    assert(events@.take(i as int) =~= events@);
}

/// Which shortcut an event completes, where the one that counts was looked for.
proof fn lemma_completed(state: State, id: usize, event: Event, found: Option<usize>)
    requires
        state.press(event) ==> match found {
            Some(i) => wins(state.combinations, i as int, state.held(id, event)),
            None => forall|i: int| !wins(state.combinations, i, state.held(id, event)),
        },
        !state.press(event) ==> found is None,
    ensures
        state.completed(id, event) == match found {
            Some(i) => Some(i as int),
            None => None,
        },
{
    if let Some(i) = found {
        let held = state.held(id, event);
        let chosen = choose|i: int| wins(state.combinations, i, held);
        assert(wins(state.combinations, i as int, held));
        assert(complete(state.combinations, chosen, held));
        assert(complete(state.combinations, i as int, held));
    }
}

/// A list holds all that is in the set that it lists.
proof fn lemma_among(slots: Seq<usize>, set: Set<usize>, slot: usize)
    requires
        listed(slots, set),
        set.contains(slot),
    ensures
        exists|i: int| 0 <= i < slots.len() && slots[i] == slot,
{
    assert(slots.to_set().contains(slot));
    assert(slots.contains(slot));
}

/// What a configuration makes: the switch keys cycle, and each entry of `[switch-to]` leads to the
/// server if it is called `server`, and to the client of its name if not, in that order. The keys
/// that occur in them are the switch keys. They reach the machine that is being controlled unless
/// the configuration says no. Nothing is connected, plugged in, held or copied yet, and the server
/// is being controlled. It makes no sense if a combination has no keys.
pub proof fn law_configuration(settings: Settings, key: u16, k: int)
    ensures
        ({
            let start = settings.start();
            let to = settings.switch_to@;
            &&& start.combinations.len() == to.len() + 1
            &&& start.combinations[0].aim is Cycle
            &&& start.combinations[0].keys.contains(key) <==> settings.switch_keys@.contains(key)
            &&& 0 <= k < to.len() ==> {
                &&& start.combinations[k + 1].keys.contains(key) <==> to[k].1@.contains(key)
                &&& to[k].0@ == "server"@ ==> start.combinations[k + 1].aim is Server
                &&& to[k].0@ != "server"@ ==> start.combinations[k + 1].aim == Aim::Client(
                    to[k].0@,
                )
            }
            &&& start.switch_keys.contains(key) <==> settings.switch_keys@.contains(key)
                || exists|k: int| 0 <= k < to.len() && (#[trigger] to[k]).1@.contains(key)
            &&& start.propagate <==> settings.propagate_switch_keys != Some(false)
            &&& start.indicator <==> settings.indicator is CapsLock
            &&& settings.on_switch matches Some(command) ==> start.on_switch == Some(command@)
            &&& settings.on_switch is None ==> start.on_switch is None
            &&& start.clients == Map::<usize, Client>::empty()
            &&& start.devices == Map::<usize, Device>::empty()
            &&& start.free_clients.len() == 0 && start.free_devices.len() == 0
            &&& start.current == 0 && start.previous == 0
            &&& !start.changed && !start.suppressed
            &&& start.pressed == Map::<u16, usize>::empty()
            &&& start.propagated == Map::<u16, usize>::empty()
            &&& start.deferred.len() == 0
            &&& start.clipboard is None
            &&& settings.has_empty() <==> settings.switch_keys@.len() == 0 || exists|k: int|
                0 <= k < to.len() && (#[trigger] to[k]).1@.len() == 0
        }),
{
    let start = settings.start();
    let to = settings.switch_to@;
    let all = settings.combinations();
    lemma_no_keys(settings.switch_keys@);
    if exists|k: int| 0 <= k < to.len() && (#[trigger] to[k]).1@.contains(key) {
        let k = choose|k: int| 0 <= k < to.len() && (#[trigger] to[k]).1@.contains(key);
        assert(all[k + 1].keys.contains(key));
    }
    if settings.switch_keys@.contains(key) {
        assert(all[0].keys.contains(key));
    }
    if start.switch_keys.contains(key) {
        let i = choose|i: int| 0 <= i < all.len() && (#[trigger] all[i]).keys.contains(key);
        if i > 0 {
            assert(to[i - 1].1@.contains(key));
        }
    }
    if settings.has_empty() {
        let i = choose|i: int| 0 <= i < all.len() && (#[trigger] all[i]).keys.len() == 0;
        if i > 0 {
            lemma_no_keys(to[i - 1].1@);
            assert(to[i - 1].1@.len() == 0);
        }
    }
    if settings.switch_keys@.len() == 0 {
        assert(all[0].keys.len() == 0);
    }
    if exists|k: int| 0 <= k < to.len() && (#[trigger] to[k]).1@.len() == 0 {
        let k = choose|k: int| 0 <= k < to.len() && (#[trigger] to[k]).1@.len() == 0;
        lemma_no_keys(to[k].1@);
        assert(all[k + 1].keys.len() == 0);
    }
}

proof fn lemma_no_keys(list: Seq<u16>)
    ensures
        list.to_set().finite(),
        list.to_set().len() == 0 <==> list.len() == 0,
{
    vstd::seq_lib::seq_to_set_is_finite(list);
    if list.len() > 0 {
        assert(list.to_set().contains(list[0]));
    } else {
        assert(list.to_set() =~= Set::<u16>::empty());
    }
}

/// What became of switching is told by what it holds.
pub proof fn law_switch_is_what_it_holds(text: String)
    ensures
        Switch::Stayed@ is Stayed,
        Switch::To(text)@ == Switching::To(text@),
        Switch::NotConnected(text)@ == Switching::NotConnected(text@),
{
}

} // verus!
