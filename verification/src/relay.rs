//! What the server does with each event, said of the keys that are held, the clients that are
//! connected and what comes out.
use crate::action::Deed;
use crate::client::Client;
use crate::clipboard::Contents;
use crate::device::Device;
use crate::event::{Event, KeyEvent};
use crate::shell::CommandText;
use crate::slots::{in_order, lemma_listed, lemma_next_is_free};
use crate::state::{
    complete, down_after, follows, goes_by, lemma_known, machine_named, next_machine, occupied,
    release_all, releases, wins, Aim, Route, State, Switching,
};
use crate::update::News;
use vstd::prelude::*;

verus! {

/// Whether an event is of a key that occurs in a shortcut.
pub open spec fn switches(state: State, event: Event) -> bool {
    event matches Event::Key(key) && state.switch_keys.contains(key.key)
}

/// Whether a switch key is held after an event.
pub open spec fn down_now(state: State, event: Event, key: u16) -> bool {
    if switches(state, event) && event->Key_0.key == key {
        event->Key_0.down
    } else {
        state.pressed.contains_key(key)
    }
}

/// Whether all keys of a shortcut are held after an event.
pub open spec fn full(state: State, event: Event, i: int) -> bool {
    &&& 0 <= i < state.combinations.len()
    &&& forall|key: u16| #[trigger]
        state.combinations[i].keys.contains(key) ==> down_now(state, event, key)
}

/// Whether an event completes a shortcut: a key of a shortcut goes down, all keys of this one are
/// held then, those of no longer one are, and those of no earlier one that is as long are.
pub open spec fn completes(state: State, event: Event, i: int) -> bool {
    &&& switches(state, event)
    &&& event->Key_0.down
    &&& full(state, event, i)
    &&& forall|j: int| #[trigger]
        full(state, event, j) ==> {
            ||| state.combinations[j].keys.len() < state.combinations[i].keys.len()
            ||| state.combinations[j].keys.len() == state.combinations[i].keys.len() && i <= j
        }
}

/// Whether a client goes by a name.
pub open spec fn called(client: Client, name: Seq<char>) -> bool {
    client.name matches Some(own) && own@ == name
}

proof fn lemma_held(state: State, id: usize, event: Event)
    ensures
        forall|key: u16| #[trigger]
            state.held(id, event).contains_key(key) <==> down_now(state, event, key),
{
}

proof fn lemma_full(state: State, id: usize, event: Event, i: int)
    ensures
        full(state, event, i) <==> complete(state.combinations, i, state.held(id, event)),
{
    lemma_held(state, id, event);
    let held = state.held(id, event);
    if full(state, event, i) {
        assert forall|key: u16| state.combinations[i].keys.contains(
            key,
        ) implies held.dom().contains(key) by {
            assert(held.contains_key(key));
        }
    }
    if complete(state.combinations, i, held) {
        assert forall|key: u16| #[trigger] state.combinations[i].keys.contains(
            key,
        ) implies down_now(state, event, key) by {
            assert(held.dom().contains(key));
            assert(held.contains_key(key));
        }
    }
}

proof fn lemma_completes(state: State, id: usize, event: Event, i: int)
    requires
        completes(state, event, i),
    ensures
        state.completed(id, event) == Some(i),
{
    let held = state.held(id, event);
    lemma_full(state, id, event, i);
    assert forall|j: int| #[trigger] complete(state.combinations, j, held) implies {
        &&& state.combinations[j].keys.len() <= state.combinations[i].keys.len()
        &&& j < i ==> state.combinations[j].keys.len() < state.combinations[i].keys.len()
    } by {
        lemma_full(state, id, event, j);
        assert(full(state, event, j));
    }
    assert(wins(state.combinations, i, held));
    let chosen = choose|i: int| wins(state.combinations, i, held);
    assert(complete(state.combinations, chosen, held));
    assert(complete(state.combinations, i, held));
}

proof fn lemma_completes_none(state: State, id: usize, event: Event)
    requires
        forall|i: int| !completes(state, event, i),
    ensures
        state.completed(id, event) is None,
{
    let held = state.held(id, event);
    if state.completed(id, event) is Some {
        let i = choose|i: int| wins(state.combinations, i, held);
        lemma_full(state, id, event, i);
        assert forall|j: int| #[trigger] full(state, event, j) implies {
            ||| state.combinations[j].keys.len() < state.combinations[i].keys.len()
            ||| state.combinations[j].keys.len() == state.combinations[i].keys.len() && i <= j
        } by {
            lemma_full(state, id, event, j);
            assert(complete(state.combinations, j, held));
        }
        assert(completes(state, event, i));
    }
}

/// An event of a switch key changes whether that key is held, on the device that it came from, and
/// nothing else is held or let go.
pub proof fn law_held_keys(state: State, id: usize, event: Event, key: u16)
    ensures
        ({
            let after = state.after(id, event);
            &&& after.pressed.contains_key(key) <==> down_now(state, event, key)
            &&& after.pressed.contains_key(key) && switches(state, event) && event->Key_0.key
                == key ==> after.pressed[key] == id
            &&& after.pressed.contains_key(key) && !(switches(state, event) && event->Key_0.key
                == key) ==> after.pressed[key] == state.pressed[key]
        }),
{
}

/// Completing the shortcut that cycles moves control to the client of the lowest slot above the
/// one that is being controlled, whatever the clients are called, and to the server if there is
/// no such client.
pub proof fn law_cycle_moves_on(state: State, id: usize, event: Event, i: int, slot: usize)
    requires
        state.wf(),
        completes(state, event, i),
        state.combinations[i].aim is Cycle,
    ensures
        ({
            let current = state.after(id, event).current;
            &&& current == 0 || (current > state.current && state.clients.contains_key(
                (current - 1) as usize,
            ))
            &&& state.clients.contains_key(slot) && slot >= state.current ==> 0 < current <= slot
                + 1
        }),
{
    lemma_completes(state, id, event, i);
    let current = state.after(id, event).current;
    assert(current == next_machine(state.clients, state.current));
    if state.clients.contains_key(slot) && slot >= state.current {
        lemma_follower(state, slot);
        assert(occupied(state.clients, (slot + 1) as usize));
    }
}

proof fn lemma_follower(state: State, slot: usize)
    requires
        state.wf(),
        state.clients.contains_key(slot),
        slot >= state.current,
    ensures
        exists|machine: usize| follows(state.clients, state.current, machine),
    decreases slot,
{
    let machine = (slot + 1) as usize;
    assert(occupied(state.clients, machine));
    if !follows(state.clients, state.current, machine) {
        let other = choose|other: usize| #[trigger]
            occupied(state.clients, other) && other > state.current && other < machine;
        lemma_follower(state, (other - 1) as usize);
    }
}

/// Completing a shortcut to the server moves control to it, from anywhere.
pub proof fn law_server_shortcut_leads_home(state: State, id: usize, event: Event, i: int)
    requires
        completes(state, event, i),
        state.combinations[i].aim is Server,
    ensures
        state.after(id, event).current == 0,
{
    lemma_completes(state, id, event, i);
}

/// Completing a shortcut to a name moves control to the client of the lowest slot that goes by
/// it, and leaves control where it is if no client does.
pub proof fn law_named_shortcut_leads_there(
    state: State,
    id: usize,
    event: Event,
    i: int,
    name: Seq<char>,
    slot: usize,
)
    requires
        state.wf(),
        completes(state, event, i),
        state.combinations[i].aim == Aim::Client(name),
    ensures
        ({
            let current = state.after(id, event).current;
            let switching = state.switching(id, event);
            &&& (forall|other: usize| #[trigger]
                state.clients.contains_key(other) ==> !called(state.clients[other], name))
                ==> current == state.current && switching == Switching::NotConnected(name)
            &&& state.clients.contains_key(slot) && called(state.clients[slot], name) ==> {
                &&& 0 < current <= slot + 1
                &&& state.clients.contains_key((current - 1) as usize)
                &&& called(state.clients[(current - 1) as usize], name)
            }
        }),
{
    lemma_completes(state, id, event, i);
    lemma_known(state, name);
    if state.clients.contains_key(slot) && called(state.clients[slot], name) {
        assert(state.clients[slot].named(name));
        assert(state.known(name));
        let first = choose|slot: usize| goes_by(state.clients, slot, name);
        assert(goes_by(state.clients, first, name));
        assert(machine_named(state.clients, name) == Some((first + 1) as usize));
        assert(first < usize::MAX);
    }
    if machine_named(state.clients, name) is Some {
        let first = choose|slot: usize| goes_by(state.clients, slot, name);
        assert(state.clients.contains_key(first) && called(state.clients[first], name));
    }
}

/// Without a completed shortcut control stays, nothing has to be done, and nothing is reported.
pub proof fn law_control_stays_without_a_shortcut(state: State, id: usize, event: Event)
    requires
        forall|i: int| !completes(state, event, i),
    ensures
        state.after(id, event).current == state.current,
        state.after(id, event).previous == state.previous,
        state.reaction(id, event).len() == 0,
        state.switching(id, event) is Stayed,
{
    lemma_completes_none(state, id, event);
}

/// Completing the shortcut that cycles again and again, from the server on, controls the clients
/// in the order of their slots, each once and whatever they are called, and then the server.
/// `befores` are the states in which it is completed; whatever else happens in between leaves the
/// clients and control as they are.
pub proof fn law_cycle_controls_each_client(
    befores: Seq<State>,
    ids: Seq<usize>,
    events: Seq<Event>,
    shortcuts: Seq<int>,
    order: Seq<usize>,
    k: int,
)
    requires
        befores.len() == order.len() + 1,
        ids.len() == befores.len(),
        events.len() == befores.len(),
        shortcuts.len() == befores.len(),
        befores[0].current == 0,
        forall|i: int|
            0 <= i < befores.len() ==> {
                let before = #[trigger] befores[i];
                &&& before.wf()
                &&& before.clients == befores[0].clients
                &&& completes(before, events[i], shortcuts[i])
                &&& before.combinations[shortcuts[i]].aim is Cycle
            },
        forall|i: int, j: int|
            0 <= i && j == i + 1 && j < befores.len() ==> (#[trigger] befores[j]).current == (
            #[trigger] befores[i]).after(ids[i], events[i]).current,
        forall|i: int, j: int| 0 <= i < j < order.len() ==> order[i] < order[j],
        forall|slot: usize|
            #![trigger befores[0].clients.contains_key(slot)]
            #![trigger order.contains(slot)]
            befores[0].clients.contains_key(slot) <==> order.contains(slot),
        0 <= k < befores.len(),
    ensures
        befores[k].after(ids[k], events[k]).current == if k < order.len() {
            order[k] + 1
        } else {
            0
        },
    decreases k,
{
    let before = befores[k];
    let clients = befores[0].clients;
    let now = before.after(ids[k], events[k]).current;
    if k > 0 {
        law_cycle_controls_each_client(befores, ids, events, shortcuts, order, k - 1);
        assert(before.current == befores[k - 1].after(ids[k - 1], events[k - 1]).current);
        assert(before.current == order[k - 1] + 1);
    }
    if k < order.len() {
        let slot = order[k];
        assert(order.contains(slot));
        assert(clients.contains_key(slot));
        if k > 0 {
            assert(order[k - 1] < order[k]);
        }
        law_cycle_moves_on(before, ids[k], events[k], shortcuts[k], slot);
        let other = (now - 1) as usize;
        assert(clients.contains_key(other));
        assert(order.contains(other));
        let m = choose|m: int| 0 <= m < order.len() && order[m] == other;
        if m < k - 1 {
            assert(order[m] < order[k - 1]);
        }
        if m > k {
            assert(order[k] < order[m]);
        }
    } else {
        law_cycle_moves_on(before, ids[k], events[k], shortcuts[k], 0);
        if now > 0 {
            let other = (now - 1) as usize;
            assert(clients.contains_key(other));
            assert(order.contains(other));
            let m = choose|m: int| 0 <= m < order.len() && order[m] == other;
            if m < k - 1 {
                assert(order[m] < order[k - 1]);
            }
        }
    }
}

/// Events go to the client in the slot that their machine stands for, if it is connected, and back
/// to this machine exactly if they are for the server. What is not of a switch key is for the
/// machine that is being controlled.
pub proof fn law_events_reach_their_machine(state: State, id: usize, event: Event, slot: usize)
    requires
        state.wf(),
    ensures
        ({
            let machine = state.addressee(id, event);
            let route = state.route(machine);
            &&& route == Route::Server <==> machine == 0
            &&& route == Route::Client(slot) <==> machine == slot + 1
                && state.clients.contains_key(slot)
            &&& !switches(state, event) && state.current == 0 ==> route == Route::Server
            &&& !switches(state, event) && state.current == slot + 1 ==> route == Route::Client(
                slot,
            )
        }),
{
}

/// The event that completes a shortcut is for the machine that was being controlled, which is
/// remembered from then on.
pub proof fn law_completing_event_stays_behind(state: State, id: usize, event: Event, i: int)
    requires
        completes(state, event, i),
    ensures
        state.addressee(id, event) == state.current,
        state.after(id, event).previous == state.current,
        state.after(id, event).changed,
{
    lemma_completes(state, id, event, i);
}

/// An event of a switch key that completes no shortcut is for the machine that is being
/// controlled, unless switch keys are held ever since one was completed: then it is for the
/// machine that was being controlled before. That is over once no switch key is held.
pub proof fn law_switch_keys_stay_with_their_machine(state: State, id: usize, event: Event)
    requires
        switches(state, event),
        forall|i: int| !completes(state, event, i),
    ensures
        state.addressee(id, event) == if state.changed {
            state.previous
        } else {
            state.current
        },
        state.after(id, event).changed <==> state.changed && exists|key: u16| #[trigger]
            down_now(state, event, key),
{
    lemma_completes_none(state, id, event);
    lemma_held(state, id, event);
    let held = state.held(id, event);
    if exists|key: u16| #[trigger] down_now(state, event, key) {
        let key = choose|key: u16| #[trigger] down_now(state, event, key);
        assert(held.contains_key(key));
        assert(held.dom().contains(key));
    } else {
        assert forall|key: u16| !held.dom().contains(key) by {
            assert(held.contains_key(key) <==> down_now(state, event, key));
        }
        assert(held.dom() =~= Set::<u16>::empty());
    }
}

/// An event that is not of a switch key leaves what is remembered of a completed shortcut.
pub proof fn law_other_events_end_no_shortcut(state: State, id: usize, event: Event)
    requires
        !switches(state, event),
    ensures
        state.after(id, event).changed == state.changed,
        state.after(id, event).previous == state.previous,
        state.after(id, event).suppressed == state.suppressed,
        state.after(id, event).pressed == state.pressed,
{
}

/// What is not of a switch key is always let through at once, last and behind all that was held
/// back, also while switch keys are swallowed. Nothing is held back then.
pub proof fn law_other_input_always_passes(
    state: State,
    id: usize,
    event: Event,
    events: Seq<(usize, Event)>,
)
    requires
        !switches(state, event),
        state.delivers(id, event, events),
    ensures
        events.len() == state.deferred.len() + 1,
        events.last() == (id, event),
        events.drop_last() == state.deferred,
        state.after(id, event).deferred.len() == 0,
{
    assert(events.drop_last() =~= state.deferred);
}

/// Where switch keys reach the machine that is being controlled, each of their events passes at
/// once, with the end of its group, and nothing else is sent, held back or swallowed.
pub proof fn law_propagated_switch_keys_pass(
    state: State,
    id: usize,
    event: Event,
    events: Seq<(usize, Event)>,
)
    requires
        state.wf(),
        state.propagate,
        switches(state, event),
        state.delivers(id, event, events),
    ensures
        events.len() == 2,
        events[0] == (id, event),
        events[1] == (id, Event::Sync),
        state.after(id, event).deferred.len() == 0,
        !state.after(id, event).suppressed,
        forall|key: u16| !#[trigger] state.after(id, event).propagated.contains_key(key),
{
}

/// Where switch keys do not reach the other side, a completed shortcut sends nothing but the
/// release of what had got through: for each such key, once and on the device that it was pressed
/// on, that it goes up, and the end of the group. Nothing is held back or counts as let through
/// any more, and switch keys are swallowed from then on.
pub proof fn law_completed_shortcut_only_releases(
    state: State,
    id: usize,
    event: Event,
    events: Seq<(usize, Event)>,
    i: int,
)
    requires
        state.wf(),
        !state.propagate,
        completes(state, event, i),
        state.delivers(id, event, events),
    ensures
        exists|keys: Seq<u16>| #[trigger] released(state.propagated, keys, events),
        state.after(id, event).deferred.len() == 0,
        state.after(id, event).suppressed,
        forall|key: u16| !#[trigger] state.after(id, event).propagated.contains_key(key),
{
    lemma_completes(state, id, event, i);
    let held = state.propagated;
    assert(release_all(held, events));
    let keys = choose|keys: Seq<u16>| #[trigger]
        keys.no_duplicates() && keys.to_set() == held.dom() && events == releases(keys, held);
    lemma_releases(keys, held);
    assert forall|key: u16| held.contains_key(key) <==> #[trigger] keys.contains(key) by {
        assert(keys.to_set().contains(key) <==> keys.contains(key));
    }
    assert(released(held, keys, events));
}

/// Whether `events` let go of `keys`, one after the other, which are those of `held`, each once.
pub open spec fn released(
    held: Map<u16, usize>,
    keys: Seq<u16>,
    events: Seq<(usize, Event)>,
) -> bool {
    &&& forall|i: int, j: int| 0 <= i < j < keys.len() ==> keys[i] != keys[j]
    &&& forall|key: u16| held.contains_key(key) <==> #[trigger] keys.contains(key)
    &&& events.len() == 2 * keys.len()
    &&& forall|i: int|
        0 <= i < keys.len() ==> events[2 * i] == (
            held[#[trigger] keys[i]],
            Event::Key(KeyEvent { key: keys[i], down: false }),
        ) && events[2 * i + 1] == (held[keys[i]], Event::Sync)
}

proof fn lemma_releases(keys: Seq<u16>, held: Map<u16, usize>)
    ensures
        releases(keys, held).len() == 2 * keys.len(),
        forall|i: int|
            0 <= i < keys.len() ==> releases(keys, held)[2 * i] == (
                held[#[trigger] keys[i]],
                Event::Key(KeyEvent { key: keys[i], down: false }),
            ) && releases(keys, held)[2 * i + 1] == (held[keys[i]], Event::Sync),
    decreases keys.len(),
{
    if keys.len() > 0 {
        let fewer = keys.drop_last();
        lemma_releases(fewer, held);
        let all = releases(keys, held);
        assert forall|i: int| 0 <= i < keys.len() implies all[2 * i] == (
            held[#[trigger] keys[i]],
            Event::Key(KeyEvent { key: keys[i], down: false }),
        ) && all[2 * i + 1] == (held[keys[i]], Event::Sync) by {
            if i < fewer.len() {
                assert(fewer[i] == keys[i]);
                assert(all[2 * i] == releases(fewer, held)[2 * i]);
                assert(all[2 * i + 1] == releases(fewer, held)[2 * i + 1]);
            }
        }
    }
}

/// While switch keys are swallowed, one that completes no shortcut sends nothing and is not held
/// back. That is over once none is held.
pub proof fn law_swallowed_keys_send_nothing(
    state: State,
    id: usize,
    event: Event,
    events: Seq<(usize, Event)>,
)
    requires
        state.wf(),
        !state.propagate,
        state.suppressed,
        switches(state, event),
        forall|i: int| !completes(state, event, i),
        state.delivers(id, event, events),
    ensures
        events.len() == 0,
        state.after(id, event).deferred.len() == 0,
        state.after(id, event).propagated == state.propagated,
        state.after(id, event).suppressed <==> exists|key: u16| #[trigger]
            down_now(state, event, key),
{
    lemma_completes_none(state, id, event);
    lemma_none_held(state, id, event);
}

/// Whether no switch key is held is told by whether none is down.
proof fn lemma_none_held(state: State, id: usize, event: Event)
    ensures
        state.held(id, event).is_empty() <==> !exists|key: u16| #[trigger]
            down_now(state, event, key),
{
    lemma_held(state, id, event);
    let held = state.held(id, event);
    if exists|key: u16| #[trigger] down_now(state, event, key) {
        let key = choose|key: u16| #[trigger] down_now(state, event, key);
        assert(held.contains_key(key));
        assert(held.dom().contains(key));
    } else {
        assert forall|key: u16| !held.dom().contains(key) by {
            assert(held.contains_key(key) <==> down_now(state, event, key));
        }
        assert(held.dom() =~= Set::<u16>::empty());
    }
}

/// Where switch keys do not reach the other side, one that completes no shortcut is held back with
/// the end of its group, behind what is held back already. Once none is held, all of it is sent,
/// in order; until then nothing is.
pub proof fn law_switch_keys_are_held_back(
    state: State,
    id: usize,
    event: Event,
    events: Seq<(usize, Event)>,
)
    requires
        !state.propagate,
        !state.suppressed,
        switches(state, event),
        forall|i: int| !completes(state, event, i),
        state.delivers(id, event, events),
    ensures
        !state.after(id, event).suppressed,
        events + state.after(id, event).deferred == state.deferred.push((id, event)).push(
            (id, Event::Sync),
        ),
        (exists|key: u16| #[trigger] down_now(state, event, key)) ==> events.len() == 0,
        !(exists|key: u16| #[trigger] down_now(state, event, key)) ==> state.after(
            id,
            event,
        ).deferred.len() == 0,
{
    lemma_completes_none(state, id, event);
    lemma_none_held(state, id, event);
    assert(events + state.after(id, event).deferred =~= state.deferred.push((id, event)).push(
        (id, Event::Sync),
    ));
}

/// Whether an event says of a key that it goes down or up.
pub open spec fn about(event: (usize, Event), key: u16) -> bool {
    event.1 matches Event::Key(of) && of.key == key
}

/// A switch key counts as let through if the last that was sent of it says that it is down, and
/// then on the device that it came from; if nothing was sent of it, it counts as it did before.
pub proof fn law_last_event_sent_counts(
    state: State,
    id: usize,
    event: Event,
    events: Seq<(usize, Event)>,
    key: u16,
    last: int,
)
    requires
        state.wf(),
        !state.propagate,
        state.switch_keys.contains(key),
        state.delivers(id, event, events),
    ensures
        ({
            let through = state.after(id, event).propagated;
            &&& 0 <= last < events.len() && about(events[last], key) && (forall|j: int|
                last < j < events.len() ==> !about(#[trigger] events[j], key)) ==> {
                &&& through.contains_key(key) <==> events[last].1->Key_0.down
                &&& through.contains_key(key) ==> through[key] == events[last].0
            }
            &&& (forall|j: int| 0 <= j < events.len() ==> !about(#[trigger] events[j], key)) ==> {
                &&& through.contains_key(key) <==> state.propagated.contains_key(key)
                &&& through.contains_key(key) ==> through[key] == state.propagated[key]
            }
        }),
{
    let through = state.after(id, event).propagated;
    crate::laws::law_let_through_is_tracked(state, id, event, events);
    if 0 <= last < events.len() && about(events[last], key) && (forall|j: int|
        last < j < events.len() ==> !about(#[trigger] events[j], key)) {
        lemma_last_counts(state.propagated, state.switch_keys, events, key, last);
    }
    if forall|j: int| 0 <= j < events.len() ==> !about(#[trigger] events[j], key) {
        lemma_untouched(state.propagated, state.switch_keys, events, key);
    }
}

proof fn lemma_last_counts(
    down: Map<u16, usize>,
    among: Set<u16>,
    events: Seq<(usize, Event)>,
    key: u16,
    last: int,
)
    requires
        among.contains(key),
        0 <= last < events.len(),
        about(events[last], key),
        forall|j: int| last < j < events.len() ==> !about(#[trigger] events[j], key),
    ensures
        ({
            let through = down_after(down, among, events);
            &&& through.contains_key(key) <==> events[last].1->Key_0.down
            &&& through.contains_key(key) ==> through[key] == events[last].0
        }),
    decreases events.len(),
{
    if last < events.len() - 1 {
        let fewer = events.drop_last();
        assert forall|j: int| last < j < fewer.len() implies !about(#[trigger] fewer[j], key) by {
            assert(!about(events[j], key));
        }
        lemma_last_counts(down, among, fewer, key, last);
        assert(!about(events[events.len() - 1], key));
    }
}

proof fn lemma_untouched(
    down: Map<u16, usize>,
    among: Set<u16>,
    events: Seq<(usize, Event)>,
    key: u16,
)
    requires
        forall|j: int| 0 <= j < events.len() ==> !about(#[trigger] events[j], key),
    ensures
        ({
            let through = down_after(down, among, events);
            &&& through.contains_key(key) <==> down.contains_key(key)
            &&& through.contains_key(key) ==> through[key] == down[key]
        }),
    decreases events.len(),
{
    if events.len() > 0 {
        let fewer = events.drop_last();
        assert forall|j: int| 0 <= j < fewer.len() implies !about(#[trigger] fewer[j], key) by {
            assert(!about(events[j], key));
        }
        lemma_untouched(down, among, fewer, key);
        assert(!about(events[events.len() - 1], key));
    }
}

/// An event changes nothing that is configured, no client, no device and no slot, and not what is
/// on the clipboard.
pub proof fn law_events_leave_the_rest(state: State, id: usize, event: Event)
    ensures
        ({
            let after = state.after(id, event);
            &&& after.combinations == state.combinations
            &&& after.switch_keys == state.switch_keys
            &&& after.propagate == state.propagate
            &&& after.indicator == state.indicator
            &&& after.on_switch == state.on_switch
            &&& after.clients == state.clients
            &&& after.devices == state.devices
            &&& after.free_clients == state.free_clients
            &&& after.free_devices == state.free_devices
            &&& after.clipboard == state.clipboard
        }),
{
}

/// What a machine goes by: the server by its reserved name, a client by its own, or else by where
/// it connects from.
pub open spec fn calling(state: State, machine: usize) -> Seq<char> {
    if machine == 0 {
        "server"@
    } else {
        match state.clients[(machine - 1) as usize].name {
            Some(name) => name@,
            None => state.clients[(machine - 1) as usize].addr@,
        }
    }
}

/// The command for switches, as the shell gets it: its text, and where control went, in `$1` and
/// in a variable.
pub open spec fn hook_run(command: Seq<char>, target: Seq<char>) -> Deed {
    Deed::Run(
        CommandText {
            program: "sh"@,
            args: seq!["-c"@, command, "rkvm"@, target],
            env: seq![("RKVM_TARGET"@, target)],
        },
    )
}

/// Whether `deeds` are one switch of the light of each device, in the order of their slots.
pub open spec fn all_lights(deeds: Seq<Deed>, devices: Set<usize>, on: bool) -> bool {
    &&& forall|i: int|
        0 <= i < deeds.len() ==> (#[trigger] deeds[i] matches Deed::Light { device, on: to } && to
            == on && devices.contains(device))
    &&& forall|i: int, j: int|
        0 <= i < j < deeds.len() ==> (#[trigger] deeds[i])->Light_device < (
        #[trigger] deeds[j])->Light_device
    &&& forall|device: usize| #[trigger]
        devices.contains(device) ==> deeds.contains(Deed::Light { device, on })
}

proof fn lemma_all_lights(state: State, on: bool)
    requires
        state.wf(),
    ensures
        state.indicator ==> all_lights(state.lights(on), state.devices.dom(), on),
        !state.indicator ==> state.lights(on).len() == 0,
{
    if state.indicator {
        let devices = state.devices.dom();
        let slots = in_order(devices);
        let deeds = state.lights(on);
        lemma_listed(devices);
        assert forall|i: int| 0 <= i < deeds.len() implies (
        #[trigger] deeds[i] matches Deed::Light { device, on: to } && to == on && devices.contains(
            device,
        )) by {
            assert(slots.to_set().contains(slots[i]));
        }
        assert forall|i: int, j: int| 0 <= i < j < deeds.len() implies (
        #[trigger] deeds[i])->Light_device < (#[trigger] deeds[j])->Light_device by {
            assert(slots[i] < slots[j]);
        }
        assert forall|device: usize| #[trigger] devices.contains(device) implies deeds.contains(
            Deed::Light { device, on },
        ) by {
            assert(slots.to_set().contains(device));
            let i = choose|i: int| 0 <= i < slots.len() && slots[i] == device;
            assert(deeds[i] == Deed::Light { device, on });
        }
    }
}

/// What is done when a completed shortcut leads to a machine: if control moves, the client that
/// loses it is told, then the one that gains it; then the command for switches runs, if there is
/// one, and is told what the machine is called; then, if they are the indicator, all lights are
/// switched, on for a client and off for the server. Nothing else is done, and the same is
/// reported.
pub proof fn law_what_a_switch_does(state: State, id: usize, event: Event, i: int)
    requires
        state.wf(),
        completes(state, event, i),
        state.switching(id, event) !is NotConnected,
    ensures
        ({
            let to = state.after(id, event).current;
            let from = state.current;
            let done = state.reaction(id, event);
            let first = (if from != to && from > 0 {
                seq![Deed::Send { client: (from - 1) as usize, update: News::Active(false) }]
            } else {
                seq![]
            }) + (if from != to && to > 0 {
                seq![Deed::Send { client: (to - 1) as usize, update: News::Active(true) }]
            } else {
                seq![]
            }) + (match state.on_switch {
                Some(command) => seq![hook_run(command, calling(state, to))],
                None => seq![],
            });
            &&& done.len() >= first.len()
            &&& done.take(first.len() as int) == first
            &&& state.indicator ==> all_lights(
                done.skip(first.len() as int),
                state.devices.dom(),
                to != 0,
            )
            &&& !state.indicator ==> done == first
            &&& state.switching(id, event) == Switching::To(calling(state, to))
        }),
{
    lemma_completes(state, id, event, i);
    crate::state::lemma_goal_is_there(state, state.combinations[i].aim);
    let to = state.after(id, event).current;
    let from = state.current;
    let done = state.reaction(id, event);
    let first = (if from != to && from > 0 {
        seq![Deed::Send { client: (from - 1) as usize, update: News::Active(false) }]
    } else {
        seq![]
    }) + (if from != to && to > 0 {
        seq![Deed::Send { client: (to - 1) as usize, update: News::Active(true) }]
    } else {
        seq![]
    }) + (match state.on_switch {
        Some(command) => seq![hook_run(command, calling(state, to))],
        None => seq![],
    });
    lemma_all_lights(state, to != 0);
    assert(state.moves_to(id, event) == Some(to));
    assert(done =~= first + state.lights(to != 0));
    assert(done.take(first.len() as int) =~= first);
    assert(done.skip(first.len() as int) =~= state.lights(to != 0));
}

/// A shortcut to a name that no client goes by does nothing but report that name, and only such a
/// shortcut reports one.
pub proof fn law_missing_client_is_reported(
    state: State,
    id: usize,
    event: Event,
    i: int,
    name: Seq<char>,
    slot: usize,
)
    requires
        state.wf(),
        completes(state, event, i),
        state.switching(id, event) == Switching::NotConnected(name),
    ensures
        state.combinations[i].aim == Aim::Client(name),
        state.clients.contains_key(slot) ==> !called(state.clients[slot], name),
        state.reaction(id, event).len() == 0,
        state.after(id, event).current == state.current,
{
    lemma_completes(state, id, event, i);
    if state.clients.contains_key(slot) && called(state.clients[slot], name) {
        law_named_shortcut_leads_there(state, id, event, i, name, slot);
        lemma_known(state, name);
        assert(state.clients[slot].named(name));
        assert(state.known(name));
    }
}

/// Clients that are gone are gone, and nothing else is. If one of them was being controlled, the
/// server is from then on: the command for switches runs, and all lights go off, if they are the
/// indicator. Else nothing is done.
pub proof fn law_what_a_loss_does(state: State, gone: Set<usize>, slot: usize)
    requires
        state.wf(),
    ensures
        ({
            let after = state.without(gone);
            let done = state.farewell(gone);
            let lost = state.current > 0 && gone.contains((state.current - 1) as usize);
            let first = match state.on_switch {
                Some(command) => seq![hook_run(command, "server"@)],
                None => seq![],
            };
            &&& after.clients.contains_key(slot) <==> state.clients.contains_key(slot)
                && !gone.contains(slot)
            &&& after.clients.contains_key(slot) ==> after.clients[slot] == state.clients[slot]
            &&& after.current == if lost {
                0
            } else {
                state.current
            }
            &&& after == (State {
                clients: after.clients,
                current: after.current,
                free_clients: after.free_clients,
                ..state
            })
            &&& !lost ==> done.len() == 0
            &&& lost ==> {
                &&& done.len() >= first.len()
                &&& done.take(first.len() as int) == first
                &&& state.indicator ==> all_lights(
                    done.skip(first.len() as int),
                    state.devices.dom(),
                    false,
                )
                &&& !state.indicator ==> done == first
            }
        }),
{
    let done = state.farewell(gone);
    let first = match state.on_switch {
        Some(command) => seq![hook_run(command, "server"@)],
        None => seq![],
    };
    lemma_all_lights(state, false);
    assert(first =~= state.hook(0));
    if state.current != state.without(gone).current {
        assert(done =~= first + state.lights(false));
        assert(done.take(first.len() as int) =~= first);
        assert(done.skip(first.len() as int) =~= state.lights(false));
    }
}

/// Whether `deeds` tell each client the same, in the order of their slots, and do nothing else.
pub open spec fn told_all(deeds: Seq<Deed>, clients: Set<usize>, news: News) -> bool {
    &&& forall|i: int|
        0 <= i < deeds.len() ==> (#[trigger] deeds[i] matches Deed::Send { client, update }
            && update == news && clients.contains(client))
    &&& forall|i: int, j: int|
        0 <= i < j < deeds.len() ==> (#[trigger] deeds[i])->Send_client < (
        #[trigger] deeds[j])->Send_client
    &&& forall|client: usize| #[trigger]
        clients.contains(client) ==> deeds.contains(Deed::Send { client, update: news })
}

/// What all clients are told, each is told once, and nobody else is.
pub proof fn law_every_client_is_told(state: State, news: News)
    requires
        state.wf(),
    ensures
        told_all(state.send_all(news), state.clients.dom(), news),
{
    let clients = state.clients.dom();
    let slots = in_order(clients);
    let deeds = state.send_all(news);
    lemma_listed(clients);
    assert forall|i: int| 0 <= i < deeds.len() implies (#[trigger] deeds[i] matches Deed::Send {
        client,
        update,
    } && update == news && clients.contains(client)) by {
        assert(slots.to_set().contains(slots[i]));
    }
    assert forall|i: int, j: int| 0 <= i < j < deeds.len() implies (
    #[trigger] deeds[i])->Send_client < (#[trigger] deeds[j])->Send_client by {
        assert(slots[i] < slots[j]);
    }
    assert forall|client: usize| #[trigger] clients.contains(client) implies deeds.contains(
        Deed::Send { client, update: news },
    ) by {
        assert(slots.to_set().contains(client));
        let i = choose|i: int| 0 <= i < slots.len() && slots[i] == client;
        assert(deeds[i] == Deed::Send { client, update: news });
    }
}

/// A device that comes is told to every client, by its slot and as it is, and then has its light
/// switched on if a client is being controlled and the lights are the indicator. It is added, and
/// nothing else changes.
pub proof fn law_what_a_new_device_does(state: State, device: Device, id: usize)
    requires
        state.wf(),
    ensures
        ({
            let slot = state.next_device();
            let done = state.introduction(slot, device);
            let shows = state.indicator && state.current != 0;
            let told = if shows {
                done.drop_last()
            } else {
                done
            };
            let after = state.plugged(device);
            &&& told_all(
                told,
                state.clients.dom(),
                News::CreateDevice { id: slot, device: device@ },
            )
            &&& shows ==> done.len() > 0 && done.last() == (Deed::Light { device: slot, on: true })
            &&& !state.devices.contains_key(slot)
            &&& after.devices.contains_key(id) <==> id == slot || state.devices.contains_key(id)
            &&& after.devices[slot] == device
            &&& state.devices.contains_key(id) ==> after.devices[id] == state.devices[id]
            &&& after == (State {
                devices: after.devices,
                free_devices: after.free_devices,
                ..state
            })
        }),
{
    let slot = state.next_device();
    let news = News::CreateDevice { id: slot, device: device@ };
    law_every_client_is_told(state, news);
    lemma_next_is_free(state.devices.dom(), state.free_devices);
    let done = state.introduction(slot, device);
    if state.indicator && state.current != 0 {
        assert(done.drop_last() =~= state.send_all(news));
    } else {
        assert(done =~= state.send_all(news));
    }
}

/// A device that goes is removed, with the keys that are held on it, those that got through from
/// it and its events that were held back; what is of other devices stays, in order. A shortcut
/// that was completed is over if no switch key is held then. Nothing else changes.
pub proof fn law_what_a_gone_device_leaves(
    state: State,
    id: usize,
    other: usize,
    key: u16,
    before: Seq<(usize, Event)>,
    event: (usize, Event),
)
    ensures
        ({
            let after = state.unplugged(id);
            &&& after.devices.contains_key(other) <==> state.devices.contains_key(other) && other
                != id
            &&& after.devices.contains_key(other) ==> after.devices[other] == state.devices[other]
            &&& after.pressed.contains_key(key) <==> state.pressed.contains_key(key)
                && state.pressed[key] != id
            &&& after.pressed.contains_key(key) ==> after.pressed[key] == state.pressed[key]
            &&& after.propagated.contains_key(key) <==> state.propagated.contains_key(key)
                && state.propagated[key] != id
            &&& after.propagated.contains_key(key) ==> after.propagated[key]
                == state.propagated[key]
            &&& (exists|key: u16| #[trigger] after.pressed.contains_key(key)) ==> after.changed
                == state.changed && after.suppressed == state.suppressed
            &&& !(exists|key: u16| #[trigger] after.pressed.contains_key(key)) ==> !after.changed
                && !after.suppressed
            &&& state.deferred.len() == 0 ==> after.deferred.len() == 0
            &&& state.deferred == before.push(event) ==> after.deferred == if event.0 == id {
                (State { deferred: before, ..state }).unplugged(id).deferred
            } else {
                (State { deferred: before, ..state }).unplugged(id).deferred.push(event)
            }
            &&& after == (State {
                devices: after.devices,
                free_devices: after.free_devices,
                deferred: after.deferred,
                propagated: after.propagated,
                pressed: after.pressed,
                changed: after.changed,
                suppressed: after.suppressed,
                ..state
            })
        }),
{
    reveal(Seq::filter);
    let after = state.unplugged(id);
    if exists|key: u16| #[trigger] after.pressed.contains_key(key) {
        let key = choose|key: u16| #[trigger] after.pressed.contains_key(key);
        assert(after.pressed.dom().contains(key));
    } else {
        assert forall|key: u16| !after.pressed.dom().contains(key) by {
            assert(!after.pressed.contains_key(key));
        }
        assert(after.pressed.dom() =~= Set::<u16>::empty());
    }
    if state.deferred == before.push(event) {
        assert(state.deferred.drop_last() =~= before);
    }
}

/// A client that connects is told each device once, in the order of their slots and as it is, and
/// nothing else.
pub proof fn law_greeting_tells_the_devices(state: State)
    requires
        state.wf(),
    ensures
        ({
            let told = state.greeting();
            &&& forall|i: int|
                0 <= i < told.len() ==> (
                #[trigger] told[i] matches News::CreateDevice { id, device }
                    && state.devices.contains_key(id) && device == state.devices[id]@)
            &&& forall|i: int, j: int|
                0 <= i < j < told.len() ==> (#[trigger] told[i])->CreateDevice_id < (
                #[trigger] told[j])->CreateDevice_id
            &&& forall|id: usize| #[trigger]
                state.devices.contains_key(id) ==> told.contains(
                    News::CreateDevice { id, device: state.devices[id]@ },
                )
        }),
{
    let devices = state.devices.dom();
    let slots = in_order(devices);
    let told = state.greeting();
    lemma_listed(devices);
    assert forall|i: int| 0 <= i < told.len() implies (
    #[trigger] told[i] matches News::CreateDevice { id, device } && state.devices.contains_key(id)
        && device == state.devices[id]@) by {
        assert(slots.to_set().contains(slots[i]));
    }
    assert forall|i: int, j: int| 0 <= i < j < told.len() implies (
    #[trigger] told[i])->CreateDevice_id < (#[trigger] told[j])->CreateDevice_id by {
        assert(slots[i] < slots[j]);
    }
    assert forall|id: usize| #[trigger] state.devices.contains_key(id) implies told.contains(
        News::CreateDevice { id, device: state.devices[id]@ },
    ) by {
        assert(slots.to_set().contains(id));
        let i = choose|i: int| 0 <= i < slots.len() && slots[i] == id;
        assert(told[i] == News::CreateDevice { id, device: state.devices[id]@ });
    }
}

/// A client that is registered is added in a slot that was free, and nothing else changes. It is
/// sent what is on the shared clipboard, if anything is, and nothing else. A name is known if a
/// client goes by it already.
pub proof fn law_what_registering_does(
    state: State,
    client: Client,
    slot: usize,
    name: Seq<char>,
    contents: Contents,
)
    requires
        state.wf(),
    ensures
        ({
            let own = state.next_client();
            let after = state.joined(client);
            &&& !state.clients.contains_key(own)
            &&& after.clients.contains_key(slot) <==> slot == own || state.clients.contains_key(
                slot,
            )
            &&& after.clients[own] == client
            &&& state.clients.contains_key(slot) ==> after.clients[slot] == state.clients[slot]
            &&& after == (State {
                clients: after.clients,
                free_clients: after.free_clients,
                ..state
            })
            &&& state.clipboard is None ==> state.gift(own).len() == 0
            &&& state.clipboard == Some(contents) ==> state.gift(own) == seq![
                Deed::Send { client: own, update: News::Clipboard(contents) },
            ]
            &&& state.known(name) <==> exists|other: usize| #[trigger]
                state.clients.contains_key(other) && called(state.clients[other], name)
        }),
{
    lemma_next_is_free(state.clients.dom(), state.free_clients);
    if state.known(name) {
        let other = choose|other: usize| #[trigger]
            state.clients.contains_key(other) && state.clients[other].named(name);
        assert(state.clients.contains_key(other) && called(state.clients[other], name));
    }
    if exists|other: usize| #[trigger]
        state.clients.contains_key(other) && called(state.clients[other], name) {
        let other = choose|other: usize| #[trigger]
            state.clients.contains_key(other) && called(state.clients[other], name);
        assert(state.clients.contains_key(other) && state.clients[other].named(name));
    }
}

/// What is copied is what is on the shared clipboard from then on, and nothing else changes.
pub proof fn law_what_copying_does(state: State, contents: Contents)
    ensures
        state.holding(contents).clipboard == Some(contents),
        state.holding(contents) == (State { clipboard: Some(contents), ..state }),
{
}

} // verus!
