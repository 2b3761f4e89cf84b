//! What can be relied on, whatever happens to the server.
use crate::action::Deed;
use crate::client::Client;
use crate::clipboard::Contents;
use crate::device::Device;
use crate::event::{Event, KeyEvent};
use crate::shell::hook_text;
use crate::shortcut::aim_at;
use crate::slots::{in_order, lemma_listed, lemma_next_is_free, listed};
use crate::state::{
    complete, down_after, follows, goes_by, lemma_after_keeps_wf, lemma_filter_source,
    lemma_goal_is_there, lemma_known, lemma_none_down, lemma_one_left, machine_named,
    next_machine, not_of, numbered, occupied, sync, wins, Combination, State,
};
use crate::update::News;
use vstd::prelude::*;

verus! {

/// The machine that is reached from the server by moving on `steps` times.
pub open spec fn reached(clients: Map<usize, Client>, steps: nat) -> usize
    decreases steps,
{
    if steps == 0 {
        0
    } else {
        next_machine(clients, reached(clients, (steps - 1) as nat))
    }
}

/// Moving on from the server visits the clients one after the other, each once, and then wraps
/// back around to the server.
pub proof fn law_cycle_visits_all(clients: Map<usize, Client>, order: Seq<usize>)
    requires
        listed(order, clients.dom()),
        numbered(clients),
    ensures
        forall|i: int| 0 <= i < order.len() ==> reached(clients, (i + 1) as nat) == #[trigger]
            order[i] + 1,
        reached(clients, (order.len() + 1) as nat) == 0,
{
    assert forall|i: int| 0 <= i < order.len() implies reached(clients, (i + 1) as nat)
        == #[trigger] order[i] + 1 by {
        lemma_reached(clients, order, i);
    }
    let n = order.len();
    let last = reached(clients, n);
    if n > 0 {
        lemma_reached(clients, order, n - 1);
        assert(reached(clients, n) == order[n - 1] + 1);
    }
    assert forall|machine: usize| !follows(clients, last, machine) by {
        if occupied(clients, machine) {
            let slot = (machine - 1) as usize;
            assert(order.to_set().contains(slot));
            let k = choose|k: int| 0 <= k < order.len() && order[k] == slot;
            if k < n - 1 {
                assert(order[k] < order[n - 1]);
            }
        }
    }
}

proof fn lemma_reached(clients: Map<usize, Client>, order: Seq<usize>, i: int)
    requires
        listed(order, clients.dom()),
        numbered(clients),
        0 <= i < order.len(),
    ensures
        reached(clients, (i + 1) as nat) == order[i] + 1,
    decreases i,
{
    let before = reached(clients, i as nat);
    if i > 0 {
        lemma_reached(clients, order, i - 1);
        assert(order[i - 1] < order[i]);
    }
    assert(order.to_set().contains(order[i]));
    assert(clients.contains_key(order[i]));
    let machine = (order[i] + 1) as usize;
    assert forall|other: usize| #[trigger]
        occupied(clients, other) && other > before implies machine <= other by {
        assert(order.to_set().contains((other - 1) as usize));
        let k = choose|k: int| 0 <= k < order.len() && order[k] == other - 1;
        if k < i - 1 {
            assert(order[k] < order[i - 1]);
        }
        if k > i {
            assert(order[i] < order[k]);
        }
    }
    assert(follows(clients, before, machine));
    let chosen = next_machine(clients, before);
    assert(follows(clients, before, chosen));
    assert(occupied(clients, chosen) && occupied(clients, machine));
}

proof fn lemma_winner(combinations: Seq<Combination>, held: Map<u16, usize>, count: int) -> (r: int)
    requires
        0 <= count <= combinations.len(),
        exists|i: int| #[trigger] complete(combinations, i, held) && i < count,
    ensures
        complete(combinations, r, held),
        r < count,
        forall|j: int| #[trigger]
            complete(combinations, j, held) && j < count ==> {
                &&& combinations[j].keys.len() <= combinations[r].keys.len()
                &&& j < r ==> combinations[j].keys.len() < combinations[r].keys.len()
            },
    decreases count,
{
    let last = count - 1;
    if exists|i: int| #[trigger] complete(combinations, i, held) && i < last {
        let before = lemma_winner(combinations, held, last);
        if complete(combinations, last, held) && combinations[last].keys.len()
            > combinations[before].keys.len() {
            last
        } else {
            before
        }
    } else {
        last
    }
}

/// When a switch key goes down and all keys of a shortcut are held, a shortcut is completed. It
/// is a complete one, and no other that is complete has more keys: a longer combination wins over
/// a shorter one that it contains.
pub proof fn law_longest_combination_wins(state: State, id: usize, event: Event, i: int)
    requires
        state.press(event),
        complete(state.combinations, i, state.held(id, event)),
    ensures
        state.completed(id, event) matches Some(w) && complete(
            state.combinations,
            w,
            state.held(id, event),
        ) && state.combinations[i].keys.len() <= state.combinations[w].keys.len(),
{
    let held = state.held(id, event);
    let w = lemma_winner(state.combinations, held, state.combinations.len() as int);
    assert(wins(state.combinations, w, held));
}

/// Only a switch key that goes down moves control. On any other event nothing is done, and the
/// same machine stays in control.
pub proof fn law_only_a_press_switches(state: State, id: usize, event: Event)
    requires
        !state.press(event),
    ensures
        state.after(id, event).current == state.current,
        state.reaction(id, event) == Seq::<Deed>::empty(),
{
}

/// The name `server` leads to the machine that has the keyboard, so there is a way back from
/// anywhere.
pub proof fn law_way_back(state: State)
    ensures
        state.goal(aim_at("server"@)) == Some(0usize),
{
}

/// Any other name leads to a client that goes by it, if one is connected, and nowhere if not.
pub proof fn law_name_leads_to_its_machine(state: State, name: Seq<char>)
    requires
        state.wf(),
        name != "server"@,
    ensures
        state.goal(aim_at(name)) is Some <==> state.known(name),
        state.goal(aim_at(name)) matches Some(machine) ==> occupied(state.clients, machine)
            && state.clients[(machine - 1) as usize].named(name),
{
    lemma_known(state, name);
    if machine_named(state.clients, name) is Some {
        let slot = choose|slot: usize| goes_by(state.clients, slot, name);
        assert(state.clients.contains_key(slot));
    }
}

/// The events that an event stands for: a group of its own, if it is of a switch key.
pub open spec fn group(state: State, id: usize, event: Event) -> Seq<(usize, Event)> {
    if state.of_switch_key(event) {
        seq![(id, event), sync(id)]
    } else {
        seq![(id, event)]
    }
}

/// Where switch keys reach the machine that is being controlled, every event is passed on at
/// once, those that complete a shortcut too.
pub proof fn law_propagating_passes_at_once(
    state: State,
    id: usize,
    event: Event,
    events: Seq<(usize, Event)>,
)
    requires
        state.wf(),
        state.propagate,
        state.delivers(id, event, events),
    ensures
        events == group(state, id, event),
{
    assert(events =~= group(state, id, event));
}

/// On its own a switch key works normally: held and released with no other switch key held, and
/// with no shortcut that consists of it alone, both of its events reach the machine that is being
/// controlled, after what was held back before, and nothing else changes.
pub proof fn law_keys_work_on_their_own(
    state: State,
    id: usize,
    key: u16,
    first: Seq<(usize, Event)>,
    second: Seq<(usize, Event)>,
)
    requires
        state.wf(),
        state.switch_keys.contains(key),
        state.pressed == Map::<u16, usize>::empty(),
        state.completed(id, Event::Key(KeyEvent { key, down: true })) is None,
        ({
            let down = Event::Key(KeyEvent { key, down: true });
            let up = Event::Key(KeyEvent { key, down: false });
            state.delivers(id, down, first) && state.after(id, down).delivers(id, up, second)
        }),
    ensures
        ({
            let down = Event::Key(KeyEvent { key, down: true });
            let up = Event::Key(KeyEvent { key, down: false });
            let after = state.after(id, down).after(id, up);
            &&& first + second == state.deferred + seq![(id, down), sync(id), (id, up), sync(id)]
            &&& state.addressee(id, down) == state.current
            &&& state.after(id, down).addressee(id, up) == state.current
            &&& after.current == state.current
            &&& after.pressed == Map::<u16, usize>::empty()
            &&& after.deferred == Seq::<(usize, Event)>::empty()
            &&& !after.suppressed
            &&& !after.changed
        }),
{
    let down = Event::Key(KeyEvent { key, down: true });
    let up = Event::Key(KeyEvent { key, down: false });
    let middle = state.after(id, down);
    assert(middle.pressed.contains_key(key));
    assert(middle.completed(id, up) is None);
    assert(middle.held(id, up) =~= Map::<u16, usize>::empty());
    assert(middle.held(id, up).is_empty());
    assert(!middle.pressed.is_empty()) by {
        assert(middle.pressed.dom().contains(key));
    }
    assert(first + second =~= state.deferred + seq![(id, down), sync(id), (id, up), sync(id)]);
}

/// What was let through of the switch keys is tracked: the ones that are down on the other side
/// are those that the state remembers.
pub proof fn law_let_through_is_tracked(
    state: State,
    id: usize,
    event: Event,
    events: Seq<(usize, Event)>,
)
    requires
        state.wf(),
        !state.propagate,
        state.delivers(id, event, events),
    ensures
        state.after(id, event).propagated == down_after(
            state.propagated,
            state.switch_keys,
            events,
        ),
{
    if state.withheld(event) && state.completed(id, event) is Some {
        lemma_none_down(state.propagated, state.switch_keys, events);
    }
}

/// No switch key stays stuck down on the machine that control moves away from: what reaches it
/// when a shortcut is completed releases all that was let through, and nothing more of the
/// shortcut is passed on.
pub proof fn law_nothing_stays_stuck(
    state: State,
    id: usize,
    event: Event,
    events: Seq<(usize, Event)>,
)
    requires
        state.wf(),
        !state.propagate,
        state.completed(id, event) is Some,
        state.delivers(id, event, events),
    ensures
        down_after(state.propagated, state.switch_keys, events) == Map::<u16, usize>::empty(),
        state.addressee(id, event) == state.current,
        state.after(id, event).deferred == Seq::<(usize, Event)>::empty(),
        state.after(id, event).suppressed,
{
    lemma_none_down(state.propagated, state.switch_keys, events);
}

/// After a shortcut was completed, the events of switch keys are swallowed until all of them are
/// released, unless another shortcut is completed.
pub proof fn law_swallowed_until_released(state: State, id: usize, event: Event)
    requires
        state.wf(),
        state.suppressed,
        state.of_switch_key(event),
        state.completed(id, event) is None,
    ensures
        state.delivers(id, event, seq![]),
        state.passed(id, event) == Seq::<(usize, Event)>::empty(),
        state.after(id, event).suppressed <==> !state.held(id, event).is_empty(),
{
    assert(state.passed(id, event) =~= seq![]);
}

/// Input goes to the machine that is being controlled: always if it is not of a switch key, and
/// if it is of one, as long as no shortcut was completed since it could have been held.
pub proof fn law_input_goes_to_the_controlled_machine(state: State, id: usize, event: Event)
    requires
        !state.of_switch_key(event) || !state.changed,
    ensures
        state.addressee(id, event) == state.current,
{
}

/// The state after several events, each with the device it is from.
pub open spec fn run(state: State, inputs: Seq<(usize, Event)>) -> State
    decreases inputs.len(),
{
    if inputs.len() == 0 {
        state
    } else {
        let (id, event) = inputs.last();
        run(state, inputs.drop_last()).after(id, event)
    }
}

/// What is let through of several events that complete no shortcut.
pub open spec fn output(state: State, inputs: Seq<(usize, Event)>) -> Seq<(usize, Event)>
    decreases inputs.len(),
{
    if inputs.len() == 0 {
        seq![]
    } else {
        let (id, event) = inputs.last();
        output(state, inputs.drop_last()) + run(state, inputs.drop_last()).passed(id, event)
    }
}

/// The events that several events stand for.
pub open spec fn groups(state: State, inputs: Seq<(usize, Event)>) -> Seq<(usize, Event)>
    decreases inputs.len(),
{
    if inputs.len() == 0 {
        seq![]
    } else {
        let (id, event) = inputs.last();
        groups(state, inputs.drop_last()) + group(state, id, event)
    }
}

/// Whether several events complete no shortcut.
pub open spec fn uneventful(state: State, inputs: Seq<(usize, Event)>) -> bool
    decreases inputs.len(),
{
    inputs.len() > 0 ==> {
        let (id, event) = inputs.last();
        &&& uneventful(state, inputs.drop_last())
        &&& run(state, inputs.drop_last()).devices.contains_key(id)
        &&& run(state, inputs.drop_last()).completed(id, event) is None
    }
}

/// A shortcut that was completed lasts until all switch keys are released, whichever of them
/// remain held: what it changed is remembered.
pub proof fn law_combination_lasts_while_held(state: State, id: usize, event: Event)
    requires
        state.changed,
        state.completed(id, event) is None,
        !state.held(id, event).is_empty(),
    ensures
        state.after(id, event).changed,
        state.after(id, event).previous == state.previous,
{
}

/// Keys are released where they were pressed: after a shortcut was completed, and as long as
/// switch keys are held ever since and no other shortcut is completed, the events of switch keys
/// go to the machine that was being controlled when it was completed.
pub proof fn law_released_where_pressed(
    state: State,
    id: usize,
    event: Event,
    inputs: Seq<(usize, Event)>,
    other: usize,
    next: Event,
)
    requires
        state.completed(id, event) is Some,
        uneventful(state.after(id, event), inputs),
        run(state.after(id, event), inputs).changed,
        run(state.after(id, event), inputs).of_switch_key(next),
        run(state.after(id, event), inputs).completed(other, next) is None,
    ensures
        run(state.after(id, event), inputs).addressee(other, next) == state.current,
{
    lemma_previous_stays(state.after(id, event), inputs);
}

proof fn lemma_previous_stays(state: State, inputs: Seq<(usize, Event)>)
    requires
        uneventful(state, inputs),
    ensures
        run(state, inputs).previous == state.previous,
    decreases inputs.len(),
{
    if inputs.len() > 0 {
        lemma_previous_stays(state, inputs.drop_last());
    }
}

/// As long as no shortcut is completed, nothing is lost, added or reordered: what was let through
/// and what is still held back are all the events there were, in order.
pub proof fn law_nothing_is_lost(state: State, inputs: Seq<(usize, Event)>)
    requires
        state.wf(),
        !state.suppressed,
        uneventful(state, inputs),
    ensures
        output(state, inputs) + run(state, inputs).deferred == state.deferred + groups(
            state,
            inputs,
        ),
    decreases inputs.len(),
{
    lemma_run(state, inputs);
    if inputs.len() == 0 {
        assert(output(state, inputs) + state.deferred =~= state.deferred + groups(state, inputs));
    } else {
        let fewer = inputs.drop_last();
        let (id, event) = inputs.last();
        let before = run(state, fewer);
        lemma_run(state, fewer);
        law_nothing_is_lost(state, fewer);
        assert(before.passed(id, event) + before.deferred_after(id, event) =~= before.deferred
            + group(before, id, event));
        assert(output(state, inputs) + run(state, inputs).deferred =~= output(state, fewer) + (
        before.passed(id, event) + before.deferred_after(id, event)));
        assert(output(state, fewer) + (before.deferred + group(before, id, event)) =~= (output(
            state,
            fewer,
        ) + before.deferred) + group(before, id, event));
        assert(state.deferred + groups(state, inputs) =~= (state.deferred + groups(state, fewer))
            + group(before, id, event));
    }
}

proof fn lemma_run(state: State, inputs: Seq<(usize, Event)>)
    requires
        state.wf(),
        !state.suppressed,
        uneventful(state, inputs),
    ensures
        run(state, inputs).wf(),
        !run(state, inputs).suppressed,
        run(state, inputs).switch_keys == state.switch_keys,
    decreases inputs.len(),
{
    if inputs.len() > 0 {
        let (id, event) = inputs.last();
        lemma_run(state, inputs.drop_last());
        lemma_after_keeps_wf(run(state, inputs.drop_last()), id, event);
    }
}

/// Events are held back no longer than needed: once no switch key is held, or anything else
/// happens, none is.
pub proof fn law_held_back_no_longer_than_needed(state: State, id: usize, event: Event)
    requires
        state.held(id, event).is_empty() || !state.of_switch_key(event),
    ensures
        state.after(id, event).deferred == Seq::<(usize, Event)>::empty(),
{
}

/// Control can only be with the server or with a client that is connected, after an event too.
pub proof fn law_control_is_with_a_machine(state: State, id: usize, event: Event)
    requires
        state.wf(),
        state.devices.contains_key(id),
    ensures
        ({
            let after = state.after(id, event);
            after.current == 0 || occupied(after.clients, after.current)
        }),
{
    lemma_after_keeps_wf(state, id, event);
}

/// The command that is configured for switches runs every time control moves, and is told where
/// to: when an event moves it, and when the client that was being controlled is gone.
pub proof fn law_hook_runs_on_every_move(
    state: State,
    id: usize,
    event: Event,
    gone: Set<usize>,
    command: Seq<char>,
)
    requires
        state.on_switch == Some(command),
    ensures
        ({
            let machine = state.after(id, event).current;
            machine != state.current ==> state.reaction(id, event).contains(
                Deed::Run(hook_text(command, "RKVM_TARGET"@, state.label(machine))),
            )
        }),
        state.without(gone).current != state.current ==> state.farewell(gone).contains(
            Deed::Run(hook_text(command, "RKVM_TARGET"@, "server"@)),
        ),
{
    let machine = state.after(id, event).current;
    if machine != state.current {
        let notices = state.notice(state.current, false) + state.notice(machine, true);
        let run = Deed::Run(hook_text(command, "RKVM_TARGET"@, state.label(machine)));
        assert(state.reaction(id, event)[notices.len() as int] == run);
    }
    if state.without(gone).current != state.current {
        assert(state.farewell(gone)[0] == Deed::Run(
            hook_text(command, "RKVM_TARGET"@, "server"@),
        ));
    }
}

/// When an event moves control, the client that loses it and the client that gains it are told.
pub proof fn law_clients_are_told_of_a_move(state: State, id: usize, event: Event)
    requires
        state.wf(),
        state.after(id, event).current != state.current,
    ensures
        state.current != 0 ==> state.reaction(id, event).contains(
            Deed::Send { client: (state.current - 1) as usize, update: News::Active(false) },
        ),
        ({
            let machine = state.after(id, event).current;
            machine != 0 ==> state.reaction(id, event).contains(
                Deed::Send { client: (machine - 1) as usize, update: News::Active(true) },
            )
        }),
{
    let machine = state.after(id, event).current;
    lemma_goal_is_there(state, state.combinations[state.completed(id, event)->0].aim);
    let first = state.notice(state.current, false);
    if state.current != 0 {
        assert(state.reaction(id, event)[0] == first[0]);
    }
    if machine != 0 {
        assert(state.reaction(id, event)[first.len() as int] == state.notice(machine, true)[0]);
    }
}

/// The caps lock lights after some deeds, if `lights` were on before.
pub open spec fn lit(lights: Set<usize>, deeds: Seq<Deed>) -> Set<usize>
    decreases deeds.len(),
{
    if deeds.len() == 0 {
        lights
    } else {
        let before = lit(lights, deeds.drop_last());
        match deeds.last() {
            Deed::Light { device, on } => if on {
                before.insert(device)
            } else {
                before.remove(device)
            },
            _ => before,
        }
    }
}

/// Whether the lights of all devices show whether a client is being controlled.
pub open spec fn shown(state: State, lights: Set<usize>) -> bool {
    forall|device: usize| #[trigger]
        state.devices.contains_key(device) ==> (lights.contains(device) <==> state.current != 0)
}

proof fn lemma_lit_concat(lights: Set<usize>, a: Seq<Deed>, b: Seq<Deed>)
    ensures
        lit(lights, a + b) == lit(lit(lights, a), b),
    decreases b.len(),
{
    if b.len() == 0 {
        assert(a + b =~= a);
    } else {
        assert((a + b).drop_last() =~= a + b.drop_last());
        lemma_lit_concat(lights, a, b.drop_last());
    }
}

proof fn lemma_unlit(lights: Set<usize>, deeds: Seq<Deed>)
    requires
        forall|i: int| 0 <= i < deeds.len() ==> !(#[trigger] deeds[i] is Light),
    ensures
        lit(lights, deeds) == lights,
    decreases deeds.len(),
{
    if deeds.len() > 0 {
        assert(!(deeds[deeds.len() - 1] is Light));
        assert forall|i: int| 0 <= i < deeds.drop_last().len() implies !(
        #[trigger] deeds.drop_last()[i] is Light) by {
            assert(!(deeds[i] is Light));
        }
        lemma_unlit(lights, deeds.drop_last());
    }
}

proof fn lemma_all_lit(lights: Set<usize>, devices: Seq<usize>, on: bool, device: usize)
    ensures
        ({
            let deeds = devices.map_values(|device: usize| Deed::Light { device, on });
            lit(lights, deeds).contains(device) <==> if devices.contains(device) {
                on
            } else {
                lights.contains(device)
            }
        }),
    decreases devices.len(),
{
    let deeds = devices.map_values(|device: usize| Deed::Light { device, on });
    if devices.len() > 0 {
        let fewer = devices.drop_last();
        lemma_all_lit(lights, fewer, on, device);
        assert(deeds.drop_last() =~= fewer.map_values(|device: usize| Deed::Light { device, on }));
        assert(devices =~= fewer.push(devices.last()));
        if fewer.contains(device) {
            let i = choose|i: int| 0 <= i < fewer.len() && fewer[i] == device;
            assert(devices[i] == device);
        }
        if devices.last() == device {
            assert(devices[devices.len() - 1] == device);
        }
    }
}

proof fn lemma_lights(state: State, lights: Set<usize>, on: bool, device: usize)
    requires
        state.wf(),
        state.indicator,
        state.devices.contains_key(device),
    ensures
        lit(lights, state.lights(on)).contains(device) <==> on,
{
    lemma_listed(state.devices.dom());
    let devices = in_order(state.devices.dom());
    assert(devices.to_set().contains(device));
    lemma_all_lit(lights, devices, on, device);
}

/// Where the caps lock light is the indicator, it is on while a client is being controlled, and
/// off while the server is: events keep it so.
pub proof fn law_light_shows_control(state: State, id: usize, event: Event, lights: Set<usize>)
    requires
        state.wf(),
        state.indicator,
        shown(state, lights),
    ensures
        shown(state.after(id, event), lit(lights, state.reaction(id, event))),
{
    let after = state.after(id, event);
    match state.moves_to(id, event) {
        Some(machine) => {
            let notices = if machine != state.current {
                state.notice(state.current, false) + state.notice(machine, true)
            } else {
                seq![]
            };
            let first = notices + state.hook(machine);
            assert forall|i: int| 0 <= i < first.len() implies !(#[trigger] first[i] is Light) by {
                if i < notices.len() {
                    assert(first[i] == notices[i]);
                }
            }
            lemma_unlit(lights, first);
            lemma_lit_concat(lights, first, state.lights(machine != 0));
            assert forall|device: usize| #[trigger] after.devices.contains_key(device) implies (lit(
                lights,
                state.reaction(id, event),
            ).contains(device) <==> after.current != 0) by {
                lemma_lights(state, lights, machine != 0, device);
            }
        },
        None => {},
    }
}

/// The light goes off when control falls back to the server because clients are gone.
pub proof fn law_light_goes_off(state: State, gone: Set<usize>, lights: Set<usize>)
    requires
        state.wf(),
        state.indicator,
        shown(state, lights),
    ensures
        shown(state.without(gone), lit(lights, state.farewell(gone))),
{
    let after = state.without(gone);
    if after.current != state.current {
        lemma_unlit(lights, state.hook(0));
        lemma_lit_concat(lights, state.hook(0), state.lights(false));
        assert forall|device: usize| #[trigger] after.devices.contains_key(device) implies (lit(
            lights,
            state.farewell(gone),
        ).contains(device) <==> after.current != 0) by {
            lemma_lights(state, lights, false, device);
        }
    }
}

/// A device that is new, with its light off, takes part at once, and one that is gone leaves the
/// others as they are.
pub proof fn law_light_of_a_new_device(
    state: State,
    device: Device,
    lights: Set<usize>,
    gone: usize,
)
    requires
        state.wf(),
        state.indicator,
        shown(state, lights),
        !lights.contains(state.next_device()),
    ensures
        shown(
            state.plugged(device),
            lit(lights, state.introduction(state.next_device(), device)),
        ),
        shown(state.unplugged(gone), lights),
{
    let id = state.next_device();
    lemma_next_is_free(state.devices.dom(), state.free_devices);
    let news = News::CreateDevice { id, device: device@ };
    let told = state.send_all(news);
    lemma_unlit(lights, told);
    let on = seq![Deed::Light { device: id, on: true }];
    if state.current != 0 {
        lemma_lit_concat(lights, told, on);
        reveal_with_fuel(lit, 2);
        assert(on.drop_last() =~= seq![]);
        assert(state.introduction(id, device) =~= told + on);
        assert(lit(lights, told + on) =~= lights.insert(id));
    } else {
        assert(state.introduction(id, device) =~= told);
    }
}

/// A device that is gone leaves no trace: nothing that came from it is held, held back or let
/// through any more, and what came from other devices stays.
pub proof fn law_gone_device_leaves_no_trace(state: State, id: usize)
    ensures
        ({
            let after = state.unplugged(id);
            &&& !after.devices.contains_key(id)
            &&& forall|key: u16| #[trigger] after.pressed.contains_key(key) ==> after.pressed[key]
                != id
            &&& forall|key: u16| #[trigger]
                after.propagated.contains_key(key) ==> after.propagated[key] != id
            &&& forall|i: int| 0 <= i < after.deferred.len() ==> (#[trigger] after.deferred[i]).0
                != id
            &&& forall|key: u16|
                state.pressed.contains_key(key) && state.pressed[key] != id ==> #[trigger]
                after.pressed.contains_key(key) && after.pressed[key] == state.pressed[key]
            &&& forall|key: u16|
                state.propagated.contains_key(key) && state.propagated[key] != id ==> #[trigger]
                after.propagated.contains_key(key) && after.propagated[key]
                    == state.propagated[key]
        }),
{
    let after = state.unplugged(id);
    assert forall|i: int| 0 <= i < after.deferred.len() implies (#[trigger] after.deferred[i]).0
        != id by {
        lemma_filter_source(state.deferred, not_of(id), i);
    }
}

/// A client that connects is told every device that is there, each as it is.
pub proof fn law_new_client_knows_all_devices(state: State, id: usize)
    requires
        state.wf(),
        state.devices.contains_key(id),
    ensures
        state.greeting().contains(News::CreateDevice { id, device: state.devices[id]@ }),
{
    let devices = in_order(state.devices.dom());
    lemma_listed(state.devices.dom());
    assert(devices.to_set().contains(id));
    let i = choose|i: int| 0 <= i < devices.len() && devices[i] == id;
    assert(state.greeting()[i] == News::CreateDevice { id, device: state.devices[id]@ });
}

/// Every client learns of a device that comes or goes.
pub proof fn law_clients_know_of_devices(
    state: State,
    client: usize,
    id: usize,
    device: Device,
)
    requires
        state.wf(),
        state.clients.contains_key(client),
    ensures
        state.introduction(id, device).contains(
            Deed::Send { client, update: News::CreateDevice { id, device: device@ } },
        ),
        state.send_all(News::DestroyDevice { id }).contains(
            Deed::Send { client, update: News::DestroyDevice { id } },
        ),
{
    let clients = in_order(state.clients.dom());
    lemma_listed(state.clients.dom());
    assert(clients.to_set().contains(client));
    let i = choose|i: int| 0 <= i < clients.len() && clients[i] == client;
    let created = News::CreateDevice { id, device: device@ };
    assert(state.send_all(created)[i] == Deed::Send { client, update: created });
    assert(state.introduction(id, device)[i] == state.send_all(created)[i]);
    let destroyed = News::DestroyDevice { id };
    assert(state.send_all(destroyed)[i] == Deed::Send { client, update: destroyed });
}

/// What is copied on one machine becomes available on all of them: every client that is there is
/// sent it, and so is one that is registered later, which has been told every device by then.
pub proof fn law_clipboard_reaches_all(
    state: State,
    contents: Contents,
    client: usize,
    later: usize,
)
    requires
        state.wf(),
        state.clients.contains_key(client),
    ensures
        state.send_all(News::Clipboard(contents)).contains(
            Deed::Send { client, update: News::Clipboard(contents) },
        ),
        state.holding(contents).gift(later) == seq![
            Deed::Send { client: later, update: News::Clipboard(contents) },
        ],
{
    let clients = in_order(state.clients.dom());
    lemma_listed(state.clients.dom());
    assert(clients.to_set().contains(client));
    let i = choose|i: int| 0 <= i < clients.len() && clients[i] == client;
    let news = News::Clipboard(contents);
    assert(state.send_all(news)[i] == Deed::Send { client, update: news });
}

/// What is on the shared clipboard stays there until something else is copied, whatever else
/// happens.
pub proof fn law_clipboard_is_kept(
    state: State,
    id: usize,
    event: Event,
    gone: Set<usize>,
    client: Client,
    device: Device,
)
    ensures
        state.after(id, event).clipboard == state.clipboard,
        state.without(gone).clipboard == state.clipboard,
        state.joined(client).clipboard == state.clipboard,
        state.plugged(device).clipboard == state.clipboard,
        state.unplugged(id).clipboard == state.clipboard,
{
}

/// The slot of a client or of a device that leaves is the next one to be used, and the slots that
/// stay in use are not used twice.
pub proof fn law_left_slot_is_next(state: State, client: usize, device: usize)
    requires
        state.wf(),
        state.clients.contains_key(client),
        state.devices.contains_key(device),
    ensures
        state.without(set![client]).next_client() == client,
        state.unplugged(device).next_device() == device,
        !state.clients.contains_key(state.next_client()),
        !state.devices.contains_key(state.next_device()),
{
    lemma_one_left(state.clients.dom(), client);
    lemma_next_is_free(state.clients.dom(), state.free_clients);
    lemma_next_is_free(state.devices.dom(), state.free_devices);
}

} // verus!
