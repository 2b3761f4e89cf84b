//! Key combinations that move control.
use crate::state::{Aim, Combination};
use std::collections::HashSet;
use vstd::prelude::*;

verus! {

/// Where a shortcut leads.
#[derive(Debug)]
pub enum Target {
    /// To the next machine.
    Cycle,
    /// To the machine that has the keyboard.
    Server,
    /// To the client of that name.
    Client(String),
}

impl View for Target {
    type V = Aim;

    open spec fn view(&self) -> Aim {
        match *self {
            Target::Cycle => Aim::Cycle,
            Target::Server => Aim::Server,
            Target::Client(name) => Aim::Client(name@),
        }
    }
}

/// Keys that lead somewhere when they are held together.
#[derive(Debug)]
pub struct Shortcut {
    pub keys: HashSet<u16>,
    pub target: Target,
}

impl View for Shortcut {
    type V = Combination;

    open spec fn view(&self) -> Combination {
        Combination { keys: self.keys@, aim: self.target@ }
    }
}

/// The machine that a `[switch-to]` entry of that name leads to: `server` is the one that has
/// the keyboard, and anything else is the name of a client.
pub open spec fn aim_at(name: Seq<char>) -> Aim {
    if name == "server"@ {
        Aim::Server
    } else {
        Aim::Client(name)
    }
}

/// The shortcuts of a configuration, as it writes them down.
pub open spec fn combined(
    switch_keys: Seq<u16>,
    switch_to: Seq<(String, Vec<u16>)>,
) -> Seq<Combination> {
    seq![Combination { keys: switch_keys.to_set(), aim: Aim::Cycle }] + switch_to.map_values(
        |entry: (String, Vec<u16>)|
            Combination { keys: entry.1@.to_set(), aim: aim_at(entry.0@) },
    )
}

/// Whether `key` occurs in a shortcut.
pub open spec fn occurs(combinations: Seq<Combination>, key: u16) -> bool {
    exists|i: int| 0 <= i < combinations.len() && (#[trigger] combinations[i]).keys.contains(key)
}

/// The keys that occur in a shortcut.
pub open spec fn occurring(combinations: Seq<Combination>) -> Set<u16> {
    Set::new(|key: u16| occurs(combinations, key))
}

/// The keys in a list, each once.
fn set_of(list: &Vec<u16>) -> (r: HashSet<u16>)
    ensures
        r@ == list@.to_set(),
{
    broadcast use vstd::std_specs::hash::group_hash_axioms;

    let mut r: HashSet<u16> = HashSet::new();
    let mut i: usize = 0;
    while i < list.len()
        invariant
            i <= list@.len(),
            r@ == list@.take(i as int).to_set(),
        decreases list.len() - i,
    {
        proof {
            assert(list@.take(i + 1) =~= list@.take(i as int).push(list@[i as int]));
            assert forall|key: u16| list@.take(i + 1).to_set().contains(key) == list@.take(
                i as int,
            ).to_set().insert(list@[i as int]).contains(key) by {
                let before = list@.take(i as int);
                if before.contains(key) {
                    let k = choose|k: int| 0 <= k < before.len() && before[k] == key;
                    assert(list@.take(i + 1)[k] == key);
                }
                assert(list@.take(i + 1)[i as int] == list@[i as int]);
            }
            assert(list@.take(i + 1).to_set() =~= list@.take(i as int).to_set().insert(
                list@[i as int],
            ));
        }
        r.insert(list[i]);
        i += 1;
    }
    assert(list@.take(i as int) =~= list@);
    r
}

/// The shortcuts of a configuration: one that moves control from each machine to the next, and
/// those that lead to one machine.
pub fn shortcuts(switch_keys: &Vec<u16>, switch_to: &Vec<(String, Vec<u16>)>) -> (r: Vec<Shortcut>)
    ensures
        r@.map_values(|shortcut: Shortcut| shortcut@) == combined(switch_keys@, switch_to@),
{
    let mut r: Vec<Shortcut> = Vec::new();
    r.push(Shortcut { keys: set_of(switch_keys), target: Target::Cycle });
    let mut i: usize = 0;
    while i < switch_to.len()
        invariant
            i <= switch_to@.len(),
            r@.map_values(|shortcut: Shortcut| shortcut@) == combined(
                switch_keys@,
                switch_to@.take(i as int),
            ),
        decreases switch_to.len() - i,
    {
        let name = &switch_to[i].0;
        let target = if crate::text::same(name.as_str(), "server") {
            Target::Server
        } else {
            Target::Client(name.clone())
        };
        let ghost before = r@;
        r.push(Shortcut { keys: set_of(&switch_to[i].1), target });
        proof {
            assert(switch_to@.take(i + 1) =~= switch_to@.take(i as int).push(
                switch_to@[i as int],
            ));
            assert(r@.map_values(|shortcut: Shortcut| shortcut@) =~= before.map_values(
                |shortcut: Shortcut| shortcut@,
            ).push(r@.last()@));
            assert(r@.last()@ == Combination {
                keys: switch_to@[i as int].1@.to_set(),
                aim: aim_at(switch_to@[i as int].0@),
            });
            assert(combined(switch_keys@, switch_to@.take(i + 1)) =~= combined(
                switch_keys@,
                switch_to@.take(i as int),
            ).push(r@.last()@));
        }
        i += 1;
    }
    assert(switch_to@.take(i as int) =~= switch_to@);
    r
}

/// Whether a shortcut has no keys.
pub fn any_empty(shortcuts: &Vec<Shortcut>) -> (r: bool)
    ensures
        r == exists|i: int|
            0 <= i < shortcuts@.len() && (#[trigger] shortcuts@[i])@.keys.len() == 0,
{
    broadcast use vstd::std_specs::hash::group_hash_axioms;

    let mut i: usize = 0;
    while i < shortcuts.len()
        invariant
            i <= shortcuts@.len(),
            forall|j: int| 0 <= j < i ==> (#[trigger] shortcuts@[j])@.keys.len() != 0,
        decreases shortcuts.len() - i,
    {
        if shortcuts[i].keys.len() == 0 {
            assert(shortcuts@[i as int]@.keys.len() == 0);
            return true;
        }
        i += 1;
    }
    false
}

/// The keys that occur in a shortcut.
pub fn keys_of(shortcuts: &Vec<Shortcut>) -> (r: HashSet<u16>)
    ensures
        r@ == occurring(shortcuts@.map_values(|shortcut: Shortcut| shortcut@)),
{
    broadcast use vstd::std_specs::hash::group_hash_axioms;

    let ghost all = shortcuts@.map_values(|shortcut: Shortcut| shortcut@);
    let mut r: HashSet<u16> = HashSet::new();
    let mut i: usize = 0;
    while i < shortcuts.len()
        invariant
            i <= shortcuts@.len(),
            all == shortcuts@.map_values(|shortcut: Shortcut| shortcut@),
            forall|key: u16| #[trigger]
                r@.contains(key) <==> exists|j: int|
                    0 <= j < i && (#[trigger] all[j]).keys.contains(key),
        decreases shortcuts.len() - i,
    {
        let keys = &shortcuts[i].keys;
        let ghost before = r@;
        let ghost listed = vstd::std_specs::iter::IteratorSpec::remaining(
            &vstd::std_specs::hash::spec_hash_keys_iter(keys),
        );
        for key in it: keys.iter()
            invariant
                it.seq() == listed,
                listed.unref().to_set() == keys@,
                forall|key: u16| before.contains(key) ==> #[trigger] r@.contains(key),
                forall|j: int| 0 <= j < it.index() ==> r@.contains(*#[trigger] listed[j]),
                forall|key: u16| #[trigger]
                    r@.contains(key) ==> before.contains(key) || keys@.contains(key),
        {
            assert(listed.unref()[it.index()] == *key);
            r.insert(*key);
        }
        proof {
            assert(all[i as int].keys == keys@);
            assert forall|key: u16| keys@.contains(key) implies #[trigger] r@.contains(key) by {
                assert(listed.unref().contains(key));
                let j = choose|j: int| 0 <= j < listed.unref().len() && listed.unref()[j] == key;
                assert(*listed[j] == key);
            }
        }
        i += 1;
    }
    assert(r@ =~= occurring(all));
    r
}

} // verus!
