//! The desktop sessions of logged in users.
use crate::text::{chars, ends_with, join, joined, parse_u32, parsed_u32, starts_with};
use vstd::prelude::*;

verus! {

/// Where each logged in user has a directory, named by the number of the user.
pub const RUNTIME_PATH: &'static str = "/run/user";

/// Users with lower numbers are system users, which have no desktop.
pub const FIRST_USER: u32 = 1000;

/// The program runs as root, with no desktop of its own. Anything it wants to show has to go to
/// the session of a logged in user.
#[derive(Debug)]
pub struct Session {
    pub uid: u32,
    pub runtime: String,
}

/// An entry of a directory: its name, if that is text, and when it was last modified, if that
/// is known.
#[derive(Debug)]
pub struct Entry {
    pub name: Option<String>,
    pub modified: Option<i64>,
}

impl Entry {
    /// The user that the entry is for, if it is for one that can have a desktop.
    pub open spec fn user(self) -> Option<u32> {
        match self.name {
            Some(name) => match parsed_u32(name@) {
                Some(uid) => if uid >= FIRST_USER {
                    Some(uid)
                } else {
                    None
                },
                None => None,
            },
            None => None,
        }
    }

    /// When the user logged in.
    pub open spec fn since(self) -> i64 {
        match self.modified {
            Some(modified) => modified,
            None => 0,
        }
    }

    fn find_user(&self) -> (r: Option<u32>)
        ensures
            r == self.user(),
    {
        match &self.name {
            Some(name) => match parse_u32(name.as_str()) {
                Some(uid) => if uid >= FIRST_USER {
                    Some(uid)
                } else {
                    None
                },
                None => None,
            },
            None => None,
        }
    }

    fn find_since(&self) -> (r: i64)
        ensures
            r == self.since(),
    {
        match self.modified {
            Some(modified) => modified,
            None => 0,
        }
    }
}

/// Whether the user of an entry logged in last. Of those that did at the same time it is the one
/// that is listed last.
pub open spec fn latest(entries: Seq<Entry>, i: int) -> bool {
    &&& 0 <= i < entries.len()
    &&& entries[i].user() is Some
    &&& forall|j: int|
        0 <= j < entries.len() && (#[trigger] entries[j]).user() is Some ==> {
            ||| entries[j].since() < entries[i].since()
            ||| entries[j].since() == entries[i].since() && j <= i
        }
}

/// Whether a name is that of the socket of a display server.
pub open spec fn is_socket(name: Seq<char>) -> bool {
    "wayland-"@.is_prefix_of(name) && !".lock"@.is_suffix_of(name)
}

/// Whether `a` comes before `b` or is the same, where texts are ordered by their characters.
pub open spec fn at_most(a: Seq<char>, b: Seq<char>) -> bool
    decreases a.len(),
{
    if a.len() == 0 {
        true
    } else if b.len() == 0 {
        false
    } else if a[0] == b[0] {
        at_most(a.skip(1), b.skip(1))
    } else {
        a[0] < b[0]
    }
}

/// The name of an entry, if it is that of the socket of a display server.
pub open spec fn socket(name: Option<String>) -> Option<Seq<char>> {
    match name {
        Some(name) => if is_socket(name@) {
            Some(name@)
        } else {
            None
        },
        None => None,
    }
}

/// Whether an entry is the last of those that are sockets of a display server.
pub open spec fn last_socket(names: Seq<Option<String>>, i: int) -> bool {
    &&& 0 <= i < names.len()
    &&& socket(names[i]) is Some
    &&& forall|j: int|
        0 <= j < names.len() && socket(#[trigger] names[j]) is Some ==> at_most(
            socket(names[j])->0,
            socket(names[i])->0,
        )
}

impl Session {
    /// The session of the user that logged in last, given the entries of [`RUNTIME_PATH`].
    pub fn find(entries: &Vec<Entry>) -> (r: Option<Session>)
        ensures
            r is None <==> forall|i: int|
                0 <= i < entries@.len() ==> (#[trigger] entries@[i]).user() is None,
            r matches Some(session) ==> exists|i: int| #[trigger]
                latest(entries@, i) && Some(session.uid) == entries@[i].user()
                    && session.runtime@ == joined(RUNTIME_PATH@, entries@[i].name->0@),
    {
        let mut best: Option<usize> = None;
        let mut i: usize = 0;
        while i < entries.len()
            invariant
                i <= entries@.len(),
                best is None ==> forall|j: int|
                    0 <= j < i ==> (#[trigger] entries@[j]).user() is None,
                best matches Some(b) ==> b < i && latest(entries@.take(i as int), b as int),
            decreases entries.len() - i,
        {
            let ghost seen = entries@.take(i as int);
            let ghost more = entries@.take(i + 1);
            if entries[i].find_user().is_some() {
                let later = match best {
                    Some(b) => entries[b].find_since() <= entries[i].find_since(),
                    None => true,
                };
                proof {
                    assert forall|j: int|
                        0 <= j < more.len() && (#[trigger] more[j]).user() is Some && j
                            < i implies seen[j].user() is Some && best is Some by {
                        assert(seen[j] == more[j]);
                        assert(entries@[j] == more[j]);
                    }
                    if let Some(b) = best {
                        assert(more[b as int] == seen[b as int]);
                    }
                }
                if later {
                    best = Some(i);
                }
            }
            proof {
                if let Some(b) = best {
                    assert forall|j: int|
                        0 <= j < more.len() && (#[trigger] more[j]).user() is Some implies {
                        ||| more[j].since() < more[b as int].since()
                        ||| more[j].since() == more[b as int].since() && j <= b
                    } by {
                        if j < i {
                            assert(seen[j] == more[j]);
                            assert(entries@[j] == more[j]);
                        }
                    }
                    assert(latest(more, b as int));
                }
            }
            i += 1;
        }
        assert(entries@.take(i as int) =~= entries@);
        match best {
            Some(b) => {
                assert(latest(entries@, b as int));
                match (&entries[b].name, entries[b].find_user()) {
                    (Some(name), Some(uid)) => Some(
                        Session { uid, runtime: join(RUNTIME_PATH, name.as_str()) },
                    ),
                    _ => None,
                }
            },
            None => None,
        }
    }

    /// The path of the socket of the session bus.
    pub open spec fn bus_text(self) -> Seq<char> {
        joined(self.runtime@, "bus"@)
    }

    /// The path of the socket of the session bus.
    pub fn bus_path(&self) -> (r: String)
        ensures
            r@ == self.bus_text(),
    {
        join(self.runtime.as_str(), "bus")
    }

    /// The address of the session bus, given whether there is anything at [`Session::bus_path`].
    pub fn bus(&self, exists: bool) -> (r: Option<String>)
        ensures
            r is Some <==> exists,
            r matches Some(address) ==> address@ == "unix:path="@ + self.bus_text(),
    {
        if exists {
            let path = self.bus_path();
            Some("unix:path=".to_owned().concat(path.as_str()))
        } else {
            None
        }
    }

    /// The path of the socket of the display server, given the names in the directory of the
    /// session: the last one, if there are several.
    pub fn wayland(&self, names: &Vec<Option<String>>) -> (r: Option<String>)
        ensures
            r is None <==> forall|i: int|
                0 <= i < names@.len() ==> socket(#[trigger] names@[i]) is None,
            r matches Some(path) ==> exists|i: int| #[trigger]
                last_socket(names@, i) && path@ == joined(self.runtime@, socket(names@[i])->0),
    {
        let mut best: Option<usize> = None;
        let mut i: usize = 0;
        while i < names.len()
            invariant
                i <= names@.len(),
                best is None ==> forall|j: int|
                    0 <= j < i ==> socket(#[trigger] names@[j]) is None,
                best matches Some(b) ==> b < i && socket(names@[b as int]) is Some && forall|j: int|
                    0 <= j < i && socket(#[trigger] names@[j]) is Some ==> at_most(
                        socket(names@[j])->0,
                        socket(names@[b as int])->0,
                    ),
            decreases names.len() - i,
        {
            if let Some(name) = &names[i] {
                if socket_name(name.as_str()) {
                    assert(socket(names@[i as int]) == Some(name@));
                    let later = match best {
                        Some(b) => match &names[b] {
                            Some(other) => ordered(other.as_str(), name.as_str()),
                            None => true,
                        },
                        None => true,
                    };
                    proof {
                        lemma_at_most_itself(name@);
                        if let Some(b) = best {
                            let top = socket(names@[b as int])->0;
                            lemma_at_most_total(top, name@);
                            if later {
                                assert forall|j: int|
                                    0 <= j < i && socket(
                                        #[trigger] names@[j],
                                    ) is Some implies at_most(socket(names@[j])->0, name@) by {
                                    lemma_at_most_through(socket(names@[j])->0, top, name@);
                                }
                            }
                        }
                    }
                    if later {
                        best = Some(i);
                    }
                }
            }
            i += 1;
        }
        match best {
            Some(b) => {
                assert(last_socket(names@, b as int));
                match &names[b] {
                    Some(name) => Some(join(self.runtime.as_str(), name.as_str())),
                    None => None,
                }
            },
            None => None,
        }
    }
}

/// Whether a name is that of the socket of a display server.
fn socket_name(name: &str) -> (r: bool)
    ensures
        r == is_socket(name@),
{
    starts_with(name, "wayland-") && !ends_with(name, ".lock")
}

/// Whether `a` comes before `b` or is the same.
fn ordered(a: &str, b: &str) -> (r: bool)
    ensures
        r == at_most(a@, b@),
{
    let left = chars(a);
    let right = chars(b);
    let mut i: usize = 0;
    assert(a@.skip(0) =~= a@ && b@.skip(0) =~= b@);
    while i < left.len()
        invariant
            left@ == a@,
            right@ == b@,
            i <= left@.len(),
            i <= right@.len(),
            at_most(a@, b@) == at_most(a@.skip(i as int), b@.skip(i as int)),
        decreases left.len() - i,
    {
        if i >= right.len() {
            return false;
        }
        if left[i] != right[i] {
            return left[i] < right[i];
        }
        assert(a@.skip(i as int).skip(1) =~= a@.skip(i + 1));
        assert(b@.skip(i as int).skip(1) =~= b@.skip(i + 1));
        i += 1;
    }
    true
}

proof fn lemma_at_most_itself(a: Seq<char>)
    ensures
        at_most(a, a),
    decreases a.len(),
{
    if a.len() > 0 {
        lemma_at_most_itself(a.skip(1));
    }
}

proof fn lemma_at_most_total(a: Seq<char>, b: Seq<char>)
    ensures
        at_most(a, b) || at_most(b, a),
    decreases a.len(),
{
    if a.len() > 0 && b.len() > 0 {
        lemma_at_most_total(a.skip(1), b.skip(1));
    }
}

proof fn lemma_at_most_through(a: Seq<char>, b: Seq<char>, c: Seq<char>)
    requires
        at_most(a, b),
        at_most(b, c),
    ensures
        at_most(a, c),
    decreases a.len(),
{
    if a.len() > 0 && b.len() > 0 && c.len() > 0 && a[0] == b[0] && b[0] == c[0] {
        lemma_at_most_through(a.skip(1), b.skip(1), c.skip(1));
    }
}

/// An entry is for a user if its name is a number of 1000 or more. It was modified when it says,
/// and counts as modified at time zero if it does not say.
pub proof fn law_entries_of_users(entry: Entry, name: String)
    ensures
        entry.name is None ==> entry.user() is None,
        entry.name == Some(name) ==> entry.user() == match parsed_u32(name@) {
            Some(number) => if number >= 1000 {
                Some(number)
            } else {
                None
            },
            None => None,
        },
        entry.modified matches Some(time) ==> entry.since() == time,
        entry.modified is None ==> entry.since() == 0,
        RUNTIME_PATH@ == "/run/user"@,
{
}

/// The entry that is used is for a user, no user's is newer, and none that is as new comes behind
/// it.
pub proof fn law_latest_login(entries: Seq<Entry>, i: int, j: int)
    requires
        latest(entries, i),
        0 <= j < entries.len(),
        entries[j].user() is Some,
    ensures
        0 <= i < entries.len(),
        entries[i].user() is Some,
        entries[j].since() <= entries[i].since(),
        entries[j].since() == entries[i].since() ==> j <= i,
{
}

/// The session bus is at `bus` in the directory of the session.
pub proof fn law_bus_is_in_the_session(session: Session)
    ensures
        session.bus_text() == joined(session.runtime@, seq!['b', 'u', 's']),
        session.runtime@.len() > 0 && session.runtime@.last() != '/' ==> session.bus_text()
            == session.runtime@ + seq!['/', 'b', 'u', 's'],
{
    reveal_strlit("bus");
    assert("bus"@ =~= seq!['b', 'u', 's']);
    if session.runtime@.len() > 0 && session.runtime@.last() != '/' {
        assert(session.bus_text() =~= session.runtime@ + seq!['/', 'b', 'u', 's']);
    }
}

/// Of names in a directory, those are sockets of a display server that begin with `wayland-` and do
/// not end with `.lock`.
pub proof fn law_display_sockets(name: String)
    ensures
        socket(Some(name)) is Some <==> name@.len() >= 8 && name@.take(8) == "wayland-"@ && !(
        name@.len() >= 5 && name@.skip(name@.len() - 5) == ".lock"@),
        socket(Some(name)) matches Some(text) ==> text == name@,
        socket(None) is None,
{
    reveal_strlit("wayland-");
    reveal_strlit(".lock");
}

/// Texts are ordered by the first character in which they differ, and what ends first comes first.
pub proof fn law_order_of_texts(a: Seq<char>, b: Seq<char>, i: int)
    ensures
        a.len() <= b.len() && a == b.take(a.len() as int) ==> at_most(a, b),
        b.len() < a.len() && b == a.take(b.len() as int) ==> !at_most(a, b),
        0 <= i < a.len() && i < b.len() && a.take(i) == b.take(i) && a[i] != b[i] ==> (at_most(
            a,
            b,
        ) <==> a[i] < b[i]),
    decreases a.len(),
{
    if a.len() > 0 && b.len() > 0 {
        let x = a.skip(1);
        let y = b.skip(1);
        law_order_of_texts(x, y, i - 1);
        if a.len() <= b.len() && a == b.take(a.len() as int) {
            assert(a[0] == b.take(a.len() as int)[0]);
            assert(x =~= y.take(x.len() as int));
        }
        if b.len() < a.len() && b == a.take(b.len() as int) {
            assert(b[0] == a.take(b.len() as int)[0]);
            assert(y =~= x.take(y.len() as int));
        }
        if 0 < i < a.len() && i < b.len() && a.take(i) == b.take(i) {
            assert(a.take(i)[0] == b.take(i)[0]);
            assert(x.take(i - 1) =~= a.take(i).skip(1));
            assert(y.take(i - 1) =~= b.take(i).skip(1));
        }
    }
}

/// The socket that is used is one, and no other comes behind it in the order of texts.
pub proof fn law_last_socket_is_used(names: Seq<Option<String>>, i: int, j: int)
    requires
        last_socket(names, i),
        0 <= j < names.len(),
        socket(names[j]) is Some,
    ensures
        0 <= i < names.len(),
        socket(names[i]) is Some,
        at_most(socket(names[j])->0, socket(names[i])->0),
{
}

} // verus!
