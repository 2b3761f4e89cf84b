//! The machines that are connected to the server.
use vstd::prelude::*;

verus! {

/// A connected machine: where it connects from, and the name it goes by, if it has one.
#[derive(Debug)]
pub struct Client {
    pub addr: String,
    pub name: Option<String>,
}

impl Client {
    /// Whether the machine goes by `name`.
    pub open spec fn named(self, name: Seq<char>) -> bool {
        self.name matches Some(own) && own@ == name
    }

    /// What the machine is called: by its name, or else by its address.
    pub open spec fn label_text(self) -> Seq<char> {
        match self.name {
            Some(name) => name@,
            None => self.addr@,
        }
    }

    /// What the machine is called: by its name, or else by its address.
    pub fn label(&self) -> (r: String)
        ensures
            r@ == self.label_text(),
    {
        match &self.name {
            Some(name) => name.clone(),
            None => self.addr.clone(),
        }
    }

    /// Whether the machine goes by `name`.
    pub fn is_named(&self, name: &String) -> (r: bool)
        ensures
            r == self.named(name@),
    {
        match &self.name {
            Some(own) => *own == *name,
            None => false,
        }
    }
}

/// A client is called by its name if it has one, and else by where it connects from.
pub proof fn law_what_a_client_is_called(client: Client, name: Seq<char>)
    ensures
        client.name matches Some(own) ==> client.label_text() == own@,
        client.name is None ==> client.label_text() == client.addr@,
        client.named(name) <==> (client.name matches Some(own) && own@ == name),
{
}

} // verus!
