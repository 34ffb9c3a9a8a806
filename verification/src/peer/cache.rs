//! The addresses of other clients that a client has learnt.

use vstd::prelude::*;
use crate::search::{find_first, lemma_find_first, lemma_find_first_at, lemma_find_first_none};

verus! {

/// Another client: its name and address text.
pub struct Client {
    pub name: String,
    pub ip_address: String,
}

/// A cached client as a value.
pub struct CachedView {
    pub name: Seq<char>,
    pub ip: Seq<char>,
}

impl Client {
    pub open spec fn view(&self) -> CachedView {
        CachedView { name: self.name@, ip: self.ip_address@ }
    }

    pub fn new(name: String, ip_address: String) -> (r: Client)
        ensures
            r@ == (CachedView { name: name@, ip: ip_address@ }),
    {
        Client { name, ip_address }
    }
}

/// Matches cached clients with this name.
pub open spec fn named(name: Seq<char>) -> spec_fn(CachedView) -> bool {
    |c: CachedView| c.name == name
}

/// The clients a client knows, in the order learnt.
pub struct ClientCache {
    pub clients: Vec<Client>,
}

impl ClientCache {
    pub open spec fn view(&self) -> Seq<CachedView> {
        self.clients@.map_values(|c: Client| c@)
    }

    /// An empty cache.
    pub fn new() -> (r: ClientCache)
        ensures
            r@ == Seq::<CachedView>::empty(),
    {
        let r = ClientCache { clients: Vec::new() };
        assert(r@ =~= Seq::<CachedView>::empty());
        r
    }

    /// Appends a client (even one already cached).
    pub fn add_client(&mut self, name: String, ip_address: String)
        ensures
            final(self)@ == old(self)@.push(CachedView { name: name@, ip: ip_address@ }),
    {
        let c = Client::new(name, ip_address);
        self.clients.push(c);
        assert(self@ =~= old(self)@.push(c@));
    }

    /// Index of the first cached client with this name.
    pub fn find_client_by_name(&self, name: &String) -> (r: Option<usize>)
        ensures
            match r {
                Some(i) => find_first(self@, named(name@)) == Some(i as nat),
                None => find_first(self@, named(name@)) is None,
            },
            r matches Some(i) ==> i < self@.len(),
    {
        let ghost p = named(name@);
        let n = self.clients.len();
        for i in 0..n
            invariant
                n == self.clients@.len(),
                p == named(name@),
                forall|j: int| 0 <= j < i ==> !p(#[trigger] self@[j]),
        {
            if self.clients[i].name == *name {
                proof {
                    lemma_find_first_at(self@, p, i as int);
                }
                return Some(i);
            }
        }
        proof {
            lemma_find_first_none(self@, p);
        }
        None
    }

    /// Adds the client unless one with that name is cached already; says
    /// whether it was added.
    pub fn learn(&mut self, name: String, ip_address: String) -> (added: bool)
        ensures
            added == find_first(old(self)@, named(name@)) is None,
            final(self)@ == (if added { old(self)@.push(CachedView { name: name@, ip: ip_address@ }) } else { old(self)@ }),
    {
        match self.find_client_by_name(&name) {
            Some(_) => false,
            None => {
                self.add_client(name, ip_address);
                true
            },
        }
    }
}

} // verus!
