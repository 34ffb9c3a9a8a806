//! The server's two request lists: requests waiting for a leader
//! (`PendingRequest`) and access-right changes that a client could not
//! deliver itself (`Request`), with the messages that fill them.

use vstd::prelude::*;
use crate::search::{find_first, lemma_find_first};
use crate::server::directory::{ClientRecord, DirectoryOfService, has_name, client_name, client_name_for};
use crate::text::{chars_of, string_of, split_words, words, parse_u32, parse_u32_spec, decimal, push_decimal, push_char, append_str, text_is};

verus! {

/// A request waiting for the leader: the client's number and address, the
/// kind (`encrypt`, `request`, `online`, ...) and its argument.
#[derive(Debug)]
pub struct PendingRequest {
    pub id: u32,
    pub address: u32,
    pub request_type: String,
    pub message: String,
}

/// A pending request as a value.
pub struct PendingView {
    pub id: u32,
    pub address: u32,
    pub kind: Seq<char>,
    pub text: Seq<char>,
}

impl PendingRequest {
    pub open spec fn view(&self) -> PendingView {
        PendingView { id: self.id, address: self.address, kind: self.request_type@, text: self.message@ }
    }

    /// Removes the request at `index`, if there is one, and hands it back.
    pub fn remove_request_by_index(requests: &mut Vec<PendingRequest>, index: usize) -> (r: Option<PendingRequest>)
        ensures
            index < old(requests)@.len() ==> {
                &&& r matches Some(x) && x == old(requests)@[index as int]
                &&& final(requests)@ == old(requests)@.remove(index as int)
            },
            index >= old(requests)@.len() ==> r is None && final(requests)@ == old(requests)@,
    {
        if index < requests.len() {
            Some(requests.remove(index))
        } else {
            None
        }
    }
}

/// A change of access rights waiting for the client that asked for it.
#[derive(Debug)]
pub struct Request {
    pub requesting_client_name: String,
    pub owning_client_name: String,
    pub image_id: String,
    pub request: String,
}

/// A waiting access-right change as a value.
pub struct RequestView {
    pub requester: Seq<char>,
    pub owner: Seq<char>,
    pub image: Seq<char>,
    pub rights: Seq<char>,
}

impl Request {
    pub open spec fn view(&self) -> RequestView {
        RequestView {
            requester: self.requesting_client_name@,
            owner: self.owning_client_name@,
            image: self.image_id@,
            rights: self.request@,
        }
    }

    /// A request with every field empty.
    pub fn empty() -> (r: Request)
        ensures
            r@ == (RequestView { requester: Seq::empty(), owner: Seq::empty(), image: Seq::empty(), rights: Seq::empty() }),
    {
        Request {
            requesting_client_name: String::new(),
            owning_client_name: String::new(),
            image_id: String::new(),
            request: String::new(),
        }
    }

    /// Removes the request at `index`, if there is one, and hands it back.
    pub fn remove_request_by_index(requests: &mut Vec<Request>, index: usize) -> (r: Option<Request>)
        ensures
            index < old(requests)@.len() ==> {
                &&& r matches Some(x) && x == old(requests)@[index as int]
                &&& final(requests)@ == old(requests)@.remove(index as int)
            },
            index >= old(requests)@.len() ==> r is None && final(requests)@ == old(requests)@,
    {
        if index < requests.len() {
            Some(requests.remove(index))
        } else {
            None
        }
    }

    /// Fills in every field.
    pub fn add_request(&mut self, requesting_client_name: String, owning_client_name: String, image_id: String, request: String)
        ensures
            final(self)@ == (RequestView {
                requester: requesting_client_name@,
                owner: owning_client_name@,
                image: image_id@,
                rights: request@,
            }),
    {
        self.requesting_client_name = requesting_client_name;
        self.owning_client_name = owning_client_name;
        self.image_id = image_id;
        self.request = request;
    }
}

/// What a client's message to the servers asks.
pub enum ClientMessage {
    /// `id kind argument`: a request for the leader.
    Queued { id: u32, kind: Seq<char>, text: Seq<char> },
    /// `id unhandled requester image rights`: an access-right change to hand
    /// to `requester` when it comes online, from client `id`.
    Unhandled { id: u32, requester: Seq<char>, image: Seq<char>, rights: Seq<char> },
}

/// How a server reads a client's message: whitespace-separated words, the
/// first a number; `None` for a malformed message (too few words, or a
/// first word that is not a `u32`).
pub open spec fn parse_client_message(msg: Seq<char>) -> Option<ClientMessage> {
    let w = words(msg);
    if w.len() < 3 {
        None
    } else {
        match parse_u32_spec(w[0]) {
            None => None,
            Some(id) => if w[1] != "unhandled"@ {
                Some(ClientMessage::Queued { id, kind: w[1], text: w[2] })
            } else if w.len() < 5 {
                None
            } else {
                Some(ClientMessage::Unhandled { id, requester: w[2], image: w[3], rights: w[4] })
            },
        }
    }
}

/// A client's message, read.
pub enum ClientRequest {
    Queued(PendingRequest),
    Unhandled(Request),
}

/// Reads a client's message sent from `address`: a request for the leader,
/// or an access-right change owned by `Client<id>`; `None` for a malformed
/// message (see `parse_client_message`).
pub fn read_client_message(msg: &str, address: u32) -> (r: Option<(u32, ClientRequest)>)
    ensures
        match parse_client_message(msg@) {
            None => r is None,
            Some(ClientMessage::Queued { id, kind, text }) => r matches Some((i, ClientRequest::Queued(p)))
                && i == id && p@ == (PendingView { id, address, kind, text }),
            Some(ClientMessage::Unhandled { id, requester, image, rights }) => r matches Some((i, ClientRequest::Unhandled(q)))
                && i == id && q@ == (RequestView { requester, owner: client_name_for(id as nat), image, rights }),
        },
{
    let cs = chars_of(msg);
    let w = split_words(cs.as_slice());
    if w.len() < 3 {
        return None;
    }
    let id = match parse_u32(w[0].as_slice()) {
        Some(id) => id,
        None => return None,
    };
    let kind = string_of(w[1].as_slice());
    if !text_is(&kind, "unhandled") {
        let p = PendingRequest { id, address, request_type: kind, message: string_of(w[2].as_slice()) };
        return Some((id, ClientRequest::Queued(p)));
    }
    if w.len() < 5 {
        return None;
    }
    let mut q = Request::empty();
    q.add_request(string_of(w[2].as_slice()), client_name(id), string_of(w[3].as_slice()), string_of(w[4].as_slice()));
    Some((id, ClientRequest::Unhandled(q)))
}


/// A message to send to a client: its address text, port and text.
#[derive(Debug)]
pub struct Delivery {
    pub address: String,
    pub port: u16,
    pub message: String,
}

/// A delivery as a value.
pub struct DeliveryView {
    pub address: Seq<char>,
    pub port: u16,
    pub text: Seq<char>,
}

impl Delivery {
    pub open spec fn view(&self) -> DeliveryView {
        DeliveryView { address: self.address@, port: self.port, text: self.message@ }
    }
}

/// The number of an image's owner: 1, 2 or 3 for `Client1`, `Client2`,
/// `Client3` when the directory knows the owner, 0 otherwise.
pub open spec fn owner_number(d: Seq<ClientRecord>, owner: Seq<char>) -> nat {
    if find_first(d, has_name(owner)) is Some {
        if owner == "Client1"@ {
            1
        } else if owner == "Client2"@ {
            2
        } else if owner == "Client3"@ {
            3
        } else {
            0
        }
    } else {
        0
    }
}

/// The port on which a client takes access rights from owner `n`.
pub open spec fn owner_port(n: nat) -> u16 {
    if n == 2 {
        9094
    } else if n == 3 {
        9096
    } else {
        9095
    }
}

/// A change owned by `Client<n>` (for `n` from 1 to 3), an owner the
/// directory knows, goes out under number `n` to the port on which clients
/// take changes from that owner: 9095 for `Client1`, 9094 for `Client2`,
/// 9096 for `Client3`; the three owners' ports differ.
pub proof fn lemma_owner_port_of_client(d: Seq<ClientRecord>, n: nat)
    requires
        1 <= n <= 3,
        exists|j: int| 0 <= j < d.len() && (#[trigger] d[j]).name == client_name_for(n),
    ensures
        owner_number(d, client_name_for(n)) == n,
        owner_port(owner_number(d, client_name_for(n))) == seq![9095u16, 9094u16, 9096u16][n - 1],
        owner_port(1) != owner_port(2),
        owner_port(1) != owner_port(3),
        owner_port(2) != owner_port(3),
{
    reveal_strlit("Client1");
    reveal_strlit("Client2");
    reveal_strlit("Client3");
    let j = choose|j: int| 0 <= j < d.len() && (#[trigger] d[j]).name == client_name_for(n);
    lemma_find_first(d, has_name(client_name_for(n)));
    if find_first(d, has_name(client_name_for(n))) is None {
        assert(!has_name(client_name_for(n))(d[j]));
    }
    assert(decimal(n) == seq![crate::text::digit_char(n)]);
    if n == 1 {
        assert(client_name_for(n) =~= "Client1"@);
    } else if n == 2 {
        assert(client_name_for(n) =~= "Client2"@);
        assert(client_name_for(n) != "Client1"@) by {
            assert(client_name_for(n)[6] != "Client1"@[6]);
        }
    } else {
        assert(client_name_for(n) =~= "Client3"@);
        assert(client_name_for(n) != "Client1"@) by {
            assert(client_name_for(n)[6] != "Client1"@[6]);
        }
        assert(client_name_for(n) != "Client2"@) by {
            assert(client_name_for(n)[6] != "Client2"@[6]);
        }
    }
}

/// The deliveries for requester `name` at address `addr`, in list order:
/// `owner:image:rights` to the owner's port.
pub open spec fn deliveries_for(reqs: Seq<RequestView>, d: Seq<ClientRecord>, name: Seq<char>, addr: Seq<char>) -> Seq<DeliveryView>
    decreases reqs.len(),
{
    if reqs.len() == 0 {
        Seq::<DeliveryView>::empty()
    } else {
        let prev = deliveries_for(reqs.drop_last(), d, name, addr);
        let q = reqs.last();
        if q.requester == name {
            let n = owner_number(d, q.owner);
            prev.push(DeliveryView {
                address: addr,
                port: owner_port(n),
                text: decimal(n) + seq![':'] + q.image + seq![':'] + q.rights,
            })
        } else {
            prev
        }
    }
}

/// Every waiting change asked by `name` whose owner is `Client<n>` (for
/// `n` from 1 to 3, an owner the directory knows) is delivered to `addr`
/// on that owner's port, as `n:image:rights`.
pub proof fn lemma_delivery_of_request(reqs: Seq<RequestView>, d: Seq<ClientRecord>, name: Seq<char>, addr: Seq<char>, j: int, n: nat)
    requires
        0 <= j < reqs.len(),
        reqs[j].requester == name,
        reqs[j].owner == client_name_for(n),
        1 <= n <= 3,
        exists|i: int| 0 <= i < d.len() && (#[trigger] d[i]).name == client_name_for(n),
    ensures
        exists|k: int| 0 <= k < deliveries_for(reqs, d, name, addr).len()
            && #[trigger] deliveries_for(reqs, d, name, addr)[k] == (DeliveryView {
                address: addr,
                port: seq![9095u16, 9094u16, 9096u16][n - 1],
                text: decimal(n) + seq![':'] + reqs[j].image + seq![':'] + reqs[j].rights,
            }),
    decreases reqs.len(),
{
    lemma_owner_port_of_client(d, n);
    let prev = deliveries_for(reqs.drop_last(), d, name, addr);
    let want = DeliveryView {
        address: addr,
        port: seq![9095u16, 9094u16, 9096u16][n - 1],
        text: decimal(n) + seq![':'] + reqs[j].image + seq![':'] + reqs[j].rights,
    };
    if j == reqs.len() - 1 {
        assert(reqs.last() == reqs[j]);
        assert(deliveries_for(reqs, d, name, addr) == prev.push(want));
        assert(deliveries_for(reqs, d, name, addr)[prev.len() as int] == want);
    } else {
        assert(reqs.drop_last()[j] == reqs[j]);
        lemma_delivery_of_request(reqs.drop_last(), d, name, addr, j, n);
        let k = choose|k: int| 0 <= k < prev.len() && #[trigger] prev[k] == want;
        assert(deliveries_for(reqs, d, name, addr)[k] == prev[k]);
    }
}

/// What a server sends when client `name` comes online: nothing if no
/// request waits for it; `None` if some does but the directory does not know
/// `name` (the changes cannot be delivered); otherwise the deliveries to
/// the address of the first directory entry named `name`.
pub open spec fn unhandled_plan(reqs: Seq<RequestView>, d: Seq<ClientRecord>, name: Seq<char>) -> Option<Seq<DeliveryView>> {
    if forall|i: int| 0 <= i < reqs.len() ==> (#[trigger] reqs[i]).requester != name {
        Some(Seq::<DeliveryView>::empty())
    } else {
        match find_first(d, has_name(name)) {
            Some(i) => Some(deliveries_for(reqs, d, name, d[i as int].ip)),
            None => None,
        }
    }
}

fn owner_number_of(directory: &DirectoryOfService, owner: &String) -> (r: u64)
    ensures
        r == owner_number(directory@, owner@),
{
    let found = directory.find_client_by_name(owner);
    if found.is_some() {
        if text_is(owner, "Client1") {
            1
        } else if text_is(owner, "Client2") {
            2
        } else if text_is(owner, "Client3") {
            3
        } else {
            0
        }
    } else {
        0
    }
}

/// Empties the list of waiting access-right changes and gives the messages
/// that carry those waiting for `name` (as `unhandled_plan` says).
pub fn take_unhandled_deliveries(requests: &mut Vec<Request>, directory: &DirectoryOfService, name: &String) -> (r: Option<Vec<Delivery>>)
    ensures
        final(requests)@.len() == 0,
        match unhandled_plan(old(requests)@.map_values(|q: Request| q@), directory@, name@) {
            Some(ds) => r matches Some(v) && v@.map_values(|x: Delivery| x@) == ds,
            None => r is None,
        },
{
    let ghost reqs = old(requests)@.map_values(|q: Request| q@);
    let found = directory.find_client_by_name(name);
    proof {
        lemma_find_first(directory@, has_name(name@));
    }
    let n = requests.len();
    let mut out: Vec<Delivery> = Vec::new();
    let mut any = false;
    for i in 0..n
        invariant
            n == requests@.len(),
            requests@ == old(requests)@,
            reqs == old(requests)@.map_values(|q: Request| q@),
            any == exists|j: int| 0 <= j < i && (#[trigger] reqs[j]).requester == name@,
            !any ==> out@.len() == 0,
            any ==> found is Some,
            found is Some ==> out@.map_values(|x: Delivery| x@) == deliveries_for(reqs.take(i as int), directory@, name@, directory@[found->0 as int].ip),
            found matches Some(k) ==> find_first(directory@, has_name(name@)) == Some(k as nat) && k < directory@.len(),
            found is None ==> find_first(directory@, has_name(name@)) is None,
    {
        assert(reqs.take(i + 1).drop_last() =~= reqs.take(i as int));
        assert(reqs[i as int] == requests@[i as int]@);
        if requests[i].requesting_client_name == *name {
            match found {
                Some(k) => {
                    assert(directory@[k as int] == directory.clients@[k as int].view());
                    let owner_n = owner_number_of(directory, &requests[i].owning_client_name);
                    let mut text = String::new();
                    push_decimal(&mut text, owner_n);
                    push_char(&mut text, ':');
                    crate::text::append_str(&mut text, requests[i].image_id.as_str());
                    push_char(&mut text, ':');
                    crate::text::append_str(&mut text, requests[i].request.as_str());
                    let port: u16 = if owner_n == 2 { 9094 } else if owner_n == 3 { 9096 } else { 9095 };
                    let d = Delivery { address: directory.clients[k].ip_address.clone(), port, message: text };
                    assert(d@.text =~= decimal(owner_n as nat) + seq![':'] + reqs[i as int].image + seq![':'] + reqs[i as int].rights);
                    assert(d@ == (DeliveryView {
                        address: directory@[k as int].ip,
                        port: owner_port(owner_number(directory@, reqs[i as int].owner)),
                        text: decimal(owner_number(directory@, reqs[i as int].owner)) + seq![':'] + reqs[i as int].image + seq![':'] + reqs[i as int].rights,
                    }));
                    out.push(d);
                    assert(out@.map_values(|x: Delivery| x@) =~= deliveries_for(reqs.take(i as int), directory@, name@, directory@[k as int].ip).push(d@));
                    assert(deliveries_for(reqs.take(i + 1), directory@, name@, directory@[k as int].ip) == deliveries_for(reqs.take(i as int), directory@, name@, directory@[k as int].ip).push(d@));
                },
                None => {
                    requests.clear();
                    return None;
                },
            }
            any = true;
        } else {
            proof {
                if found is Some {
                    assert(out@.map_values(|x: Delivery| x@) =~= deliveries_for(reqs.take(i + 1), directory@, name@, directory@[found->0 as int].ip));
                }
            }
        }
    }
    assert(reqs.take(n as int) =~= reqs);
    requests.clear();
    if any {
        Some(out)
    } else {
        proof {
            assert(forall|j: int| 0 <= j < reqs.len() ==> (#[trigger] reqs[j]).requester != name@);
        }
        assert(out@.map_values(|x: Delivery| x@) =~= Seq::<DeliveryView>::empty());
        Some(out)
    }
}

} // verus!
