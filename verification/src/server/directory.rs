//! The directory of service: the clients a server knows, with their address,
//! whether they are online, and when they were last heard from.

use vstd::prelude::*;
use crate::search::{find_first, lemma_find_first, lemma_find_first_at, lemma_find_first_none};
use crate::text::{chars_of, split_chars, split_words, parse_bool, parse_bool_spec, split_on, words, append_str, push_char, decimal, push_decimal, lemma_split_on_nonempty};

verus! {

/// A directory entry as a value.
pub struct ClientRecord {
    pub name: Seq<char>,
    pub ip: Seq<char>,
    pub online: bool,
    pub last_seen: u64,
}

/// A client known to the server. `last_message_time` is a reading of the
/// server's monotonic clock, in nanoseconds.
pub struct Client {
    pub name: String,
    pub ip_address: String,
    pub online: bool,
    pub last_message_time: u64,
}

impl Client {
    pub open spec fn view(&self) -> ClientRecord {
        ClientRecord { name: self.name@, ip: self.ip_address@, online: self.online, last_seen: self.last_message_time }
    }

    /// A client last heard from at `now`.
    pub fn new(name: String, ip_address: String, online: bool, now: u64) -> (r: Client)
        ensures
            r.view() == (ClientRecord { name: name@, ip: ip_address@, online, last_seen: now }),
    {
        Client { name, ip_address, online, last_message_time: now }
    }

    /// A copy of the client.
    pub fn duplicate(&self) -> (r: Client)
        ensures
            r.view() == self.view(),
    {
        Client {
            name: self.name.clone(),
            ip_address: self.ip_address.clone(),
            online: self.online,
            last_message_time: self.last_message_time,
        }
    }
}

/// Twenty seconds, in nanoseconds: how long a client stays listed without
/// being heard from.
pub const TIMEOUT_NANOS: u64 = 20_000_000_000;

/// Time since `last` at `now`, zero if `last` is later (as `Instant::elapsed`
/// saturates).
pub open spec fn elapsed(now: u64, last: u64) -> int {
    if now >= last { now - last } else { 0 }
}

/// Matches the entry with this name and address.
pub open spec fn same_entry(name: Seq<char>, ip: Seq<char>) -> spec_fn(ClientRecord) -> bool {
    |c: ClientRecord| c.name == name && c.ip == ip
}

/// Matches entries with this address.
pub open spec fn has_ip(ip: Seq<char>) -> spec_fn(ClientRecord) -> bool {
    |c: ClientRecord| c.ip == ip
}

/// Matches entries with this name.
pub open spec fn has_name(name: Seq<char>) -> spec_fn(ClientRecord) -> bool {
    |c: ClientRecord| c.name == name
}

/// Entries that are online and were heard from within the timeout.
pub open spec fn fresh_entries(d: Seq<ClientRecord>, now: u64) -> Seq<ClientRecord>
    decreases d.len(),
{
    if d.len() == 0 {
        d
    } else {
        let p = fresh_entries(d.drop_last(), now);
        if d.last().online && elapsed(now, d.last().last_seen) <= TIMEOUT_NANOS {
            p.push(d.last())
        } else {
            p
        }
    }
}

/// Adding a client: an entry with the same name and address has its online
/// flag set; otherwise a new entry is appended.
pub open spec fn add_client_spec(d: Seq<ClientRecord>, name: Seq<char>, ip: Seq<char>, online: bool, now: u64) -> Seq<ClientRecord> {
    match find_first(d, same_entry(name, ip)) {
        Some(i) => d.update(i as int, ClientRecord { name: d[i as int].name, ip: d[i as int].ip, online, last_seen: d[i as int].last_seen }),
        None => d.push(ClientRecord { name, ip, online, last_seen: now }),
    }
}

/// A message from a client at `ip`: the first entry with that address is
/// marked online and heard from now; without one, a client named `name` is
/// added, online.
pub open spec fn record_contact_spec(d: Seq<ClientRecord>, ip: Seq<char>, name: Seq<char>, now: u64) -> Seq<ClientRecord> {
    match find_first(d, has_ip(ip)) {
        Some(i) => d.update(i as int, ClientRecord { name: d[i as int].name, ip: d[i as int].ip, online: true, last_seen: now }),
        None => add_client_spec(d, name, ip, true, now),
    }
}

/// An entry received from another server: the first entry with that address
/// takes its online flag; without one, the entry is added.
pub open spec fn merge_entry_spec(d: Seq<ClientRecord>, name: Seq<char>, ip: Seq<char>, online: bool, now: u64) -> Seq<ClientRecord> {
    match find_first(d, has_ip(ip)) {
        Some(i) => d.update(i as int, ClientRecord { name: d[i as int].name, ip: d[i as int].ip, online, last_seen: d[i as int].last_seen }),
        None => add_client_spec(d, name, ip, online, now),
    }
}

/// The clients a server knows.
pub struct DirectoryOfService {
    pub clients: Vec<Client>,
}

impl DirectoryOfService {
    pub open spec fn view(&self) -> Seq<ClientRecord> {
        self.clients@.map_values(|c: Client| c.view())
    }

    /// An empty directory.
    pub fn new() -> (r: DirectoryOfService)
        ensures
            r@ == Seq::<ClientRecord>::empty(),
    {
        let r = DirectoryOfService { clients: Vec::new() };
        assert(r@ =~= Seq::<ClientRecord>::empty());
        r
    }

    /// Index of the first client with this address.
    pub fn find_client_by_ip(&self, ip: &String) -> (r: Option<usize>)
        ensures
            match r {
                Some(i) => find_first(self@, has_ip(ip@)) == Some(i as nat),
                None => find_first(self@, has_ip(ip@)) is None,
            },
            r matches Some(i) ==> i < self@.len(),
    {
        proof {
            lemma_find_first(self@, has_ip(ip@));
        }
        let ghost p = has_ip(ip@);
        let n = self.clients.len();
        for i in 0..n
            invariant
                n == self.clients@.len(),
                p == (has_ip(ip@)),
                forall|j: int| 0 <= j < i ==> !p(#[trigger] self@[j]),
        {
            if self.clients[i].ip_address == *ip {
                proof {
                    lemma_find_first_at(self@, p, i as int);
                }
                return Some(i);
            }
        }
        proof {
            lemma_find_first_none(self@, p);
        }
        None
    }

    /// Index of the first client with this name.
    pub fn find_client_by_name(&self, name: &String) -> (r: Option<usize>)
        ensures
            match r {
                Some(i) => find_first(self@, has_name(name@)) == Some(i as nat),
                None => find_first(self@, has_name(name@)) is None,
            },
            r matches Some(i) ==> i < self@.len(),
    {
        proof {
            lemma_find_first(self@, has_name(name@));
        }
        let ghost p = has_name(name@);
        let n = self.clients.len();
        for i in 0..n
            invariant
                n == self.clients@.len(),
                p == (has_name(name@)),
                forall|j: int| 0 <= j < i ==> !p(#[trigger] self@[j]),
        {
            if self.clients[i].name == *name {
                proof {
                    lemma_find_first_at(self@, p, i as int);
                }
                return Some(i);
            }
        }
        proof {
            lemma_find_first_none(self@, p);
        }
        None
    }

    fn find_entry(&self, name: &String, ip: &String) -> (r: Option<usize>)
        ensures
            match r {
                Some(i) => find_first(self@, same_entry(name@, ip@)) == Some(i as nat),
                None => find_first(self@, same_entry(name@, ip@)) is None,
            },
            r matches Some(i) ==> i < self@.len(),
    {
        proof {
            lemma_find_first(self@, same_entry(name@, ip@));
        }
        let ghost p = same_entry(name@, ip@);
        let n = self.clients.len();
        for i in 0..n
            invariant
                n == self.clients@.len(),
                p == (same_entry(name@, ip@)),
                forall|j: int| 0 <= j < i ==> !p(#[trigger] self@[j]),
        {
            if self.clients[i].name == *name && self.clients[i].ip_address == *ip {
                proof {
                    lemma_find_first_at(self@, p, i as int);
                }
                return Some(i);
            }
        }
        proof {
            lemma_find_first_none(self@, p);
        }
        None
    }

    fn set_entry(&mut self, i: usize, online: bool, last: u64)
        requires
            i < old(self)@.len(),
        ensures
            final(self)@ == old(self)@.update(i as int, ClientRecord {
                name: old(self)@[i as int].name,
                ip: old(self)@[i as int].ip,
                online,
                last_seen: last,
            }),
    {
        let c = Client {
            name: self.clients[i].name.clone(),
            ip_address: self.clients[i].ip_address.clone(),
            online,
            last_message_time: last,
        };
        self.clients.set(i, c);
        assert(self@ =~= old(self)@.update(i as int, c.view()));
    }

    /// Registers a client: the entry with the same name and address takes
    /// the online flag, otherwise a new entry is appended.
    pub fn add_client(&mut self, name: String, ip_address: String, online: bool, now: u64)
        ensures
            final(self)@ == add_client_spec(old(self)@, name@, ip_address@, online, now),
    {
        match self.find_entry(&name, &ip_address) {
            Some(i) => {
                assert(find_first(self@, same_entry(name@, ip_address@)) == Some(i as nat));
                assert(self@[i as int] == self.clients@[i as int].view());
                let last = self.clients[i].last_message_time;
                self.set_entry(i, online, last);
            },
            None => {
                let c = Client::new(name, ip_address, online, now);
                self.clients.push(c);
                assert(self@ =~= old(self)@.push(c.view()));
            },
        }
    }

    /// Drops the clients that are offline or silent for more than twenty
    /// seconds, keeping the others in order.
    pub fn remove_offline_clients(&mut self, now: u64)
        ensures
            final(self)@ == fresh_entries(old(self)@, now),
    {
        let mut kept: Vec<Client> = Vec::new();
        let n = self.clients.len();
        for i in 0..n
            invariant
                n == self.clients@.len(),
                self@ == old(self)@,
                kept@.map_values(|c: Client| c.view()) == fresh_entries(self@.take(i as int), now),
        {
            assert(self@.take(i + 1).drop_last() =~= self@.take(i as int));
            let c = &self.clients[i];
            let age: u64 = if now >= c.last_message_time { now - c.last_message_time } else { 0 };
            if c.online && age <= TIMEOUT_NANOS {
                let d = c.duplicate();
                kept.push(d);
                assert(kept@.map_values(|c: Client| c.view()) =~= fresh_entries(self@.take(i as int), now).push(d.view()));
            }
        }
        assert(self@.take(n as int) =~= self@);
        self.clients = kept;
    }

    /// A message came from a client at `ip` whose number is `id`: the client
    /// is marked online and heard from now, or added as `Client<id>`.
    pub fn record_contact(&mut self, ip: String, id: u32, now: u64)
        ensures
            final(self)@ == record_contact_spec(old(self)@, ip@, client_name_for(id as nat), now),
    {
        match self.find_client_by_ip(&ip) {
            Some(i) => {
                assert(find_first(self@, has_ip(ip@)) == Some(i as nat));
                self.set_entry(i, true, now);
            },
            None => {
                let name = client_name(id);
                self.add_client(name, ip, true, now);
            },
        }
    }

    /// Takes one entry of another server's directory.
    pub fn merge_entry(&mut self, name: String, ip: String, online: bool, now: u64)
        ensures
            final(self)@ == merge_entry_spec(old(self)@, name@, ip@, online, now),
    {
        match self.find_client_by_ip(&ip) {
            Some(i) => {
                assert(find_first(self@, has_ip(ip@)) == Some(i as nat));
                assert(self@[i as int] == self.clients@[i as int].view());
                let last = self.clients[i].last_message_time;
                self.set_entry(i, online, last);
            },
            None => {
                self.add_client(name, ip, online, now);
            },
        }
    }
}

/// The name `Client<id>` under which a client with number `id` is known.
pub open spec fn client_name_for(id: nat) -> Seq<char> {
    seq!['C', 'l', 'i', 'e', 'n', 't'] + decimal(id)
}

/// The name `Client<id>`.
pub fn client_name(id: u32) -> (r: String)
    ensures
        r@ == client_name_for(id as nat),
{
    let mut r = String::new();
    append_str(&mut r, "Client");
    proof {
        reveal_strlit("Client");
    }
    push_decimal(&mut r, id as u64);
    assert(r@ =~= client_name_for(id as nat));
    r
}


/// The text of a boolean (its `to_string`).
pub open spec fn bool_text(b: bool) -> Seq<char> {
    if b { "true"@ } else { "false"@ }
}

/// Each entry as `name ip online : `, in directory order.
pub open spec fn listing(d: Seq<ClientRecord>) -> Seq<char>
    decreases d.len(),
{
    if d.len() == 0 {
        Seq::<char>::empty()
    } else {
        listing(d.drop_last()) + d.last().name + seq![' '] + d.last().ip + seq![' '] + bool_text(d.last().online) + seq![' ', ':', ' ']
    }
}

/// The message that hands the directory to a recovering server:
/// `directory ` and the listing without its final space.
pub open spec fn directory_message_spec(d: Seq<ClientRecord>) -> Seq<char> {
    let l = listing(d);
    "directory"@ + seq![' '] + (if l.len() > 0 { l.drop_last() } else { l })
}

fn extend_str(v: &mut Vec<char>, s: &str)
    ensures
        final(v)@ == old(v)@ + s@,
{
    let cs = chars_of(s);
    let n = cs.len();
    for i in 0..n
        invariant
            n == cs@.len(),
            cs@ == s@,
            v@ == old(v)@ + cs@.take(i as int),
    {
        v.push(cs[i]);
        assert(cs@.take(i as int).push(cs@[i as int]) =~= cs@.take(i + 1));
    }
    assert(cs@.take(n as int) =~= cs@);
}

/// One entry of a received directory: the first three words of the part,
/// the third read as a boolean; `None` for a part with fewer than three
/// words or a third word that is not a boolean.
pub open spec fn parse_entry(part: Seq<char>) -> Option<(Seq<char>, Seq<char>, bool)> {
    let w = words(part);
    if w.len() >= 3 {
        match parse_bool_spec(w[2]) {
            Some(b) => Some((w[0], w[1], b)),
            None => None,
        }
    } else {
        None
    }
}

/// Merging the parts of a received directory in order; stops (with
/// `false`) at the first part that is not an entry.
pub open spec fn apply_update(d: Seq<ClientRecord>, parts: Seq<Seq<char>>, now: u64) -> (Seq<ClientRecord>, bool)
    decreases parts.len(),
{
    if parts.len() == 0 {
        (d, true)
    } else {
        match parse_entry(parts[0]) {
            Some((name, ip, online)) => apply_update(merge_entry_spec(d, name, ip, online, now), parts.drop_first(), now),
            None => (d, false),
        }
    }
}

impl DirectoryOfService {
    /// The message that hands this directory to a recovering server.
    pub fn directory_message(&self) -> (r: String)
        ensures
            r@ == directory_message_spec(self@),
    {
        let mut v: Vec<char> = Vec::new();
        let n = self.clients.len();
        for i in 0..n
            invariant
                n == self.clients@.len(),
                v@ == listing(self@.take(i as int)),
        {
            assert(self@.take(i + 1).drop_last() =~= self@.take(i as int));
            assert(self@[i as int] == self.clients@[i as int].view());
            let c = &self.clients[i];
            extend_str(&mut v, c.name.as_str());
            v.push(' ');
            extend_str(&mut v, c.ip_address.as_str());
            v.push(' ');
            if c.online {
                extend_str(&mut v, "true");
            } else {
                extend_str(&mut v, "false");
            }
            v.push(' ');
            v.push(':');
            v.push(' ');
            assert(v@ =~= listing(self@.take(i + 1)));
        }
        assert(self@.take(n as int) =~= self@);
        let ghost l = v@;
        if v.len() > 0 {
            v.pop();
            assert(v@ =~= l.drop_last());
        }
        let mut r = String::new();
        append_str(&mut r, "directory ");
        proof {
            reveal_strlit("directory ");
            reveal_strlit("directory");
        }
        let body = crate::text::string_of(v.as_slice());
        append_str(&mut r, body.as_str());
        assert(r@ =~= directory_message_spec(self@));
        r
    }

    /// Merges a directory received from another server, part by part (parts
    /// separated by `:`); `false` where a part is not an entry, after the
    /// parts before it were merged.
    pub fn apply_directory_message(&mut self, msg: &str, now: u64) -> (ok: bool)
        ensures
            (final(self)@, ok) == apply_update(old(self)@, split_on(msg@, ':'), now),
    {
        let cs = chars_of(msg);
        let parts = split_chars(cs.as_slice(), ':');
        let ghost ps = split_on(msg@, ':');
        assert(parts@.len() == ps.len());
        assert(ps.skip(0) =~= ps);
        let n = parts.len();
        for i in 0..n
            invariant
                n == ps.len(),
                parts@.len() == n,
                ps == split_on(msg@, ':'),
                forall|j: int| 0 <= j < n ==> #[trigger] parts@[j]@ == ps[j],
                apply_update(old(self)@, ps, now) == apply_update(self@, ps.skip(i as int), now),
        {
            let ghost rest = ps.skip(i as int);
            assert(rest[0] == ps[i as int]);
            assert(rest.drop_first() =~= ps.skip(i + 1));
            let w = split_words(parts[i].as_slice());
            if w.len() < 3 {
                return false;
            }
            match parse_bool(w[2].as_slice()) {
                Some(online) => {
                    let name = crate::text::string_of(w[0].as_slice());
                    let ip = crate::text::string_of(w[1].as_slice());
                    self.merge_entry(name, ip, online, now);
                },
                None => {
                    return false;
                },
            }
        }
        assert(ps.skip(n as int) =~= Seq::<Seq<char>>::empty());
        true
    }
}

/// Merging an entry whose address the directory knows: the first entry
/// with that address takes the received online flag and keeps its name,
/// address and last-seen time; every other entry, and the length, stay.
pub proof fn lemma_merge_known_address(d: Seq<ClientRecord>, name: Seq<char>, ip: Seq<char>, online: bool, now: u64, i: int)
    requires
        0 <= i < d.len(),
        d[i].ip == ip,
        forall|j: int| 0 <= j < i ==> (#[trigger] d[j]).ip != ip,
    ensures
        merge_entry_spec(d, name, ip, online, now).len() == d.len(),
        merge_entry_spec(d, name, ip, online, now)[i] == (ClientRecord { name: d[i].name, ip, online, last_seen: d[i].last_seen }),
        forall|k: int| 0 <= k < d.len() && k != i ==> #[trigger] merge_entry_spec(d, name, ip, online, now)[k] == d[k],
{
    assert forall|j: int| 0 <= j < i implies !(#[trigger] has_ip(ip)(d[j])) by {}
    crate::search::lemma_find_first_at(d, has_ip(ip), i);
}

/// Merging an entry whose address the directory does not know appends it,
/// with the received name, address and online flag, last seen now.
pub proof fn lemma_merge_new_address(d: Seq<ClientRecord>, name: Seq<char>, ip: Seq<char>, online: bool, now: u64)
    requires
        forall|j: int| 0 <= j < d.len() ==> (#[trigger] d[j]).ip != ip,
    ensures
        merge_entry_spec(d, name, ip, online, now) == d.push(ClientRecord { name, ip, online, last_seen: now }),
{
    assert forall|j: int| 0 <= j < d.len() implies !(#[trigger] has_ip(ip)(d[j])) by {}
    assert forall|j: int| 0 <= j < d.len() implies !(#[trigger] same_entry(name, ip)(d[j])) by {}
    crate::search::lemma_find_first_none(d, has_ip(ip));
    crate::search::lemma_find_first_none(d, same_entry(name, ip));
}

/// After merging an entry, the directory holds an entry with its address
/// and its online flag, and it has grown by at most one entry.
pub proof fn lemma_merge_holds_entry(d: Seq<ClientRecord>, name: Seq<char>, ip: Seq<char>, online: bool, now: u64)
    ensures
        exists|k: int| 0 <= k < merge_entry_spec(d, name, ip, online, now).len()
            && (#[trigger] merge_entry_spec(d, name, ip, online, now)[k]).ip == ip
            && merge_entry_spec(d, name, ip, online, now)[k].online == online,
        d.len() <= merge_entry_spec(d, name, ip, online, now).len() <= d.len() + 1,
{
    lemma_find_first(d, has_ip(ip));
    match find_first(d, has_ip(ip)) {
        Some(i) => {
            lemma_merge_known_address(d, name, ip, online, now, i as int);
            assert(merge_entry_spec(d, name, ip, online, now)[i as int].ip == ip);
        },
        None => {
            lemma_merge_new_address(d, name, ip, online, now);
            assert(merge_entry_spec(d, name, ip, online, now)[d.len() as int].ip == ip);
        },
    }
}

/// A message from an address the directory knows: the first entry with
/// that address becomes online and last seen now, keeping its name and
/// address; every other entry, and the length, stay.
pub proof fn lemma_contact_known_address(d: Seq<ClientRecord>, ip: Seq<char>, name: Seq<char>, now: u64, i: int)
    requires
        0 <= i < d.len(),
        d[i].ip == ip,
        forall|j: int| 0 <= j < i ==> (#[trigger] d[j]).ip != ip,
    ensures
        record_contact_spec(d, ip, name, now).len() == d.len(),
        record_contact_spec(d, ip, name, now)[i] == (ClientRecord { name: d[i].name, ip, online: true, last_seen: now }),
        forall|k: int| 0 <= k < d.len() && k != i ==> #[trigger] record_contact_spec(d, ip, name, now)[k] == d[k],
{
    assert forall|j: int| 0 <= j < i implies !(#[trigger] has_ip(ip)(d[j])) by {}
    crate::search::lemma_find_first_at(d, has_ip(ip), i);
}

/// A first message from an address the directory does not know adds the
/// client under `name`, online and last seen now.
pub proof fn lemma_contact_new_address(d: Seq<ClientRecord>, ip: Seq<char>, name: Seq<char>, now: u64)
    requires
        forall|j: int| 0 <= j < d.len() ==> (#[trigger] d[j]).ip != ip,
    ensures
        record_contact_spec(d, ip, name, now) == d.push(ClientRecord { name, ip, online: true, last_seen: now }),
{
    assert forall|j: int| 0 <= j < d.len() implies !(#[trigger] has_ip(ip)(d[j])) by {}
    assert forall|j: int| 0 <= j < d.len() implies !(#[trigger] same_entry(name, ip)(d[j])) by {}
    crate::search::lemma_find_first_none(d, has_ip(ip));
    crate::search::lemma_find_first_none(d, same_entry(name, ip));
}

/// After a message from any address, the directory holds an entry with
/// that address that is online and last seen now.
pub proof fn lemma_contact_marks_online(d: Seq<ClientRecord>, ip: Seq<char>, name: Seq<char>, now: u64)
    ensures
        exists|k: int| 0 <= k < record_contact_spec(d, ip, name, now).len()
            && (#[trigger] record_contact_spec(d, ip, name, now)[k]).ip == ip
            && record_contact_spec(d, ip, name, now)[k].online
            && record_contact_spec(d, ip, name, now)[k].last_seen == now,
{
    lemma_find_first(d, has_ip(ip));
    match find_first(d, has_ip(ip)) {
        Some(i) => {
            lemma_contact_known_address(d, ip, name, now, i as int);
            assert(record_contact_spec(d, ip, name, now)[i as int].ip == ip);
        },
        None => {
            lemma_contact_new_address(d, ip, name, now);
            assert(record_contact_spec(d, ip, name, now)[d.len() as int].ip == ip);
        },
    }
}

/// A received directory of one well-formed entry merges that entry and
/// is accepted.
pub proof fn lemma_apply_one_entry(d: Seq<ClientRecord>, part: Seq<char>, now: u64)
    requires
        parse_entry(part) is Some,
    ensures
        ({
            let (name, ip, online) = parse_entry(part)->0;
            apply_update(d, seq![part], now) == (merge_entry_spec(d, name, ip, online, now), true)
        }),
{
    let (name, ip, online) = parse_entry(part)->0;
    assert(seq![part].drop_first() =~= Seq::<Seq<char>>::empty());
    assert(apply_update(merge_entry_spec(d, name, ip, online, now), Seq::<Seq<char>>::empty(), now) == (merge_entry_spec(d, name, ip, online, now), true));
}

/// Adding a client the directory lists under the same name and address:
/// the first such entry takes the online flag and keeps its last-seen
/// time; every other entry, and the length, stay.
pub proof fn lemma_add_known_client(d: Seq<ClientRecord>, name: Seq<char>, ip: Seq<char>, online: bool, now: u64, i: int)
    requires
        0 <= i < d.len(),
        d[i].name == name && d[i].ip == ip,
        forall|j: int| 0 <= j < i ==> !((#[trigger] d[j]).name == name && d[j].ip == ip),
    ensures
        add_client_spec(d, name, ip, online, now).len() == d.len(),
        add_client_spec(d, name, ip, online, now)[i] == (ClientRecord { name, ip, online, last_seen: d[i].last_seen }),
        forall|k: int| 0 <= k < d.len() && k != i ==> #[trigger] add_client_spec(d, name, ip, online, now)[k] == d[k],
{
    assert forall|j: int| 0 <= j < i implies !(#[trigger] same_entry(name, ip)(d[j])) by {}
    crate::search::lemma_find_first_at(d, same_entry(name, ip), i);
}

/// Adding a client the directory does not list under that name and
/// address appends it, last seen now.
pub proof fn lemma_add_new_client(d: Seq<ClientRecord>, name: Seq<char>, ip: Seq<char>, online: bool, now: u64)
    requires
        forall|j: int| 0 <= j < d.len() ==> !((#[trigger] d[j]).name == name && d[j].ip == ip),
    ensures
        add_client_spec(d, name, ip, online, now) == d.push(ClientRecord { name, ip, online, last_seen: now }),
{
    assert forall|j: int| 0 <= j < d.len() implies !(#[trigger] same_entry(name, ip)(d[j])) by {}
    crate::search::lemma_find_first_none(d, same_entry(name, ip));
}

/// Dropping offline and silent clients keeps exactly the entries that are
/// online and were heard from within the timeout.
pub proof fn lemma_fresh_entries(d: Seq<ClientRecord>, now: u64)
    ensures
        forall|x: ClientRecord| #[trigger] fresh_entries(d, now).contains(x)
            <==> (d.contains(x) && x.online && elapsed(now, x.last_seen) <= TIMEOUT_NANOS),
    decreases d.len(),
{
    if d.len() > 0 {
        let dl = d.drop_last();
        lemma_fresh_entries(dl, now);
        let p = fresh_entries(dl, now);
        assert forall|x: ClientRecord| #[trigger] fresh_entries(d, now).contains(x)
            <==> (d.contains(x) && x.online && elapsed(now, x.last_seen) <= TIMEOUT_NANOS) by {
            if d.contains(x) {
                let k = choose|k: int| 0 <= k < d.len() && d[k] == x;
                if k < d.len() - 1 {
                    assert(dl[k] == x);
                }
            }
            if dl.contains(x) {
                let k = choose|k: int| 0 <= k < dl.len() && dl[k] == x;
                assert(d[k] == x);
            }
            assert(d[d.len() - 1] == d.last());
            if d.last().online && elapsed(now, d.last().last_seen) <= TIMEOUT_NANOS {
                assert(fresh_entries(d, now) == p.push(d.last()));
                if p.contains(x) {
                    let k = choose|k: int| 0 <= k < p.len() && p[k] == x;
                    assert(p.push(d.last())[k] == x);
                }
                if p.push(d.last()).contains(x) {
                    let k = choose|k: int| 0 <= k < p.len() + 1 && p.push(d.last())[k] == x;
                    if k < p.len() {
                        assert(p[k] == x);
                    }
                }
                assert(p.push(d.last())[p.len() as int] == d.last());
            }
        }
    }
}

} // verus!
