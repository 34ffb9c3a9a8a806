//! A server's own state and decisions: the loads its peers report, the
//! leader election, what the leader does with the head of the request
//! queue, and what a server that lost the election drops.

use vstd::prelude::*;
use crate::server::directory::{ClientRecord, DirectoryOfService, has_name, client_name, client_name_for};
use crate::server::requests::{PendingRequest, PendingView, Request, RequestView, ClientMessage, ClientRequest, parse_client_message, read_client_message};
use crate::text::{decimal, push_decimal, append_str};
use crate::search::{find_first, lemma_find_first};
use crate::text::{chars_of, split_words, words, parse_u32, parse_u32_spec, string_of, text_is};

verus! {

/// The load a peer server last reported. `usage` stands for the reported
/// CPU usage by a key with the same order (see the application's
/// conversion).
#[derive(Clone, Copy, Debug)]
pub struct PeerLoad {
    pub id: u32,
    pub address: u32,
    pub usage: u32,
}

/// A server's own data.
pub struct ServerData {
    /// This server's address (the second line of the server list).
    pub local_address: u32,
    /// Requests taken on by this server and not yet served.
    pub local_load: i64,
    /// This server's CPU usage, as an order key.
    pub local_cpu_usage: u32,
    /// The loads of the other servers, one entry per address.
    pub other_servers: Vec<PeerLoad>,
    pub is_leader: bool,
    pub local_id: u32,
    /// Whether this server holds the token that lets it simulate a failure.
    pub has_failure_token: bool,
}

/// Whether `a` occurs in `s`.
pub open spec fn listed(s: Seq<u32>, a: u32) -> bool {
    exists|i: int| 0 <= i < s.len() && s[i] == a
}

/// Whether `a` occurs in `s`.
pub fn contains_address(s: &[u32], a: u32) -> (r: bool)
    ensures
        r == listed(s@, a),
{
    let n = s.len();
    for i in 0..n
        invariant
            n == s@.len(),
            forall|j: int| 0 <= j < i ==> s@[j] != a,
    {
        if s[i] == a {
            return true;
        }
    }
    false
}

/// Whether `a` goes before `b` in the election: the lower usage first,
/// and between equal usages the lower server number.
pub open spec fn ranks_before(a: PeerLoad, b: PeerLoad) -> bool {
    a.usage < b.usage || (a.usage == b.usage && a.id < b.id)
}

/// The election over the peers heard from, in the order heard, starting
/// from this server's own entry `own`: a peer listed in `available` that
/// goes before the best so far takes its place. Peers that are not listed
/// are skipped.
pub open spec fn election_scan(peers: Seq<PeerLoad>, available: Seq<u32>, own: PeerLoad) -> PeerLoad
    decreases peers.len(),
{
    if peers.len() == 0 {
        own
    } else {
        let best = election_scan(peers.drop_last(), available, own);
        let p = peers.last();
        if listed(available, p.address) && ranks_before(p, best) { p } else { best }
    }
}

impl ServerData {
    /// A server at `local_address` with number `local_id`, load 1, no peers.
    pub fn new(local_address: u32, local_id: u32) -> (r: ServerData)
        ensures
            r.local_address == local_address,
            r.local_id == local_id,
            r.local_load == 1,
            r.local_cpu_usage == 0,
            r.other_servers@.len() == 0,
            !r.is_leader,
            !r.has_failure_token,
    {
        ServerData {
            local_address,
            local_load: 1,
            local_cpu_usage: 0,
            other_servers: Vec::new(),
            is_leader: false,
            local_id,
            has_failure_token: false,
        }
    }

    /// This server's own entry in the election.
    pub open spec fn own_load(&self) -> PeerLoad {
        PeerLoad { id: self.local_id, address: self.local_address, usage: self.local_cpu_usage }
    }

    /// The entry that wins the election over the servers in `available`.
    pub open spec fn best(&self, available: Seq<u32>) -> PeerLoad {
        election_scan(self.other_servers@, available, self.own_load())
    }

    /// The address of the server that wins the election.
    pub open spec fn winner(&self, available: Seq<u32>) -> u32 {
        self.best(available).address
    }

    /// The server that wins the election, given the servers still listed as
    /// available: of this server and the available peers, the one with the
    /// lowest usage, and between equal usages the lowest number.
    pub fn election_winner(&self, available: &[u32]) -> (r: u32)
        ensures
            r == self.winner(available@),
    {
        let mut best = PeerLoad { id: self.local_id, address: self.local_address, usage: self.local_cpu_usage };
        let n = self.other_servers.len();
        for i in 0..n
            invariant
                n == self.other_servers@.len(),
                best == election_scan(self.other_servers@.take(i as int), available@, self.own_load()),
        {
            assert(self.other_servers@.take(i + 1).drop_last() =~= self.other_servers@.take(i as int));
            assert(self.other_servers@.take(i + 1).last() == self.other_servers@[i as int]);
            let p = self.other_servers[i];
            if contains_address(available, p.address) && (p.usage < best.usage || (p.usage == best.usage && p.id < best.id)) {
                best = p;
            }
        }
        assert(self.other_servers@.take(n as int) =~= self.other_servers@);
        best.address
    }

    /// A peer's report: every entry for its address takes the new usage; a
    /// new address is appended.
    pub fn record_peer_load(&mut self, id: u32, address: u32, usage: u32)
        ensures
            final(self)@ == old(self)@,
            final(self).other_servers@ == record_peer_load_spec(old(self).other_servers@, id, address, usage),
    {
        let n = self.other_servers.len();
        let mut exists_already = false;
        for i in 0..n
            invariant
                n == self.other_servers@.len(),
                exists_already == exists|j: int| 0 <= j < i && self.other_servers@[j].address == address,
        {
            if self.other_servers[i].address == address {
                exists_already = true;
            }
        }
        if !exists_already {
            self.other_servers.push(PeerLoad { id, address, usage });
        } else {
            let ghost before = self.other_servers@;
            for i in 0..n
                invariant
                    n == self.other_servers@.len(),
                    self@ == old(self)@,
                    before.len() == n,
                    exists|j: int| 0 <= j < n && before[j].address == address,
                    forall|j: int| 0 <= j < i ==> #[trigger] self.other_servers@[j] == (if before[j].address == address {
                        PeerLoad { id: before[j].id, address: before[j].address, usage }
                    } else {
                        before[j]
                    }),
                    forall|j: int| i <= j < n ==> #[trigger] self.other_servers@[j] == before[j],
            {
                let p = self.other_servers[i];
                if p.address == address {
                    self.other_servers.set(i, PeerLoad { id: p.id, address: p.address, usage });
                }
            }
            assert(self.other_servers@ =~= record_peer_load_spec(before, id, address, usage));
        }
    }
}

/// The fields of `ServerData` besides the peer list.
pub struct ServerFields {
    pub local_address: u32,
    pub local_load: i64,
    pub local_cpu_usage: u32,
    pub is_leader: bool,
    pub local_id: u32,
    pub has_failure_token: bool,
}

impl ServerData {
    pub open spec fn view(&self) -> ServerFields {
        ServerFields {
            local_address: self.local_address,
            local_load: self.local_load,
            local_cpu_usage: self.local_cpu_usage,
            is_leader: self.is_leader,
            local_id: self.local_id,
            has_failure_token: self.has_failure_token,
        }
    }
}

/// The peer list after a report from `address`.
pub open spec fn record_peer_load_spec(peers: Seq<PeerLoad>, id: u32, address: u32, usage: u32) -> Seq<PeerLoad> {
    if exists|j: int| 0 <= j < peers.len() && peers[j].address == address {
        Seq::new(peers.len(), |j: int| if peers[j].address == address {
            PeerLoad { id: peers[j].id, address: peers[j].address, usage }
        } else {
            peers[j]
        })
    } else {
        peers.push(PeerLoad { id, address, usage })
    }
}


/// After a peer's report, the peer list holds an entry with its address
/// and the reported usage; entries for other addresses stay as they were,
/// and a new address adds one entry at the end.
pub proof fn lemma_record_peer_load(peers: Seq<PeerLoad>, id: u32, address: u32, usage: u32)
    ensures
        ({
            let r = record_peer_load_spec(peers, id, address, usage);
            &&& exists|k: int| 0 <= k < r.len() && (#[trigger] r[k]).address == address && r[k].usage == usage
            &&& forall|k: int| 0 <= k < peers.len() && peers[k].address != address ==> #[trigger] r[k] == peers[k]
            &&& forall|k: int| 0 <= k < peers.len() && peers[k].address == address
                ==> #[trigger] r[k] == (PeerLoad { id: peers[k].id, address, usage })
            &&& r.len() == if exists|k: int| 0 <= k < peers.len() && (#[trigger] peers[k]).address == address {
                peers.len()
            } else {
                peers.len() + 1
            }
        }),
{
    let r = record_peer_load_spec(peers, id, address, usage);
    if exists|k: int| 0 <= k < peers.len() && (#[trigger] peers[k]).address == address {
        let k = choose|k: int| 0 <= k < peers.len() && (#[trigger] peers[k]).address == address;
        assert(r[k].address == address && r[k].usage == usage);
    } else {
        assert(r[peers.len() as int] == PeerLoad { id, address, usage });
    }
}

/// The winner of an election is this server's own entry or the entry of
/// an available peer.
pub proof fn lemma_winner_is_candidate(peers: Seq<PeerLoad>, available: Seq<u32>, own: PeerLoad)
    ensures
        ({
            let w = election_scan(peers, available, own);
            w == own || exists|i: int| 0 <= i < peers.len() && #[trigger] peers[i] == w && listed(available, w.address)
        }),
    decreases peers.len(),
{
    if peers.len() > 0 {
        lemma_winner_is_candidate(peers.drop_last(), available, own);
        let w0 = election_scan(peers.drop_last(), available, own);
        if w0 != own {
            let i = choose|i: int| 0 <= i < peers.drop_last().len() && #[trigger] peers.drop_last()[i] == w0 && listed(available, w0.address);
            assert(peers[i] == peers.drop_last()[i]);
        }
        assert(peers[peers.len() - 1] == peers.last());
    }
}

/// No server taking part goes before the winner: neither this server nor
/// any available peer.
pub proof fn lemma_winner_is_least(peers: Seq<PeerLoad>, available: Seq<u32>, own: PeerLoad)
    ensures
        !ranks_before(own, election_scan(peers, available, own)),
        forall|i: int| 0 <= i < peers.len() && listed(available, (#[trigger] peers[i]).address)
            ==> !ranks_before(peers[i], election_scan(peers, available, own)),
    decreases peers.len(),
{
    if peers.len() > 0 {
        lemma_winner_is_least(peers.drop_last(), available, own);
        let w = election_scan(peers, available, own);
        assert forall|i: int| 0 <= i < peers.len() && listed(available, (#[trigger] peers[i]).address)
            implies !ranks_before(peers[i], w) by {
            if i < peers.len() - 1 {
                assert(peers[i] == peers.drop_last()[i]);
            } else {
                assert(peers[i] == peers.last());
            }
        }
    }
}

/// A server that goes before every available peer wins the election.
pub proof fn lemma_least_loaded_wins(peers: Seq<PeerLoad>, available: Seq<u32>, own: PeerLoad)
    requires
        forall|i: int| 0 <= i < peers.len() && listed(available, (#[trigger] peers[i]).address) ==> ranks_before(own, peers[i]),
    ensures
        election_scan(peers, available, own) == own,
    decreases peers.len(),
{
    if peers.len() > 0 {
        assert forall|i: int| 0 <= i < peers.drop_last().len() && listed(available, (#[trigger] peers.drop_last()[i]).address) implies ranks_before(own, peers.drop_last()[i]) by {
            assert(peers.drop_last()[i] == peers[i]);
        }
        lemma_least_loaded_wins(peers.drop_last(), available, own);
        assert(peers.last() == peers[peers.len() - 1]);
    }
}

/// This server leads exactly when it goes before every available peer:
/// its usage is lower, or equal with a lower number. Peers that are not
/// listed as available never matter. (A server never holds an entry for
/// its own address, and no available peer reports both its number and its
/// usage.)
pub proof fn lemma_leads_iff_first(data: ServerData, available: Seq<u32>)
    requires
        forall|i: int| 0 <= i < data.other_servers@.len() ==> (#[trigger] data.other_servers@[i]).address != data.local_address,
        forall|i: int| 0 <= i < data.other_servers@.len() && listed(available, (#[trigger] data.other_servers@[i]).address)
            ==> !(data.other_servers@[i].id == data.local_id && data.other_servers@[i].usage == data.local_cpu_usage),
    ensures
        (data.winner(available) == data.local_address) <==> (forall|i: int|
            0 <= i < data.other_servers@.len() && listed(available, (#[trigger] data.other_servers@[i]).address)
                ==> ranks_before(data.own_load(), data.other_servers@[i])),
{
    let peers = data.other_servers@;
    let own = data.own_load();
    if forall|i: int| 0 <= i < peers.len() && listed(available, (#[trigger] peers[i]).address) ==> ranks_before(own, peers[i]) {
        lemma_least_loaded_wins(peers, available, own);
    }
    if data.winner(available) == data.local_address {
        lemma_winner_is_candidate(peers, available, own);
        lemma_winner_is_least(peers, available, own);
        let w = data.best(available);
        if w != own {
            let k = choose|k: int| 0 <= k < peers.len() && #[trigger] peers[k] == w && listed(available, w.address);
            assert(peers[k].address != data.local_address);
        }
        assert forall|i: int| 0 <= i < peers.len() && listed(available, (#[trigger] peers[i]).address)
            implies ranks_before(own, peers[i]) by {
            assert(!ranks_before(peers[i], w));
        }
    }
}

/// Two servers with different numbers that each hold the other's current
/// entry, listed as available, do not both win: at most one server leads
/// among servers that share one view of the loads. (A server never holds an
/// entry for its own address.)
pub proof fn lemma_one_leader(a: ServerData, available_a: Seq<u32>, b: ServerData, available_b: Seq<u32>)
    requires
        a.local_id != b.local_id,
        exists|i: int| 0 <= i < a.other_servers@.len() && #[trigger] a.other_servers@[i] == b.own_load(),
        exists|j: int| 0 <= j < b.other_servers@.len() && #[trigger] b.other_servers@[j] == a.own_load(),
        listed(available_a, b.local_address),
        listed(available_b, a.local_address),
        forall|i: int| 0 <= i < a.other_servers@.len() ==> (#[trigger] a.other_servers@[i]).address != a.local_address,
        forall|j: int| 0 <= j < b.other_servers@.len() ==> (#[trigger] b.other_servers@[j]).address != b.local_address,
    ensures
        !(a.winner(available_a) == a.local_address && b.winner(available_b) == b.local_address),
{
    if a.winner(available_a) == a.local_address && b.winner(available_b) == b.local_address {
        lemma_winner_is_candidate(a.other_servers@, available_a, a.own_load());
        lemma_winner_is_candidate(b.other_servers@, available_b, b.own_load());
        lemma_winner_is_least(a.other_servers@, available_a, a.own_load());
        lemma_winner_is_least(b.other_servers@, available_b, b.own_load());
        let wa = a.best(available_a);
        let wb = b.best(available_b);
        if wa != a.own_load() {
            let k = choose|k: int| 0 <= k < a.other_servers@.len() && #[trigger] a.other_servers@[k] == wa && listed(available_a, wa.address);
            assert(a.other_servers@[k].address != a.local_address);
        }
        if wb != b.own_load() {
            let k = choose|k: int| 0 <= k < b.other_servers@.len() && #[trigger] b.other_servers@[k] == wb && listed(available_b, wb.address);
            assert(b.other_servers@[k].address != b.local_address);
        }
        let i = choose|i: int| 0 <= i < a.other_servers@.len() && #[trigger] a.other_servers@[i] == b.own_load();
        let j = choose|j: int| 0 <= j < b.other_servers@.len() && #[trigger] b.other_servers@[j] == a.own_load();
        assert(!ranks_before(a.other_servers@[i], wa));
        assert(!ranks_before(b.other_servers@[j], wb));
    }
}

/// The leader's next step for the head of the request queue.
pub enum LeaderStep {
    /// Nothing to do (empty queue, or a kind the leader does not serve).
    Idle,
    /// Receive and encrypt an image from the client at this address.
    Encrypt { client: u32 },
    /// Send `text` to the client at this address and port.
    Reply { client: u32, port: u16, text: Seq<char> },
    /// Hand the waiting access-right changes to client `name`.
    SendUnhandled { name: Seq<char> },
}

/// What the leader does with the head of the queue: `encrypt` starts an
/// encryption for the client; `request` answers with the address of the
/// first directory entry with the asked name, or `none`; `online` hands the
/// client its waiting access-right changes; other kinds wait.
pub open spec fn leader_step(pending: Seq<PendingView>, d: Seq<ClientRecord>) -> LeaderStep {
    if pending.len() == 0 {
        LeaderStep::Idle
    } else {
        let h = pending[0];
        if h.kind == "encrypt"@ {
            LeaderStep::Encrypt { client: h.address }
        } else if h.kind == "request"@ {
            match find_first(d, has_name(h.text)) {
                Some(i) => LeaderStep::Reply { client: h.address, port: 8082, text: d[i as int].ip },
                None => LeaderStep::Reply { client: h.address, port: 8082, text: "none"@ },
            }
        } else if h.kind == "online"@ {
            LeaderStep::SendUnhandled { name: client_name_for(h.id as nat) }
        } else {
            LeaderStep::Idle
        }
    }
}

/// The leader answers a lookup at the head of the queue on port 8082 of
/// the asking client: with the address of the first directory entry that
/// has the asked name, or with `none` where no entry has it.
pub proof fn lemma_leader_answers_lookup(pending: Seq<PendingView>, d: Seq<ClientRecord>)
    requires
        pending.len() > 0,
        pending[0].kind == "request"@,
    ensures
        match leader_step(pending, d) {
            LeaderStep::Reply { client, port, text } => {
                &&& client == pending[0].address
                &&& port == 8082
                &&& (exists|i: int| 0 <= i < d.len() && (#[trigger] d[i]).name == pending[0].text) ==> exists|i: int|
                    0 <= i < d.len() && (#[trigger] d[i]).name == pending[0].text && text == d[i].ip
                    && forall|j: int| 0 <= j < i ==> (#[trigger] d[j]).name != pending[0].text
                &&& (forall|i: int| 0 <= i < d.len() ==> (#[trigger] d[i]).name != pending[0].text) ==> text == "none"@
            },
            _ => false,
        },
{
    reveal_strlit("request");
    reveal_strlit("encrypt");
    assert("request"@ != "encrypt"@) by {
        assert("request"@[0] != "encrypt"@[0]);
    }
    lemma_find_first(d, has_name(pending[0].text));
    match find_first(d, has_name(pending[0].text)) {
        Some(i) => {
            assert(d[i as int].name == pending[0].text);
            assert forall|j: int| 0 <= j < i implies (#[trigger] d[j]).name != pending[0].text by {
                assert(!has_name(pending[0].text)(d[j]));
            }
        },
        None => {
            assert forall|i: int| 0 <= i < d.len() implies (#[trigger] d[i]).name != pending[0].text by {
                assert(!has_name(pending[0].text)(d[i]));
            }
        },
    }
}

/// The leader's next step, to carry out.
pub enum LeaderAction {
    Idle,
    Encrypt { client: u32 },
    Reply { client: u32, port: u16, text: String },
    SendUnhandled { name: String },
}

impl LeaderAction {
    pub open spec fn view(&self) -> LeaderStep {
        match self {
            LeaderAction::Idle => LeaderStep::Idle,
            LeaderAction::Encrypt { client } => LeaderStep::Encrypt { client: *client },
            LeaderAction::Reply { client, port, text } => LeaderStep::Reply { client: *client, port: *port, text: text@ },
            LeaderAction::SendUnhandled { name } => LeaderStep::SendUnhandled { name: name@ },
        }
    }
}

/// Requests without those asked by `name`, in order.
pub open spec fn without_requester(reqs: Seq<RequestView>, name: Seq<char>) -> Seq<RequestView>
    decreases reqs.len(),
{
    if reqs.len() == 0 {
        reqs
    } else {
        let p = without_requester(reqs.drop_last(), name);
        if reqs.last().requester == name { p } else { p.push(reqs.last()) }
    }
}

/// What a server that lost the election drops: the first queued request,
/// then the last one; if that last one announced a client coming online,
/// the access-right changes waiting for that client go too.
pub open spec fn after_loss(pending: Seq<PendingView>, reqs: Seq<RequestView>) -> (Seq<PendingView>, Seq<RequestView>) {
    let p1 = if pending.len() > 0 { pending.remove(0) } else { pending };
    if p1.len() == 0 {
        (p1, reqs)
    } else if p1.last().kind == "online"@ {
        (p1.drop_last(), without_requester(reqs, client_name_for(p1.last().id as nat)))
    } else {
        (p1.drop_last(), reqs)
    }
}

/// The load after one more request: one more, staying at the greatest
/// value it can hold.
pub open spec fn load_plus_one(l: i64) -> i64 {
    if l < i64::MAX { (l + 1) as i64 } else { l }
}

/// The load after a request was served: one less, staying at the least
/// value it can hold.
pub open spec fn load_less_one(l: i64) -> i64 {
    if l > i64::MIN { (l - 1) as i64 } else { l }
}

/// The leader flag once the election has run: set where this server won.
pub open spec fn flag_after_election(was: bool, won: bool) -> bool {
    won || was
}

/// The leader flag once the election is over: a winner hands the
/// leadership back.
pub open spec fn flag_after_end(flag: bool, won: bool) -> bool {
    if won { false } else { flag }
}

/// A server that was not leader is not leader once its election is over,
/// whether it won or lost: a winner is leader only while it serves the
/// head of the queue (serving keeps the flag, see `finish_leader_action`),
/// and the election then reports that it is not leader.
pub proof fn lemma_election_leaves_no_leader(data: ServerData, available: Seq<u32>)
    requires
        !data.is_leader,
    ensures
        ({
            let won = data.winner(available) == data.local_address;
            &&& flag_after_election(data.is_leader, won) == won
            &&& !flag_after_end(flag_after_election(data.is_leader, won), won)
        }),
{
}

pub open spec fn pending_views(v: Seq<PendingRequest>) -> Seq<PendingView> {
    v.map_values(|p: PendingRequest| p@)
}

pub open spec fn request_views(v: Seq<Request>) -> Seq<RequestView> {
    v.map_values(|q: Request| q@)
}

/// Everything a server keeps: its own data, the request queue, the waiting
/// access-right changes, the directory, and the count of peer reports since
/// the last election.
pub struct ServerState {
    pub data: ServerData,
    pub pending: Vec<PendingRequest>,
    pub requests: Vec<Request>,
    pub directory: DirectoryOfService,
    pub counter: u32,
}

impl ServerState {
    /// A server with nothing queued.
    pub fn new(local_address: u32, local_id: u32) -> (r: ServerState)
        ensures
            r.data.local_address == local_address,
            r.data.local_id == local_id,
            r.data.local_load == 1,
            r.data.local_cpu_usage == 0,
            r.data.other_servers@.len() == 0,
            !r.data.is_leader,
            !r.data.has_failure_token,
            r.pending@.len() == 0,
            r.requests@.len() == 0,
            r.directory@.len() == 0,
            r.counter == 0,
    {
        ServerState {
            data: ServerData::new(local_address, local_id),
            pending: Vec::new(),
            requests: Vec::new(),
            directory: DirectoryOfService::new(),
            counter: 0,
        }
    }

    /// The leader's next step for the head of the queue.
    pub fn next_leader_action(&self) -> (r: LeaderAction)
        ensures
            r@ == leader_step(pending_views(self.pending@), self.directory@),
    {
        if self.pending.len() == 0 {
            return LeaderAction::Idle;
        }
        let h = &self.pending[0];
        assert(pending_views(self.pending@)[0] == h@);
        if text_is(&h.request_type, "encrypt") {
            LeaderAction::Encrypt { client: h.address }
        } else if text_is(&h.request_type, "request") {
            match self.directory.find_client_by_name(&h.message) {
                Some(i) => {
                    assert(self.directory@[i as int] == self.directory.clients@[i as int].view());
                    LeaderAction::Reply { client: h.address, port: 8082, text: self.directory.clients[i].ip_address.clone() }
                },
                None => {
                    let mut t = String::new();
                    crate::text::append_str(&mut t, "none");
                    assert(t@ =~= "none"@);
                    LeaderAction::Reply { client: h.address, port: 8082, text: t }
                },
            }
        } else if text_is(&h.request_type, "online") {
            LeaderAction::SendUnhandled { name: client_name(h.id) }
        } else {
            LeaderAction::Idle
        }
    }

    /// The head of the queue was served: it leaves the queue and the load
    /// drops by one (staying at the least value it can hold).
    pub fn finish_leader_action(&mut self)
        requires
            old(self).pending@.len() > 0,
        ensures
            final(self).pending@ == old(self).pending@.remove(0),
            final(self).data.local_load == load_less_one(old(self).data.local_load),
            final(self).data.local_address == old(self).data.local_address,
            final(self).data.local_id == old(self).data.local_id,
            final(self).data.is_leader == old(self).data.is_leader,
            final(self).data.has_failure_token == old(self).data.has_failure_token,
            final(self).data.local_cpu_usage == old(self).data.local_cpu_usage,
            final(self).data.other_servers == old(self).data.other_servers,
            final(self).requests == old(self).requests,
            final(self).directory == old(self).directory,
            final(self).counter == old(self).counter,
    {
        self.pending.remove(0);
        if self.data.local_load > i64::MIN {
            self.data.local_load = self.data.local_load - 1;
        }
    }

    /// Runs the election over the servers listed as available. The winner
    /// (when it is this server) becomes leader and takes one more load
    /// (staying at the greatest value it can hold); a loser drops requests
    /// as `after_loss` says. Returns whether this server won.
    pub fn elect_leader(&mut self, available: &[u32]) -> (won: bool)
        ensures
            won == (old(self).data.winner(available@) == old(self).data.local_address),
            final(self).data.is_leader == flag_after_election(old(self).data.is_leader, won),
            won ==> {
                &&& final(self).data.local_load == load_plus_one(old(self).data.local_load)
                &&& final(self).pending == old(self).pending
                &&& final(self).requests == old(self).requests
            },
            !won ==> {
                &&& final(self).data.local_load == old(self).data.local_load
                &&& (pending_views(final(self).pending@), request_views(final(self).requests@))
                    == after_loss(pending_views(old(self).pending@), request_views(old(self).requests@))
            },
            final(self).data.local_address == old(self).data.local_address,
            final(self).data.local_id == old(self).data.local_id,
            final(self).data.has_failure_token == old(self).data.has_failure_token,
            final(self).data.local_cpu_usage == old(self).data.local_cpu_usage,
            final(self).data.other_servers == old(self).data.other_servers,
            final(self).directory == old(self).directory,
            final(self).counter == old(self).counter,
    {
        let w = self.data.election_winner(available);
        if w == self.data.local_address {
            self.data.is_leader = true;
            if self.data.local_load < i64::MAX {
                self.data.local_load = self.data.local_load + 1;
            }
            true
        } else {
            self.drop_after_loss();
            false
        }
    }

    /// The election is over: a winner, its leader's work done, hands the
    /// leadership back. Returns whether this server is leader now.
    pub fn end_election(&mut self, won: bool) -> (r: bool)
        ensures
            final(self).data.is_leader == flag_after_end(old(self).data.is_leader, won),
            r == final(self).data.is_leader,
            final(self).data.local_load == old(self).data.local_load,
            final(self).data.local_address == old(self).data.local_address,
            final(self).data.local_id == old(self).data.local_id,
            final(self).data.has_failure_token == old(self).data.has_failure_token,
            final(self).data.local_cpu_usage == old(self).data.local_cpu_usage,
            final(self).data.other_servers == old(self).data.other_servers,
            final(self).pending == old(self).pending,
            final(self).requests == old(self).requests,
            final(self).directory == old(self).directory,
            final(self).counter == old(self).counter,
    {
        if won {
            self.data.is_leader = false;
        }
        self.data.is_leader
    }

    fn drop_after_loss(&mut self)
        ensures
            (pending_views(final(self).pending@), request_views(final(self).requests@))
                == after_loss(pending_views(old(self).pending@), request_views(old(self).requests@)),
            final(self).data == old(self).data,
            final(self).directory == old(self).directory,
            final(self).counter == old(self).counter,
    {
        let ghost p0 = pending_views(self.pending@);
        let _ = PendingRequest::remove_request_by_index(&mut self.pending, 0);
        let ghost p1 = if p0.len() > 0 { p0.remove(0) } else { p0 };
        assert(pending_views(self.pending@) =~= p1);
        let last = self.pending.pop();
        match last {
            None => {},
            Some(q) => {
                assert(q@ == p1.last());
                assert(pending_views(self.pending@) =~= p1.drop_last());
                if text_is(&q.request_type, "online") {
                    let name = client_name(q.id);
                    self.drop_requests_of(&name);
                }
            },
        }
    }

    fn drop_requests_of(&mut self, name: &String)
        ensures
            request_views(final(self).requests@) == without_requester(request_views(old(self).requests@), name@),
            final(self).pending == old(self).pending,
            final(self).data == old(self).data,
            final(self).directory == old(self).directory,
            final(self).counter == old(self).counter,
    {
        let ghost orig = request_views(self.requests@);
        let n = self.requests.len();
        let mut i: usize = 0;
        for j in 0..n
            invariant
                n == orig.len(),
                orig == request_views(old(self).requests@),
                self.pending == old(self).pending,
                self.data == old(self).data,
                self.directory == old(self).directory,
                self.counter == old(self).counter,
                i == without_requester(orig.take(j as int), name@).len(),
                request_views(self.requests@) == without_requester(orig.take(j as int), name@) + orig.skip(j as int),
        {
            assert(orig.take(j + 1).drop_last() =~= orig.take(j as int));
            assert(orig.skip(j as int).len() == n - j);
            assert(request_views(self.requests@).len() == i + (n - j));
            assert(self.requests@.len() == request_views(self.requests@).len());
            assert(orig.skip(j as int)[0] == orig[j as int]);
            assert(request_views(self.requests@)[i as int] == orig[j as int]);
            assert(self.requests@[i as int]@ == orig[j as int]);
            if self.requests[i].requesting_client_name == *name {
                let ghost before = request_views(self.requests@);
                self.requests.remove(i);
                assert(request_views(self.requests@) =~= before.remove(i as int));
                assert(without_requester(orig.take(j as int), name@) + orig.skip(j + 1) =~= before.remove(i as int));
            } else {
                assert((without_requester(orig.take(j as int), name@) + orig.skip(j as int))
                    =~= without_requester(orig.take(j + 1), name@) + orig.skip(j + 1));
                let len_now = self.requests.len();
                assert(i < len_now);
                i = i + 1;
            }
        }
        assert(orig.take(n as int) =~= orig);
        assert(orig.skip(n as int) =~= Seq::<RequestView>::empty());
        assert(request_views(self.requests@) =~= without_requester(orig, name@));
    }

    /// A peer reported its load: one more report since the last election;
    /// `false`, with the count unchanged, where it would overflow.
    pub fn note_peer_report(&mut self) -> (ok: bool)
        ensures
            ok == (old(self).counter < u32::MAX),
            final(self).counter == (if ok { (old(self).counter + 1) as u32 } else { old(self).counter }),
            final(self).data == old(self).data,
            final(self).pending == old(self).pending,
            final(self).requests == old(self).requests,
            final(self).directory == old(self).directory,
    {
        if self.counter < u32::MAX {
            self.counter = self.counter + 1;
            true
        } else {
            false
        }
    }

    /// After two peer reports the count starts over; an election is due if
    /// this server is still listed as available.
    pub fn check_counter(&mut self, available: &[u32]) -> (elect: bool)
        ensures
            elect == (old(self).counter == 2 && listed(available@, old(self).data.local_address)),
            final(self).counter == (if old(self).counter == 2 { 0 } else { old(self).counter }),
            final(self).data == old(self).data,
            final(self).pending == old(self).pending,
            final(self).requests == old(self).requests,
            final(self).directory == old(self).directory,
    {
        let found = contains_address(available, self.data.local_address);
        if self.counter == 2 {
            self.counter = 0;
            found
        } else {
            false
        }
    }
}


impl ServerState {
    /// Takes a client's message from `address`: a request for the leader
    /// joins the queue (and the server must then multicast its load), an
    /// access-right change joins the waiting list. Gives the client's number
    /// and whether to multicast; `None` for a malformed message (see
    /// `parse_client_message`), with nothing queued.
    pub fn queue_client_message(&mut self, msg: &str, address: u32) -> (r: Option<(u32, bool)>)
        ensures
            match parse_client_message(msg@) {
                None => r is None && final(self).pending == old(self).pending && final(self).requests == old(self).requests,
                Some(ClientMessage::Queued { id, kind, text }) => r == Some((id, true))
                    && pending_views(final(self).pending@) == pending_views(old(self).pending@).push(PendingView { id, address, kind, text })
                    && final(self).requests == old(self).requests,
                Some(ClientMessage::Unhandled { id, requester, image, rights }) => r == Some((id, false))
                    && request_views(final(self).requests@) == request_views(old(self).requests@).push(RequestView {
                        requester, owner: client_name_for(id as nat), image, rights })
                    && final(self).pending == old(self).pending,
            },
            final(self).data == old(self).data,
            final(self).directory == old(self).directory,
            final(self).counter == old(self).counter,
    {
        match read_client_message(msg, address) {
            None => None,
            Some((id, ClientRequest::Queued(p))) => {
                let ghost before = pending_views(self.pending@);
                self.pending.push(p);
                assert(pending_views(self.pending@) =~= before.push(p@));
                Some((id, true))
            },
            Some((id, ClientRequest::Unhandled(q))) => {
                let ghost before = request_views(self.requests@);
                self.requests.push(q);
                assert(request_views(self.requests@) =~= before.push(q@));
                Some((id, false))
            },
        }
    }
}

/// A peer's load report `id usage`: the peer's number and the text of its
/// usage (a float, read by the caller); `None` for a malformed report
/// (fewer than two words, or a number that is not a `u32`).
pub fn split_load_message(msg: &str) -> (r: Option<(u32, String)>)
    ensures
        ({
            let w = words(msg@);
            if w.len() < 2 || parse_u32_spec(w[0]) is None {
                r is None
            } else {
                r matches Some((id, usage)) && parse_u32_spec(w[0]) == Some(id) && usage@ == w[1]
            }
        }),
{
    let cs = chars_of(msg);
    let w = split_words(cs.as_slice());
    if w.len() < 2 {
        return None;
    }
    match parse_u32(w[0].as_slice()) {
        None => None,
        Some(id) => Some((id, string_of(w[1].as_slice()))),
    }
}

/// `port server2`: the port on which this server takes a client's image.
pub open spec fn offer_text(port: u16) -> Seq<char> {
    decimal(port as nat) + seq![' '] + "server2"@
}

/// Builds `port server2`.
pub fn encryption_offer(port: u16) -> (r: String)
    ensures
        r@ == offer_text(port),
{
    let mut r = String::new();
    push_decimal(&mut r, port as u64);
    crate::text::push_char(&mut r, ' ');
    append_str(&mut r, "server2");
    assert(r@ =~= offer_text(port));
    r
}

} // verus!
