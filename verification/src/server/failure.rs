//! Simulated failures: the server holding the failure token announces, every
//! twenty seconds, alternately that it failed and that it recovered; the
//! others update the list of available servers and the token.
//!
//! The server lists are files of one address per line: the full list and
//! the list of servers currently available. Here they are sequences of lines.

use vstd::prelude::*;
use crate::text::{chars_of, string_of, split_words, words, parse_usize, parse_usize_spec, ipv4_text, ipv4_string, append_str};
use crate::server::node::{listed, contains_address};
use crate::search::{find_first, lemma_find_first};

verus! {

/// The servers other than `local`, in list order.
pub open spec fn peers_of(servers: Seq<u32>, local: u32) -> Seq<u32>
    decreases servers.len(),
{
    if servers.len() == 0 {
        servers
    } else {
        let p = peers_of(servers.drop_last(), local);
        if servers.last() != local { p.push(servers.last()) } else { p }
    }
}

/// The servers other than `local`, to which a server sends its messages.
pub fn peer_targets(servers: &[u32], local: u32) -> (r: Vec<u32>)
    ensures
        r@ == peers_of(servers@, local),
{
    let mut r: Vec<u32> = Vec::new();
    let n = servers.len();
    for i in 0..n
        invariant
            n == servers@.len(),
            r@ == peers_of(servers@.take(i as int), local),
    {
        assert(servers@.take(i + 1).drop_last() =~= servers@.take(i as int));
        if servers[i] != local {
            r.push(servers[i]);
        }
    }
    assert(servers@.take(n as int) =~= servers@);
    r
}

/// The index of the last occurrence of `a` in `s`, if any.
pub open spec fn last_index(s: Seq<u32>, a: u32) -> Option<nat>
    decreases s.len(),
{
    if s.len() == 0 {
        None
    } else if s.last() == a {
        Some((s.len() - 1) as nat)
    } else {
        last_index(s.drop_last(), a)
    }
}

proof fn lemma_last_index(s: Seq<u32>, a: u32)
    ensures
        last_index(s, a) matches Some(p) ==> p < s.len() && s[p as int] == a,
    decreases s.len(),
{
    if s.len() > 0 && s.last() != a {
        lemma_last_index(s.drop_last(), a);
    }
}

/// The line that a failing server removes from its available list: its
/// last occurrence in the full list, counted among the other servers before
/// it (only the others are counted along the list).
pub open spec fn own_line_index(servers: Seq<u32>, local: u32) -> Option<nat> {
    match last_index(servers, local) {
        Some(p) => Some(peers_of(servers.take(p as int), local).len()),
        None => None,
    }
}

/// What a server announces when its failure clock fires.
pub struct FailureNotice {
    /// `take 1`, `Recover 1` or `Server failed`.
    pub text: String,
    /// The new list of available servers to write, if any.
    pub servers2: Option<Vec<String>>,
    /// Where the notice goes.
    pub targets: Vec<u32>,
    /// Whether this server holds the failure token afterwards.
    pub token: bool,
}

/// The lines without the one at `i`.
pub open spec fn without_line(lines: Seq<Seq<char>>, i: int) -> Seq<Seq<char>> {
    lines.remove(i)
}

pub open spec fn line_views(v: Seq<String>) -> Seq<Seq<char>> {
    v.map_values(|s: String| s@)
}

fn copy_lines_except(lines: &Vec<String>, skip: usize) -> (r: Vec<String>)
    requires
        skip < lines@.len(),
    ensures
        line_views(r@) == line_views(lines@).remove(skip as int),
{
    let mut r: Vec<String> = Vec::new();
    let n = lines.len();
    for i in 0..n
        invariant
            n == lines@.len(),
            skip < n,
            line_views(r@) == (if i <= skip { line_views(lines@).take(i as int) } else { line_views(lines@).remove(skip as int).take(i - 1) }),
    {
        let ghost before = line_views(r@);
        if i != skip {
            let c = lines[i].clone();
            r.push(c);
            assert(line_views(r@) =~= before.push(lines@[i as int]@));
        }
        proof {
            let lv = line_views(lines@);
            assert(lv[i as int] == lines@[i as int]@);
            assert(lv.take(i + 1) =~= lv.take(i as int).push(lv[i as int]));
            if i < skip {
                assert(line_views(r@) =~= lv.take(i + 1));
            } else if i == skip {
                assert(lv.take(i as int) =~= lv.remove(skip as int).take(i as int));
            } else {
                assert(lv.remove(skip as int)[i - 1] == lv[i as int]);
                assert(lv.remove(skip as int).take(i as int) =~= lv.remove(skip as int).take(i - 1).push(lv[i as int]));
                assert(line_views(r@) =~= lv.remove(skip as int).take(i as int));
            }
        }
    }
    proof {
        let lv = line_views(lines@);
        assert(lv.remove(skip as int).take(n - 1) =~= lv.remove(skip as int));
    }
    r
}

/// The notice a server sends when its failure clock fires: sharing the
/// token (`take 1`, keeps the token), recovering (`Recover 1`, gives the
/// token up), or failing (`Server failed`, keeps the token and removes its
/// own line from the available list).
pub fn failure_notice(recover: bool, share_token: bool, servers: &[u32], lines: &Vec<String>, local: u32) -> (r: FailureNotice)
    requires
        lines@.len() == servers@.len(),
    ensures
        r.targets@ == peers_of(servers@, local),
        share_token ==> r.text@ == "take 1"@ && r.token && r.servers2 is None,
        !share_token && recover ==> r.text@ == "Recover 1"@ && !r.token && r.servers2 is None,
        !share_token && !recover ==> {
            &&& r.text@ == "Server failed"@
            &&& r.token
            &&& match own_line_index(servers@, local) {
                Some(i) => r.servers2 matches Some(v) && line_views(v@) == without_line(line_views(lines@), i as int),
                None => r.servers2 is None,
            }
        },
{
    let targets = peer_targets(servers, local);
    let mut text = String::new();
    if share_token {
        append_str(&mut text, "take 1");
        assert(text@ =~= "take 1"@);
        return FailureNotice { text, servers2: None, targets, token: true };
    }
    if recover {
        append_str(&mut text, "Recover 1");
        assert(text@ =~= "Recover 1"@);
        return FailureNotice { text, servers2: None, targets, token: false };
    }
    append_str(&mut text, "Server failed");
    assert(text@ =~= "Server failed"@);
    let mut count: usize = 0;
    let mut last: Option<usize> = None;
    let n = servers.len();
    for i in 0..n
        invariant
            n == servers@.len(),
            count == peers_of(servers@.take(i as int), local).len(),
            count <= i,
            match own_line_index(servers@.take(i as int), local) {
                Some(p) => last == Some(p as usize) && p < i,
                None => last is None,
            },
    {
        assert(servers@.take(i + 1).drop_last() =~= servers@.take(i as int));
        if servers[i] != local {
            count = count + 1;
        } else {
            assert(servers@.take(i + 1).take(i as int) =~= servers@.take(i as int));
            last = Some(count);
        }
        proof {
            lemma_last_index(servers@.take(i as int), local);
            match last_index(servers@.take(i as int), local) {
                Some(p) => {
                    assert(servers@.take(i + 1).take(p as int) =~= servers@.take(i as int).take(p as int));
                },
                None => {},
            }
        }
    }
    assert(servers@.take(n as int) =~= servers@);
    let servers2 = match last {
        Some(k) => Some(copy_lines_except(lines, k)),
        None => None,
    };
    FailureNotice { text, servers2, targets, token: true }
}


/// Matches the address `a`.
pub open spec fn is_addr(a: u32) -> spec_fn(u32) -> bool {
    |x: u32| x == a
}

/// The available list after server `servers[index]` recovers: its address
/// goes back in at the position of its first occurrence in the full list;
/// `None` for an index past the list or a position past the available
/// list.
pub open spec fn recovered_lines(servers: Seq<u32>, index: nat, lines2: Seq<Seq<char>>) -> Option<Seq<Seq<char>>> {
    if index >= servers.len() {
        None
    } else {
        let a = servers[index as int];
        match find_first(servers, is_addr(a)) {
            Some(i) => if i <= lines2.len() { Some(lines2.insert(i as int, ipv4_text(a))) } else { None },
            None => None,
        }
    }
}

fn insert_line(lines: &Vec<String>, at: usize, line: String) -> (r: Vec<String>)
    requires
        at <= lines@.len(),
    ensures
        line_views(r@) == line_views(lines@).insert(at as int, line@),
{
    let mut r: Vec<String> = Vec::new();
    let n = lines.len();
    for i in 0..n
        invariant
            n == lines@.len(),
            at <= n,
            line_views(r@) == (if i <= at { line_views(lines@).take(i as int) } else { line_views(lines@).insert(at as int, line@).take(i + 1) }),
    {
        let ghost before = line_views(r@);
        let ghost lv = line_views(lines@);
        if i == at {
            r.push(line.clone());
            assert(line_views(r@) =~= before.push(line@));
        }
        let ghost mid = line_views(r@);
        let c = lines[i].clone();
        r.push(c);
        proof {
            assert(lv[i as int] == lines@[i as int]@);
            assert(line_views(r@) =~= mid.push(lv[i as int]));
            if i < at {
                assert(line_views(r@) =~= before.push(lv[i as int]));
                assert(line_views(r@) =~= lv.take(i + 1));
            } else if i == at {
                assert(line_views(r@) =~= lv.insert(at as int, line@).take(i + 2));
            } else {
                assert(line_views(r@) =~= lv.insert(at as int, line@).take(i + 2));
            }
        }
    }
    if at == n {
        let ghost before = line_views(r@);
        assert(before =~= line_views(lines@));
        r.push(line);
        assert(line_views(r@) =~= before.push(line@));
        assert(line_views(r@) =~= line_views(lines@).insert(at as int, line@));
    } else {
        assert(line_views(lines@).insert(at as int, line@).take(n + 1) =~= line_views(lines@).insert(at as int, line@));
    }
    r
}

/// The available list after server `servers[index]` recovers (see
/// `recovered_lines`).
pub fn recover_from_failure(servers: &[u32], index: usize, lines2: &Vec<String>) -> (r: Option<Vec<String>>)
    ensures
        match recovered_lines(servers@, index as nat, line_views(lines2@)) {
            Some(l) => r matches Some(v) && line_views(v@) == l,
            None => r is None,
        },
{
    if index >= servers.len() {
        return None;
    }
    let a = servers[index];
    proof {
        lemma_find_first(servers@, is_addr(a));
    }
    let n = servers.len();
    let mut i: usize = 0;
    while i < n && servers[i] != a
        invariant
            i <= n,
            n == servers@.len(),
            index < n,
            servers@[index as int] == a,
            forall|j: int| 0 <= j < i ==> servers@[j] != a,
        decreases n - i,
    {
        i = i + 1;
    }
    proof {
        if i == n {
            assert(servers@[index as int] == a);
        }
        crate::search::lemma_find_first_at(servers@, is_addr(a), i as int);
    }
    if i > lines2.len() {
        return None;
    }
    let text = ipv4_string(a);
    Some(insert_line(lines2, i, text))
}

/// The full list without the line of the last occurrence of `sender`; `None`
/// where `sender` is not listed (nothing is written then).
pub open spec fn down_lines(servers: Seq<u32>, lines: Seq<Seq<char>>, sender: u32) -> Option<Seq<Seq<char>>> {
    match last_index(servers, sender) {
        Some(i) => Some(lines.remove(i as int)),
        None => None,
    }
}

fn server_down_lines(servers: &[u32], lines: &Vec<String>, sender: u32) -> (r: Option<Vec<String>>)
    requires
        lines@.len() == servers@.len(),
    ensures
        match down_lines(servers@, line_views(lines@), sender) {
            Some(l) => r matches Some(v) && line_views(v@) == l,
            None => r is None,
        },
{
    let n = servers.len();
    let mut last: Option<usize> = None;
    for i in 0..n
        invariant
            n == servers@.len(),
            match last_index(servers@.take(i as int), sender) {
                Some(p) => last == Some(p as usize) && p < i,
                None => last is None,
            },
    {
        assert(servers@.take(i + 1).drop_last() =~= servers@.take(i as int));
        if servers[i] == sender {
            last = Some(i);
        }
        proof {
            lemma_last_index(servers@.take(i as int), sender);
        }
    }
    assert(servers@.take(n as int) =~= servers@);
    match last {
        Some(k) => Some(copy_lines_except(lines, k)),
        None => None,
    }
}

/// The link on which a failure message came: from the first server or from
/// the third (they differ in how they treat the token).
#[derive(Clone, Copy, PartialEq, Eq, Structural, Debug)]
pub enum PeerLink {
    First,
    Third,
}

/// What a server does with a failure message from a peer at `sender`:
/// `None` for a malformed message; otherwise the token
/// afterwards, the new available list to write (if any) and whether to send
/// the directory back. `Recover <k>` puts server `k` back and drops the
/// token where `k` is 0 (takes it where `k` is 2 and the message came from
/// the third server; keeps it otherwise); `take` passes the token (taken
/// from the third server, dropped from the first); `Server failed` drops
/// the token and removes the sender from the list.
pub open spec fn failure_reply(link: PeerLink, msg: Seq<char>, servers: Seq<u32>, lines: Seq<Seq<char>>, lines2: Seq<Seq<char>>, sender: u32, token: bool) -> Option<(bool, Option<Seq<Seq<char>>>, bool)> {
    let w = words(msg);
    if w.len() < 2 {
        None
    } else if w[0] == "Recover"@ {
        match parse_usize_spec(w[1]) {
            None => None,
            Some(k) => match recovered_lines(servers, k as nat, lines2) {
                None => None,
                Some(l) => Some((recover_token(link, k as nat, token), Some(l), link == PeerLink::First)),
            },
        }
    } else if w[0] == "take"@ {
        Some((link == PeerLink::Third, None, false))
    } else if w[0] == "Server"@ {
        Some((false, down_lines(servers, lines, sender), false))
    } else {
        Some((token, None, false))
    }
}

/// The token after `Recover <k>` on `link`.
pub open spec fn recover_token(link: PeerLink, k: nat, token: bool) -> bool {
    if k == 0 {
        false
    } else if link == PeerLink::Third && k == 2 {
        true
    } else {
        token
    }
}

/// Whether a failure message is a recovery, which reads the list of
/// available servers.
pub open spec fn is_recovery(msg: Seq<char>) -> bool {
    words(msg).len() >= 2 && words(msg)[0] == "Recover"@
}

/// A server's answer to a failure message.
pub struct FailureReply {
    pub token: bool,
    pub servers2: Option<Vec<String>>,
    pub send_directory: bool,
    /// Whether the answer was worked out from the list of available
    /// servers (a recovery).
    pub reads_available: bool,
}

/// Reads a failure message from a peer (see `failure_reply`).
pub fn on_failure_message(link: PeerLink, msg: &str, servers: &[u32], lines: &Vec<String>, lines2: &Vec<String>, sender: u32, token: bool) -> (r: Option<FailureReply>)
    requires
        lines@.len() == servers@.len(),
    ensures
        match failure_reply(link, msg@, servers@, line_views(lines@), line_views(lines2@), sender, token) {
            None => r is None,
            Some((t, l, d)) => r matches Some(x) && x.token == t && x.send_directory == d && match l {
                Some(ls) => x.servers2 matches Some(v) && line_views(v@) == ls,
                None => x.servers2 is None,
            },
        },
        r matches Some(x) ==> x.reads_available == is_recovery(msg@),
{
    let cs = chars_of(msg);
    let w = split_words(cs.as_slice());
    if w.len() < 2 {
        return None;
    }
    let title = string_of(w[0].as_slice());
    if crate::text::text_is(&title, "Recover") {
        let k = match parse_usize(w[1].as_slice()) {
            Some(k) => k,
            None => return None,
        };
        match recover_from_failure(servers, k, lines2) {
            None => None,
            Some(l) => {
                let t = if k == 0 {
                    false
                } else {
                    match link {
                        PeerLink::First => token,
                        PeerLink::Third => k == 2 || token,
                    }
                };
                let d = match link {
                    PeerLink::First => true,
                    PeerLink::Third => false,
                };
                Some(FailureReply { token: t, servers2: Some(l), send_directory: d, reads_available: true })
            },
        }
    } else if crate::text::text_is(&title, "take") {
        let t = match link {
            PeerLink::First => false,
            PeerLink::Third => true,
        };
        Some(FailureReply { token: t, servers2: None, send_directory: false, reads_available: false })
    } else if crate::text::text_is(&title, "Server") {
        Some(FailureReply { token: false, servers2: server_down_lines(servers, lines, sender), send_directory: false, reads_available: false })
    } else {
        Some(FailureReply { token, servers2: None, send_directory: false, reads_available: false })
    }
}

/// Twenty seconds, in nanoseconds: the period of the failure clock.
pub const FAILURE_PERIOD_NANOS: u64 = 20_000_000_000;

/// The failure clock of the token holder: when it last announced, and
/// whether its last announcement was a recovery.
pub struct FailureClock {
    pub last_send_time: u64,
    pub recover: bool,
}

/// One turn of the failure loop.
#[derive(Debug)]
pub enum ClockStep {
    /// No token: check again at once.
    Spin,
    /// Token held, period not over: sleep.
    Sleep,
    /// Send a failure notice (`recover`, `share_token`); if `recover_self`,
    /// put this server back in the available list and reload the directory;
    /// then sleep.
    Notify { recover: bool, share_token: bool, recover_self: bool },
}

impl FailureClock {
    /// The clock at start-up: last announcement now, as if it had been a
    /// recovery.
    pub fn new(now: u64) -> (r: FailureClock)
        ensures
            r.last_send_time == now,
            r.recover,
    {
        FailureClock { last_send_time: now, recover: true }
    }

    /// One turn of the failure loop, at time `now`, with the token and load
    /// the server has. When the period is over the announcement flips
    /// between failing and recovering; an idle server (load 0) fails or
    /// recovers and restarts the period, a busy one offers the token instead.
    pub fn tick(&mut self, token: bool, load: i64, now: u64) -> (r: ClockStep)
        ensures
            !token ==> r is Spin && *final(self) == *old(self),
            token && now >= old(self).last_send_time && now - old(self).last_send_time >= FAILURE_PERIOD_NANOS ==> {
                &&& final(self).recover == !old(self).recover
                &&& load == 0 ==> final(self).last_send_time == now
                    && r == (ClockStep::Notify { recover: !old(self).recover, share_token: false, recover_self: !old(self).recover })
                &&& load != 0 ==> final(self).last_send_time == old(self).last_send_time
                    && r == (ClockStep::Notify { recover: !old(self).recover, share_token: true, recover_self: false })
            },
            token && !(now >= old(self).last_send_time && now - old(self).last_send_time >= FAILURE_PERIOD_NANOS) ==> r is Sleep
                && *final(self) == *old(self),
    {
        if !token {
            return ClockStep::Spin;
        }
        if now >= self.last_send_time && now - self.last_send_time >= FAILURE_PERIOD_NANOS {
            self.recover = !self.recover;
            if load == 0 {
                self.last_send_time = now;
                ClockStep::Notify { recover: self.recover, share_token: false, recover_self: self.recover }
            } else {
                ClockStep::Notify { recover: self.recover, share_token: true, recover_self: false }
            }
        } else {
            ClockStep::Sleep
        }
    }
}

/// Whether no address occurs twice in `s`.
pub open spec fn distinct(s: Seq<u32>) -> bool {
    forall|i: int, j: int| 0 <= i < s.len() && 0 <= j < s.len() && i != j ==> s[i] != s[j]
}

proof fn lemma_last_index_distinct(s: Seq<u32>, k: int)
    requires
        0 <= k < s.len(),
        distinct(s),
    ensures
        last_index(s, s[k]) == Some(k as nat),
    decreases s.len(),
{
    if k < s.len() - 1 {
        assert(s.last() != s[k]);
        assert(s.drop_last()[k] == s[k]);
        assert(distinct(s.drop_last())) by {
            assert forall|i: int, j: int| 0 <= i < s.drop_last().len() && 0 <= j < s.drop_last().len() && i != j
                implies s.drop_last()[i] != s.drop_last()[j] by {
                assert(s.drop_last()[i] == s[i] && s.drop_last()[j] == s[j]);
            }
        }
        lemma_last_index_distinct(s.drop_last(), k);
    }
}

proof fn lemma_peers_of_absent(s: Seq<u32>, a: u32)
    requires
        forall|j: int| 0 <= j < s.len() ==> s[j] != a,
    ensures
        peers_of(s, a).len() == s.len(),
    decreases s.len(),
{
    if s.len() > 0 {
        assert forall|j: int| 0 <= j < s.drop_last().len() implies s.drop_last()[j] != a by {
            assert(s.drop_last()[j] == s[j]);
        }
        lemma_peers_of_absent(s.drop_last(), a);
        assert(s.last() == s[s.len() - 1]);
    }
}

/// A server that fails and then recovers gives the available list back
/// whole: where the addresses of the server list are distinct and the
/// server's own line is the text of its address, removing its own line (as
/// its failure notice does) and putting it back (as its recovery does)
/// gives the list it started from.
pub proof fn lemma_recover_restores(servers: Seq<u32>, lines: Seq<Seq<char>>, k: nat)
    requires
        k < servers.len(),
        lines.len() == servers.len(),
        distinct(servers),
        lines[k as int] == ipv4_text(servers[k as int]),
    ensures
        own_line_index(servers, servers[k as int]) == Some(k),
        recovered_lines(servers, k, without_line(lines, k as int)) == Some(lines),
{
    let a = servers[k as int];
    lemma_last_index_distinct(servers, k as int);
    assert forall|j: int| 0 <= j < servers.take(k as int).len() implies servers.take(k as int)[j] != a by {
        assert(servers.take(k as int)[j] == servers[j]);
    }
    lemma_peers_of_absent(servers.take(k as int), a);
    crate::search::lemma_find_first_at(servers, is_addr(a), k as int);
    assert(lines.remove(k as int).insert(k as int, ipv4_text(a)) =~= lines);
}

} // verus!
