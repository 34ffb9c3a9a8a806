use cloud_p2p::server::directory::{client_name, Client, DirectoryOfService};
use cloud_p2p::server::failure::{failure_notice, on_failure_message, peer_targets, recover_from_failure, ClockStep, FailureClock, PeerLink};
use cloud_p2p::server::node::{contains_address, encryption_offer, split_load_message, LeaderAction, PeerLoad, ServerData, ServerState};
use cloud_p2p::server::requests::{read_client_message, take_unhandled_deliveries, ClientRequest, PendingRequest, Request};

fn s(x: &str) -> String {
    x.to_string()
}

const SEC: u64 = 1_000_000_000;

#[test]
fn directory_add_update_and_find() {
    let mut d = DirectoryOfService::new();
    d.add_client(s("Client1"), s("127.0.0.1"), true, 5);
    d.add_client(s("Client2"), s("127.0.0.2"), true, 6);
    d.add_client(s("Client1"), s("127.0.0.1"), false, 9);
    assert_eq!(d.clients.len(), 2);
    assert!(!d.clients[0].online);
    assert_eq!(d.clients[0].last_message_time, 5);
    d.add_client(s("Client1"), s("127.0.0.9"), true, 9);
    assert_eq!(d.clients.len(), 3);
    assert_eq!(d.find_client_by_name(&s("Client1")), Some(0));
    assert_eq!(d.find_client_by_ip(&s("127.0.0.9")), Some(2));
    assert_eq!(d.find_client_by_name(&s("Client7")), None);
}

#[test]
fn offline_and_silent_clients_are_dropped() {
    let mut d = DirectoryOfService::new();
    d.clients.push(Client::new(s("A"), s("1"), true, 0));
    d.clients.push(Client::new(s("B"), s("2"), false, 30 * SEC));
    d.clients.push(Client::new(s("C"), s("3"), true, 10 * SEC));
    d.clients.push(Client::new(s("D"), s("4"), true, 40 * SEC));
    d.remove_offline_clients(30 * SEC);
    let names: Vec<&str> = d.clients.iter().map(|c| c.name.as_str()).collect();
    assert_eq!(names, vec!["C", "D"]);
}

#[test]
fn contact_marks_known_client_online() {
    let mut d = DirectoryOfService::new();
    d.add_client(s("Client1"), s("127.0.0.1"), false, 1);
    d.record_contact(s("127.0.0.1"), 9, 50);
    assert!(d.clients[0].online);
    assert_eq!(d.clients[0].last_message_time, 50);
    d.record_contact(s("127.0.0.3"), 3, 60);
    assert_eq!(d.clients[1].name, "Client3");
    assert_eq!(client_name(12), "Client12");
}

#[test]
fn directory_message_round_trip() {
    let mut d = DirectoryOfService::new();
    d.add_client(s("Client1"), s("127.0.0.1"), true, 1);
    d.add_client(s("Client3"), s("127.0.0.3"), false, 1);
    assert_eq!(d.directory_message(), "directory Client1 127.0.0.1 true : Client3 127.0.0.3 false :");
    assert_eq!(DirectoryOfService::new().directory_message(), "directory ");
    let mut other = DirectoryOfService::new();
    assert!(other.apply_directory_message("Client1 127.0.0.1 true : Client3 127.0.0.3 false", 7));
    assert_eq!(other.clients.len(), 2);
    assert!(!other.clients[1].online);
    // the server's own message starts with `directory` and ends with an empty part
    let mut third = DirectoryOfService::new();
    assert!(!third.apply_directory_message(&d.directory_message(), 7));
    assert!(third.clients.is_empty());
    let mut fourth = DirectoryOfService::new();
    assert!(!fourth.apply_directory_message("Client1 127.0.0.1 true : broken", 7));
    assert_eq!(fourth.clients.len(), 1);
}

#[test]
fn remove_by_index() {
    let mut v = vec![
        PendingRequest { id: 1, address: 1, request_type: s("a"), message: s("x") },
        PendingRequest { id: 2, address: 2, request_type: s("b"), message: s("y") },
    ];
    assert_eq!(PendingRequest::remove_request_by_index(&mut v, 5).map(|r| r.id), None);
    assert_eq!(PendingRequest::remove_request_by_index(&mut v, 0).map(|r| r.id), Some(1));
    assert_eq!(v.len(), 1);
    let mut q = vec![Request::empty()];
    q[0].add_request(s("Client1"), s("Client2"), s("1"), s("3"));
    assert_eq!(q[0].owning_client_name, "Client2");
    assert!(Request::remove_request_by_index(&mut q, 0).is_some());
    assert!(q.is_empty());
}

#[test]
fn client_messages_are_read() {
    match read_client_message("2 encrypt 2", 7) {
        Some((2, ClientRequest::Queued(p))) => {
            assert_eq!(p.request_type, "encrypt");
            assert_eq!(p.message, "2");
            assert_eq!(p.address, 7);
        }
        _ => panic!("expected a queued request"),
    }
    match read_client_message("2 unhandled Client1 3 4", 7) {
        Some((2, ClientRequest::Unhandled(q))) => {
            assert_eq!(q.requesting_client_name, "Client1");
            assert_eq!(q.owning_client_name, "Client2");
            assert_eq!(q.image_id, "3");
            assert_eq!(q.request, "4");
        }
        _ => panic!("expected an unhandled request"),
    }
    assert!(read_client_message("2 unhandled Client1", 7).is_none());
    assert!(read_client_message("x encrypt 2", 7).is_none());
    assert!(read_client_message("2 encrypt", 7).is_none());
}

#[test]
fn unhandled_requests_are_delivered() {
    let mut d = DirectoryOfService::new();
    d.add_client(s("Client1"), s("127.0.0.1"), true, 0);
    d.add_client(s("Client3"), s("127.0.0.3"), true, 0);
    let mut reqs = Vec::new();
    for (who, owner, img, r) in [("Client1", "Client3", "1", "4"), ("Client2", "Client3", "2", "1"), ("Client1", "Client9", "5", "2")] {
        let mut q = Request::empty();
        q.add_request(s(who), s(owner), s(img), s(r));
        reqs.push(q);
    }
    let out = take_unhandled_deliveries(&mut reqs, &d, &s("Client1")).unwrap();
    assert!(reqs.is_empty());
    assert_eq!(out.len(), 2);
    assert_eq!((out[0].address.as_str(), out[0].port, out[0].message.as_str()), ("127.0.0.1", 9096, "3:1:4"));
    assert_eq!((out[1].port, out[1].message.as_str()), (9095, "0:5:2"));
    let mut q = Request::empty();
    q.add_request(s("Client7"), s("Client3"), s("1"), s("1"));
    let mut reqs = vec![q];
    assert!(take_unhandled_deliveries(&mut reqs, &d, &s("Client7")).is_none());
    assert!(reqs.is_empty());
}

fn data_with(peers: &[(u32, u32, u32)], usage: u32) -> ServerData {
    let mut d = ServerData::new(2, 2);
    d.local_cpu_usage = usage;
    for &(id, address, usage) in peers {
        d.other_servers.push(PeerLoad { id, address, usage });
    }
    d
}

#[test]
fn election_picks_the_least_loaded() {
    let all = [1u32, 2, 3];
    assert_eq!(data_with(&[(1, 1, 50), (3, 3, 40)], 10).election_winner(&all), 2);
    assert_eq!(data_with(&[(1, 1, 5), (3, 3, 40)], 10).election_winner(&all), 1);
    // a peer that is not available is skipped
    assert_eq!(data_with(&[(1, 1, 5), (3, 3, 40)], 10).election_winner(&[2, 3]), 2);
    // equal usage: the lower number wins
    assert_eq!(data_with(&[(1, 1, 10)], 10).election_winner(&all), 1);
    assert_eq!(data_with(&[(3, 3, 10)], 10).election_winner(&all), 2);
    // no peers: this server leads
    assert_eq!(data_with(&[], 10).election_winner(&all), 2);
}

#[test]
fn election_tie_goes_to_the_lowest_number() {
    let all = [1u32, 2, 3];
    // three equal usages, numbers 1, 2, 3: server 1 wins, whatever the order heard
    assert_eq!(data_with(&[(1, 1, 3), (3, 3, 3)], 3).election_winner(&all), 1);
    assert_eq!(data_with(&[(3, 3, 3), (1, 1, 3)], 3).election_winner(&all), 1);
    // a later peer with a lower usage than the best so far takes the lead
    assert_eq!(data_with(&[(1, 1, 8), (3, 3, 4)], 9).election_winner(&all), 3);
    // a later peer that is below this server but not below the best does not
    assert_eq!(data_with(&[(3, 3, 4), (1, 1, 8)], 9).election_winner(&all), 3);
}

#[test]
fn server_leads_exactly_when_it_goes_first() {
    let all = [1u32, 2, 3];
    // lower usage than every available peer
    assert_eq!(data_with(&[(1, 1, 6), (3, 3, 7)], 5).election_winner(&all), 2);
    // equal usage with a higher-numbered peer, lower with the other
    assert_eq!(data_with(&[(1, 1, 6), (3, 3, 5)], 5).election_winner(&all), 2);
    // one available peer goes first
    assert_eq!(data_with(&[(1, 1, 5), (3, 3, 7)], 5).election_winner(&all), 1);
    // the peer that goes first is not available: it never matters
    assert_eq!(data_with(&[(1, 1, 5), (3, 3, 7)], 5).election_winner(&[2, 3]), 2);
}

#[test]
fn servers_sharing_a_view_agree_on_one_leader() {
    let all = [1u32, 2, 3];
    let loads = [(1u32, 1u32, 3u32), (2, 2, 3), (3, 3, 3)];
    let mut leaders = 0;
    for &(id, address, usage) in &loads {
        let mut d = ServerData::new(address, id);
        d.local_cpu_usage = usage;
        for &(pid, paddress, pusage) in &loads {
            if paddress != address {
                d.other_servers.push(PeerLoad { id: pid, address: paddress, usage: pusage });
            }
        }
        if d.election_winner(&all) == address {
            leaders += 1;
        }
    }
    assert_eq!(leaders, 1);
}

#[test]
fn peer_loads_are_recorded() {
    let mut d = ServerData::new(2, 2);
    d.record_peer_load(1, 11, 30);
    d.record_peer_load(3, 13, 40);
    d.record_peer_load(9, 11, 35);
    assert_eq!(d.other_servers.len(), 2);
    assert_eq!((d.other_servers[0].id, d.other_servers[0].usage), (1, 35));
    assert_eq!(split_load_message("3 12.5").map(|(i, u)| (i, u)), Some((3, s("12.5"))));
    assert!(split_load_message("3").is_none());
    assert!(split_load_message("x 1.0").is_none());
}

fn pending(id: u32, kind: &str, msg: &str) -> PendingRequest {
    PendingRequest { id, address: 100 + id, request_type: s(kind), message: s(msg) }
}

#[test]
fn leader_serves_the_head_of_the_queue() {
    let mut st = ServerState::new(2, 2);
    assert_eq!(st.data.local_cpu_usage, 0);
    st.directory.add_client(s("Client3"), s("127.0.0.3"), true, 0);
    assert!(matches!(st.next_leader_action(), LeaderAction::Idle));
    st.pending.push(pending(1, "request", "Client3"));
    match st.next_leader_action() {
        LeaderAction::Reply { client, port, text } => assert_eq!((client, port, text.as_str()), (101, 8082, "127.0.0.3")),
        _ => panic!("expected a reply"),
    }
    st.finish_leader_action();
    assert!(st.pending.is_empty());
    assert_eq!(st.data.local_load, 0);
    st.pending.push(pending(1, "request", "Client9"));
    match st.next_leader_action() {
        LeaderAction::Reply { text, .. } => assert_eq!(text, "none"),
        _ => panic!("expected a reply"),
    }
    st.pending[0] = pending(4, "encrypt", "4");
    assert!(matches!(st.next_leader_action(), LeaderAction::Encrypt { client: 104 }));
    st.pending[0] = pending(4, "online", "4");
    match st.next_leader_action() {
        LeaderAction::SendUnhandled { name } => assert_eq!(name, "Client4"),
        _ => panic!("expected a delivery"),
    }
    st.pending[0] = pending(4, "exit", "4");
    assert!(matches!(st.next_leader_action(), LeaderAction::Idle));
}

#[test]
fn election_winner_and_loser() {
    let mut st = ServerState::new(2, 2);
    st.data.local_cpu_usage = 5;
    st.data.other_servers.push(PeerLoad { id: 1, address: 1, usage: 9 });
    assert!(st.elect_leader(&[1, 2, 3]));
    assert!(st.data.is_leader);
    assert_eq!(st.data.local_load, 2);
    st.pending.push(pending(1, "encrypt", "1"));
    st.finish_leader_action();
    assert!(st.data.is_leader);
    assert!(!st.end_election(true));
    assert!(!st.data.is_leader);
    assert_eq!(st.data.local_load, 1);

    let mut lost = ServerState::new(2, 2);
    lost.data.local_cpu_usage = 50;
    lost.data.other_servers.push(PeerLoad { id: 1, address: 1, usage: 9 });
    lost.pending.push(pending(1, "encrypt", "1"));
    lost.pending.push(pending(3, "request", "x"));
    lost.pending.push(pending(4, "online", "4"));
    for who in ["Client4", "Client1", "Client4"] {
        let mut q = Request::empty();
        q.add_request(s(who), s("Client2"), s("1"), s("2"));
        lost.requests.push(q);
    }
    assert!(!lost.elect_leader(&[1, 2, 3]));
    assert!(!lost.end_election(false));
    assert_eq!(lost.pending.len(), 1);
    assert_eq!(lost.pending[0].id, 3);
    assert_eq!(lost.requests.len(), 1);
    assert_eq!(lost.requests[0].requesting_client_name, "Client1");
    assert_eq!(lost.data.local_load, 1);
}

#[test]
fn load_saturates() {
    let mut st = ServerState::new(2, 2);
    st.data.local_load = i64::MAX;
    assert!(st.elect_leader(&[2]));
    assert_eq!(st.data.local_load, i64::MAX);
    st.data.local_load = i64::MIN;
    st.pending.push(pending(1, "encrypt", "1"));
    st.finish_leader_action();
    assert_eq!(st.data.local_load, i64::MIN);
}

#[test]
fn counter_triggers_election() {
    let mut st = ServerState::new(2, 2);
    assert!(st.note_peer_report());
    assert!(!st.check_counter(&[1, 2]));
    assert!(st.note_peer_report());
    assert!(st.check_counter(&[1, 2]));
    assert_eq!(st.counter, 0);
    st.counter = 2;
    assert!(!st.check_counter(&[1, 3]));
    assert_eq!(st.counter, 0);
    st.counter = u32::MAX;
    assert!(!st.note_peer_report());
    assert!(contains_address(&[4, 5], 5));
}

#[test]
fn client_message_joins_the_right_list() {
    let mut st = ServerState::new(2, 2);
    assert_eq!(st.queue_client_message("1 encrypt 1", 9), Some((1, true)));
    assert_eq!(st.queue_client_message("3 unhandled Client1 2 5", 9), Some((3, false)));
    assert_eq!(st.queue_client_message("bad", 9), None);
    assert_eq!(st.pending.len(), 1);
    assert_eq!(st.requests.len(), 1);
    assert_eq!(st.requests[0].owning_client_name, "Client3");
    assert_eq!(encryption_offer(40000), "40000 server2");
}

fn lines(v: &[&str]) -> Vec<String> {
    v.iter().map(|x| x.to_string()).collect()
}

#[test]
fn failure_notices() {
    let servers = [1u32, 2, 3];
    let all = lines(&["0.0.0.1", "0.0.0.2", "0.0.0.3"]);
    let n = failure_notice(false, true, &servers, &all, 2);
    assert_eq!((n.text.as_str(), n.token, n.servers2.is_none()), ("take 1", true, true));
    assert_eq!(n.targets, vec![1, 3]);
    let n = failure_notice(true, false, &servers, &all, 2);
    assert_eq!((n.text.as_str(), n.token), ("Recover 1", false));
    let n = failure_notice(false, false, &servers, &all, 2);
    assert_eq!(n.text, "Server failed");
    assert!(n.token);
    assert_eq!(n.servers2, Some(lines(&["0.0.0.1", "0.0.0.3"])));
    assert_eq!(peer_targets(&[2, 1, 2, 3], 2), vec![1, 3]);
}

#[test]
fn recovery_puts_the_server_back() {
    let servers = [1u32, 2, 3];
    let avail = lines(&["0.0.0.1", "0.0.0.3"]);
    assert_eq!(recover_from_failure(&servers, 1, &avail), Some(lines(&["0.0.0.1", "0.0.0.2", "0.0.0.3"])));
    assert_eq!(recover_from_failure(&servers, 5, &avail), None);
    assert_eq!(recover_from_failure(&servers, 2, &lines(&["0.0.0.1"])), None);
}

#[test]
fn failing_then_recovering_gives_the_list_back() {
    let servers = [167772161u32, 167772162, 167772163];
    let all = lines(&["10.0.0.1", "10.0.0.2", "10.0.0.3"]);
    let n = failure_notice(false, false, &servers, &all, servers[1]);
    let down = n.servers2.unwrap();
    assert_eq!(down, lines(&["10.0.0.1", "10.0.0.3"]));
    assert_eq!(recover_from_failure(&servers, 1, &down), Some(all));
}

#[test]
fn failure_messages_from_peers() {
    let servers = [1u32, 2, 3];
    let all = lines(&["0.0.0.1", "0.0.0.2", "0.0.0.3"]);
    let avail = lines(&["0.0.0.1", "0.0.0.3"]);
    let r = on_failure_message(PeerLink::First, "Recover 1", &servers, &all, &avail, 1, true).unwrap();
    assert!(r.token && r.send_directory && r.reads_available);
    let r = on_failure_message(PeerLink::First, "Recover 1", &servers, &all, &avail, 1, false).unwrap();
    assert!(!r.token);
    let r = on_failure_message(PeerLink::Third, "Recover 0", &servers, &all, &avail, 3, true).unwrap();
    assert!(!r.token);
    let r = on_failure_message(PeerLink::First, "Recover 2", &servers, &all, &lines(&["0.0.0.1", "0.0.0.2"]), 1, false).unwrap();
    assert!(!r.token);
    assert_eq!(r.servers2, Some(all.clone()));
    let r = on_failure_message(PeerLink::Third, "Recover 2", &servers, &all, &lines(&["0.0.0.1", "0.0.0.2"]), 3, false).unwrap();
    assert!(r.token && !r.send_directory);
    let r = on_failure_message(PeerLink::First, "take 1", &servers, &all, &avail, 1, true).unwrap();
    assert!(!r.token && !r.reads_available);
    let r = on_failure_message(PeerLink::Third, "take 1", &servers, &all, &avail, 3, false).unwrap();
    assert!(r.token);
    let r = on_failure_message(PeerLink::Third, "Server failed", &servers, &all, &avail, 3, true).unwrap();
    assert!(!r.token);
    assert_eq!(r.servers2, Some(lines(&["0.0.0.1", "0.0.0.2"])));
    let r = on_failure_message(PeerLink::First, "hello there", &servers, &all, &avail, 1, true).unwrap();
    assert!(r.token && r.servers2.is_none());
    assert!(on_failure_message(PeerLink::First, "Recover", &servers, &all, &avail, 1, true).is_none());
    assert!(on_failure_message(PeerLink::First, "Recover x", &servers, &all, &avail, 1, true).is_none());
}

#[test]
fn failure_clock_alternates() {
    let mut c = FailureClock::new(0);
    assert!(matches!(c.tick(false, 0, 100 * SEC), ClockStep::Spin));
    assert!(matches!(c.tick(true, 0, 5 * SEC), ClockStep::Sleep));
    assert!(matches!(c.tick(true, 0, 20 * SEC), ClockStep::Notify { recover: false, share_token: false, recover_self: false }));
    assert_eq!(c.last_send_time, 20 * SEC);
    assert!(matches!(c.tick(true, 0, 45 * SEC), ClockStep::Notify { recover: true, share_token: false, recover_self: true }));
    assert!(matches!(c.tick(true, 3, 70 * SEC), ClockStep::Notify { recover: false, share_token: true, recover_self: false }));
    assert_eq!(c.last_send_time, 45 * SEC);
}
