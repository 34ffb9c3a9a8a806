use cloud_p2p::chunks::{chunk_lines, ChunkAssembler, ChunkEvent, FieldOrder};
use cloud_p2p::peer::access::{add_requested_image, matching_images, set_grant_rights, set_held_rights, spend_view, store_held_image, view_decision, RequestedImage, RequestingClient, ViewDecision};
use cloud_p2p::peer::cache::ClientCache;
use cloud_p2p::peer::messages::{
    grant_answer, image_request, lookup_follow_up, more_rights_request, FollowUp, on_grant_reply, on_image_request, on_lookup_reply, on_rights_notice, on_samples_request,
    on_transfer_rights_line, read_rights_request, rights_notice, samples_request, service_request, session_port, unhandled_request,
};
use cloud_p2p::peer::files::{encrypt_source_file, ENCRYPT_ROUNDS, received_sample_file, sample_file, SAMPLE_COUNT};
use cloud_p2p::peer::shell::{Shell, ShellAction};
use cloud_p2p::server::node::encryption_offer;
use cloud_p2p::server::requests::{read_client_message, ClientRequest};

fn s(x: &str) -> String {
    x.to_string()
}

fn held(image: &str, owner: &str, rights: &str) -> RequestedImage {
    RequestedImage { image_id: s(image), sender_client_name: s(owner), access_rights: s(rights), image_data: vec![1, 2, 3] }
}

#[test]
fn cache_learns_each_name_once() {
    let mut c = ClientCache::new();
    assert!(c.learn(s("Client1"), s("127.0.0.1")));
    assert!(!c.learn(s("Client1"), s("127.0.0.9")));
    c.add_client(s("Client1"), s("127.0.0.7"));
    assert_eq!(c.clients.len(), 2);
    assert_eq!(c.find_client_by_name(&s("Client1")), Some(0));
    assert_eq!(c.find_client_by_name(&s("Client4")), None);
}

#[test]
fn grants_and_held_rights_change_together() {
    let mut g = vec![
        RequestingClient { image_id: s("1"), requesting_client_name: s("Client1"), access_rights: s("5") },
        RequestingClient { image_id: s("2"), requesting_client_name: s("Client1"), access_rights: s("5") },
    ];
    set_grant_rights(&mut g, &s("Client1"), &s("2"), &s("7"));
    assert_eq!((g[0].access_rights.as_str(), g[1].access_rights.as_str()), ("5", "7"));
    let mut h = vec![held("1", "Client3", "0"), held("1", "Client3", "2")];
    set_held_rights(&mut h, &s("1"), &s("Client3"), &s("9"));
    assert!(h.iter().all(|x| x.access_rights == "9"));
    store_held_image(&mut h, &s("1"), &s("Client3"), &vec![7, 7]);
    assert_eq!(h[1].image_data, vec![7, 7]);
}

#[test]
fn views_are_counted_down() {
    let mut h = vec![held("1", "Client3", "2")];
    assert!(matches!(view_decision(&h, &s("1"), &s("Client3")), ViewDecision::Granted { refusals: 0 }));
    assert_eq!(spend_view(&mut h, 0), Some(vec![1, 2, 3]));
    assert_eq!(h[0].access_rights, "1");
    assert_eq!(spend_view(&mut h, 0), Some(vec![1, 2, 3]));
    assert_eq!(h[0].access_rights, "0");
    assert!(matches!(view_decision(&h, &s("1"), &s("Client3")), ViewDecision::Denied { refusals: 1 }));
    assert!(matches!(view_decision(&h, &s("2"), &s("Client3")), ViewDecision::NotFound));
    h[0].access_rights = s("oops");
    assert_eq!(spend_view(&mut h, 0), None);
    h[0].access_rights = s("-2147483648");
    assert_eq!(spend_view(&mut h, 0), None);
    h[0].access_rights = s("0");
    assert_eq!(spend_view(&mut h, 0), Some(vec![1, 2, 3]));
    assert_eq!(h[0].access_rights, "-1");
}

#[test]
fn view_skips_spent_copies() {
    let h = vec![held("1", "Client3", "0"), held("9", "Client3", "1"), held("1", "Client3", "3")];
    assert!(matches!(view_decision(&h, &s("1"), &s("Client3")), ViewDecision::Granted { refusals: 1 }));
    assert_eq!(matching_images(&h, &s("1"), &s("Client3")), vec![0, 2]);
}

#[test]
fn shell_goes_offline_and_back() {
    let mut sh = Shell::new();
    assert!(matches!(sh.step("encrypt"), ShellAction::Encrypt));
    match sh.step("access Client1 2 3") {
        ShellAction::Access { client, image, rights } => assert_eq!((client.as_str(), image.as_str(), rights.as_str()), ("Client1", "2", "3")),
        _ => panic!("expected access"),
    }
    assert!(matches!(sh.step("access Client1"), ShellAction::Usage { .. }));
    assert!(matches!(sh.step("exit"), ShellAction::Exit));
    assert!(sh.exit_flag);
    for line in ["request Client1 1", "encrypt", "ask Client1 1 2", "samples Client1", "access a b c"] {
        assert!(matches!(sh.step(line), ShellAction::Offline));
    }
    assert!(matches!(sh.step("view Client1 1"), ShellAction::View { .. }));
    assert!(matches!(sh.step("dance"), ShellAction::Unknown { .. }));
    assert!(matches!(sh.step("up"), ShellAction::Up));
    assert!(!sh.exit_flag);
    assert!(matches!(sh.step("  samples   Client1 "), ShellAction::Usage { .. }));
    assert!(matches!(sh.step("samples Client1"), ShellAction::Samples { .. }));
    assert!(matches!(sh.step("request Client1 1"), ShellAction::Request { .. }));
}

#[test]
fn owner_answers_an_image_request() {
    let mut g = Vec::new();
    let mut c = ClientCache::new();
    let msg = image_request(40000, 1, &s("2"));
    assert_eq!(msg, "40000 1 2");
    let offer = on_image_request(&mut g, &mut c, &msg, s("127.0.0.1"), 2).unwrap();
    assert_eq!((offer.port, offer.file_index, offer.first_message.as_str()), (40000, 1, "first_message:Client2:2:5"));
    assert_eq!(g[0].requesting_client_name, "Client1");
    assert_eq!(g[0].access_rights, "5");
    assert_eq!(c.clients.len(), 1);
    assert!(on_image_request(&mut g, &mut c, "x 1 3", s("127.0.0.1"), 2).is_none());
    assert_eq!(g.len(), 2);
    assert_eq!(c.clients.len(), 1);
    assert!(on_image_request(&mut g, &mut c, "1 2", s("127.0.0.1"), 2).is_none());
    assert_eq!(g.len(), 2);
}

#[test]
fn samples_request_round_trip() {
    let mut c = ClientCache::new();
    let msg = samples_request(2, 51000);
    assert_eq!(msg, "2 samples 2 51000");
    assert_eq!(on_samples_request(&mut c, &msg, s("127.0.0.5")), Some((51000, s("Client2"))));
    assert_eq!(c.clients[0].name, "Client2");
    assert_eq!(on_samples_request(&mut c, "2 samples 2", s("127.0.0.5")), None);
}

#[test]
fn rights_notices_reach_held_images() {
    let mut h = vec![held("1", "Client2", "0")];
    let msg = rights_notice(2, &s("1"), &s("4"));
    assert_eq!(msg, "2:1:4");
    assert!(on_rights_notice(&mut h, &msg));
    assert_eq!(h[0].access_rights, "4");
    assert!(!on_rights_notice(&mut h, "2:1"));
    assert!(on_transfer_rights_line(&mut h, "first_message:Client2:1:5"));
    assert_eq!(h[0].access_rights, "5");
    assert!(!on_transfer_rights_line(&mut h, "0:3:aGk="));
}

#[test]
fn more_views_are_asked_and_answered() {
    let msg = more_rights_request(2, &s("1"), &s("6"), 52000);
    assert_eq!(msg, "2 1 6 52000");
    let q = read_rights_request(&msg).unwrap();
    assert_eq!((q.client.as_str(), q.image.as_str(), q.rights.as_str(), q.port), ("Client2", "1", "6", 52000));
    assert!(read_rights_request("2 1 6").is_none());
    let mut h = vec![held("1", "Client3", "1")];
    assert_eq!(on_grant_reply(&mut h, " -1\n", &s("1"), &s("Client3"), &s("6")), Some(false));
    assert_eq!(h[0].access_rights, "1");
    assert_eq!(on_grant_reply(&mut h, "6", &s("1"), &s("Client3"), &s("6")), Some(true));
    assert_eq!(h[0].access_rights, "6");
    assert_eq!(on_grant_reply(&mut h, "yes", &s("1"), &s("Client3"), &s("6")), None);
}

#[test]
fn servers_read_what_clients_send() {
    let m = service_request(2, "encrypt", &s("2"));
    assert_eq!(m, "2 encrypt 2");
    assert!(matches!(read_client_message(&m, 1), Some((2, ClientRequest::Queued(_)))));
    let u = unhandled_request(2, &s("Client1"), &s("3"), &s("4"));
    assert_eq!(u, "2 unhandled Client1 3 4");
    assert!(matches!(read_client_message(&u, 1), Some((2, ClientRequest::Unhandled(_)))));
    assert_eq!(session_port(&encryption_offer(40123)), Some(40123));
    assert_eq!(session_port("x server2"), None);
}

#[test]
fn lookup_replies() {
    let mut c = ClientCache::new();
    assert!(!on_lookup_reply(&mut c, s("Client1"), s("none")));
    assert!(c.clients.is_empty());
    assert!(on_lookup_reply(&mut c, s("Client1"), s("127.0.0.1")));
    assert_eq!(c.clients[0].ip_address, "127.0.0.1");
}

#[test]
fn image_transfer_between_clients() {
    let image: Vec<u8> = (0..1500u32).map(|i| (i % 200) as u8).collect();
    let mut rx = ChunkAssembler::new(FieldOrder::IdFirst, true);
    let mut got = None;
    for line in chunk_lines(FieldOrder::IdFirst, &image) {
        if let ChunkEvent::Complete(b) = rx.accept(&line) {
            got = Some(b);
        }
    }
    assert_eq!(got, Some(image));
}

#[test]
fn client_file_names() {
    assert_eq!(encrypt_source_file(0), "image1.jpg");
    assert_eq!(encrypt_source_file(1), "image2.jpg");
    assert_eq!(encrypt_source_file(2), "image3.jpg");
    assert_eq!(encrypt_source_file(7), "image1.jpg");
    assert_eq!(SAMPLE_COUNT, 3);
    assert_eq!(ENCRYPT_ROUNDS, 3);
    assert_eq!(sample_file(2), "sample2.jpg");
    assert_eq!(received_sample_file(3), "samples3.png");
    assert_eq!(received_sample_file(12), "samples12.png");
}

#[test]
fn lookup_follow_ups() {
    assert!(matches!(lookup_follow_up(&s("request")), FollowUp::Request));
    assert!(matches!(lookup_follow_up(&s("samples")), FollowUp::Samples));
    assert!(matches!(lookup_follow_up(&s("view")), FollowUp::Invalid));
    assert!(matches!(lookup_follow_up(&s("request ")), FollowUp::Invalid));
}

#[test]
fn owner_answers_a_request_for_views() {
    assert_eq!(grant_answer("y\n", &s("5")), (s("5"), true));
    assert_eq!(grant_answer("  y ", &s("12")), (s("12"), true));
    assert_eq!(grant_answer("n\n", &s("5")), (s("-1"), false));
    assert_eq!(grant_answer("yes\n", &s("5")), (s("-1"), false));
    assert_eq!(grant_answer("", &s("5")), (s("-1"), false));
}

#[test]
fn asked_image_is_recorded_with_no_views() {
    let mut list = vec![held("1", "Client1", "3")];
    add_requested_image(&mut list, &s("4"), &s("Client3"));
    assert_eq!(list.len(), 2);
    assert_eq!((list[1].image_id.as_str(), list[1].sender_client_name.as_str(), list[1].access_rights.as_str()), ("4", "Client3", "0"));
    assert!(list[1].image_data.is_empty());
    assert_eq!(list[0].access_rights, "3");
}
