use partest::cli::{default_ssh_key, key_path_at, ssh_key_path, DEFAULT_SSH_PORT};
use partest::daemon::{advertise, ssh_user, startup_lines, Advertisement};
use partest::discovery::{
    resolve_peer, settle_peers, sort_peers, Discovery, DiscoveryEvent, Peer, ResolvedService,
};
use partest::run::{plan_workers, RunError};
use partest::status::{searching_line, show_status};
use partest::text::{decimal_text, parse_port};

fn peer(hostname: &str, ip: &str) -> Peer {
    Peer {
        hostname: hostname.to_string(),
        ip: ip.to_string(),
        ssh_port: 22,
        ssh_user: "me".to_string(),
    }
}

fn names(peers: &[Peer]) -> Vec<&str> {
    peers.iter().map(|p| p.hostname.as_str()).collect()
}

fn service(addresses: &[&str]) -> ResolvedService {
    ResolvedService {
        fullname: "partest-box._partest._tcp.local.".to_string(),
        hostname: Some("box".to_string()),
        ssh_port: Some("2222".to_string()),
        ssh_user: Some("me".to_string()),
        addresses: addresses.iter().map(|s| s.to_string()).collect(),
    }
}

#[test]
fn a_service_names_its_peer() {
    let found = resolve_peer(&service(&["10.0.0.7", "fe80::1"])).unwrap();
    assert_eq!(
        found,
        Peer {
            hostname: "box".to_string(),
            ip: "10.0.0.7".to_string(),
            ssh_port: 2222,
            ssh_user: "me".to_string(),
        }
    );
    assert_eq!(found.describe(), "box (10.0.0.7:2222)");
}

#[test]
fn missing_properties_have_defaults() {
    let bare = ResolvedService {
        hostname: None,
        ssh_port: None,
        ssh_user: None,
        ..service(&["10.0.0.7"])
    };
    let found = resolve_peer(&bare).unwrap();
    assert_eq!(found.hostname, "partest-box._partest._tcp.local.");
    assert_eq!(found.ssh_port, 22);
    assert_eq!(found.ssh_user, "root");
    let odd = ResolvedService { ssh_port: Some("ssh".to_string()), ..service(&["10.0.0.7"]) };
    assert_eq!(resolve_peer(&odd).unwrap().ssh_port, DEFAULT_SSH_PORT);
}

#[test]
fn a_service_without_address_is_skipped() {
    assert_eq!(
        resolve_peer(&service(&[])),
        Err("warning: peer box resolved but has no addresses, skipping".to_string())
    );
}

#[test]
fn ports_are_read_as_the_standard_library_reads_them() {
    for text in [
        "22", "0", "65535", "65536", "99999", "+80", "+", "-1", "", " 22", "22 ", "0022",
        "00000000000000000065", "1e3", "2\u{b2}", "++1", "4294967297",
    ] {
        assert_eq!(parse_port(text), text.parse::<u16>().ok(), "{text:?}");
    }
}

#[test]
fn ports_read_back() {
    for port in [0u16, 7, 10, 22, 99, 100, 2222, 65535] {
        assert_eq!(parse_port(&decimal_text(port as u64)), Some(port));
    }
    assert_eq!(decimal_text(u64::MAX), u64::MAX.to_string());
}

#[test]
fn one_peer_remains_per_address() {
    let found = vec![
        peer("c", "10.0.0.9"),
        peer("a", "10.0.0.10"),
        peer("b", "10.0.0.9"),
        peer("d", "10.0.0.2"),
        peer("e", "10.0.0.10"),
    ];
    let peers = settle_peers(found);
    assert_eq!(names(&peers), ["a", "d", "c"]);
    let again = sort_peers(peers.clone());
    assert_eq!(again, peers);
    assert!(settle_peers(Vec::new()).is_empty());
}

#[test]
fn sorting_peers_is_stable() {
    let peers = sort_peers(vec![peer("x", "2"), peer("y", "1"), peer("z", "2"), peer("w", "1")]);
    assert_eq!(names(&peers), ["y", "w", "x", "z"]);
}

#[test]
fn discovery_listens_until_its_time_is_over() {
    let search = Discovery::new(3_000_000_000);
    assert_eq!(search.remaining(0), Some(3_000_000_000));
    assert_eq!(search.remaining(2_999_999_999), Some(1));
    assert_eq!(search.remaining(3_000_000_000), None);
    assert_eq!(search.remaining(u128::MAX), None);
}

#[test]
fn discovery_collects_peers() {
    let mut search = Discovery::new(1000);
    assert_eq!(search.on_event(&DiscoveryEvent::Other), None);
    assert_eq!(search.on_event(&DiscoveryEvent::Resolved(service(&["10.0.0.7"]))), None);
    assert!(search.on_event(&DiscoveryEvent::Resolved(service(&[]))).is_some());
    let second = ResolvedService { hostname: Some("twin".to_string()), ..service(&["10.0.0.7"]) };
    assert_eq!(search.on_event(&DiscoveryEvent::Resolved(second)), None);
    assert_eq!(search.on_event(&DiscoveryEvent::Resolved(service(&["10.0.0.3"]))), None);
    assert_eq!(search.remaining(1), Some(999));
    assert_eq!(search.on_event(&DiscoveryEvent::TimedOut), None);
    assert_eq!(search.remaining(1), None);
    let peers = search.finish();
    assert_eq!(peers.len(), 2);
    assert_eq!(peers[0].ip, "10.0.0.3");
    assert_eq!(peers[1].ip, "10.0.0.7");
    assert_eq!(peers[1].hostname, "box");
}

#[test]
fn a_lost_connection_ends_discovery() {
    let mut search = Discovery::new(1000);
    search.on_event(&DiscoveryEvent::Disconnected);
    assert_eq!(search.remaining(0), None);
}

fn value(service: &Advertisement, name: &str) -> Option<String> {
    service.properties.iter().find(|p| p.0 == name).map(|p| p.1.clone())
}

#[test]
fn machines_are_found_as_they_advertise_themselves() {
    let user = ssh_user(Some("me".to_string()));
    let service = advertise("box", &user, 2222, "10.0.0.7");
    assert_eq!(service.service_type, "_partest._tcp.local.");
    assert_eq!(service.instance_name, "partest-box");
    assert_eq!(service.host_name, "box.local.");
    assert_eq!(service.port, 2222);
    assert_eq!(service.properties.len(), 3);
    let resolved = ResolvedService {
        fullname: String::new(),
        hostname: value(&service, "hostname"),
        ssh_port: value(&service, "ssh_port"),
        ssh_user: value(&service, "ssh_user"),
        addresses: vec![service.address.clone()],
    };
    let found = resolve_peer(&resolved).unwrap();
    assert_eq!(found.describe(), "box (10.0.0.7:2222)");
    assert_eq!(found.ssh_user, "me");
    assert_eq!(ssh_user(None), "root");
}

#[test]
fn the_daemon_says_what_it_advertises() {
    assert_eq!(
        startup_lines("box", "10.0.0.7", "me", 22),
        [
            "partest daemon started",
            "  hostname:  box",
            "  address:   10.0.0.7",
            "  ssh user:  me",
            "  ssh port:  22",
            "  service:   _partest._tcp.local.",
            "",
            "Press Ctrl+C to stop",
        ]
    );
}

#[test]
fn status_of_nobody() {
    assert_eq!(
        show_status(&Vec::new()),
        ["No peers found. Make sure `partest daemon` is running on other machines."]
    );
    assert_eq!(searching_line(), "Searching for partest peers (waiting 3s)...\n");
}

#[test]
fn status_is_a_table() {
    let long = "a-host-name-that-is-quite-long";
    let peers = vec![peer("b\u{f6}x", "10.0.0.7"), peer(long, "fe80::1")];
    let lines = show_status(&peers);
    assert_eq!(lines.len(), 5);
    assert_eq!(lines[0], format!("{:<20} {:<20} {:<6}", "HOSTNAME", "IP", "SSH PORT"));
    assert_eq!(lines[1], "\u{2500}".repeat(48));
    assert_eq!(lines[2], format!("{:<20} {:<20} {:<6}", "b\u{f6}x", "10.0.0.7", 22));
    assert_eq!(lines[3], format!("{:<20} {:<20} {:<6}", long, "fe80::1", 22));
    assert_eq!(lines[4], "\n2 peer(s) found.");
}

#[test]
fn workers_are_needed() {
    match plan_workers(Vec::new()) {
        Err(error) => {
            assert!(matches!(error, RunError::NoPeers));
            assert_eq!(
                error.message(),
                "No partest peers found on the local network.\n\
                 Make sure `partest daemon` is running on at least one machine."
            );
        }
        Ok(_) => panic!("there is nobody"),
    }
    let workers = plan_workers(vec![peer("x", "2"), peer("y", "1")]).ok().unwrap();
    assert_eq!(names(&workers), ["y", "x"]);
}

#[test]
fn the_default_key_lies_in_the_home_directory() {
    assert_eq!(default_ssh_key(Some("/home/me".to_string())), "/home/me/.ssh/id_ed25519");
    assert_eq!(default_ssh_key(None), "~/.ssh/id_ed25519");
}

#[test]
fn paths_that_do_not_begin_at_home_stay() {
    for path in ["/keys/id", "keys/~", "", "~other/id", "a~/b"] {
        assert_eq!(ssh_key_path(path), path);
    }
}

#[test]
fn the_home_directory_stands_for_the_tilde() {
    assert_eq!(key_path_at("~/keys/id", "/home/me"), "/home/me/keys/id");
    assert_eq!(key_path_at("~", "/home/me"), "/home/me");
    for path in ["/keys/id", "keys/~", "", "~other/id", "a~/b", "~\\id"] {
        assert_eq!(key_path_at(path, "/home/me"), path);
    }
    for path in ["~", "~/", "~/keys/id", "~\\id", "~other/id", "id"] {
        assert_eq!(ssh_key_path(path), shellexpand::tilde(path));
    }
}

#[test]
fn a_leading_tilde_is_expanded() {
    let path = ssh_key_path("~/keys/id");
    assert!(path.ends_with("/keys/id"));
    assert_eq!(path, shellexpand::tilde("~/keys/id"));
}
