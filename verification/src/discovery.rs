//! Peers on the local network: what a resolved service says of a peer, how
//! long discovery listens, and which peers it returns.
use crate::cli::DEFAULT_SSH_PORT;
use crate::order::{
    deduped, firsts_come_first, firsts_have_every_key, firsts_in_order, sorting_is_stable, sort_by_text, sort_then_dedup, sorting_again_changes_nothing,
    stable_sort_of, strict_is_ascending, TextKey,
};
use crate::ssh::append_endpoint;
use crate::text::{decimal, parse_port, port_number, text_le};
use vstd::prelude::*;

verus! {

/// The service type under which daemons advertise themselves.
pub const SERVICE_TYPE: &'static str = "_partest._tcp.local.";

/// How many seconds discovery listens.
pub const DISCOVERY_SECONDS: u64 = 3;

/// The property that holds a machine's host name.
pub const HOSTNAME_PROPERTY: &'static str = "hostname";

/// The property that holds the port of a machine's SSH server.
pub const SSH_PORT_PROPERTY: &'static str = "ssh_port";

/// The property that holds the user to log in as.
pub const SSH_USER_PROPERTY: &'static str = "ssh_user";

/// The user to log in as where none is named.
pub const DEFAULT_SSH_USER: &'static str = "root";

/// A machine that runs the daemon.
#[derive(Debug, Clone, PartialEq, Eq)]
pub struct Peer {
    pub hostname: String,
    /// The machine's address in its textual form.
    pub ip: String,
    pub ssh_port: u16,
    pub ssh_user: String,
}

/// What is known of a peer.
pub struct PeerModel {
    pub hostname: Seq<char>,
    pub ip: Seq<char>,
    pub ssh_port: u16,
    pub ssh_user: Seq<char>,
}

impl View for Peer {
    type V = PeerModel;

    open spec fn view(&self) -> PeerModel {
        PeerModel {
            hostname: self.hostname@,
            ip: self.ip@,
            ssh_port: self.ssh_port,
            ssh_user: self.ssh_user@,
        }
    }
}

impl TextKey for Peer {
    open spec fn key(&self) -> Seq<char> {
        self.ip@
    }

    fn key_text(&self) -> (text: String) {
        self.ip.clone()
    }
}

impl Peer {
    /// The peer in one line: its host name, its address and its port.
    pub fn describe(&self) -> (text: String)
        ensures
            text@ == self@.hostname + " ("@ + crate::ssh::endpoint(self@.ip, self@.ssh_port) + ")"@,
            text@ == self.hostname@ + " ("@ + self.ip@ + ":"@ + decimal(self.ssh_port as nat) + ")"@,
    {
        let mut text = self.hostname.clone();
        text.append(" (");
        append_endpoint(&mut text, self.ip.as_str(), self.ssh_port);
        text.append(")");
        assert(text@ =~= self.hostname@ + " ("@ + self.ip@ + ":"@ + decimal(self.ssh_port as nat)
            + ")"@);
        text
    }
}

/// What a resolved service says of the machine behind it.
pub struct ResolvedService {
    /// The full name of the service.
    pub fullname: String,
    /// The value of `HOSTNAME_PROPERTY`.
    pub hostname: Option<String>,
    /// The value of `SSH_PORT_PROPERTY`.
    pub ssh_port: Option<String>,
    /// The value of `SSH_USER_PROPERTY`.
    pub ssh_user: Option<String>,
    /// The addresses of the machine in their textual form.
    pub addresses: Vec<String>,
}

/// The host name that a service names: its property, else its full name.
pub open spec fn service_hostname(service: ResolvedService) -> Seq<char> {
    match service.hostname {
        Some(hostname) => hostname@,
        None => service.fullname@,
    }
}

/// The port that a service names: its property where that is a port number,
/// else the port that SSH servers use.
pub open spec fn service_port(service: ResolvedService) -> u16 {
    match service.ssh_port {
        Some(text) => match port_number(text@) {
            Some(port) => port,
            None => DEFAULT_SSH_PORT,
        },
        None => DEFAULT_SSH_PORT,
    }
}

/// The user that a service names: its property, else the default.
pub open spec fn service_user(service: ResolvedService) -> Seq<char> {
    match service.ssh_user {
        Some(user) => user@,
        None => DEFAULT_SSH_USER@,
    }
}

/// The peer behind a service, at the first of its addresses; none where it has
/// no address.
pub open spec fn service_peer(service: ResolvedService) -> Option<PeerModel> {
    if service.addresses@.len() > 0 {
        Some(
            PeerModel {
                hostname: service_hostname(service),
                ip: service.addresses@[0]@,
                ssh_port: service_port(service),
                ssh_user: service_user(service),
            },
        )
    } else {
        None
    }
}

/// The warning to give where a service has no address.
pub open spec fn no_address_warning(service: ResolvedService) -> Seq<char> {
    "warning: peer "@ + service_hostname(service) + " resolved but has no addresses, skipping"@
}

/// Whether a peer is the machine that a service describes, value by value: at the
/// first address, with the host name, the port and the user that the service names,
/// or what stands in where it names none.
pub open spec fn is_machine_of(peer: Peer, service: ResolvedService) -> bool {
    &&& service.addresses@.len() > 0
    &&& peer.ip@ == service.addresses@[0]@
    &&& service.hostname matches Some(hostname) ==> peer.hostname@ == hostname@
    &&& service.hostname is None ==> peer.hostname@ == service.fullname@
    &&& service.ssh_user matches Some(user) ==> peer.ssh_user@ == user@
    &&& service.ssh_user is None ==> peer.ssh_user@ == "root"@
    &&& service.ssh_port matches Some(text) ==> match port_number(text@) {
        Some(port) => peer.ssh_port == port,
        None => peer.ssh_port == 22,
    }
    &&& service.ssh_port is None ==> peer.ssh_port == 22
}

/// The peer behind a service, or the warning to give where it has no address.
pub fn resolve_peer(service: &ResolvedService) -> (peer: Result<Peer, String>)
    ensures
        service.addresses@.len() > 0 <==> peer is Ok,
        peer matches Ok(peer) ==> is_machine_of(peer, *service),
        peer matches Err(warning) ==> warning@ == "warning: peer "@ + (match service.hostname {
            Some(hostname) => hostname@,
            None => service.fullname@,
        }) + " resolved but has no addresses, skipping"@,
        match peer {
            Ok(peer) => service_peer(*service) == Some(peer@),
            Err(warning) => service_peer(*service) is None && warning@ == no_address_warning(
                *service,
            ),
        },
{
    let hostname = match &service.hostname {
        Some(hostname) => hostname.clone(),
        None => service.fullname.clone(),
    };
    let ssh_port: u16 = match &service.ssh_port {
        Some(text) => match parse_port(text.as_str()) {
            Some(port) => port,
            None => DEFAULT_SSH_PORT,
        },
        None => DEFAULT_SSH_PORT,
    };
    let ssh_user = match &service.ssh_user {
        Some(user) => user.clone(),
        None => DEFAULT_SSH_USER.to_owned(),
    };
    if service.addresses.len() > 0 {
        let ip = service.addresses[0].clone();
        Ok(Peer { hostname, ip, ssh_port, ssh_user })
    } else {
        let mut warning = "warning: peer ".to_owned();
        warning.append(hostname.as_str());
        warning.append(" resolved but has no addresses, skipping");
        Err(warning)
    }
}

/// Sorts peers by address; peers with the same address keep their order.
pub fn sort_peers(peers: Vec<Peer>) -> (sorted: Vec<Peer>)
    ensures
        stable_sort_of(peers@, sorted@),
        sorted@.to_multiset() == peers@.to_multiset(),
        forall|i: int, j: int|
            0 <= i < j < sorted@.len() ==> text_le(
                (#[trigger] sorted@[i]).ip@,
                (#[trigger] sorted@[j]).ip@,
            ),
{
    let sorted = sort_by_text(peers);
    assert forall|i: int, j: int| 0 <= i < j < sorted@.len() implies text_le(
        (#[trigger] sorted@[i]).ip@,
        (#[trigger] sorted@[j]).ip@,
    ) by {
        assert(text_le(sorted@[i].key(), sorted@[j].key()));
    }
    sorted
}

/// Keeps of neighbours with the same address only the first.
fn dedup_peers(peers: &mut Vec<Peer>)
    ensures
        final(peers)@ == deduped(old(peers)@),
{
    let ghost all = peers@;
    let ghost mut seen: int = 0;
    let mut i: usize = 0;
    assert(all.take(0) == Seq::<Peer>::empty());
    assert(deduped(all.take(0)) + all.skip(0) == all);
    while i < peers.len()
        invariant
            0 <= seen <= all.len(),
            i == deduped(all.take(seen)).len(),
            peers@ == deduped(all.take(seen)) + all.skip(seen),
        decreases all.len() - seen,
    {
        let ghost kept = deduped(all.take(seen));
        let ghost longer = all.take(seen + 1);
        assert(longer.drop_last() == all.take(seen));
        assert(longer.last() == all[seen]);
        assert(peers@[i as int] == all[seen]);
        if i > 0 && peers[i].ip == peers[i - 1].ip {
            assert(peers@[i - 1] == kept.last());
            peers.remove(i);
            assert(deduped(longer) == kept);
            assert(peers@ == kept + all.skip(seen + 1));
        } else {
            if i > 0 {
                assert(peers@[i - 1] == kept.last());
            }
            assert(deduped(longer) == kept.push(all[seen]));
            assert(peers@ == kept.push(all[seen]) + all.skip(seen + 1));
            i += 1;
        }
        proof {
            seen = seen + 1;
        }
    }
    assert(all.take(seen) == all);
    assert(all.skip(seen) == Seq::<Peer>::empty());
}

/// The peers to work with: for each address the peer that was found first, in
/// ascending order of the addresses.
pub fn settle_peers(found: Vec<Peer>) -> (peers: Vec<Peer>)
    ensures
        firsts_in_order(found@, peers@),
        forall|i: int, j: int|
            0 <= i < j < peers@.len() ==> text_le(
                (#[trigger] peers@[i]).ip@,
                (#[trigger] peers@[j]).ip@,
            ) && peers@[i].ip@ != peers@[j].ip@,
{
    let ghost all = found@;
    let mut peers = sort_peers(found);
    proof {
        sort_then_dedup(all, peers@);
    }
    dedup_peers(&mut peers);
    proof {
        one_peer_per_address(all, peers@);
    }
    peers
}

/// What comes of listening for services.
pub enum DiscoveryEvent {
    /// A service has been resolved.
    Resolved(ResolvedService),
    /// Anything else was heard.
    Other,
    /// Nothing was heard in the time that was left.
    TimedOut,
    /// There is nothing to listen to any more.
    Disconnected,
}

/// Whether an event ends discovery.
pub open spec fn ends_discovery(event: DiscoveryEvent) -> bool {
    event is TimedOut || event is Disconnected
}

/// The peer that an event makes known.
pub open spec fn event_peer(event: DiscoveryEvent) -> Option<PeerModel> {
    match event {
        DiscoveryEvent::Resolved(service) => service_peer(service),
        _ => None,
    }
}

/// How much of a time is left when some of it has passed; nothing where listening
/// has come to an end.
pub open spec fn time_left(timeout: u128, ended: bool, elapsed: u128) -> Option<u128> {
    if ended || elapsed >= timeout {
        None
    } else {
        Some((timeout - elapsed) as u128)
    }
}

/// A search for peers. Times are in nanoseconds.
pub struct Discovery {
    /// How long to listen.
    pub timeout: u128,
    /// The peers heard of so far, in the order in which they were heard of.
    pub found: Vec<Peer>,
    /// Whether listening has come to an end.
    pub ended: bool,
}

impl Discovery {
    /// A search that has heard of nobody yet.
    pub fn new(timeout: u128) -> (search: Self)
        ensures
            search.timeout == timeout,
            search.found@ == Seq::<Peer>::empty(),
            !search.ended,
    {
        Discovery { timeout, found: Vec::new(), ended: false }
    }

    /// How much longer to listen, when `elapsed` has passed since the search
    /// began; nothing where the search is over.
    pub fn remaining(&self, elapsed: u128) -> (remaining: Option<u128>)
        ensures
            remaining == time_left(self.timeout, self.ended, elapsed),
            remaining == if self.ended || elapsed >= self.timeout {
                None
            } else {
                Some((self.timeout - elapsed) as u128)
            },
    {
        if self.ended || elapsed >= self.timeout {
            None
        } else {
            Some(self.timeout - elapsed)
        }
    }

    /// Takes in what was heard, and returns the warning to give, if any.
    pub fn on_event(&mut self, event: &DiscoveryEvent) -> (warning: Option<String>)
        ensures
            final(self).timeout == old(self).timeout,
            final(self).ended == (old(self).ended || ends_discovery(*event)),
            final(self).ended == (old(self).ended || *event is TimedOut || *event is Disconnected),
            *event matches DiscoveryEvent::Resolved(service) ==> if service.addresses@.len() > 0 {
                &&& final(self).found@.len() == old(self).found@.len() + 1
                &&& final(self).found@.drop_last() == old(self).found@
                &&& is_machine_of(final(self).found@.last(), service)
                &&& warning is None
            } else {
                &&& final(self).found@ == old(self).found@
                &&& warning is Some
            },
            !(*event is Resolved) ==> final(self).found@ == old(self).found@ && warning is None,
            match event_peer(*event) {
                Some(peer) => {
                    &&& final(self).found@.len() == old(self).found@.len() + 1
                    &&& final(self).found@.drop_last() == old(self).found@
                    &&& final(self).found@.last()@ == peer
                },
                None => final(self).found@ == old(self).found@,
            },
            match warning {
                Some(text) => (*event matches DiscoveryEvent::Resolved(service) && service_peer(
                    service,
                ) is None && text@ == no_address_warning(service)),
                None => *event is Resolved ==> event_peer(*event) is Some,
            },
    {
        match event {
            DiscoveryEvent::Resolved(service) => match resolve_peer(service) {
                Ok(peer) => {
                    self.found.push(peer);
                    assert(self.found@.drop_last() == old(self).found@);
                    None
                },
                Err(warning) => Some(warning),
            },
            DiscoveryEvent::Other => None,
            DiscoveryEvent::TimedOut => {
                self.ended = true;
                None
            },
            DiscoveryEvent::Disconnected => {
                self.ended = true;
                None
            },
        }
    }

    /// Ends the search: for each address the peer that was found first, in
    /// ascending order of the addresses.
    pub fn finish(self) -> (peers: Vec<Peer>)
        ensures
            firsts_in_order(self.found@, peers@),
            forall|i: int, j: int|
                0 <= i < j < peers@.len() ==> text_le(
                    (#[trigger] peers@[i]).ip@,
                    (#[trigger] peers@[j]).ip@,
                ) && peers@[i].ip@ != peers@[j].ip@,
    {
        settle_peers(self.found)
    }
}

/// The peers that a search returns are in order already: sorting them by
/// address changes nothing.
pub proof fn settled_peers_stay_in_order(found: Seq<Peer>, peers: Seq<Peer>, sorted: Seq<Peer>)
    requires
        firsts_in_order(found, peers),
        stable_sort_of(peers, sorted),
    ensures
        sorted == peers,
{
    strict_is_ascending(peers);
    sorting_again_changes_nothing(peers, sorted);
}

/// What a search returns has no address twice, and the addresses ascend.
pub proof fn one_peer_per_address(found: Seq<Peer>, peers: Seq<Peer>)
    requires
        firsts_in_order(found, peers),
    ensures
        forall|i: int, j: int|
            0 <= i < j < peers.len() ==> text_le(
                (#[trigger] peers[i]).ip@,
                (#[trigger] peers[j]).ip@,
            ) && peers[i].ip@ != peers[j].ip@,
{
    firsts_have_every_key(found, peers, 0);
    assert forall|i: int, j: int| 0 <= i < j < peers.len() implies text_le(
        (#[trigger] peers[i]).ip@,
        (#[trigger] peers[j]).ip@,
    ) && peers[i].ip@ != peers[j].ip@ by {
        assert(peers[i].key() != peers[j].key());
    }
}

/// Each address that was found is that of a peer that the search returns.
pub proof fn every_address_is_returned(found: Seq<Peer>, peers: Seq<Peer>, k: int)
    requires
        firsts_in_order(found, peers),
        0 <= k < found.len(),
    ensures
        exists|i: int| 0 <= i < peers.len() && (#[trigger] peers[i]).ip@ == found[k].ip@,
{
    firsts_have_every_key(found, peers, k);
    let i = choose|i: int| 0 <= i < peers.len() && (#[trigger] peers[i]).key() == found[k].key();
    assert(peers[i].ip@ == found[k].ip@);
}

/// Each peer that a search returns was found, and none with its address was found
/// before it.
pub proof fn returned_peer_was_found_first(found: Seq<Peer>, peers: Seq<Peer>, i: int)
    requires
        firsts_in_order(found, peers),
        0 <= i < peers.len(),
    ensures
        exists|k: int|
            0 <= k < found.len() && #[trigger] found[k] == peers[i] && forall|m: int|
                0 <= m < k ==> (#[trigger] found[m]).ip@ != peers[i].ip@,
{
    firsts_come_first(found, peers, i);
    let k = choose|k: int|
        0 <= k < found.len() && #[trigger] found[k] == peers[i] && forall|m: int|
            0 <= m < k ==> (#[trigger] found[m]).key() != peers[i].key();
    assert forall|m: int| 0 <= m < k implies (#[trigger] found[m]).ip@ != peers[i].ip@ by {
        assert(found[m].key() != peers[i].key());
    }
}

/// Sorting by address leaves the peers of an address in the order that they had.
pub proof fn peers_of_an_address_keep_their_order(
    peers: Seq<Peer>,
    sorted: Seq<Peer>,
    ip: Seq<char>,
)
    requires
        stable_sort_of(peers, sorted),
    ensures
        sorted.filter(|peer: Peer| peer.ip@ == ip) == peers.filter(|peer: Peer| peer.ip@ == ip),
{
    sorting_is_stable(peers, sorted, ip);
    assert((|peer: Peer| peer.key() == ip) =~= (|peer: Peer| peer.ip@ == ip));
}

/// The peer that an event makes known has what the service names, and what stands in
/// for what it does not name: the full name for the host name, the port that SSH
/// servers use, and the user root.
pub proof fn services_are_taken_at_their_word(service: ResolvedService)
    ensures
        service.addresses@.len() == 0 ==> event_peer(DiscoveryEvent::Resolved(service)) is None,
        service.addresses@.len() > 0 ==> {
            &&& event_peer(DiscoveryEvent::Resolved(service)) matches Some(peer)
            &&& peer.ip == service.addresses@[0]@
            &&& service.hostname matches Some(hostname) ==> peer.hostname == hostname@
            &&& service.hostname is None ==> peer.hostname == service.fullname@
            &&& service.ssh_user matches Some(user) ==> peer.ssh_user == user@
            &&& service.ssh_user is None ==> peer.ssh_user == "root"@
            &&& service.ssh_port matches Some(text) ==> match port_number(text@) {
                Some(port) => peer.ssh_port == port,
                None => peer.ssh_port == 22,
            }
            &&& service.ssh_port is None ==> peer.ssh_port == 22
        },
{
}

/// A search listens until its time is over or listening ends, and no longer: what has
/// passed and what is left make up the time.
pub proof fn search_takes_its_time(timeout: u128, ended: bool, elapsed: u128)
    ensures
        time_left(timeout, ended, elapsed) is Some <==> !ended && elapsed < timeout,
        time_left(timeout, ended, elapsed) matches Some(left) ==> elapsed + left == timeout,
{
}

} // verus!
