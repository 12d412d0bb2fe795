//! What the daemon tells the local network, and the terminal, of its machine.
use crate::discovery::{
    event_peer, is_machine_of, service_peer, services_are_taken_at_their_word, DiscoveryEvent,
    Peer, PeerModel, ResolvedService, DEFAULT_SSH_USER, HOSTNAME_PROPERTY, SERVICE_TYPE,
    SSH_PORT_PROPERTY, SSH_USER_PROPERTY,
};
use crate::text::{decimal, decimal_text, port_number, port_reads_back, texts};
use vstd::prelude::*;

verus! {

/// The service that the daemon registers.
pub struct Advertisement {
    /// The type of the service.
    pub service_type: String,
    /// The name of this machine's instance of it.
    pub instance_name: String,
    /// The name under which the address is published.
    pub host_name: String,
    /// The address of this machine in its textual form.
    pub address: String,
    /// The port of its SSH server.
    pub port: u16,
    /// Names and values of the properties.
    pub properties: Vec<(String, String)>,
}

/// The names and values of a list of properties.
pub open spec fn property_texts(properties: Seq<(String, String)>) -> Seq<(Seq<char>, Seq<char>)> {
    properties.map_values(|property: (String, String)| (property.0@, property.1@))
}

/// The text of an optional string.
pub open spec fn optional_text(text: Option<String>) -> Option<Seq<char>> {
    match text {
        Some(text) => Some(text@),
        None => None,
    }
}

/// The user that a machine is logged in to: the one its environment names, else
/// the default.
pub open spec fn login_user(user: Option<Seq<char>>) -> Seq<char> {
    match user {
        Some(user) => user,
        None => DEFAULT_SSH_USER@,
    }
}

/// The user that a machine is logged in to, where its environment names `user`.
pub fn ssh_user(user: Option<String>) -> (login: String)
    ensures
        login@ == login_user(optional_text(user)),
        user matches Some(name) ==> login@ == name@,
        user is None ==> login@ == "root"@,
{
    match user {
        Some(user) => user,
        None => DEFAULT_SSH_USER.to_owned(),
    }
}

/// Whether an advertisement is that of a machine.
pub open spec fn advertises(
    service: Advertisement,
    hostname: Seq<char>,
    ssh_user: Seq<char>,
    ssh_port: u16,
    address: Seq<char>,
) -> bool {
    &&& service.service_type@ == SERVICE_TYPE@
    &&& service.instance_name@ == "partest-"@ + hostname
    &&& service.host_name@ == hostname + ".local."@
    &&& service.address@ == address
    &&& service.port == ssh_port
    &&& property_texts(service.properties@) == seq![
        (HOSTNAME_PROPERTY@, hostname),
        (SSH_PORT_PROPERTY@, decimal(ssh_port as nat)),
        (SSH_USER_PROPERTY@, ssh_user),
    ]
}

/// The advertisement of a machine.
pub fn advertise(hostname: &str, ssh_user: &str, ssh_port: u16, address: &str) -> (service:
    Advertisement)
    ensures
        advertises(service, hostname@, ssh_user@, ssh_port, address@),
        service.service_type@ == SERVICE_TYPE@,
        service.instance_name@ == "partest-"@ + hostname@,
        service.host_name@ == hostname@ + ".local."@,
        service.address@ == address@,
        service.port == ssh_port,
        service.properties@.len() == 3,
        service.properties@[0].0@ == HOSTNAME_PROPERTY@,
        service.properties@[0].1@ == hostname@,
        service.properties@[1].0@ == SSH_PORT_PROPERTY@,
        service.properties@[1].1@ == decimal(ssh_port as nat),
        service.properties@[2].0@ == SSH_USER_PROPERTY@,
        service.properties@[2].1@ == ssh_user@,
{
    let mut instance_name = "partest-".to_owned();
    instance_name.append(hostname);
    let mut host_name = hostname.to_owned();
    host_name.append(".local.");
    let mut properties: Vec<(String, String)> = Vec::new();
    properties.push((HOSTNAME_PROPERTY.to_owned(), hostname.to_owned()));
    properties.push((SSH_PORT_PROPERTY.to_owned(), decimal_text(ssh_port as u64)));
    properties.push((SSH_USER_PROPERTY.to_owned(), ssh_user.to_owned()));
    assert(property_texts(properties@) =~= seq![
        (HOSTNAME_PROPERTY@, hostname@),
        (SSH_PORT_PROPERTY@, decimal(ssh_port as nat)),
        (SSH_USER_PROPERTY@, ssh_user@),
    ]);
    Advertisement {
        service_type: SERVICE_TYPE.to_owned(),
        instance_name,
        host_name,
        address: address.to_owned(),
        port: ssh_port,
        properties,
    }
}

/// The lines that the daemon prints when it has started.
pub fn startup_lines(hostname: &str, address: &str, ssh_user: &str, ssh_port: u16) -> (lines: Vec<
    String,
>)
    ensures
        texts(lines@) == seq![
            "partest daemon started"@,
            "  hostname:  "@ + hostname@,
            "  address:   "@ + address@,
            "  ssh user:  "@ + ssh_user@,
            "  ssh port:  "@ + decimal(ssh_port as nat),
            "  service:   "@ + SERVICE_TYPE@,
            ""@,
            "Press Ctrl+C to stop"@,
        ],
{
    let mut lines: Vec<String> = Vec::new();
    lines.push("partest daemon started".to_owned());
    lines.push("  hostname:  ".to_owned().concat(hostname));
    lines.push("  address:   ".to_owned().concat(address));
    lines.push("  ssh user:  ".to_owned().concat(ssh_user));
    lines.push("  ssh port:  ".to_owned().concat(decimal_text(ssh_port as u64).as_str()));
    lines.push("  service:   ".to_owned().concat(SERVICE_TYPE));
    lines.push("".to_owned());
    lines.push("Press Ctrl+C to stop".to_owned());
    assert(texts(lines@) =~= seq![
        "partest daemon started"@,
        "  hostname:  "@ + hostname@,
        "  address:   "@ + address@,
        "  ssh user:  "@ + ssh_user@,
        "  ssh port:  "@ + decimal(ssh_port as nat),
        "  service:   "@ + SERVICE_TYPE@,
        ""@,
        "Press Ctrl+C to stop"@,
    ]);
    lines
}

/// The value of the first property with a name.
pub open spec fn property_value(
    properties: Seq<(Seq<char>, Seq<char>)>,
    name: Seq<char>,
) -> Option<Seq<char>>
    decreases properties.len(),
{
    if properties.len() == 0 {
        None
    } else if properties[0].0 == name {
        Some(properties[0].1)
    } else {
        property_value(properties.drop_first(), name)
    }
}

/// Whether a resolved service says what an advertisement says.
pub open spec fn carries(service: Advertisement, resolved: ResolvedService) -> bool {
    let properties = property_texts(service.properties@);
    &&& optional_text(resolved.hostname) == property_value(properties, HOSTNAME_PROPERTY@)
    &&& optional_text(resolved.ssh_port) == property_value(properties, SSH_PORT_PROPERTY@)
    &&& optional_text(resolved.ssh_user) == property_value(properties, SSH_USER_PROPERTY@)
    &&& resolved.addresses@.len() > 0
    &&& resolved.addresses@[0]@ == service.address@
}

/// A machine is found as it advertises itself: whoever resolves its service and
/// reads what it says gets a peer with the machine's host name, address, port
/// and user.
pub proof fn machine_is_found_as_advertised(
    service: Advertisement,
    resolved: ResolvedService,
    hostname: Seq<char>,
    ssh_user: Seq<char>,
    ssh_port: u16,
    address: Seq<char>,
)
    requires
        advertises(service, hostname, ssh_user, ssh_port, address),
        carries(service, resolved),
    ensures
        service_peer(resolved) == Some(PeerModel { hostname, ip: address, ssh_port, ssh_user }),
{
    reveal_with_fuel(property_value, 4);
    reveal_strlit("hostname");
    reveal_strlit("ssh_port");
    reveal_strlit("ssh_user");
    port_reads_back(ssh_port);
    let properties = property_texts(service.properties@);
    assert(HOSTNAME_PROPERTY@[0] != SSH_PORT_PROPERTY@[0]);
    assert(HOSTNAME_PROPERTY@[0] != SSH_USER_PROPERTY@[0]);
    assert(SSH_PORT_PROPERTY@[4] != SSH_USER_PROPERTY@[4]);
    assert(properties.drop_first()[0] == properties[1]);
    assert(properties.drop_first().drop_first()[0] == properties[2]);
}

/// A machine is kept by a search as it advertises itself: where the service that a
/// search hears of carries the advertisement of a machine, the peer that the search
/// adds has the host name, the address, the port and the user of the machine.
pub proof fn machine_is_kept_as_advertised(
    service: Advertisement,
    resolved: ResolvedService,
    hostname: Seq<char>,
    ssh_user: Seq<char>,
    ssh_port: u16,
    address: Seq<char>,
)
    requires
        advertises(service, hostname, ssh_user, ssh_port, address),
        carries(service, resolved),
    ensures
        ({
            &&& event_peer(DiscoveryEvent::Resolved(resolved)) matches Some(peer)
            &&& peer.hostname == hostname
            &&& peer.ip == address
            &&& peer.ssh_port == ssh_port
            &&& peer.ssh_user == ssh_user
        }),
        forall|peer: Peer| #[trigger]
            is_machine_of(peer, resolved) ==> peer.hostname@ == hostname && peer.ip@ == address
                && peer.ssh_port == ssh_port && peer.ssh_user@ == ssh_user,
{
    machine_is_found_as_advertised(service, resolved, hostname, ssh_user, ssh_port, address);
    port_reads_back(ssh_port);
    services_are_taken_at_their_word(resolved);
}

/// A machine is kept by a search as it is, also where only the values that its
/// advertisement carries are looked at: its host name, its port in decimal, its user
/// and its address.
pub proof fn advertised_values_are_kept(resolved: ResolvedService, ssh_port: u16)
    requires
        resolved.addresses@.len() > 0,
        resolved.ssh_port matches Some(text) && text@ == decimal(ssh_port as nat),
    ensures
        ({
            &&& event_peer(DiscoveryEvent::Resolved(resolved)) matches Some(peer)
            &&& peer.ssh_port == ssh_port
            &&& peer.ip == resolved.addresses@[0]@
            &&& resolved.hostname matches Some(hostname) ==> peer.hostname == hostname@
            &&& resolved.ssh_user matches Some(user) ==> peer.ssh_user == user@
        }),
{
    port_reads_back(ssh_port);
}

/// An advertisement names the machine: its values are those of the machine, under the
/// names that a search looks for.
pub proof fn advertisement_names_the_machine(
    service: Advertisement,
    hostname: Seq<char>,
    ssh_user: Seq<char>,
    ssh_port: u16,
    address: Seq<char>,
)
    requires
        advertises(service, hostname, ssh_user, ssh_port, address),
    ensures
        service.service_type@ == SERVICE_TYPE@,
        service.instance_name@ == "partest-"@ + hostname,
        service.host_name@ == hostname + ".local."@,
        service.address@ == address,
        service.port == ssh_port,
        service.properties@.len() == 3,
        service.properties@[0].0@ == HOSTNAME_PROPERTY@ && service.properties@[0].1@ == hostname,
        service.properties@[1].0@ == SSH_PORT_PROPERTY@ && port_number(service.properties@[1].1@)
            == Some(ssh_port),
        service.properties@[2].0@ == SSH_USER_PROPERTY@ && service.properties@[2].1@ == ssh_user,
{
    let properties = property_texts(service.properties@);
    assert(properties.len() == service.properties@.len());
    assert(properties[0] == (service.properties@[0].0@, service.properties@[0].1@));
    assert(properties[1] == (service.properties@[1].0@, service.properties@[1].1@));
    assert(properties[2] == (service.properties@[2].0@, service.properties@[2].1@));
    port_reads_back(ssh_port);
}

} // verus!
