//! The table of the peers on the local network.
use crate::discovery::{Peer, PeerModel, DISCOVERY_SECONDS};
use crate::text::{append_decimal, append_padded, append_run, decimal, decimal_text, padded, run_of, texts};
use vstd::prelude::*;

verus! {

/// What is printed before the search begins; a blank line follows.
pub fn searching_line() -> (line: String)
    ensures
        line@ == "Searching for partest peers (waiting "@ + decimal(DISCOVERY_SECONDS as nat)
            + "s)...\n"@,
{
    let mut line = "Searching for partest peers (waiting ".to_owned();
    append_decimal(&mut line, DISCOVERY_SECONDS);
    line.append("s)...\n");
    line
}

/// A row of the table: three columns with a blank between them.
pub open spec fn row(hostname: Seq<char>, ip: Seq<char>, port: Seq<char>) -> Seq<char> {
    padded(hostname, 20) + " "@ + padded(ip, 20) + " "@ + padded(port, 6)
}

/// A row of the table.
fn row_line(hostname: &str, ip: &str, port: &str) -> (line: String)
    ensures
        line@ == row(hostname@, ip@, port@),
{
    let mut line = String::new();
    append_padded(&mut line, hostname, 20);
    line.append(" ");
    append_padded(&mut line, ip, 20);
    line.append(" ");
    append_padded(&mut line, port, 6);
    assert(line@ =~= row(hostname@, ip@, port@));
    line
}

/// The row of a peer.
pub open spec fn peer_row(peer: PeerModel) -> Seq<char> {
    row(peer.hostname, peer.ip, decimal(peer.ssh_port as nat))
}

/// The lines that are printed of the peers that were found.
pub open spec fn status(peers: Seq<Peer>) -> Seq<Seq<char>> {
    if peers.len() == 0 {
        seq!["No peers found. Make sure `partest daemon` is running on other machines."@]
    } else {
        seq![row("HOSTNAME"@, "IP"@, "SSH PORT"@), run_of('─', 48)] + peers.map_values(
            |peer: Peer| peer_row(peer@),
        ) + seq!["\n"@ + decimal(peers.len()) + " peer(s) found."@]
    }
}

/// The lines that are printed of the peers that were found.
pub fn show_status(peers: &Vec<Peer>) -> (lines: Vec<String>)
    ensures
        texts(lines@) == status(peers@),
{
    let mut lines: Vec<String> = Vec::new();
    if peers.len() == 0 {
        lines.push(
            "No peers found. Make sure `partest daemon` is running on other machines.".to_owned(),
        );
        assert(texts(lines@) =~= status(peers@));
        return lines;
    }
    lines.push(row_line("HOSTNAME", "IP", "SSH PORT"));
    let mut rule = String::new();
    append_run(&mut rule, '─', 48);
    assert(rule@ =~= run_of('─', 48));
    lines.push(rule);
    let ghost head = seq![row("HOSTNAME"@, "IP"@, "SSH PORT"@), run_of('─', 48)];
    let ghost rows = peers@.map_values(|peer: Peer| peer_row(peer@));
    let mut i: usize = 0;
    assert(texts(lines@) == head + rows.take(0));
    while i < peers.len()
        invariant
            i <= peers@.len(),
            rows == peers@.map_values(|peer: Peer| peer_row(peer@)),
            texts(lines@) == head + rows.take(i as int),
        decreases peers@.len() - i,
    {
        let peer = &peers[i];
        let ghost earlier = lines@;
        let line = row_line(
            peer.hostname.as_str(),
            peer.ip.as_str(),
            decimal_text(peer.ssh_port as u64).as_str(),
        );
        lines.push(line);
        assert(texts(lines@) == texts(earlier).push(line@));
        assert(rows.take(i + 1) == rows.take(i as int).push(line@));
        i += 1;
    }
    assert(rows.take(i as int) == rows);
    let ghost earlier = lines@;
    let mut count = "\n".to_owned();
    append_decimal(&mut count, peers.len() as u64);
    count.append(" peer(s) found.");
    lines.push(count);
    assert(texts(lines@) == texts(earlier).push(count@));
    assert(texts(lines@) =~= status(peers@));
    lines
}

/// The table leaves nobody out: below the heading and the rule it has a row for each
/// peer, in their order, with host name, address and port in columns of their width,
/// and below them the number of peers. Without peers there is one line, which says so.
pub proof fn table_lists_every_peer(peers: Seq<Peer>, i: int)
    ensures
        peers.len() == 0 ==> status(peers).len() == 1,
        peers.len() > 0 ==> {
            &&& status(peers).len() == peers.len() + 3
            &&& status(peers)[0] == padded("HOSTNAME"@, 20) + " "@ + padded("IP"@, 20) + " "@
                + padded("SSH PORT"@, 6)
            &&& status(peers)[1].len() == 48
            &&& status(peers)[peers.len() as int + 2] == "\n"@ + decimal(peers.len()) + " peer(s) found."@
        },
        0 <= i < peers.len() ==> status(peers)[i + 2] == padded(peers[i].hostname@, 20) + " "@
            + padded(peers[i].ip@, 20) + " "@ + padded(decimal(peers[i].ssh_port as nat), 6),
{
}

} // verus!
