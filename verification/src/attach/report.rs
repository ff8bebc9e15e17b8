//! What the commands that only look around print.
use crate::attach::client::{describe, device_text};
use crate::attach::config::{Server, ServerModel};
use crate::attach::vhci::{
    ports_view, records_view, status_text, taken, Port, PortModel, Record, RecordModel,
    VDEV_ST_NULL,
};
use crate::backend::filter::{allowed, filter_text};
use crate::proto::device::UsbDevice;
use crate::text::{column, dec, lemma_columns, push_column, push_dec, strings};
use vstd::prelude::*;
use vstd::string::*;

verus! {

broadcast use vstd::slice::group_slice_axioms;

/// A row of the status table.
pub open spec fn row(
    port: Seq<char>,
    state: Seq<char>,
    remote: Seq<char>,
    busid: Seq<char>,
    local: Seq<char>,
) -> Seq<char> {
    column(port, 6) + " "@ + column(state, 12) + " "@ + column(remote, 22) + " "@ + column(
        busid,
        10,
    ) + " "@ + local + "\n"@
}

fn push_row(out: &mut String, port: &str, state: &str, remote: &str, busid: &str, local: &str)
    ensures
        final(out)@ == old(out)@ + row(port@, state@, remote@, busid@, local@),
{
    let ghost start = out@;
    push_column(out, port, 6);
    out.append(" ");
    push_column(out, state, 12);
    out.append(" ");
    push_column(out, remote, 22);
    out.append(" ");
    push_column(out, busid, 10);
    out.append(" ");
    out.append(local);
    out.append("\n");
    assert(out@ =~= start + row(port@, state@, remote@, busid@, local@));
}

/// The first record of a port.
pub open spec fn record_for(rs: Seq<RecordModel>, port: u32) -> Option<RecordModel>
    decreases rs.len(),
{
    if rs.len() == 0 {
        None
    } else if rs[0].port == port {
        Some(rs[0])
    } else {
        record_for(rs.drop_first(), port)
    }
}

fn find_record(rs: &Vec<Record>, port: u32) -> (r: Option<&Record>)
    ensures
        match r {
            Some(r) => record_for(records_view(rs@), port) == Some(r@),
            None => record_for(records_view(rs@), port) is None,
        },
{
    let ghost all = records_view(rs@);
    let mut i: usize = 0;
    assert(all.skip(0) =~= all);
    while i < rs.len()
        invariant
            i <= rs@.len(),
            all == records_view(rs@),
            record_for(all, port) == record_for(all.skip(i as int), port),
        decreases rs@.len() - i,
    {
        assert(all.skip(i as int)[0] == rs@[i as int]@);
        if rs[i].port == port {
            return Some(&rs[i]);
        }
        assert(all.skip(i as int).drop_first() =~= all.skip(i + 1));
        i = i + 1;
    }
    None
}

/// The row of a port.
pub open spec fn port_row(p: PortModel, rs: Seq<RecordModel>) -> Seq<char> {
    let (remote, busid) = match record_for(rs, p.port) {
        Some(r) => (r.host + ":"@ + r.service_port, r.busid),
        None => ("?"@, "?"@),
    };
    row(dec(p.port as nat), status_text(p.status), remote, busid, p.local_busid)
}

/// The rows of the ports that are not free.
pub open spec fn port_rows(ps: Seq<PortModel>, rs: Seq<RecordModel>) -> Seq<char>
    decreases ps.len(),
{
    if ps.len() == 0 {
        seq![]
    } else if ps.last().status != VDEV_ST_NULL {
        port_rows(ps.drop_last(), rs) + port_row(ps.last(), rs)
    } else {
        port_rows(ps.drop_last(), rs)
    }
}

fn push_port(out: &mut String, p: &Port, records: &Vec<Record>)
    ensures
        final(out)@ == old(out)@ + port_row(p@, records_view(records@)),
{
    let mut number = String::new();
    push_dec(&mut number, p.port as u64);
    assert(number@ =~= dec(p.port as nat));
    match find_record(records, p.port) {
        Some(r) => {
            let mut remote = String::new();
            remote.append(r.host.as_str());
            remote.append(":");
            remote.append(r.service_port.as_str());
            assert(remote@ =~= r.host@ + ":"@ + r.service_port@);
            push_row(
                out,
                number.as_str(),
                p.status_name(),
                remote.as_str(),
                r.busid.as_str(),
                p.local_busid.as_str(),
            );
        },
        None => push_row(out, number.as_str(), p.status_name(), "?", "?", p.local_busid.as_str()),
    }
}

/// What is said of ports in use that no record tells of. `readable` is whether the
/// records could be read; the directory is for root alone, so an unprivileged user
/// normally cannot.
pub open spec fn no_records(readable: Option<bool>) -> Seq<char> {
    if readable == Some(false) {
        "(run as root to see which remote each port came from)\n"@
    } else {
        "(usbip kept no record of these attachments; the remote is unknown)\n"@
    }
}

/// What `--status` prints.
pub open spec fn status_page(
    ps: Seq<PortModel>,
    rs: Seq<RecordModel>,
    readable: Option<bool>,
) -> Seq<char> {
    let used = taken(ps).len();
    let head = dec(ps.len()) + " vhci port(s), "@ + dec(used) + " in use\n"@;
    if used == 0 {
        head
    } else {
        head + (if rs.len() == 0 {
            no_records(readable)
        } else {
            seq![]
        }) + row("PORT"@, "STATE"@, "REMOTE"@, "BUSID"@, "LOCAL"@) + port_rows(ps, rs)
    }
}

/// What `--status` prints of the ports and the records about them. `readable` is
/// whether the records' directory could be read, where it is there.
pub fn print_status(ports: &Vec<Port>, records: &Vec<Record>, readable: Option<bool>) -> (s: String)
    ensures
        s@ == status_page(ports_view(ports@), records_view(records@), readable),
{
    let ghost ps = ports_view(ports@);
    let ghost rs = records_view(records@);
    let used: usize = crate::attach::vhci::occupied_ports(ports).len();
    let mut s = String::new();
    push_dec(&mut s, ports.len() as u64);
    s.append(" vhci port(s), ");
    push_dec(&mut s, used as u64);
    s.append(" in use\n");
    let ghost head = dec(ps.len()) + " vhci port(s), "@ + dec(used as nat) + " in use\n"@;
    assert(s@ =~= head);
    if used == 0 {
        return s;
    }
    assert(rs.len() == records@.len());
    if records.len() == 0 {
        match readable {
            Some(false) => s.append("(run as root to see which remote each port came from)\n"),
            _ => s.append("(usbip kept no record of these attachments; the remote is unknown)\n"),
        }
    }
    let ghost note = if rs.len() == 0 {
        no_records(readable)
    } else {
        seq![]
    };
    assert(s@ =~= head + note);
    push_row(&mut s, "PORT", "STATE", "REMOTE", "BUSID", "LOCAL");
    let ghost start = s@;
    let mut i: usize = 0;
    assert(ps.take(0) =~= Seq::empty());
    assert(s@ =~= start + port_rows(ps.take(0), rs));
    while i < ports.len()
        invariant
            i <= ports@.len(),
            ps == ports_view(ports@),
            rs == records_view(records@),
            s@ == start + port_rows(ps.take(i as int), rs),
        decreases ports@.len() - i,
    {
        proof {
            assert(ps.take(i + 1).drop_last() =~= ps.take(i as int));
            assert(ps.take(i + 1).last() == ports@[i as int]@);
        }
        if ports[i].occupied() {
            push_port(&mut s, &ports[i], records);
        }
        assert(s@ =~= start + port_rows(ps.take(i + 1), rs));
        i = i + 1;
    }
    assert(ps.take(i as int) =~= ps);
    s
}

// ---------------------------------------------------------------------------
// What servers have

/// The lines of a server's devices, with a star at those that would be attached.
pub open spec fn device_lines(s: ServerModel, ds: Seq<UsbDevice>) -> Seq<char>
    decreases ds.len(),
{
    if ds.len() == 0 {
        seq![]
    } else {
        let d = ds.last()@;
        device_lines(s, ds.drop_last()) + "  "@ + (if allowed(
            s.devices,
            d.id_vendor,
            d.id_product,
        ) {
            "*"@
        } else {
            " "@
        }) + " "@ + device_text(d) + "\n"@
    }
}

/// The line that a server's entry begins with.
pub open spec fn server_line(s: ServerModel) -> Seq<char> {
    s.name + " ("@ + s.host + ":"@ + dec(s.port as nat) + ")\n"@
}

/// What `--list` prints of a server: the devices that it has, or why it would not
/// say.
pub fn list_remote(server: &Server, answer: &Result<Vec<UsbDevice>, String>) -> (s: String)
    ensures
        s@ == server_line(server@) + match answer {
            Ok(ds) => if ds@.len() == 0 {
                "  (exports nothing)\n"@
            } else {
                device_lines(server@, ds@) + "  (* = matches `devices = "@ + filter_text(
                    server@.devices,
                ) + "`)\n"@
            },
            Err(e) => "  unreachable: "@ + e@ + "\n"@,
        },
{
    let mut s = String::new();
    s.append(server.name.as_str());
    s.append(" (");
    s.append(server.host.as_str());
    s.append(":");
    push_dec(&mut s, server.port as u64);
    s.append(")\n");
    let ghost head = server_line(server@);
    assert(s@ =~= head);
    match answer {
        Ok(ds) => {
            if ds.len() == 0 {
                s.append("  (exports nothing)\n");
                return s;
            }
            let mut i: usize = 0;
            assert(ds@.take(0) =~= Seq::empty());
            assert(s@ =~= head + device_lines(server@, ds@.take(0)));
            while i < ds.len()
                invariant
                    i <= ds@.len(),
                    s@ == head + device_lines(server@, ds@.take(i as int)),
                decreases ds@.len() - i,
            {
                assert(ds@.take(i + 1).drop_last() =~= ds@.take(i as int));
                assert(ds@.take(i + 1).last() == ds@[i as int]);
                let d = &ds[i];
                s.append("  ");
                if server.devices.matches(d.id_vendor, d.id_product) {
                    s.append("*");
                } else {
                    s.append(" ");
                }
                s.append(" ");
                s.append(describe(d).as_str());
                s.append("\n");
                i = i + 1;
                assert(s@ =~= head + device_lines(server@, ds@.take(i as int)));
            }
            assert(ds@.take(i as int) =~= ds@);
            s.append("  (* = matches `devices = ");
            s.append(server.devices.to_string().as_str());
            s.append("`)\n");
            assert(s@ =~= head + (device_lines(server@, ds@) + "  (* = matches `devices = "@
                + filter_text(server@.devices) + "`)\n"@));
        },
        Err(e) => {
            s.append("  unreachable: ");
            s.append(e.as_str());
            s.append("\n");
            assert(s@ =~= head + ("  unreachable: "@ + e@ + "\n"@));
        },
    }
    s
}

// ---------------------------------------------------------------------------
// Missing configuration

/// The paths, each on a line of its own.
pub open spec fn path_lines(paths: Seq<Seq<char>>) -> Seq<char>
    decreases paths.len(),
{
    if paths.len() == 0 {
        seq![]
    } else {
        path_lines(paths.drop_last()) + "  "@ + paths.last() + "\n"@
    }
}

/// What is said when no configuration file was found.
pub fn no_config(paths: &Vec<String>) -> (s: String)
    ensures
        s@ == "no configuration file found. Looked in:\n"@ + path_lines(strings(paths@))
            + "Copy packaging/usbfwd.toml to the first of those and set the exporter's MagicDNS name."@,
{
    let ghost all = strings(paths@);
    let ghost head = "no configuration file found. Looked in:\n"@;
    let mut s = String::new();
    s.append("no configuration file found. Looked in:\n");
    let mut i: usize = 0;
    assert(all.take(0) =~= Seq::empty());
    assert(s@ =~= head + path_lines(all.take(0)));
    while i < paths.len()
        invariant
            i <= paths@.len(),
            all == strings(paths@),
            s@ == head + path_lines(all.take(i as int)),
        decreases paths@.len() - i,
    {
        proof {
            assert(all.take(i + 1).drop_last() =~= all.take(i as int));
            assert(all.take(i + 1).last() == paths@[i as int]@);
        }
        s.append("  ");
        s.append(paths[i].as_str());
        s.append("\n");
        i = i + 1;
        assert(s@ =~= head + path_lines(all.take(i as int)));
    }
    assert(all.take(i as int) =~= all);
    s.append("Copy packaging/usbfwd.toml to the first of those and set the exporter's MagicDNS name.");
    assert(s@ =~= head + path_lines(all)
        + "Copy packaging/usbfwd.toml to the first of those and set the exporter's MagicDNS name."@);
    s
}

// ---------------------------------------------------------------------------
// Laws

/// Every port that is not free has its row, in order, and no other has one.
pub proof fn lemma_every_taken_port_has_its_row(
    a: Seq<PortModel>,
    p: PortModel,
    b: Seq<PortModel>,
    rs: Seq<RecordModel>,
)
    ensures
        port_rows(a.push(p) + b, rs) == port_rows(a, rs) + (if p.status != 4 {
            port_row(p, rs)
        } else {
            Seq::empty()
        }) + port_rows(b, rs),
        port_rows(seq![], rs) == Seq::<char>::empty(),
    decreases b.len(),
{
    if b.len() == 0 {
        assert(a.push(p) + b =~= a.push(p));
        assert(a.push(p).drop_last() =~= a);
    } else {
        assert((a.push(p) + b).drop_last() =~= a.push(p) + b.drop_last());
        lemma_every_taken_port_has_its_row(a, p, b.drop_last(), rs);
    }
    assert(port_rows(a.push(p) + b, rs) =~= port_rows(a, rs) + (if p.status != 4 {
        port_row(p, rs)
    } else {
        Seq::empty()
    }) + port_rows(b, rs));
}

/// The row of a port begins with its number and shows what the first record of that port
/// says of the remote, or a question mark where there is none. The columns have their
/// places: for texts that fit theirs, the state begins at the eighth character, the remote
/// at the twenty-first, the bus id at the forty-fourth and the local name at the
/// fifty-fifth.
pub proof fn lemma_what_a_row_shows(
    port: Seq<char>,
    state: Seq<char>,
    remote: Seq<char>,
    busid: Seq<char>,
    local: Seq<char>,
)
    requires
        port.len() <= 6,
        state.len() <= 12,
        remote.len() <= 22,
        busid.len() <= 10,
    ensures
        ({
            let r = row(port, state, remote, busid, local);
            &&& r.subrange(0, port.len() as int) == port
            &&& r.subrange(7, 7 + state.len() as int) == state
            &&& r.subrange(20, 20 + remote.len() as int) == remote
            &&& r.subrange(43, 43 + busid.len() as int) == busid
            &&& r.subrange(54, 54 + local.len() as int) == local
            &&& r.len() == 55 + local.len()
            &&& r.last() == '\n'
        }),
{
    reveal_strlit(" ");
    reveal_strlit("\n");
    lemma_columns(port, 6);
    lemma_columns(state, 12);
    lemma_columns(remote, 22);
    lemma_columns(busid, 10);
    let r = row(port, state, remote, busid, local);
    assert(r.subrange(0, port.len() as int) =~= column(port, 6).take(port.len() as int));
    assert(r.subrange(7, 7 + state.len() as int) =~= column(state, 12).take(state.len() as int));
    assert(r.subrange(20, 20 + remote.len() as int) =~= column(remote, 22).take(
        remote.len() as int,
    ));
    assert(r.subrange(43, 43 + busid.len() as int) =~= column(busid, 10).take(
        busid.len() as int,
    ));
    assert(r.subrange(54, 54 + local.len() as int) =~= local);
}

/// The record of a port is the first that names it.
pub proof fn lemma_the_record_of_a_port(rs: Seq<RecordModel>, port: u32, i: int)
    ensures
        0 <= i < rs.len() && rs[i].port == port && (forall|k: int|
            0 <= k < i ==> (#[trigger] rs[k]).port != port) ==> record_for(rs, port) == Some(rs[i]),
        (forall|k: int| 0 <= k < rs.len() ==> (#[trigger] rs[k]).port != port) ==> record_for(
            rs,
            port,
        ) is None,
    decreases rs.len(),
{
    if rs.len() > 0 && rs[0].port != port {
        let rest = rs.drop_first();
        lemma_the_record_of_a_port(rest, port, i - 1);
        if forall|k: int| 0 <= k < i ==> (#[trigger] rs[k]).port != port {
            assert forall|k: int| 0 <= k < i - 1 && k < rest.len() implies (#[trigger] rest[k]).port
                != port by {
                assert(rest[k] == rs[k + 1]);
            }
        }
        if forall|k: int| 0 <= k < rs.len() ==> (#[trigger] rs[k]).port != port {
            assert forall|k: int| 0 <= k < rest.len() implies (#[trigger] rest[k]).port != port by {
                assert(rest[k] == rs[k + 1]);
            }
        }
    }
}

/// A server's devices are listed one on a line, in order, each behind a star if it would
/// be attached and behind a blank if not.
pub proof fn lemma_every_remote_device_is_listed(
    s: ServerModel,
    a: Seq<UsbDevice>,
    d: UsbDevice,
    b: Seq<UsbDevice>,
)
    ensures
        device_lines(s, a.push(d) + b) == device_lines(s, a) + seq![
            ' ',
            ' ',
            if allowed(s.devices, d.id_vendor, d.id_product) {
                '*'
            } else {
                ' '
            },
            ' ',
        ] + device_text(d@) + seq!['\n'] + device_lines(s, b),
{
    lemma_device_lines_joined(s, a.push(d), b);
    assert(a.push(d).drop_last() =~= a);
    reveal_strlit("  ");
    reveal_strlit("*");
    reveal_strlit(" ");
    reveal_strlit("\n");
    let mark = if allowed(s.devices, d.id_vendor, d.id_product) {
        '*'
    } else {
        ' '
    };
    let text = device_text(d@);
    let less = device_lines(s, a);
    assert(device_lines(s, a.push(d)) =~= less + seq![' ', ' ', mark, ' '] + text + seq!['\n']);
}

proof fn lemma_device_lines_joined(s: ServerModel, a: Seq<UsbDevice>, b: Seq<UsbDevice>)
    ensures
        device_lines(s, a + b) == device_lines(s, a) + device_lines(s, b),
    decreases b.len(),
{
    if b.len() == 0 {
        assert(a + b =~= a);
        assert(device_lines(s, a) + device_lines(s, b) =~= device_lines(s, a));
    } else {
        assert((a + b).drop_last() =~= a + b.drop_last());
        lemma_device_lines_joined(s, a, b.drop_last());
        assert(device_lines(s, a + b) =~= device_lines(s, a) + device_lines(s, b));
    }
}

/// Every path that was looked at is named, on a line of its own, in order.
pub proof fn lemma_every_path_is_named(a: Seq<Seq<char>>, p: Seq<char>, b: Seq<Seq<char>>)
    ensures
        path_lines(a.push(p) + b) == path_lines(a) + seq![' ', ' '] + p + seq!['\n'] + path_lines(b),
    decreases b.len(),
{
    reveal_strlit("  ");
    reveal_strlit("\n");
    if b.len() == 0 {
        assert(a.push(p) + b =~= a.push(p));
        assert(a.push(p).drop_last() =~= a);
    } else {
        assert((a.push(p) + b).drop_last() =~= a.push(p) + b.drop_last());
        lemma_every_path_is_named(a, p, b.drop_last());
    }
    assert(path_lines(a.push(p) + b) =~= path_lines(a) + seq![' ', ' '] + p + seq!['\n']
        + path_lines(b));
}

} // verus!
