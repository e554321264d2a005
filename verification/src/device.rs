//! The device-list report: after a header line, one device per non-blank
//! line, identifier and status token separated by a single tab.

use crate::text;
use crate::DeviceState;
use crate::Error;
use crate::state_of;
use vstd::prelude::*;

verus! {

/// What parsing a device list yields: the records in input order, or the
/// first line that does not split around one tab into a non-empty
/// identifier and a status token, or the first unrecognized status token.
pub enum DeviceListOutcome {
    Parsed(Seq<(Seq<char>, DeviceState)>),
    BadLine(Seq<char>),
    BadState(Seq<char>),
}

/// The outcome for a sequence of device lines: blank lines are skipped,
/// every other line must split around exactly one tab into a non-empty
/// identifier and a status token, and the first offense wins.
pub open spec fn parse_device_lines(lines: Seq<Seq<char>>) -> DeviceListOutcome
    decreases lines.len(),
{
    if lines.len() == 0 {
        DeviceListOutcome::Parsed(Seq::empty())
    } else {
        match parse_device_lines(lines.drop_last()) {
            DeviceListOutcome::Parsed(ds) => {
                let l = lines.last();
                if l.len() == 0 {
                    DeviceListOutcome::Parsed(ds)
                } else {
                    let parts = text::spec_split(l, '\t');
                    if parts.len() != 2 || parts[0].len() == 0 {
                        DeviceListOutcome::BadLine(l)
                    } else {
                        match state_of(parts[1]) {
                            Some(st) => DeviceListOutcome::Parsed(ds.push((parts[0], st))),
                            None => DeviceListOutcome::BadState(parts[1]),
                        }
                    }
                }
            },
            e => e,
        }
    }
}

/// Every identifier of a parsed device list is non-empty text.
pub proof fn lemma_parsed_ids_nonempty(lines: Seq<Seq<char>>)
    ensures
        match parse_device_lines(lines) {
            DeviceListOutcome::Parsed(ds) => forall|i: int|
                0 <= i < ds.len() ==> #[trigger] ds[i].0.len() > 0,
            _ => true,
        },
    decreases lines.len(),
{
    if lines.len() > 0 {
        lemma_parsed_ids_nonempty(lines.drop_last());
    }
}

/// The outcome for a whole device-list response: its lines after the
/// header line.
pub open spec fn spec_devices(s: Seq<char>) -> DeviceListOutcome {
    parse_device_lines(text::spec_lines(s).drop_first())
}

/// The identifier-and-state view of a record vector.
pub open spec fn records_view(v: Seq<(String, DeviceState)>) -> Seq<(Seq<char>, DeviceState)> {
    v.map_values(|p: (String, DeviceState)| (p.0@, p.1))
}

/// Once a prefix of the lines is refused, the remaining lines do not
/// change the outcome.
proof fn lemma_error_persists(lines: Seq<Seq<char>>, k: int)
    requires
        0 <= k <= lines.len(),
        !(parse_device_lines(lines.take(k)) is Parsed),
    ensures
        parse_device_lines(lines) == parse_device_lines(lines.take(k)),
    decreases lines.len() - k,
{
    if k == lines.len() {
        assert(lines.take(k) =~= lines);
    } else {
        assert(lines.take(k + 1).drop_last() =~= lines.take(k));
        lemma_error_persists(lines, k + 1);
    }
}

/// Parses the `devices` response of the bridge tool. The header line is
/// dropped; each further non-blank line must hold a non-empty identifier
/// and a status token around a single tab. A line that does not is the
/// parse failure, an unrecognized token is the state failure, and the
/// first failure in line order is reported.
pub fn get_devices(response: &str) -> (r: Result<Vec<(String, DeviceState)>, Error>)
    ensures
        match spec_devices(response@) {
            DeviceListOutcome::Parsed(ds) => r matches Ok(v) && records_view(v@) == ds,
            DeviceListOutcome::BadLine(l) => r matches Err(
                Error::FailedToParseAdbDeviceResponse(t),
            ) && t@ == l,
            DeviceListOutcome::BadState(tok) => r matches Err(
                Error::AdbDeviceTypeNotSupported(t),
            ) && t@ == tok,
        },
        r matches Ok(v) ==> forall|i: int| 0 <= i < v@.len() ==> #[trigger] v@[i].0@.len() > 0,
{
    let lines = text::split_lines(response);
    let ghost body = text::spec_lines(response@).drop_first();
    proof {
        text::lemma_split_nonempty(response@, '\n');
        assert(text::views(lines@).len() >= 1);
        assert(body.take(0) =~= Seq::<Seq<char>>::empty());
    }
    let mut devices: Vec<(String, DeviceState)> = Vec::new();
    let mut i: usize = 1;
    proof {
        assert(records_view(devices@) =~= Seq::<(Seq<char>, DeviceState)>::empty());
    }
    while i < lines.len()
        invariant
            1 <= i <= lines.len(),
            text::views(lines@) == text::spec_lines(response@),
            body == text::spec_lines(response@).drop_first(),
            parse_device_lines(body.take(i - 1)) == DeviceListOutcome::Parsed(
                records_view(devices@),
            ),
        decreases lines.len() - i,
    {
        let ghost pfx = body.take(i - 1);
        let ghost pfx1 = body.take(i as int);
        proof {
            assert(pfx1.drop_last() =~= pfx);
            assert(pfx1.last() == text::views(lines@)[i as int]);
        }
        let line = &lines[i];
        if !line.as_str().is_empty() {
            let parts = text::split_on_char(line.as_str(), '\t');
            if parts.len() != 2 || parts[0].as_str().is_empty() {
                proof {
                    assert(parse_device_lines(pfx1) == DeviceListOutcome::BadLine(line@));
                    lemma_error_persists(body, i as int);
                }
                return Err(Error::FailedToParseAdbDeviceResponse(line.clone()));
            }
            proof {
                assert(parts@[0]@ == text::spec_split(line@, '\t')[0]);
                assert(parts@[1]@ == text::spec_split(line@, '\t')[1]);
            }
            match DeviceState::try_from(parts[1].as_str()) {
                Ok(st) => {
                    let ghost dv = records_view(devices@);
                    devices.push((parts[0].clone(), st));
                    proof {
                        assert(records_view(devices@) =~= dv.push(
                            (text::spec_split(line@, '\t')[0], st),
                        ));
                        assert(parse_device_lines(pfx1) == DeviceListOutcome::Parsed(
                            records_view(devices@),
                        ));
                    }
                },
                Err(e) => {
                    proof {
                        assert(parse_device_lines(pfx1) == DeviceListOutcome::BadState(
                            text::spec_split(line@, '\t')[1],
                        ));
                        lemma_error_persists(body, i as int);
                    }
                    return Err(e);
                },
            }
        }
        proof {
            assert(parse_device_lines(body.take(i as int)) == DeviceListOutcome::Parsed(
                records_view(devices@),
            ));
        }
        i += 1;
    }
    proof {
        assert(body.take(i - 1) =~= body);
        lemma_parsed_ids_nonempty(body);
        let ds = parse_device_lines(body)->Parsed_0;
        assert(ds == records_view(devices@));
        assert forall|k: int| 0 <= k < devices@.len() implies #[trigger] devices@[k].0@.len()
            > 0 by {
            assert(ds[k].0.len() > 0);
            assert(records_view(devices@)[k].0 == devices@[k].0@);
        }
    }
    Ok(devices)
}

/// The identifiers of the connected records, in their input order.
pub open spec fn connected_ids(ds: Seq<(Seq<char>, DeviceState)>) -> Seq<Seq<char>>
    decreases ds.len(),
{
    if ds.len() == 0 {
        Seq::empty()
    } else {
        let r = connected_ids(ds.drop_last());
        if ds.last().1 == DeviceState::Connected {
            r.push(ds.last().0)
        } else {
            r
        }
    }
}

/// Keeps, in order, the identifiers of the connected devices.
pub fn connected_devices(devices: &Vec<(String, DeviceState)>) -> (r: Vec<String>)
    ensures
        text::views(r@) == connected_ids(records_view(devices@)),
{
    let ghost all = records_view(devices@);
    let mut names: Vec<String> = Vec::new();
    let mut i: usize = 0;
    proof {
        assert(all.take(0) =~= Seq::<(Seq<char>, DeviceState)>::empty());
    }
    while i < devices.len()
        invariant
            i <= devices.len(),
            all == records_view(devices@),
            text::views(names@) == connected_ids(all.take(i as int)),
        decreases devices.len() - i,
    {
        proof {
            assert(all.take(i + 1 as int).drop_last() =~= all.take(i as int));
            assert(all.take(i + 1 as int).last() == all[i as int]);
        }
        let ghost nv = text::views(names@);
        if devices[i].1 == DeviceState::Connected {
            names.push(devices[i].0.clone());
            proof {
                assert(text::views(names@) =~= nv.push(all[i as int].0));
            }
        }
        i += 1;
    }
    proof {
        assert(all.take(devices@.len() as int) =~= all);
    }
    names
}

/// The connected device a zero-based index selects, if one stands at it.
pub fn select_connected(devices: &Vec<(String, DeviceState)>, index: usize) -> (r: Option<
    String,
>)
    ensures
        ({
            let ids = connected_ids(records_view(devices@));
            match r {
                Some(id) => index < ids.len() && id@ == ids[index as int],
                None => index >= ids.len(),
            }
        }),
{
    let names = connected_devices(devices);
    if index < names.len() {
        Some(names[index].clone())
    } else {
        None
    }
}

} // verus!
