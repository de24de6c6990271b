//! Port aggregator: merges parsed listener records, with their
//! resolved display names, into one record per distinct listening
//! port.  A later record for a port overwrites an earlier one, and the
//! result is ordered ascending by port.

use vstd::prelude::*;
use crate::parser::{RecordModel, ListenerRecord, parse_listing_spec, parse_listener_output};
use crate::resolver::{EntryModel, ProcessEntry, display_name_spec, resolve_display_name,
    resolve_from_parts};

verus! {

/// The public result unit: process id, resolved display name, port and
/// protocol of one listening socket.
pub struct PortInfo {
    pub pid: u32,
    pub name: String,
    pub port: u16,
    pub protocol: String,
}

/// Mathematical model of a result record.
pub struct PortInfoModel {
    pub pid: u32,
    pub name: Seq<char>,
    pub port: u16,
    pub protocol: Seq<char>,
}

impl View for PortInfo {
    type V = PortInfoModel;

    open spec fn view(&self) -> PortInfoModel {
        PortInfoModel { pid: self.pid, name: self.name@, port: self.port, protocol: self.protocol@ }
    }
}

/// The sequence of views of a vector of result records.
pub open spec fn infos_view(s: Seq<PortInfo>) -> Seq<PortInfoModel> {
    Seq::new(s.len(), |k: int| s[k]@)
}

/// The port-keyed merge of a sequence of result records: for each
/// distinct port, the record standing last in the sequence.
pub open spec fn port_map(s: Seq<PortInfoModel>) -> Map<u16, PortInfoModel>
    decreases s.len(),
{
    if s.len() == 0 {
        Map::empty()
    } else {
        port_map(s.drop_last()).insert(s.last().port, s.last())
    }
}

/// Strictly ascending port order; in particular no two records share a
/// port.
pub open spec fn sorted_by_port(s: Seq<PortInfoModel>) -> bool {
    forall|i: int, j: int| 0 <= i < j < s.len() ==> s[i].port < s[j].port
}

/// No two records of a strictly port-sorted result share a port: an
/// aggregated result never emits the same port twice.
pub proof fn lemma_sorted_ports_distinct(s: Seq<PortInfoModel>)
    requires
        sorted_by_port(s),
    ensures
        forall|i: int, j: int|
            0 <= i < s.len() && 0 <= j < s.len() && i != j ==> s[i].port != s[j].port,
{
}

/// Merge the records into one per distinct port — the record standing
/// last in scan order wins — and order the result ascending by port.
pub fn aggregate_ports(raw: &Vec<PortInfo>) -> (r: Vec<PortInfo>)
    ensures
        sorted_by_port(infos_view(r@)),
        forall|t: int|
            0 <= t < r@.len() ==> port_map(infos_view(raw@)).contains_key(r@[t]@.port) && port_map(
                infos_view(raw@),
            )[r@[t]@.port] == r@[t]@,
        forall|p: u16|
            port_map(infos_view(raw@)).contains_key(p) ==> exists|t: int|
                0 <= t < r@.len() && r@[t]@.port == p,
{
    let mut out: Vec<PortInfo> = Vec::new();
    let mut i: usize = 0;
    proof {
        assert(infos_view(raw@.take(0)) =~= Seq::<PortInfoModel>::empty());
    }
    while i < raw.len()
        invariant
            i <= raw@.len(),
            sorted_by_port(infos_view(out@)),
            forall|t: int|
                0 <= t < out@.len() ==> #[trigger] port_map(infos_view(raw@.take(i as int))).contains_key(
                    out@[t]@.port,
                ) && port_map(infos_view(raw@.take(i as int)))[out@[t]@.port] == out@[t]@,
            forall|p: u16|
                port_map(infos_view(raw@.take(i as int))).contains_key(p) ==> exists|t: int|
                    0 <= t < out@.len() && out@[t]@.port == p,
        decreases raw@.len() - i,
    {
        let ghost pm_pre = port_map(infos_view(raw@.take(i as int)));
        let x = PortInfo {
            pid: raw[i].pid,
            name: raw[i].name.clone(),
            port: raw[i].port,
            protocol: raw[i].protocol.clone(),
        };
        proof {
            assert(x@ == raw@[i as int]@);
            let nxt = infos_view(raw@.take(i + 1));
            assert(nxt.drop_last() =~= infos_view(raw@.take(i as int)));
            assert(nxt.last() == raw@[i as int]@);
            assert(port_map(nxt) == pm_pre.insert(x@.port, x@));
        }
        // Position of the first record with a port not below x's.
        let mut j: usize = 0;
        while j < out.len() && out[j].port < x.port
            invariant
                j <= out@.len(),
                forall|t: int| 0 <= t < j ==> out@[t]@.port < x@.port,
            decreases out@.len() - j,
        {
            j = j + 1;
        }
        let ghost before = out@;
        let replace = j < out.len() && out[j].port == x.port;
        if replace {
            out.remove(j);
            out.insert(j, x);
            proof {
                assert(out@ =~= before.update(j as int, x));
            }
        } else {
            out.insert(j, x);
        }
        proof {
            let pm = pm_pre.insert(x@.port, x@);
            let ov = infos_view(out@);
            let bv = infos_view(before);
            assert(forall|t: int| 0 <= t < before.len() ==> bv[t] == #[trigger] before[t]@);
            assert(forall|t: int| 0 <= t < out@.len() ==> ov[t] == #[trigger] out@[t]@);
            // Where each element of the updated vector comes from.
            if replace {
                assert(out@.len() == before.len());
                assert(forall|t: int| 0 <= t < out@.len() && t != j ==> out@[t] == before[t]);
                assert(out@[j as int] == x);
                assert(before[j as int]@.port == x@.port);
            } else {
                assert(out@.len() == before.len() + 1);
                assert(forall|t: int| 0 <= t < j ==> out@[t] == before[t]);
                assert(forall|t: int| j < t < out@.len() ==> out@[t] == before[t - 1]);
                assert(out@[j as int] == x);
                assert((j as int) == before.len() || before[j as int]@.port > x@.port);
            }
            // No element other than position j carries x's port.
            assert forall|t: int|
                0 <= t < out@.len() && t != j implies out@[t]@.port != x@.port by {
                if replace {
                    if t < j {
                        assert(bv[t].port < bv[j as int].port);
                    } else {
                        assert(bv[j as int].port < bv[t].port);
                    }
                } else {
                    if t < j {
                        assert(before[t]@.port < x@.port);
                    } else {
                        assert(before[j as int]@.port <= before[t - 1]@.port) by {
                            if j < t - 1 {
                                assert(bv[j as int].port < bv[t - 1].port);
                            }
                        };
                    }
                }
            }
            assert forall|a: int, b: int| 0 <= a < b < ov.len() implies ov[a].port
                < ov[b].port by {
                if replace {
                    assert(bv[a].port < bv[b].port);
                    assert(ov[a].port == bv[a].port);
                    assert(ov[b].port == bv[b].port);
                } else {
                    if b < j {
                        assert(bv[a].port < bv[b].port);
                    } else if b == j {
                        assert(before[a]@.port < x@.port);
                    } else if a == j {
                        assert(before[j as int]@.port <= before[b - 1]@.port) by {
                            if j < b - 1 {
                                assert(bv[j as int].port < bv[b - 1].port);
                            }
                        };
                    } else if a < j {
                        assert(before[a]@.port < x@.port);
                        if j == b - 1 {
                        } else {
                            assert(bv[a].port < bv[b - 1].port);
                        }
                    } else {
                        assert(bv[a - 1].port < bv[b - 1].port);
                    }
                }
            }
            assert forall|t: int| 0 <= t < out@.len() implies pm.contains_key(out@[t]@.port)
                && pm[out@[t]@.port] == out@[t]@ by {
                if t == j {
                    assert(pm.contains_key(x@.port) && pm[x@.port] == x@);
                } else {
                    let y = if replace || t < j {
                        before[t]
                    } else {
                        before[t - 1]
                    };
                    assert(out@[t] == y);
                    assert(pm_pre.contains_key(y@.port) && pm_pre[y@.port] == y@);
                    assert(y@.port != x@.port);
                }
            }
            assert forall|p: u16| pm.contains_key(p) implies exists|t: int|
                0 <= t < out@.len() && out@[t]@.port == p by {
                if p == x@.port {
                    assert(out@[j as int]@.port == p);
                } else {
                    assert(pm_pre.contains_key(p));
                    let t0 = choose|t: int| 0 <= t < before.len() && #[trigger] before[t]@.port
                        == p;
                    if replace || t0 < j {
                        assert(out@[t0]@.port == p);
                    } else {
                        assert(out@[t0 + 1]@.port == p);
                    }
                }
            }
        }
        i = i + 1;
    }
    proof {
        assert(raw@.take(raw@.len() as int) =~= raw@);
    }
    out
}

/// A snapshot of process metadata, keyed by process id: what the
/// resolver consults to name each listening port's owner.
pub struct ProcessTable {
    pub entries: Vec<(u32, ProcessEntry)>,
}

/// Mathematical model of the table: the entries in order.
pub open spec fn table_view(t: &ProcessTable) -> Seq<(u32, EntryModel)> {
    Seq::new(t.entries@.len(), |i: int| (t.entries@[i].0, t.entries@[i].1@))
}

/// The first entry for `pid`, if the table holds one.
pub open spec fn lookup_model(tm: Seq<(u32, EntryModel)>, pid: u32) -> Option<EntryModel>
    decreases tm.len(),
{
    if tm.len() == 0 {
        None
    } else if tm[0].0 == pid {
        Some(tm[0].1)
    } else {
        lookup_model(tm.skip(1), pid)
    }
}

impl ProcessTable {
    /// The entry recorded for `pid`, if any.
    pub fn get(&self, pid: u32) -> (r: Option<&ProcessEntry>)
        ensures
            match r {
                Option::Some(e) => lookup_model(table_view(self), pid) == Some(e@),
                Option::None => lookup_model(table_view(self), pid) is None,
            },
    {
        let mut i: usize = 0;
        proof {
            assert(table_view(self).skip(0) =~= table_view(self));
        }
        while i < self.entries.len()
            invariant
                i <= self.entries@.len(),
                lookup_model(table_view(self), pid) == lookup_model(
                    table_view(self).skip(i as int),
                    pid,
                ),
            decreases self.entries@.len() - i,
        {
            let ghost rest = table_view(self).skip(i as int);
            proof {
                assert(rest[0] == table_view(self)[i as int]);
                assert(rest.skip(1) =~= table_view(self).skip(i + 1));
            }
            if self.entries[i].0 == pid {
                return Some(&self.entries[i].1);
            }
            i = i + 1;
        }
        proof {
            assert(table_view(self).skip(self.entries@.len() as int)
                =~= Seq::<(u32, EntryModel)>::empty());
        }
        None
    }
}

/// The result records that the resolver derives from the parsed
/// listener records, in scan order, before aggregation.
pub open spec fn resolved_infos(rs: Seq<RecordModel>, tm: Seq<(u32, EntryModel)>) -> Seq<
    PortInfoModel,
> {
    Seq::new(
        rs.len(),
        |i: int|
            PortInfoModel {
                pid: rs[i].pid,
                name: display_name_spec(lookup_model(tm, rs[i].pid), rs[i].hint),
                port: rs[i].port,
                protocol: rs[i].protocol,
            },
    )
}

/// The whole pipeline over an explicit process table: parse the
/// utility output, resolve one display name per record, keep the last
/// record per port, and order ascending by port.
pub fn ports_from_listing(listing: &str, table: &ProcessTable) -> (r: Vec<PortInfo>)
    ensures
        sorted_by_port(infos_view(r@)),
        ({
            let pm = port_map(resolved_infos(parse_listing_spec(listing@), table_view(table)));
            &&& forall|t: int|
                0 <= t < r@.len() ==> pm.contains_key(r@[t]@.port) && pm[r@[t]@.port] == r@[t]@
            &&& forall|p: u16|
                pm.contains_key(p) ==> exists|t: int| 0 <= t < r@.len() && r@[t]@.port == p
        }),
{
    let records = parse_listener_output(listing);
    let ghost rs = parse_listing_spec(listing@);
    let ghost tm = table_view(table);
    let mut resolved: Vec<PortInfo> = Vec::new();
    let mut i: usize = 0;
    proof {
        assert(infos_view(resolved@) =~= resolved_infos(rs, tm).take(0));
    }
    while i < records.len()
        invariant
            i <= records@.len(),
            crate::parser::records_view(records@) == rs,
            tm == table_view(table),
            infos_view(resolved@) == resolved_infos(rs, tm).take(i as int),
        decreases records@.len() - i,
    {
        let rec = &records[i];
        proof {
            assert(rec@ == rs[i as int]);
        }
        let name = resolve_display_name(table.get(rec.pid), rec.hint.as_str());
        let info = PortInfo {
            pid: rec.pid,
            name,
            port: rec.port,
            protocol: rec.protocol.clone(),
        };
        proof {
            assert(info@ == resolved_infos(rs, tm)[i as int]);
        }
        let ghost prev = resolved@;
        resolved.push(info);
        i = i + 1;
        proof {
            assert(rs.len() == records@.len());
            assert(infos_view(prev) == resolved_infos(rs, tm).take(i - 1));
            assert(infos_view(prev).len() == prev.len());
            assert(prev.len() == i - 1);
            assert forall|k: int| 0 <= k < resolved@.len() implies infos_view(resolved@)[k]
                == resolved_infos(rs, tm).take(i as int)[k] by {
                assert(resolved_infos(rs, tm).take(i as int)[k] == resolved_infos(rs, tm)[k]);
                if k < prev.len() {
                    assert(resolved@[k] == prev[k]);
                    assert(infos_view(prev)[k] == prev[k]@);
                    assert(prev[k]@ == resolved_infos(rs, tm).take(i - 1)[k]);
                } else {
                    assert(resolved@[k] == info);
                }
            }
            assert(infos_view(resolved@) =~= resolved_infos(rs, tm).take(i as int));
        }
    }
    proof {
        assert(resolved_infos(rs, tm).take(records@.len() as int) =~= resolved_infos(rs, tm));
    }
    aggregate_ports(&resolved)
}

/// The port-keyed merge of the raw parsed records themselves: for each
/// distinct port, the record standing last in scan order.
pub open spec fn record_port_map(rs: Seq<RecordModel>) -> Map<u16, RecordModel>
    decreases rs.len(),
{
    if rs.len() == 0 {
        Map::empty()
    } else {
        record_port_map(rs.drop_last()).insert(rs.last().port, rs.last())
    }
}

/// Result records that carry, position by position, the pid, port and
/// protocol of the parsed records merge to the same ports, and for
/// each port to the pid and protocol of the same surviving record —
/// whatever display names resolution produced.
pub proof fn lemma_port_map_matches_records(infos: Seq<PortInfoModel>, rs: Seq<RecordModel>)
    requires
        infos.len() == rs.len(),
        forall|k: int|
            0 <= k < rs.len() ==> (#[trigger] infos[k]).port == rs[k].port && infos[k].pid
                == rs[k].pid && infos[k].protocol == rs[k].protocol,
    ensures
        forall|p: u16|
            #[trigger] record_port_map(rs).contains_key(p) <==> port_map(infos).contains_key(p),
        forall|p: u16|
            #[trigger] record_port_map(rs).contains_key(p) ==> port_map(infos)[p].port
                == record_port_map(rs)[p].port && port_map(infos)[p].pid == record_port_map(
                rs,
            )[p].pid && port_map(infos)[p].protocol == record_port_map(rs)[p].protocol,
    decreases infos.len(),
{
    let pm = port_map(infos);
    let rm = record_port_map(rs);
    if infos.len() == 0 {
        assert(forall|p: u16| !rm.contains_key(p) && !pm.contains_key(p));
    } else {
        let pmd = port_map(infos.drop_last());
        let rmd = record_port_map(rs.drop_last());
        assert(forall|k: int|
            0 <= k < rs.drop_last().len() ==> (#[trigger] infos.drop_last()[k]).port
                == rs.drop_last()[k].port && infos.drop_last()[k].pid == rs.drop_last()[k].pid
                && infos.drop_last()[k].protocol == rs.drop_last()[k].protocol);
        lemma_port_map_matches_records(infos.drop_last(), rs.drop_last());
        let x = infos.last();
        let y = rs.last();
        assert(x == infos[infos.len() - 1]);
        assert(y == rs[rs.len() - 1]);
        assert(x.port == y.port && x.pid == y.pid && x.protocol == y.protocol);
        assert(pm == pmd.insert(x.port, x));
        assert(rm == rmd.insert(y.port, y));
        assert forall|p: u16| #[trigger] rm.contains_key(p) <==> pm.contains_key(p) by {
            if p != y.port {
                assert(rm.contains_key(p) <==> rmd.contains_key(p));
                assert(pm.contains_key(p) <==> pmd.contains_key(p));
            }
        }
        assert forall|p: u16| #[trigger] rm.contains_key(p) implies pm[p].port == rm[p].port
            && pm[p].pid == rm[p].pid && pm[p].protocol == rm[p].protocol by {
            if p == y.port {
                assert(pm[p] == x && rm[p] == y);
            } else {
                assert(rmd.contains_key(p));
                assert(pm[p] == pmd[p] && rm[p] == rmd[p]);
            }
        }
    }
}

/// The whole pipeline against the live process table: parse the
/// utility output, resolve each record's display name from the
/// machine's processes, keep the last record per port, and order
/// ascending by port.  Which display names the machine reports cannot
/// be pinned down here; everything else is: the result is strictly
/// sorted by port, and its ports, pids and protocol tags are exactly
/// those of the last-parsed record per port.
///
/// The process snapshot is freshly acquired here, not shared with the
/// stats handle, so frequent stats polling is never blocked behind
/// this heavier process-table scan.
pub fn get_active_ports(listing: &str) -> (r: Vec<PortInfo>)
    ensures
        sorted_by_port(infos_view(r@)),
        ({
            let rm = record_port_map(parse_listing_spec(listing@));
            &&& forall|t: int|
                0 <= t < r@.len() ==> rm.contains_key(r@[t]@.port) && r@[t]@.pid
                    == rm[r@[t]@.port].pid && r@[t]@.protocol == rm[r@[t]@.port].protocol
            &&& forall|p: u16|
                rm.contains_key(p) ==> exists|t: int| 0 <= t < r@.len() && r@[t]@.port == p
        }),
{
    let mut sys = crate::sysmon::system_new_all();
    crate::sysmon::system_refresh_processes(&mut sys);
    let records = parse_listener_output(listing);
    let ghost rs = parse_listing_spec(listing@);
    let mut resolved: Vec<PortInfo> = Vec::new();
    let mut i: usize = 0;
    while i < records.len()
        invariant
            i <= records@.len(),
            crate::parser::records_view(records@) == rs,
            infos_view(resolved@).len() == i,
            forall|k: int|
                0 <= k < i ==> (#[trigger] infos_view(resolved@)[k]).port == rs[k].port
                    && infos_view(resolved@)[k].pid == rs[k].pid && infos_view(
                    resolved@,
                )[k].protocol == rs[k].protocol,
        decreases records@.len() - i,
    {
        let rec = &records[i];
        proof {
            assert(rec@ == rs[i as int]);
        }
        let name = match crate::sysmon::system_process(&sys, rec.pid) {
            Option::Some(p) => {
                let nm = crate::sysmon::process_name(p);
                match crate::sysmon::process_second_arg(p) {
                    Option::Some(a) => resolve_from_parts(
                        Some(&nm),
                        Some(&a),
                        rec.hint.as_str(),
                    ),
                    Option::None => resolve_from_parts(Some(&nm), None, rec.hint.as_str()),
                }
            },
            Option::None => resolve_from_parts(None, None, rec.hint.as_str()),
        };
        let info = PortInfo { pid: rec.pid, name, port: rec.port, protocol: rec.protocol.clone() };
        let ghost prev = resolved@;
        resolved.push(info);
        i = i + 1;
        proof {
            assert forall|k: int|
                0 <= k < i implies (#[trigger] infos_view(resolved@)[k]).port == rs[k].port
                    && infos_view(resolved@)[k].pid == rs[k].pid && infos_view(
                    resolved@,
                )[k].protocol == rs[k].protocol by {
                if k < i - 1 {
                    assert(resolved@[k] == prev[k]);
                    assert(infos_view(prev)[k].port == rs[k].port);
                } else {
                    assert(resolved@[k] == info);
                }
            }
        }
    }
    proof {
        assert(rs.len() == records@.len());
        lemma_port_map_matches_records(infos_view(resolved@), rs);
    }
    aggregate_ports(&resolved)
}

} // verus!
