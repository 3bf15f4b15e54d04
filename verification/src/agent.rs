//! The agent: what it reports to the dashboard.

use vstd::prelude::*;
use crate::http;
use crate::http::Call;
use crate::json;
use crate::json::{J, Json};
use crate::metrics;
use crate::metrics::Metrics;
use crate::num;
use crate::num::Num;
use crate::table;
use crate::text;

pub use crate::clock::now;

verus! {

/// A whole number as JSON.
pub open spec fn whole(n: int) -> Json {
    Json::Num(num::of_int(n))
}

/// The answers of the probed endpoints as members.
pub open spec fn port_members(p: Seq<(String, bool)>) -> Seq<(Seq<char>, Json)> {
    Seq::new(p.len(), |i: int| (p[i].0@, Json::Bool(p[i].1)))
}

/// The members of what an agent reports at the time `ts` under a name.
pub open spec fn report_members(name: Seq<char>, ts: nat, m: Metrics) -> Seq<(Seq<char>, Json)> {
    seq![
        ("name"@, Json::Str(name)),
        ("ts"@, whole(ts as int)),
        ("cpu"@, Json::Num(m.cpu_percent.bits)),
        ("cores"@, whole(m.cores as int)),
        ("mem_used"@, whole(m.mem_used as int)),
        ("mem_total"@, whole(m.mem_total as int)),
        (
            "mem_percent"@,
            Json::Num(metrics::percent(m.mem_used as nat, m.mem_total as nat)),
        ),
        ("swap_used"@, whole(m.swap_used as int)),
        ("swap_total"@, whole(m.swap_total as int)),
        (
            "load"@,
            Json::Arr(
                seq![
                    Json::Num(m.load1.bits),
                    Json::Num(m.load5.bits),
                    Json::Num(m.load15.bits),
                ],
            ),
        ),
        ("uptime"@, whole(m.uptime_secs as int)),
        ("net_rx_rate"@, Json::Num(m.net_rx_rate.bits)),
        ("net_tx_rate"@, Json::Num(m.net_tx_rate.bits)),
        ("disk_used"@, whole(m.disk_used as int)),
        ("disk_total"@, whole(m.disk_total as int)),
        (
            "disk_percent"@,
            Json::Num(metrics::percent(m.disk_used as nat, m.disk_total as nat)),
        ),
        ("os"@, Json::Str(m.os@)),
        ("ports"@, Json::Obj(json::built(port_members(m.ports@)))),
    ]
}

/// What an agent reports at the time `ts` under a name.
pub open spec fn report_json(name: Seq<char>, ts: nat, m: Metrics) -> Json {
    Json::Obj(json::built(report_members(name, ts, m)))
}

/// The answers of the probed endpoints as JSON.
fn ports_value(p: &Vec<(String, bool)>) -> (r: J)
    ensures
        r.view() == Json::Obj(json::built(port_members(p@))),
{
    let ghost all = port_members(p@);
    let mut fields: Vec<(String, J)> = Vec::new();
    let mut i: usize = 0;
    while i < p.len()
        invariant
            i <= p@.len(),
            all == port_members(p@),
            json::members(fields@) == all.take(i as int),
        decreases p@.len() - i,
    {
        let ghost was = json::members(fields@);
        fields.push((p[i].0.clone(), J::Bool(p[i].1)));
        i = i + 1;
        assert(json::members(fields@) =~= was.push(all[i - 1]));
        assert(json::members(fields@) =~= all.take(i as int));
    }
    assert(all.take(i as int) =~= all);
    json::object(fields)
}

/// A whole number as JSON.
pub(crate) fn whole_value(n: u64) -> (r: J)
    ensures
        r.view() == whole(n as int),
{
    J::Num(Num::of_u64(n))
}

/// What an agent reports at the time `ts` under a name.
pub fn report(name: &str, ts: u64, m: &Metrics) -> (r: J)
    ensures
        r.view() == report_json(name@, ts as nat, *m),
{
    let load: Vec<J> = vec![J::Num(m.load1), J::Num(m.load5), J::Num(m.load15)];
    proof {
        json::lemma_arr_view(load);
        assert(json::items(load@) =~= seq![
            Json::Num(m.load1.bits),
            Json::Num(m.load5.bits),
            Json::Num(m.load15.bits),
        ]);
    }
    let mut fields: Vec<(String, J)> = Vec::new();
    assert(json::members(fields@) =~= Seq::<(Seq<char>, Json)>::empty());
    json::append(&mut fields, "name", J::Str(name.to_string()));
    json::append(&mut fields, "ts", whole_value(ts));
    json::append(&mut fields, "cpu", J::Num(m.cpu_percent));
    json::append(&mut fields, "cores", whole_value(m.cores as u64));
    json::append(&mut fields, "mem_used", whole_value(m.mem_used));
    json::append(&mut fields, "mem_total", whole_value(m.mem_total));
    json::append(&mut fields, "mem_percent", J::Num(m.mem_percent()));
    json::append(&mut fields, "swap_used", whole_value(m.swap_used));
    json::append(&mut fields, "swap_total", whole_value(m.swap_total));
    json::append(&mut fields, "load", J::Arr(load));
    json::append(&mut fields, "uptime", whole_value(m.uptime_secs));
    json::append(&mut fields, "net_rx_rate", J::Num(m.net_rx_rate));
    json::append(&mut fields, "net_tx_rate", J::Num(m.net_tx_rate));
    json::append(&mut fields, "disk_used", whole_value(m.disk_used));
    json::append(&mut fields, "disk_total", whole_value(m.disk_total));
    json::append(&mut fields, "disk_percent", J::Num(m.disk_percent()));
    json::append(&mut fields, "os", J::Str(m.os.clone()));
    json::append(&mut fields, "ports", ports_value(&m.ports));
    assert(json::members(fields@) == report_members(name@, ts as nat, *m));
    json::object(fields)
}

/// The name of a machine from the file that holds it, where that is not blank.
pub open spec fn hostname_in(s: Option<Seq<char>>) -> Option<Seq<char>> {
    match s {
        Some(t) if text::trimmed(t).len() > 0 => Some(text::trimmed(t)),
        _ => None,
    }
}

/// Reads the name of a machine from the file that holds it.
pub fn hostname(s: Option<&str>) -> (r: Option<String>)
    ensures
        http::maybe(r) == hostname_in(http::shown(s)),
{
    match s {
        Some(t) => {
            let name = text::trim(t);
            if name.as_str().unicode_len() > 0 {
                Some(name)
            } else {
                None
            }
        },
        None => None,
    }
}

/// The name under which an agent reports: the given one, or that of the machine, or `vps`.
pub open spec fn agent_name(name: Seq<char>, host: Option<Seq<char>>) -> Seq<char> {
    if name.len() > 0 {
        name
    } else {
        match hostname_in(host) {
            Some(h) => h,
            None => "vps"@,
        }
    }
}

/// Chooses the name under which an agent reports. `host` is the file that holds the name of the
/// machine.
pub fn choose_name(name: &str, host: Option<&str>) -> (r: String)
    ensures
        r@ == agent_name(name@, http::shown(host)),
{
    if name.unicode_len() > 0 {
        name.to_string()
    } else {
        match hostname(host) {
            Some(h) => h,
            None => "vps".to_string(),
        }
    }
}

/// The address to which an agent reports.
pub open spec fn report_url(server: Seq<char>, key: Seq<char>) -> Seq<char> {
    text::strip_end(server, seq!['/']) + "/api/report?key="@ + key
}

/// The call with which an agent reports.
pub open spec fn report_call(
    server: Seq<char>,
    key: Seq<char>,
    name: Seq<char>,
    ts: nat,
    m: Metrics,
) -> http::CallView {
    http::CallView {
        method: "POST"@,
        url: report_url(server, key),
        headers: seq![("Content-Type"@, "application/json"@)],
        body: Some(json::render(report_json(name, ts, m), None)),
    }
}

/// Prepares the call with which an agent reports at the time `ts`.
pub fn report_at(server: &str, key: &str, name: &str, ts: u64, m: &Metrics) -> (c: Call)
    ensures
        c@ == report_call(server@, key@, name@, ts as nat, *m),
{
    proof {
        reveal_strlit("/");
        assert("/"@ =~= seq!['/']);
    }
    let mut url = text::trim_end_of(server, "/");
    text::put(&mut url, "/api/report?key=");
    text::put(&mut url, key);
    let headers: Vec<(String, String)> = vec![
        ("Content-Type".to_string(), "application/json".to_string()),
    ];
    assert(table::pairs(headers@) =~= seq![("Content-Type"@, "application/json"@)]);
    let body = report(name, ts, m).to_string();
    Call { method: "POST".to_string(), url, headers, body: Some(body) }
}

/// Prepares the call with which an agent reports now, whatever the clock says.
pub fn report_now(server: &str, key: &str, name: &str, m: &Metrics) -> (c: Call)
    ensures
        exists|ts: u64| c@ == #[trigger] report_call(server@, key@, name@, ts as nat, *m),
{
    let ts = now();
    report_at(server, key, name, ts, m)
}

} // verus!
