//! What the page shows of a report.

use vstd::prelude::*;
use crate::agent;
use crate::json;
use crate::json::{J, Json};
use crate::metrics;
use crate::metrics::Metrics;
use crate::num;
use crate::num::Num;
use crate::num_laws;

verus! {

/// The number that an optional value gives, or `d`.
pub open spec fn number_or(v: Option<Json>, d: u64) -> u64 {
    match v {
        Some(x) => match json::num_of(x) {
            Some(n) => n,
            None => d,
        },
        None => d,
    }
}

/// The number of the member `k`, or zero.
pub open spec fn number_at(v: Json, k: Seq<char>) -> u64 {
    number_or(json::field(v, k), 0)
}

/// The first of two optional values that is there.
pub open spec fn either(a: Option<Json>, b: Option<Json>) -> Option<Json> {
    if a is Some {
        a
    } else {
        b
    }
}

/// The member `k` as a percentage: its number or, where there is no such member, the share that the
/// member `part` has in the member `all`.
pub open spec fn share_at(v: Json, k: Seq<char>, part: Seq<char>, all: Seq<char>) -> u64 {
    match json::field(v, k) {
        Some(x) => number_or(Some(x), 0),
        None => if num::less(0, number_at(v, all)) {
            num::quotient(num::product(number_at(v, part), num::of_int(100)), number_at(v, all))
        } else {
            0
        },
    }
}

/// The number of the element `i`, or zero.
pub open spec fn number_in(a: Seq<Json>, i: int) -> u64 {
    number_or(
        if 0 <= i < a.len() {
            Some(a[i])
        } else {
            None
        },
        0,
    )
}

/// The three loads: the elements of the member `load` where that is an array, else three members.
pub open spec fn loads(v: Json) -> (u64, u64, u64) {
    match json::field(v, "load"@) {
        Some(Json::Arr(a)) => (number_in(a, 0), number_in(a, 1), number_in(a, 2)),
        _ => (number_at(v, "load1"@), number_at(v, "load5"@), number_at(v, "load15"@)),
    }
}

/// The members that the page shows of a report.
pub open spec fn shown_members(v: Json) -> Seq<(Seq<char>, Json)> {
    seq![
        (
            "cpu_percent"@,
            Json::Num(
                number_or(either(json::field(v, "cpu_percent"@), json::field(v, "cpu"@)), 0),
            ),
        ),
        ("cores"@, Json::Num(number_or(json::field(v, "cores"@), num::of_int(1)))),
        ("mem_used"@, Json::Num(number_at(v, "mem_used"@))),
        ("mem_total"@, Json::Num(number_at(v, "mem_total"@))),
        ("mem_percent"@, Json::Num(share_at(v, "mem_percent"@, "mem_used"@, "mem_total"@))),
        ("load1"@, Json::Num(loads(v).0)),
        ("load5"@, Json::Num(loads(v).1)),
        ("load15"@, Json::Num(loads(v).2)),
        (
            "uptime_secs"@,
            Json::Num(
                number_or(either(json::field(v, "uptime_secs"@), json::field(v, "uptime"@)), 0),
            ),
        ),
        ("net_rx_rate"@, Json::Num(number_at(v, "net_rx_rate"@))),
        ("net_tx_rate"@, Json::Num(number_at(v, "net_tx_rate"@))),
        ("disk_used"@, Json::Num(number_at(v, "disk_used"@))),
        ("disk_total"@, Json::Num(number_at(v, "disk_total"@))),
        ("disk_percent"@, Json::Num(share_at(v, "disk_percent"@, "disk_used"@, "disk_total"@))),
        ("os"@, Json::Str(json::str_at(v, "os"@, Seq::empty()))),
        ("ports"@, ports_at(v)),
    ]
}

/// What the page shows of a report.
pub open spec fn normalized(v: Json) -> Json {
    Json::Obj(json::built(shown_members(v)))
}

/// An optional value.
pub open spec fn opt_view(v: Option<&J>) -> Option<Json> {
    match v {
        Some(x) => Some(x.view()),
        None => None,
    }
}

/// Reads the number that an optional value gives, or `d`.
fn num_or(v: Option<&J>, d: Num) -> (r: Num)
    ensures
        r.bits == number_or(opt_view(v), d.bits),
{
    match v {
        Some(x) => match x.as_f64() {
            Some(n) => n,
            None => d,
        },
        None => d,
    }
}

/// Reads the number of the member `k`, or zero.
fn num_at(v: &J, k: &str) -> (r: Num)
    ensures
        r.bits == number_at(v.view(), k@),
{
    num_or(v.get(k), Num { bits: 0 })
}

/// Reads the member `a` or, where there is none, the member `b`.
fn num_either(v: &J, a: &str, b: &str) -> (r: Num)
    ensures
        r.bits == number_or(either(json::field(v.view(), a@), json::field(v.view(), b@)), 0),
{
    match v.get(a) {
        Some(x) => num_or(Some(x), Num { bits: 0 }),
        None => num_or(v.get(b), Num { bits: 0 }),
    }
}

/// Reads a percentage.
fn share(v: &J, k: &str, part: &str, all: &str) -> (r: Num)
    ensures
        r.bits == share_at(v.view(), k@, part@, all@),
{
    match v.get(k) {
        Some(x) => num_or(Some(x), Num { bits: 0 }),
        None => {
            let u = num_at(v, part);
            let t = num_at(v, all);
            let zero = Num { bits: 0 };
            if zero.is_less(t) {
                u.times(Num::of_u64(100)).over(t)
            } else {
                zero
            }
        },
    }
}

/// Reads the number of the element `i`, or zero.
fn num_in(a: &Vec<J>, i: usize) -> (r: Num)
    ensures
        r.bits == number_in(json::items(a@), i as int),
{
    if i < a.len() {
        assert(json::items(a@)[i as int] == a@[i as int].view());
        num_or(Some(&a[i]), Num { bits: 0 })
    } else {
        Num { bits: 0 }
    }
}

/// Reads the three loads.
fn read_loads(v: &J) -> (r: (Num, Num, Num))
    ensures
        (r.0.bits, r.1.bits, r.2.bits) == loads(v.view()),
{
    if let Some(x) = v.get("load") {
        if let J::Arr(a) = x {
            proof {
                json::lemma_arr_view(*a);
            }
            return (num_in(a, 0), num_in(a, 1), num_in(a, 2));
        }
    }
    (num_at(v, "load1"), num_at(v, "load5"), num_at(v, "load15"))
}

/// Reads the number of processors, or one.
fn read_cores(v: &J) -> (r: J)
    ensures
        r.view() == Json::Num(number_or(json::field(v.view(), "cores"@), num::of_int(1))),
{
    J::Num(num_or(v.get("cores"), Num::of_u64(1)))
}

/// What a report says of the probed endpoints.
pub open spec fn ports_at(v: Json) -> Json {
    match json::field(v, "ports"@) {
        Some(p) => p,
        None => Json::Null,
    }
}

/// Reads what a report says of the probed endpoints.
fn read_ports(v: &J) -> (r: J)
    ensures
        r.view() == ports_at(v.view()),
{
    match v.get("ports") {
        Some(p) => p.clone(),
        None => J::Null,
    }
}

/// Maps a report onto the names that the page expects. Takes the compact form of the agent and one
/// that was mapped before.
#[verifier::spinoff_prover]
#[verifier::rlimit(40)]
pub fn normalize_metrics(v: &J) -> (r: J)
    ensures
        r.view() == normalized(v.view()),
{
    proof {
        reveal_strlit("");
        assert(""@ =~= Seq::<char>::empty());
    }
    let (load1, load5, load15) = read_loads(v);
    let mut fields: Vec<(String, J)> = Vec::new();
    assert(json::members(fields@) =~= Seq::<(Seq<char>, Json)>::empty());
    json::append(&mut fields, "cpu_percent", J::Num(num_either(v, "cpu_percent", "cpu")));
    json::append(&mut fields, "cores", read_cores(v));
    json::append(&mut fields, "mem_used", J::Num(num_at(v, "mem_used")));
    json::append(&mut fields, "mem_total", J::Num(num_at(v, "mem_total")));
    json::append(
        &mut fields,
        "mem_percent",
        J::Num(share(v, "mem_percent", "mem_used", "mem_total")),
    );
    json::append(&mut fields, "load1", J::Num(load1));
    json::append(&mut fields, "load5", J::Num(load5));
    json::append(&mut fields, "load15", J::Num(load15));
    json::append(&mut fields, "uptime_secs", J::Num(num_either(v, "uptime_secs", "uptime")));
    json::append(&mut fields, "net_rx_rate", J::Num(num_at(v, "net_rx_rate")));
    json::append(&mut fields, "net_tx_rate", J::Num(num_at(v, "net_tx_rate")));
    json::append(&mut fields, "disk_used", J::Num(num_at(v, "disk_used")));
    json::append(&mut fields, "disk_total", J::Num(num_at(v, "disk_total")));
    json::append(
        &mut fields,
        "disk_percent",
        J::Num(share(v, "disk_percent", "disk_used", "disk_total")),
    );
    json::append(&mut fields, "os", J::Str(v.str_at("os", "")));
    json::append(&mut fields, "ports", read_ports(v));
    assert(json::members(fields@) =~= shown_members(v.view()));
    json::object(fields)
}

// ----------------------------------------------------------------------- laws

/// The names that the page expects are distinct, and `load` is none of them.
proof fn lemma_shown_names(l: Seq<(Seq<char>, Json)>)
    requires
        l.len() == 16,
        l[0].0 == "cpu_percent"@,
        l[1].0 == "cores"@,
        l[2].0 == "mem_used"@,
        l[3].0 == "mem_total"@,
        l[4].0 == "mem_percent"@,
        l[5].0 == "load1"@,
        l[6].0 == "load5"@,
        l[7].0 == "load15"@,
        l[8].0 == "uptime_secs"@,
        l[9].0 == "net_rx_rate"@,
        l[10].0 == "net_tx_rate"@,
        l[11].0 == "disk_used"@,
        l[12].0 == "disk_total"@,
        l[13].0 == "disk_percent"@,
        l[14].0 == "os"@,
        l[15].0 == "ports"@,
    ensures
        forall|i: int, j: int| 0 <= i < j < l.len() ==> (#[trigger] l[i]).0 != (#[trigger] l[j]).0,
        forall|i: int| 0 <= i < l.len() ==> (#[trigger] l[i]).0 != "load"@,
{
    reveal_strlit("cpu_percent");
    reveal_strlit("cores");
    reveal_strlit("mem_used");
    reveal_strlit("mem_total");
    reveal_strlit("mem_percent");
    reveal_strlit("load1");
    reveal_strlit("load5");
    reveal_strlit("load15");
    reveal_strlit("uptime_secs");
    reveal_strlit("net_rx_rate");
    reveal_strlit("net_tx_rate");
    reveal_strlit("disk_used");
    reveal_strlit("disk_total");
    reveal_strlit("disk_percent");
    reveal_strlit("os");
    reveal_strlit("ports");
    reveal_strlit("load");
    assert("cpu_percent"@.len() == 11);
    assert("cores"@.len() == 5);
    assert("mem_used"@.len() == 8);
    assert("mem_total"@.len() == 9);
    assert("mem_percent"@.len() == 11);
    assert("load1"@.len() == 5);
    assert("load5"@.len() == 5);
    assert("load15"@.len() == 6);
    assert("uptime_secs"@.len() == 11);
    assert("net_rx_rate"@.len() == 11);
    assert("net_tx_rate"@.len() == 11);
    assert("disk_used"@.len() == 9);
    assert("disk_total"@.len() == 10);
    assert("disk_percent"@.len() == 12);
    assert("os"@.len() == 2);
    assert("ports"@.len() == 5);
    assert("load"@.len() == 4);
    assert("cpu_percent"@[0] != "mem_percent"@[0]);
    assert("cpu_percent"@[0] != "uptime_secs"@[0]);
    assert("cpu_percent"@[0] != "net_rx_rate"@[0]);
    assert("cpu_percent"@[0] != "net_tx_rate"@[0]);
    assert("cores"@[0] != "load1"@[0]);
    assert("cores"@[0] != "load5"@[0]);
    assert("cores"@[0] != "ports"@[0]);
    assert("mem_total"@[0] != "disk_used"@[0]);
    assert("mem_percent"@[0] != "uptime_secs"@[0]);
    assert("mem_percent"@[0] != "net_rx_rate"@[0]);
    assert("mem_percent"@[0] != "net_tx_rate"@[0]);
    assert("load1"@[4] != "load5"@[4]);
    assert("load1"@[0] != "ports"@[0]);
    assert("load5"@[0] != "ports"@[0]);
    assert("uptime_secs"@[0] != "net_rx_rate"@[0]);
    assert("uptime_secs"@[0] != "net_tx_rate"@[0]);
    assert("net_rx_rate"@[4] != "net_tx_rate"@[4]);
}

/// Each member that the page shows is found under its name.
proof fn lemma_shown_fields(v: Json)
    ensures
        forall|i: int|
            0 <= i < shown_members(v).len() ==> json::field(
                normalized(v),
                (#[trigger] shown_members(v)[i]).0,
            ) == Some(shown_members(v)[i].1),
        json::field(normalized(v), "load"@) is None,
{
    let l = shown_members(v);
    lemma_shown_names(l);
    assert forall|i: int| 0 <= i < l.len() implies json::field(normalized(v), (#[trigger] l[i]).0)
        == Some(l[i].1) by {
        assert forall|j: int| i < j < l.len() implies (#[trigger] l[j]).0 != l[i].0 by {}
        json::lemma_built_field(l, i);
    }
    json::lemma_built_no_field(l, "load"@);
}

/// A report that was mapped before stays as it is.
pub proof fn law_normalized_again(v: Json)
    ensures
        normalized(normalized(v)) == normalized(v),
{
    let n = normalized(v);
    let l = shown_members(v);
    let m = shown_members(n);
    lemma_shown_fields(v);
    assert(json::field(n, l[0].0) == Some(l[0].1));
    assert(json::field(n, l[1].0) == Some(l[1].1));
    assert(json::field(n, l[2].0) == Some(l[2].1));
    assert(json::field(n, l[3].0) == Some(l[3].1));
    assert(json::field(n, l[4].0) == Some(l[4].1));
    assert(json::field(n, l[5].0) == Some(l[5].1));
    assert(json::field(n, l[6].0) == Some(l[6].1));
    assert(json::field(n, l[7].0) == Some(l[7].1));
    assert(json::field(n, l[8].0) == Some(l[8].1));
    assert(json::field(n, l[9].0) == Some(l[9].1));
    assert(json::field(n, l[10].0) == Some(l[10].1));
    assert(json::field(n, l[11].0) == Some(l[11].1));
    assert(json::field(n, l[12].0) == Some(l[12].1));
    assert(json::field(n, l[13].0) == Some(l[13].1));
    assert(json::field(n, l[14].0) == Some(l[14].1));
    assert(json::field(n, l[15].0) == Some(l[15].1));
    assert(m =~= l);
}

/// The names in a report are distinct, and none is one that the page expects in place of another.
pub proof fn lemma_report_names(l: Seq<(Seq<char>, Json)>)
    requires
        l.len() == 18,
        l[0].0 == "name"@,
        l[1].0 == "ts"@,
        l[2].0 == "cpu"@,
        l[3].0 == "cores"@,
        l[4].0 == "mem_used"@,
        l[5].0 == "mem_total"@,
        l[6].0 == "mem_percent"@,
        l[7].0 == "swap_used"@,
        l[8].0 == "swap_total"@,
        l[9].0 == "load"@,
        l[10].0 == "uptime"@,
        l[11].0 == "net_rx_rate"@,
        l[12].0 == "net_tx_rate"@,
        l[13].0 == "disk_used"@,
        l[14].0 == "disk_total"@,
        l[15].0 == "disk_percent"@,
        l[16].0 == "os"@,
        l[17].0 == "ports"@,
    ensures
        forall|i: int, j: int| 0 <= i < j < l.len() ==> (#[trigger] l[i]).0 != (#[trigger] l[j]).0,
        forall|i: int| 0 <= i < l.len() ==> (#[trigger] l[i]).0 != "cpu_percent"@,
        forall|i: int| 0 <= i < l.len() ==> (#[trigger] l[i]).0 != "uptime_secs"@,
{
    reveal_strlit("name");
    reveal_strlit("ts");
    reveal_strlit("cpu");
    reveal_strlit("cores");
    reveal_strlit("mem_used");
    reveal_strlit("mem_total");
    reveal_strlit("mem_percent");
    reveal_strlit("swap_used");
    reveal_strlit("swap_total");
    reveal_strlit("load");
    reveal_strlit("uptime");
    reveal_strlit("net_rx_rate");
    reveal_strlit("net_tx_rate");
    reveal_strlit("disk_used");
    reveal_strlit("disk_total");
    reveal_strlit("disk_percent");
    reveal_strlit("os");
    reveal_strlit("ports");
    reveal_strlit("cpu_percent");
    reveal_strlit("uptime_secs");
    assert("name"@.len() == 4);
    assert("ts"@.len() == 2);
    assert("cpu"@.len() == 3);
    assert("cores"@.len() == 5);
    assert("mem_used"@.len() == 8);
    assert("mem_total"@.len() == 9);
    assert("mem_percent"@.len() == 11);
    assert("swap_used"@.len() == 9);
    assert("swap_total"@.len() == 10);
    assert("load"@.len() == 4);
    assert("uptime"@.len() == 6);
    assert("net_rx_rate"@.len() == 11);
    assert("net_tx_rate"@.len() == 11);
    assert("disk_used"@.len() == 9);
    assert("disk_total"@.len() == 10);
    assert("disk_percent"@.len() == 12);
    assert("os"@.len() == 2);
    assert("ports"@.len() == 5);
    assert("cpu_percent"@.len() == 11);
    assert("uptime_secs"@.len() == 11);
    assert("name"@[0] != "load"@[0]);
    assert("ts"@[0] != "os"@[0]);
    assert("cores"@[0] != "ports"@[0]);
    assert("mem_total"@[0] != "swap_used"@[0]);
    assert("mem_total"@[0] != "disk_used"@[0]);
    assert("mem_percent"@[0] != "net_rx_rate"@[0]);
    assert("mem_percent"@[0] != "net_tx_rate"@[0]);
    assert("mem_percent"@[0] != "cpu_percent"@[0]);
    assert("mem_percent"@[0] != "uptime_secs"@[0]);
    assert("swap_used"@[0] != "disk_used"@[0]);
    assert("swap_total"@[0] != "disk_total"@[0]);
    assert("net_rx_rate"@[4] != "net_tx_rate"@[4]);
    assert("net_rx_rate"@[0] != "cpu_percent"@[0]);
    assert("net_rx_rate"@[0] != "uptime_secs"@[0]);
    assert("net_tx_rate"@[0] != "cpu_percent"@[0]);
    assert("net_tx_rate"@[0] != "uptime_secs"@[0]);
    assert("cpu_percent"@[0] != "uptime_secs"@[0]);
}

/// The figures of a machine under the names that the page expects.
pub open spec fn figures(m: Metrics) -> Seq<(Seq<char>, Json)> {
    seq![
        ("cpu_percent"@, Json::Num(m.cpu_percent.bits)),
        ("cores"@, agent::whole(m.cores as int)),
        ("mem_used"@, agent::whole(m.mem_used as int)),
        ("mem_total"@, agent::whole(m.mem_total as int)),
        (
            "mem_percent"@,
            Json::Num(metrics::percent(m.mem_used as nat, m.mem_total as nat)),
        ),
        ("load1"@, Json::Num(m.load1.bits)),
        ("load5"@, Json::Num(m.load5.bits)),
        ("load15"@, Json::Num(m.load15.bits)),
        ("uptime_secs"@, agent::whole(m.uptime_secs as int)),
        ("net_rx_rate"@, Json::Num(m.net_rx_rate.bits)),
        ("net_tx_rate"@, Json::Num(m.net_tx_rate.bits)),
        ("disk_used"@, agent::whole(m.disk_used as int)),
        ("disk_total"@, agent::whole(m.disk_total as int)),
        (
            "disk_percent"@,
            Json::Num(metrics::percent(m.disk_used as nat, m.disk_total as nat)),
        ),
        ("os"@, Json::Str(m.os@)),
        ("ports"@, Json::Obj(json::built(agent::port_members(m.ports@)))),
    ]
}

/// What an agent reports is what the page shows: each figure under the name that the page expects.
pub proof fn law_report_is_shown(name: Seq<char>, ts: nat, m: Metrics)
    ensures
        normalized(agent::report_json(name, ts, m)) == Json::Obj(json::built(figures(m))),
{
    let v = agent::report_json(name, ts, m);
    let l = agent::report_members(name, ts, m);
    lemma_report_names(l);
    assert forall|i: int| 0 <= i < l.len() implies json::field(v, (#[trigger] l[i]).0) == Some(
        l[i].1,
    ) by {
        assert forall|j: int| i < j < l.len() implies (#[trigger] l[j]).0 != l[i].0 by {}
        json::lemma_built_field(l, i);
    }
    json::lemma_built_no_field(l, "cpu_percent"@);
    json::lemma_built_no_field(l, "uptime_secs"@);
    assert(json::field(v, l[0].0) == Some(l[0].1));
    assert(json::field(v, l[1].0) == Some(l[1].1));
    assert(json::field(v, l[2].0) == Some(l[2].1));
    assert(json::field(v, l[3].0) == Some(l[3].1));
    assert(json::field(v, l[4].0) == Some(l[4].1));
    assert(json::field(v, l[5].0) == Some(l[5].1));
    assert(json::field(v, l[6].0) == Some(l[6].1));
    assert(json::field(v, l[7].0) == Some(l[7].1));
    assert(json::field(v, l[8].0) == Some(l[8].1));
    assert(json::field(v, l[9].0) == Some(l[9].1));
    assert(json::field(v, l[10].0) == Some(l[10].1));
    assert(json::field(v, l[11].0) == Some(l[11].1));
    assert(json::field(v, l[12].0) == Some(l[12].1));
    assert(json::field(v, l[13].0) == Some(l[13].1));
    assert(json::field(v, l[14].0) == Some(l[14].1));
    assert(json::field(v, l[15].0) == Some(l[15].1));
    assert(json::field(v, l[16].0) == Some(l[16].1));
    assert(json::field(v, l[17].0) == Some(l[17].1));
    let shown = shown_members(v);
    let e = figures(m);
    assert(shown[0].1 == l[2].1);
    assert(shown[1].1 == l[3].1);
    assert(shown[2].1 == l[4].1);
    assert(shown[3].1 == l[5].1);
    assert(shown[4].1 == l[6].1);
    assert(shown[8].1 == l[10].1);
    assert(shown[9].1 == l[11].1);
    assert(shown[10].1 == l[12].1);
    assert(shown[11].1 == l[13].1);
    assert(shown[12].1 == l[14].1);
    assert(shown[13].1 == l[15].1);
    assert(shown[14].1 == l[16].1);
    assert(shown[15].1 == l[17].1);
    assert(loads(v) == (m.load1.bits, m.load5.bits, m.load15.bits));
    assert(shown =~= e);
}

/// A report carries the name under which it was made.
pub proof fn lemma_report_name(name: Seq<char>, ts: nat, m: Metrics)
    ensures
        json::field(agent::report_json(name, ts, m), "name"@) == Some(Json::Str(name)),
{
    let l = agent::report_members(name, ts, m);
    lemma_report_names(l);
    assert forall|j: int| 0 < j < l.len() implies (#[trigger] l[j]).0 != l[0].0 by {}
    json::lemma_built_field(l, 0);
}

/// The number of a figure that a report gives as a number.
pub open spec fn given(v: Json, k: Seq<char>, x: u64) -> bool {
    json::field(v, k) == Some(Json::Num(x))
}

/// What the page shows of any report: each figure under its name, or under the short one where the
/// report has only that; one core where it says nothing; and zero for the other numbers.
pub proof fn law_figures(v: Json, x: u64, k: Seq<char>)
    ensures
        ({
            let n = normalized(v);
            &&& given(v, "cpu_percent"@, x) ==> given(n, "cpu_percent"@, x)
            &&& json::field(v, "cpu_percent"@) is None && given(v, "cpu"@, x) ==> given(
                n,
                "cpu_percent"@,
                x,
            )
            &&& given(v, "uptime_secs"@, x) ==> given(n, "uptime_secs"@, x)
            &&& json::field(v, "uptime_secs"@) is None && given(v, "uptime"@, x) ==> given(
                n,
                "uptime_secs"@,
                x,
            )
            &&& given(v, "cores"@, x) ==> given(n, "cores"@, x)
            &&& json::field(v, "cores"@) is None ==> given(n, "cores"@, num::of_int(1))
            &&& k == "mem_used"@ || k == "mem_total"@ || k == "net_rx_rate"@ || k == "net_tx_rate"@
                || k == "disk_used"@ || k == "disk_total"@ || k == "mem_percent"@ || k
                == "disk_percent"@ ==> (given(v, k, x) ==> given(n, k, x))
            &&& k == "mem_used"@ || k == "mem_total"@ || k == "net_rx_rate"@ || k == "net_tx_rate"@
                || k == "disk_used"@ || k == "disk_total"@ ==> (json::field(v, k) is None ==> given(
                n,
                k,
                0,
            ))
            &&& json::field(v, "os"@) matches Some(Json::Str(s)) ==> json::field(n, "os"@) == Some(
                Json::Str(s),
            )
            &&& json::field(v, "ports"@) matches Some(p) ==> json::field(n, "ports"@) == Some(p)
        }),
{
    lemma_shown_found(v);
}

proof fn lemma_shown_found(v: Json)
    ensures
        ({
            let l = shown_members(v);
            let n = normalized(v);
            &&& json::field(n, "cpu_percent"@) == Some(l[0].1)
            &&& json::field(n, "cores"@) == Some(l[1].1)
            &&& json::field(n, "mem_used"@) == Some(l[2].1)
            &&& json::field(n, "mem_total"@) == Some(l[3].1)
            &&& json::field(n, "mem_percent"@) == Some(l[4].1)
            &&& json::field(n, "load1"@) == Some(l[5].1)
            &&& json::field(n, "load5"@) == Some(l[6].1)
            &&& json::field(n, "load15"@) == Some(l[7].1)
            &&& json::field(n, "uptime_secs"@) == Some(l[8].1)
            &&& json::field(n, "net_rx_rate"@) == Some(l[9].1)
            &&& json::field(n, "net_tx_rate"@) == Some(l[10].1)
            &&& json::field(n, "disk_used"@) == Some(l[11].1)
            &&& json::field(n, "disk_total"@) == Some(l[12].1)
            &&& json::field(n, "disk_percent"@) == Some(l[13].1)
            &&& json::field(n, "os"@) == Some(l[14].1)
            &&& json::field(n, "ports"@) == Some(l[15].1)
        }),
{
    let l = shown_members(v);
    lemma_shown_fields(v);
    let n = normalized(v);
    assert(json::field(n, l[0].0) == Some(l[0].1));
    assert(json::field(n, l[1].0) == Some(l[1].1));
    assert(json::field(n, l[2].0) == Some(l[2].1));
    assert(json::field(n, l[3].0) == Some(l[3].1));
    assert(json::field(n, l[4].0) == Some(l[4].1));
    assert(json::field(n, l[5].0) == Some(l[5].1));
    assert(json::field(n, l[6].0) == Some(l[6].1));
    assert(json::field(n, l[7].0) == Some(l[7].1));
    assert(json::field(n, l[8].0) == Some(l[8].1));
    assert(json::field(n, l[9].0) == Some(l[9].1));
    assert(json::field(n, l[10].0) == Some(l[10].1));
    assert(json::field(n, l[11].0) == Some(l[11].1));
    assert(json::field(n, l[12].0) == Some(l[12].1));
    assert(json::field(n, l[13].0) == Some(l[13].1));
    assert(json::field(n, l[14].0) == Some(l[14].1));
    assert(json::field(n, l[15].0) == Some(l[15].1));
}

/// The loads are shown one by one, from an array or from three members.
pub proof fn law_loads(v: Json, a: Seq<Json>, x: u64, y: u64, z: u64)
    requires
        json::field(v, "load"@) == Some(Json::Arr(a)) && a.len() >= 3 && a[0] == Json::Num(x)
            && a[1] == Json::Num(y) && a[2] == Json::Num(z) || (json::field(v, "load"@) is None
            && given(v, "load1"@, x) && given(v, "load5"@, y) && given(v, "load15"@, z)),
    ensures
        given(normalized(v), "load1"@, x),
        given(normalized(v), "load5"@, y),
        given(normalized(v), "load15"@, z),
{
    lemma_shown_found(v);
}

/// A share that a report does not give is worked out from the part and the whole: it is the double
/// nearest to a hundred times the part over the whole, or zero where there is no whole.
pub proof fn law_shares(v: Json, part: nat, all: nat)
    requires
        part * 100 <= 0x20_0000_0000_0000,
        all <= 0x20_0000_0000_0000,
    ensures
        ({
            let n = normalized(v);
            let x = if all == 0 {
                0
            } else {
                num::pattern(false, num::nearest(part * 100, all))
            };
            &&& json::field(v, "mem_percent"@) is None && given(
                v,
                "mem_used"@,
                num::of_int(part as int),
            ) && given(v, "mem_total"@, num::of_int(all as int)) ==> given(n, "mem_percent"@, x)
            &&& json::field(v, "disk_percent"@) is None && given(
                v,
                "disk_used"@,
                num::of_int(part as int),
            ) && given(v, "disk_total"@, num::of_int(all as int)) ==> given(n, "disk_percent"@, x)
        }),
{
    lemma_shown_found(v);
    num::law_small_whole_numbers_are_exact(0);
    num_laws::law_whole_arithmetic(0, all);
    if all > 0 {
        num_laws::law_whole_arithmetic(part, 100);
        num_laws::law_whole_quotient(part * 100, all);
    }
}

} // verus!
