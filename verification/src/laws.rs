//! What holds of the dashboard as a whole.

use vstd::prelude::*;
use crate::agent;
use crate::config;
use crate::json;
use crate::json::Json;
use crate::metrics;
use crate::metrics::Metrics;
use crate::normalize;
use crate::num;
use crate::reader;
use crate::roundtrip;
use crate::serve;
use crate::text;

verus! {

// ----------------------------------------------------------------------- keys

/// Whether a request would change what the dashboard knows.
pub open spec fn changes(r: serve::RequestView) -> bool {
    ||| r.method == "POST"@ && (r.path == "/api/report"@ || r.path == "/api/hosts"@)
    ||| r.method == "DELETE"@ && text::begins(r.path, serve::HOSTS@)
}

pub proof fn lemma_methods()
    ensures
        "GET"@ != "POST"@,
        "GET"@ != "DELETE"@,
        "POST"@ != "DELETE"@,
        "/api/report"@ != "/api/hosts"@,
{
    reveal_strlit("GET");
    reveal_strlit("POST");
    reveal_strlit("DELETE");
    reveal_strlit("/api/report");
    reveal_strlit("/api/hosts");
    assert("GET"@.len() == 3 && "POST"@.len() == 4 && "DELETE"@.len() == 6);
    assert("/api/report"@.len() == 11 && "/api/hosts"@.len() == 10);
}

/// A request that would change something is answered with 403, and changes nothing, unless it has
/// the key.
pub proof fn law_wrong_key_is_refused(
    st: serve::StateView,
    page: Seq<char>,
    r: serve::RequestView,
    t: nat,
)
    requires
        changes(r),
        r.key != st.base.key,
    ensures
        serve::handled(st, page, r, t) == (st, serve::ActionView::Reply(serve::bad_key())),
        serve::bad_key().status == 403,
{
    lemma_methods();
}

/// Only a request with the key changes anything, and then it is a report, a form for a host or the
/// removal of one.
pub proof fn law_only_the_key_changes_anything(
    st: serve::StateView,
    page: Seq<char>,
    r: serve::RequestView,
    t: nat,
)
    ensures
        serve::handled(st, page, r, t).0 != st ==> r.key == st.base.key && changes(r),
        serve::handled(st, page, r, t).1 is Save ==> r.key == st.base.key && changes(r),
{
    lemma_methods();
}

/// No request changes the settings or the path of the configuration file, and one that changes the
/// list of hosts has the file written.
pub proof fn law_settings_stay(
    st: serve::StateView,
    page: Seq<char>,
    r: serve::RequestView,
    t: nat,
)
    ensures
        serve::handled(st, page, r, t).0.base == st.base,
        serve::handled(st, page, r, t).0.cfg_path == st.cfg_path,
        serve::handled(st, page, r, t).0.vps != st.vps ==> serve::handled(
            st,
            page,
            r,
            t,
        ).1 is Save,
{
    lemma_methods();
}

// ---------------------------------------------------------------------- hosts

/// Whether no two hosts have the same name.
pub open spec fn names_differ(v: Seq<config::VpsView>) -> bool {
    forall|i: int, j: int|
        0 <= i < j < v.len() ==> (#[trigger] v[i]).name != (#[trigger] v[j]).name
}

proof fn lemma_host_slot(v: Seq<config::VpsView>, name: Seq<char>, i: int)
    requires
        0 <= i <= v.len(),
    ensures
        i <= serve::host_slot(v, name, i) <= v.len(),
        forall|j: int| i <= j < serve::host_slot(v, name, i) ==> (#[trigger] v[j]).name != name,
        serve::host_slot(v, name, i) < v.len() ==> v[serve::host_slot(v, name, i)].name == name,
    decreases v.len() - i,
{
    if i < v.len() && v[i].name != name {
        lemma_host_slot(v, name, i + 1);
    }
}

/// After a host was put in, it is the first of its name; every other host stands where it stood,
/// and names that differed still differ.
pub proof fn law_upsert(v: Seq<config::VpsView>, h: config::VpsView)
    ensures
        ({
            let w = serve::upserted(v, h);
            let i = serve::host_slot(w, h.name, 0);
            &&& 0 <= i < w.len() && w[i] == h
            &&& v.len() <= w.len() <= v.len() + 1
            &&& forall|j: int| 0 <= j < v.len() && j != i ==> #[trigger] w[j] == v[j]
            &&& names_differ(v) ==> names_differ(w)
        }),
{
    let w = serve::upserted(v, h);
    let p = serve::host_slot(v, h.name, 0);
    lemma_host_slot(v, h.name, 0);
    lemma_host_slot(w, h.name, 0);
    let i = serve::host_slot(w, h.name, 0);
    assert(w[p] == h);
    if i < p {
        assert(w[i] == v[i]);
    }
    assert(i == p);
    if names_differ(v) {
        assert forall|a: int, b: int| 0 <= a < b < w.len() implies (#[trigger] w[a]).name != (
        #[trigger] w[b]).name by {
            if a != p && b != p {
                assert(w[a] == v[a] && w[b] == v[b]);
            } else if a == p {
                assert(w[b] == v[b]);
                assert(v[a].name != v[b].name);
            } else {
                assert(w[a] == v[a]);
            }
        }
    }
}

/// After the hosts of a name were removed, none of that name is left; the others are all there, and
/// in the same order. Names that differed still differ.
pub proof fn law_remove(v: Seq<config::VpsView>, name: Seq<char>)
    ensures
        ({
            let w = serve::hosts_without(v, name);
            &&& w == v.filter(|h: config::VpsView| h.name != name)
            &&& forall|i: int| 0 <= i < w.len() ==> (#[trigger] w[i]).name != name
            &&& forall|i: int| 0 <= i < w.len() ==> v.contains(#[trigger] w[i])
            &&& forall|i: int|
                0 <= i < v.len() && v[i].name != name ==> w.contains(#[trigger] v[i])
            &&& names_differ(v) ==> names_differ(w)
            &&& w.len() <= v.len()
        }),
    decreases v.len(),
{
    reveal(Seq::filter);
    let p = |h: config::VpsView| h.name != name;
    let w = serve::hosts_without(v, name);
    if v.len() > 0 {
        let u = v.drop_last();
        let l = v.last();
        law_remove(u, name);
        let x = serve::hosts_without(u, name);
        assert(v[v.len() - 1] == l);
        assert forall|i: int| 0 <= i < w.len() implies v.contains(#[trigger] w[i]) by {
            if i < x.len() {
                assert(w[i] == x[i]);
                let j = choose|j: int| 0 <= j < u.len() && u[j] == x[i];
                assert(v[j] == w[i]);
            }
        }
        assert forall|i: int| 0 <= i < v.len() && v[i].name != name implies w.contains(
            #[trigger] v[i],
        ) by {
            if i < u.len() {
                assert(u[i] == v[i]);
                let j = choose|j: int| 0 <= j < x.len() && x[j] == u[i];
                assert(w[j] == v[i]);
            } else {
                assert(w[w.len() - 1] == l);
            }
        }
        if names_differ(v) {
            assert forall|a: int, b: int| 0 <= a < b < u.len() implies (#[trigger] u[a]).name != (
            #[trigger] u[b]).name by {
                assert(v[a].name != v[b].name);
            }
            assert forall|a: int, b: int| 0 <= a < b < w.len() implies (#[trigger] w[a]).name != (
            #[trigger] w[b]).name by {
                assert(w[a] == x[a]);
                if b < x.len() {
                    assert(w[b] == x[b]);
                } else {
                    let j = choose|j: int| 0 <= j < u.len() && u[j] == x[a];
                    assert(v[j].name != v[v.len() - 1].name);
                }
            }
        }
    }
}

/// A host is removed where there is one of the name.
pub proof fn lemma_removed(v: Seq<config::VpsView>, name: Seq<char>)
    ensures
        serve::hosts_without(v, name).len() <= v.len(),
        serve::hosts_without(v, name).len() != v.len() <==> exists|i: int|
            0 <= i < v.len() && (#[trigger] v[i]).name == name,
    decreases v.len(),
{
    if v.len() > 0 {
        let u = v.drop_last();
        lemma_removed(u, name);
        if exists|i: int| 0 <= i < u.len() && (#[trigger] u[i]).name == name {
            let i = choose|i: int| 0 <= i < u.len() && (#[trigger] u[i]).name == name;
            assert(v[i].name == name);
        }
        if v.last().name == name {
            assert(v[v.len() - 1].name == name);
        }
        if exists|i: int| 0 <= i < v.len() && (#[trigger] v[i]).name == name {
            let i = choose|i: int| 0 <= i < v.len() && (#[trigger] v[i]).name == name;
            if i < u.len() {
                assert(u[i].name == name);
            }
        }
    }
}

/// What the dashboard lists of a host can be sent back to it as a form: the host stays what it is,
/// but for a quota below zero and an access without an address.
pub proof fn law_listed_host_can_be_sent_back(h: config::VpsView)
    requires
        h.quota <= config::exact_up_to(),
        h.name.len() > 0,
        text::trimmed(h.name) == h.name,
    ensures
        reader::meaning(json::render(config::host_json(h), None)) == Ok::<Json, Seq<char>>(
            config::host_json(h),
        ),
        serve::form_host(config::host_json(h)) == Ok::<config::VpsView, Seq<char>>(
            config::kept_host(h),
        ),
{
    config::law_host_json_reads_back(h);
    let v = config::host_json(h);
    roundtrip::law_written_reads_back(v, None, Seq::empty());
    assert(json::render(v, None) + Seq::<char>::empty() =~= json::render(v, None));
}

/// The configuration file that a change of the hosts writes holds, when it is read again, the
/// settings and the hosts as they are after the change.
pub proof fn law_saved_file_loads_back(
    st: serve::StateView,
    page: Seq<char>,
    r: serve::RequestView,
    t: nat,
)
    requires
        config::small_numbers(
            config::ConfigView { vps: serve::handled(st, page, r, t).0.vps, ..st.base },
        ),
    ensures
        ({
            let (after, a) = serve::handled(st, page, r, t);
            a matches serve::ActionView::Save { path, text, removed } ==> path == st.cfg_path
                && config::loaded(text) == Ok::<config::ConfigView, Seq<char>>(
                config::kept(config::ConfigView { vps: after.vps, ..st.base }),
            )
        }),
{
    lemma_methods();
    let (after, a) = serve::handled(st, page, r, t);
    config::law_dump_loads_back(config::ConfigView { vps: after.vps, ..st.base });
}

// -------------------------------------------------------------------- reports

/// Whether the doubles of a machine's state can be written as they are: they are finite, and none
/// is a negative zero.
pub open spec fn writable(m: Metrics) -> bool {
    &&& written(m.cpu_percent.bits)
    &&& written(m.load1.bits)
    &&& written(m.load5.bits)
    &&& written(m.load15.bits)
    &&& written(m.net_rx_rate.bits)
    &&& written(m.net_tx_rate.bits)
}

/// Whether a double can be written as it is.
pub open spec fn written(b: u64) -> bool {
    num::is_finite(b) && b != num::SIGN
}

pub proof fn lemma_number_faithful(b: u64)
    requires
        written(b),
    ensures
        roundtrip::faithful(Json::Num(b)),
{
}

pub proof fn lemma_whole_faithful(n: int)
    requires
        0 <= n <= u64::MAX,
    ensures
        roundtrip::faithful(agent::whole(n)),
{
    num::lemma_of_int_finite(n);
}

pub proof fn lemma_percent_faithful(part: nat, whole: nat)
    requires
        part <= u64::MAX,
        whole <= u64::MAX,
    ensures
        roundtrip::faithful(Json::Num(metrics::percent(part, whole))),
{
    metrics::lemma_percent_finite(part, whole);
}

/// What an agent sends is read as it was sent.
pub proof fn law_report_arrives(name: Seq<char>, ts: nat, m: Metrics)
    requires
        writable(m),
        ts <= u64::MAX,
    ensures
        reader::meaning(json::render(agent::report_json(name, ts, m), None)) == Ok::<
            Json,
            Seq<char>,
        >(agent::report_json(name, ts, m)),
        json::str_at(agent::report_json(name, ts, m), "name"@, "unknown"@) == name,
{
    let v = agent::report_json(name, ts, m);
    let l = agent::report_members(name, ts, m);
    lemma_whole_faithful(ts as int);
    lemma_whole_faithful(m.cores as int);
    lemma_whole_faithful(m.mem_used as int);
    lemma_whole_faithful(m.mem_total as int);
    lemma_whole_faithful(m.swap_used as int);
    lemma_whole_faithful(m.swap_total as int);
    lemma_whole_faithful(m.uptime_secs as int);
    lemma_whole_faithful(m.disk_used as int);
    lemma_whole_faithful(m.disk_total as int);
    lemma_percent_faithful(m.mem_used as nat, m.mem_total as nat);
    lemma_percent_faithful(m.disk_used as nat, m.disk_total as nat);
    lemma_number_faithful(m.cpu_percent.bits);
    lemma_number_faithful(m.load1.bits);
    lemma_number_faithful(m.load5.bits);
    lemma_number_faithful(m.load15.bits);
    lemma_number_faithful(m.net_rx_rate.bits);
    lemma_number_faithful(m.net_tx_rate.bits);
    roundtrip::lemma_array_faithful(
        seq![Json::Num(m.load1.bits), Json::Num(m.load5.bits), Json::Num(m.load15.bits)],
    );
    let ports = agent::port_members(m.ports@);
    assert forall|i: int| 0 <= i < ports.len() implies roundtrip::faithful(
        (#[trigger] ports[i]).1,
    ) by {}
    roundtrip::lemma_object_faithful(ports);
    assert forall|i: int| 0 <= i < l.len() implies roundtrip::faithful((#[trigger] l[i]).1) by {}
    roundtrip::lemma_object_faithful(l);
    roundtrip::law_written_reads_back(v, None, Seq::empty());
    assert(json::render(v, None) + Seq::<char>::empty() =~= json::render(v, None));
    normalize::lemma_report_name(name, ts, m);
}

/// Once a host has reported, the page shows it as online, with the figures of the report, for as
/// many seconds as the settings say; after that as offline, with the same figures.
pub proof fn law_report_reaches_the_page(
    st: serve::StateView,
    page: Seq<char>,
    r: serve::RequestView,
    t: nat,
    name: Seq<char>,
    ts: nat,
    m: Metrics,
    later: nat,
)
    requires
        writable(m),
        ts <= u64::MAX,
        r.method == "POST"@,
        r.path == "/api/report"@,
        r.key == st.base.key,
        r.body == json::render(agent::report_json(name, ts, m), None),
    ensures
        ({
            let (after, a) = serve::handled(st, page, r, t);
            &&& a == serve::ActionView::Reply(serve::fine())
            &&& after == serve::StateView {
                nodes: st.nodes.insert(name, (t, agent::report_json(name, ts, m))),
                ..st
            }
            &&& serve::online(after, name, later) <==> later <= t + st.base.offline_after
            &&& serve::metrics_json(after, name) == Json::Obj(
                json::built(normalize::figures(m)),
            )
        }),
{
    lemma_methods();
    law_report_arrives(name, ts, m);
    normalize::law_report_is_shown(name, ts, m);
}

/// A host that never reported is offline and shows no figures.
pub proof fn law_silent_host_is_offline(
    c: config::ConfigView,
    path: Seq<char>,
    name: Seq<char>,
    t: nat,
)
    ensures
        !serve::online(serve::fresh(c, path), name, t),
        serve::metrics_json(serve::fresh(c, path), name) is Null,
{
}

} // verus!
