//! What holds of the dashboard's page and answers, member by member.

use vstd::prelude::*;
use crate::agent;
use crate::config;
use crate::form_laws;
use crate::gui;
use crate::json;
use crate::json::Json;
use crate::laws;
use crate::normalize;
use crate::panel;
use crate::reader;
use crate::serve;
use crate::serve::{ActionView, RequestView, StateView};
use crate::text_laws;

verus! {

// -------------------------------------------------------------------- members

/// A member of an object, or null where it has none of that name.
pub open spec fn at(v: Json, k: Seq<char>) -> Json {
    match json::field(v, k) {
        Some(x) => x,
        None => Json::Null,
    }
}

/// What the page shows as quota: the sum of the quotas that the panel reports where that is above
/// zero, whatever the host's own quota is; else the host's own where that is above zero. What it
/// shows as used is what all the nodes have sent and received.
pub proof fn law_quota_shown(t: panel::TrafficView, own: int)
    ensures
        ({
            let v = serve::traffic_json(t, own);
            let reported = panel::sum(panel::quotas(t.nodes));
            &&& reported > 0 ==> at(v, "quota"@) == agent::whole(reported)
            &&& reported <= 0 && own > 0 ==> at(v, "quota"@) == agent::whole(own)
            &&& reported <= 0 && own <= 0 ==> at(v, "quota"@) == agent::whole(reported)
            &&& at(v, "used"@) == agent::whole(
                panel::sum(panel::ups(t.nodes)) + panel::sum(panel::downs(t.nodes)),
            )
            &&& at(v, "nodes"@) matches Json::Arr(a) && a.len() == t.nodes.len()
        }),
        forall|i: int|
            0 <= i < t.nodes.len() ==> (#[trigger] json::items_of(
                at(serve::traffic_json(t, own), "nodes"@),
            )[i]) == serve::node_json(t.nodes[i]),
{
    reveal_strlit("used");
    reveal_strlit("quota");
    reveal_strlit("nodes");
    assert("used"@.len() == 4 && "quota"@.len() == 5 && "nodes"@.len() == 5);
    assert("quota"@[0] != "nodes"@[0]);
    let l = seq![
        ("used"@, agent::whole(panel::sum(panel::uses(t.nodes)))),
        ("quota"@, agent::whole(serve::quota_of(t, own))),
        ("nodes"@, Json::Arr(t.nodes.map_values(|n: panel::NodeView| serve::node_json(n)))),
    ];
    json::lemma_built_field(l, 0);
    json::lemma_built_field(l, 1);
    json::lemma_built_field(l, 2);
    panel::law_used_is_up_and_down(t.nodes);
}

/// What the page shows of a node: its numbers under their names, and a quota below zero as none.
pub proof fn law_node_shown(n: panel::NodeView)
    ensures
        ({
            let v = serve::node_json(n);
            &&& at(v, "node"@) == Json::Str(n.node)
            &&& at(v, "port"@) == agent::whole(n.port)
            &&& at(v, "client"@) == Json::Str(n.client)
            &&& at(v, "up"@) == agent::whole(n.up)
            &&& at(v, "down"@) == agent::whole(n.down)
            &&& n.total >= 0 ==> at(v, "total"@) == agent::whole(n.total)
            &&& n.total < 0 ==> at(v, "total"@) == agent::whole(0)
        }),
{
    reveal_strlit("node");
    reveal_strlit("port");
    reveal_strlit("client");
    reveal_strlit("up");
    reveal_strlit("down");
    reveal_strlit("total");
    assert("node"@.len() == 4 && "port"@.len() == 4 && "down"@.len() == 4);
    assert("client"@.len() == 6 && "up"@.len() == 2 && "total"@.len() == 5);
    assert("node"@[0] != "port"@[0] && "node"@[0] != "down"@[0] && "port"@[0] != "down"@[0]);
    let l = seq![
        ("node"@, Json::Str(n.node)),
        ("port"@, agent::whole(n.port)),
        ("client"@, Json::Str(n.client)),
        ("up"@, agent::whole(n.up)),
        ("down"@, agent::whole(n.down)),
        (
            "total"@,
            agent::whole(
                if n.total > 0 {
                    n.total
                } else {
                    0
                },
            ),
        ),
    ];
    json::lemma_built_field(l, 0);
    json::lemma_built_field(l, 1);
    json::lemma_built_field(l, 2);
    json::lemma_built_field(l, 3);
    json::lemma_built_field(l, 4);
    json::lemma_built_field(l, 5);
}

/// What the page shows of a host: its name and address; that it is online from its last report on
/// for as many seconds as the settings say; the figures of that report; and the traffic or the
/// error that was last heard from its panel, that nothing was heard from a panel yet, or neither
/// where it has none.
pub proof fn law_card_shown(st: StateView, h: config::VpsView, t: nat)
    ensures
        ({
            let v = serve::card_json(st, h, t);
            let heard = st.traffic.contains_key(h.name);
            &&& at(v, "name"@) == Json::Str(h.name)
            &&& at(v, "manage_url"@) == Json::Str(h.manage_url)
            &&& !st.nodes.contains_key(h.name) ==> at(v, "online"@) == Json::Bool(false) && at(
                v,
                "metrics"@,
            ) is Null
            &&& st.nodes.contains_key(h.name) ==> at(v, "online"@) == Json::Bool(
                t - st.nodes[h.name].0 <= st.base.offline_after,
            ) && at(v, "metrics"@) == normalize::normalized(st.nodes[h.name].1)
            &&& at(v, "panel_configured"@) == Json::Bool(h.panel is Some)
            &&& heard && st.traffic[h.name].error is None ==> at(v, "traffic"@)
                == serve::traffic_json(st.traffic[h.name], h.quota) && json::field(
                v,
                "traffic_error"@,
            ) is None
            &&& heard ==> (st.traffic[h.name].error matches Some(e) ==> at(v, "traffic_error"@)
                == Json::Str(e) && json::field(v, "traffic"@) is None)
            &&& !heard ==> json::field(v, "traffic"@) is None && (json::field(
                v,
                "traffic_error"@,
            ) is Some <==> h.panel is Some)
        }),
{
    let v = serve::card_json(st, h, t);
    let x = serve::traffic_member(st, h);
    let l = seq![
        ("name"@, Json::Str(h.name)),
        ("manage_url"@, Json::Str(h.manage_url)),
        ("online"@, Json::Bool(serve::online(st, h.name, t))),
        ("panel_configured"@, Json::Bool(h.panel is Some)),
        ("metrics"@, serve::metrics_json(st, h.name)),
    ] + x;
    lemma_card_names();
    assert(x.len() <= 1);
    assert(x.len() == 1 ==> l[5] == x[0]);
    assert(x.len() == 1 ==> x[0].0 == "traffic"@ || x[0].0 == "traffic_error"@);
    json::lemma_built_field(l, 0);
    json::lemma_built_field(l, 1);
    json::lemma_built_field(l, 2);
    json::lemma_built_field(l, 3);
    json::lemma_built_field(l, 4);
    if x.len() == 1 {
        json::lemma_built_field(l, 5);
        if x[0].0 == "traffic"@ {
            json::lemma_built_no_field(l, "traffic_error"@);
        } else {
            json::lemma_built_no_field(l, "traffic"@);
        }
    } else {
        json::lemma_built_no_field(l, "traffic"@);
        json::lemma_built_no_field(l, "traffic_error"@);
    }
}

proof fn lemma_card_names()
    ensures
        ({
            let n = seq![
                "name"@,
                "manage_url"@,
                "online"@,
                "panel_configured"@,
                "metrics"@,
                "traffic"@,
                "traffic_error"@,
            ];
            forall|i: int, j: int| 0 <= i < j < n.len() ==> #[trigger] n[i] != #[trigger] n[j]
        }),
        "name"@ != "manage_url"@,
        "name"@ != "online"@,
        "name"@ != "panel_configured"@,
        "name"@ != "metrics"@,
        "name"@ != "traffic"@,
        "name"@ != "traffic_error"@,
        "manage_url"@ != "online"@,
        "manage_url"@ != "panel_configured"@,
        "manage_url"@ != "metrics"@,
        "manage_url"@ != "traffic"@,
        "manage_url"@ != "traffic_error"@,
        "online"@ != "panel_configured"@,
        "online"@ != "metrics"@,
        "online"@ != "traffic"@,
        "online"@ != "traffic_error"@,
        "panel_configured"@ != "metrics"@,
        "panel_configured"@ != "traffic"@,
        "panel_configured"@ != "traffic_error"@,
        "metrics"@ != "traffic"@,
        "metrics"@ != "traffic_error"@,
        "traffic"@ != "traffic_error"@,
{
    reveal_strlit("name");
    reveal_strlit("manage_url");
    reveal_strlit("online");
    reveal_strlit("panel_configured");
    reveal_strlit("metrics");
    reveal_strlit("traffic");
    reveal_strlit("traffic_error");
    assert("name"@.len() == 4 && "manage_url"@.len() == 10 && "online"@.len() == 6);
    assert("panel_configured"@.len() == 16 && "metrics"@.len() == 7 && "traffic"@.len() == 7);
    assert("traffic_error"@.len() == 13);
    assert("metrics"@[0] != "traffic"@[0]);
}

/// The page shows the time and every host, in the order of the list.
pub proof fn law_page_lists_the_hosts(st: StateView, t: nat)
    ensures
        at(serve::data_json(st, t), "ts"@) == agent::whole(t as int),
        at(serve::data_json(st, t), "vps"@) is Arr,
        json::items_of(at(serve::data_json(st, t), "vps"@)).len() == st.vps.len(),
        forall|i: int|
            0 <= i < st.vps.len() ==> (#[trigger] json::items_of(
                at(serve::data_json(st, t), "vps"@),
            )[i]) == serve::card_json(st, st.vps[i], t),
{
    reveal_strlit("ts");
    reveal_strlit("vps");
    assert("ts"@.len() == 2 && "vps"@.len() == 3);
    let l = seq![
        ("ts"@, agent::whole(t as int)),
        ("vps"@, Json::Arr(st.vps.map_values(|h: config::VpsView| serve::card_json(st, h, t)))),
    ];
    json::lemma_built_field(l, 0);
    json::lemma_built_field(l, 1);
}

// -------------------------------------------------------------------- answers

/// The status of an answer.
pub open spec fn status(a: ActionView) -> nat {
    match a {
        ActionView::Reply(r) => r.status,
        _ => 0,
    }
}

/// A report with the key is kept under the name that it gives, or as unknown, with the time at which
/// it came, and nothing else changes; what is no JSON is answered with 400 and changes nothing.
pub proof fn law_report_is_kept(st: StateView, page: Seq<char>, r: RequestView, t: nat)
    requires
        r.method == "POST"@,
        r.path == "/api/report"@,
        r.key == st.base.key,
    ensures
        ({
            let (after, a) = serve::handled(st, page, r, t);
            match reader::meaning(r.body) {
                Ok(v) => {
                    let name = match json::field(v, "name"@) {
                        Some(Json::Str(s)) => s,
                        _ => "unknown"@,
                    };
                    &&& status(a) == 200
                    &&& after.nodes.contains_key(name) && after.nodes[name] == (t, v)
                    &&& forall|other: Seq<char>|
                        other != name ==> (#[trigger] after.nodes.contains_key(other)
                            <==> st.nodes.contains_key(other)) && (st.nodes.contains_key(other)
                            ==> after.nodes[other] == st.nodes[other])
                    &&& after.traffic == st.traffic && after.vps == st.vps
                },
                Err(_) => status(a) == 400 && after == st,
            }
        }),
{
    laws::lemma_methods();
}

/// A host whose form was sent with the key stands in the list under its name without the white space
/// around it, in the place of the one that had the name or behind the others.
pub proof fn law_sent_host_is_kept(
    st: StateView,
    page: Seq<char>,
    r: RequestView,
    t: nat,
    v: Json,
    before: Seq<char>,
    name: Seq<char>,
    after: Seq<char>,
)
    requires
        r.method == "POST"@,
        r.path == "/api/hosts"@,
        r.key == st.base.key,
        reader::meaning(r.body) == Ok::<Json, Seq<char>>(v),
        json::field(v, "name"@) == Some(Json::Str(before + name + after)),
        text_laws::blanks(before),
        text_laws::blanks(after),
        text_laws::tight(name),
    ensures
        ({
            let (now, a) = serve::handled(st, page, r, t);
            let h = config::host_in(v, name);
            &&& name.len() == 0 ==> now == st && status(a) == 400
            &&& name.len() > 0 ==> a is Save && a->path == st.cfg_path && a->removed is None
            &&& name.len() > 0 ==> now.nodes == st.nodes && now.traffic == st.traffic
            &&& name.len() > 0 && (forall|i: int|
                0 <= i < st.vps.len() ==> (#[trigger] st.vps[i]).name != name) ==> now.vps
                == st.vps.push(h)
            &&& name.len() > 0 ==> forall|i: int|
                0 <= i < st.vps.len() && (#[trigger] st.vps[i]).name == name && (forall|j: int|
                    0 <= j < i ==> (#[trigger] st.vps[j]).name != name) ==> now.vps
                    == st.vps.update(i, h)
            &&& h.name == name
        }),
{
    laws::lemma_methods();
    text_laws::law_trimmed(before, name, after);
    lemma_slot(st.vps, name, 0);
}

proof fn lemma_slot(v: Seq<config::VpsView>, name: Seq<char>, i: int)
    requires
        0 <= i <= v.len(),
    ensures
        i <= serve::host_slot(v, name, i) <= v.len(),
        forall|j: int| i <= j < serve::host_slot(v, name, i) ==> (#[trigger] v[j]).name != name,
        serve::host_slot(v, name, i) < v.len() ==> v[serve::host_slot(v, name, i)].name == name,
    decreases v.len() - i,
{
    if i < v.len() && v[i].name != name {
        lemma_slot(v, name, i + 1);
    }
}

/// The list of hosts that the dashboard gives describes them all, in their order, and changes
/// nothing.
pub proof fn law_hosts_are_listed(st: StateView, page: Seq<char>, r: RequestView, t: nat)
    requires
        r.method == "GET"@,
        r.path == "/api/hosts"@,
        forall|i: int|
            0 <= i < st.vps.len() ==> form_laws::formable(#[trigger] st.vps[i]) && st.vps[i].quota
                <= config::exact_up_to(),
    ensures
        ({
            let (after, a) = serve::handled(st, page, r, t);
            let forms = gui::forms_in(a->Reply_0.body);
            &&& after == st && status(a) == 200
            &&& forms.len() == st.vps.len()
            &&& forall|i: int|
                0 <= i < st.vps.len() ==> gui::entry_of(#[trigger] forms[i]) == st.vps[i]
        }),
{
    laws::lemma_methods();
    lemma_paths();
    form_laws::law_list_fills_the_forms(st.vps);
}

proof fn lemma_paths()
    ensures
        "/"@ != "/api/hosts"@,
        "/index.html"@ != "/api/hosts"@,
        "/"@ != "/api/health"@,
        "/index.html"@ != "/api/health"@,
        "/api/hosts"@ != "/api/health"@,
        "/api/data"@ != "/api/health"@,
        "/"@ != "/api/data"@,
        "/index.html"@ != "/api/data"@,
        "/api/hosts"@ != "/api/data"@,
{
    reveal_strlit("/");
    reveal_strlit("/index.html");
    reveal_strlit("/api/hosts");
    reveal_strlit("/api/health");
    reveal_strlit("/api/data");
    assert("/"@.len() == 1 && "/index.html"@.len() == 11 && "/api/hosts"@.len() == 10);
    assert("/api/health"@.len() == 11 && "/api/data"@.len() == 9);
    assert("/index.html"@[1] == 'i' && "/api/health"@[1] == 'a');
}

/// A request that only asks changes nothing: the two addresses of the page give the page, the
/// data are what the page shows at the time, and every other path is answered with 404.
pub proof fn law_asking(st: StateView, page: Seq<char>, r: RequestView, t: nat)
    requires
        r.method == "GET"@,
    ensures
        ({
            let (after, a) = serve::handled(st, page, r, t);
            &&& after == st
            &&& a is Reply
            &&& r.path == "/"@ || r.path == "/index.html"@ ==> status(a) == 200 && a->Reply_0.body
                == page
            &&& r.path == "/api/data"@ ==> status(a) == 200 && a->Reply_0.body == json::render(
                serve::data_json(st, t),
                None,
            )
            &&& status(a) == 200 || status(a) == 404
            &&& status(a) == 200 <==> (r.path == "/"@ || r.path == "/index.html"@ || r.path
                == "/api/hosts"@ || r.path == "/api/data"@ || r.path == "/api/health"@)
        }),
{
    laws::lemma_methods();
    lemma_paths();
}

/// The answer once the file was to be written: 500 with the error where that failed, else 200, and
/// for a removal whether there was a host of the name.
pub proof fn law_after_writing(removed: Option<bool>, error: Option<Seq<char>>)
    ensures
        error is Some <==> serve::after_save(removed, error).status == 500,
        error is None <==> serve::after_save(removed, error).status == 200,
        error is None && removed == Some(true) ==> serve::after_save(removed, error).body
            == "{\"ok\":true,\"removed\":true}"@,
        error is None && removed == Some(false) ==> serve::after_save(removed, error).body
            == "{\"ok\":true,\"removed\":false}"@,
        error matches Some(e) ==> serve::after_save(removed, error).body
            == "{\"ok\":false,\"error\":\""@ + e + "\"}"@,
{
    reveal_strlit("{\"ok\":true,\"removed\":true}");
    reveal_strlit("{\"ok\":true,\"removed\":false}");
    reveal_strlit("{\"ok\":true,\"removed\":");
    reveal_strlit("true");
    reveal_strlit("false");
    reveal_strlit("}");
    assert("{\"ok\":true,\"removed\":true}"@ =~= "{\"ok\":true,\"removed\":"@ + "true"@ + "}"@);
    assert("{\"ok\":true,\"removed\":false}"@ =~= "{\"ok\":true,\"removed\":"@ + "false"@ + "}"@);
}

/// Whether a request is one that the dashboard knows.
pub open spec fn known(r: RequestView) -> bool {
    ||| r.method == "GET"@ && (r.path == "/"@ || r.path == "/index.html"@ || r.path == "/api/hosts"@
        || r.path == "/api/data"@ || r.path == "/api/health"@)
    ||| laws::changes(r)
}

/// A request that the dashboard does not know is answered with 404, and changes nothing.
pub proof fn law_unknown_requests(st: StateView, page: Seq<char>, r: RequestView, t: nat)
    requires
        !known(r),
    ensures
        serve::handled(st, page, r, t).0 == st,
        serve::handled(st, page, r, t).1 is Reply,
        status(serve::handled(st, page, r, t).1) == 404,
{
    laws::lemma_methods();
    lemma_paths();
}

/// A form without a name, or with a name that is no text, is answered with 400 and changes nothing.
pub proof fn law_form_without_a_name(
    st: StateView,
    page: Seq<char>,
    r: RequestView,
    t: nat,
    v: Json,
)
    requires
        r.method == "POST"@,
        r.path == "/api/hosts"@,
        r.key == st.base.key,
        reader::meaning(r.body) == Ok::<Json, Seq<char>>(v) && !(json::field(v, "name"@) matches Some(
            Json::Str(_),
        )) || reader::meaning(r.body) is Err,
    ensures
        serve::handled(st, page, r, t).0 == st,
        status(serve::handled(st, page, r, t).1) == 400,
{
    laws::lemma_methods();
    let e = Seq::<char>::empty();
    text_laws::law_trimmed(e, e, e);
    assert(e + e + e =~= e);
}

/// The time between two rounds is the one that the settings say, but at least half a minute.
pub proof fn law_pause(interval: nat)
    ensures
        serve::pause_of(interval) >= 30,
        serve::pause_of(interval) >= interval,
        serve::pause_of(interval) == interval || serve::pause_of(interval) == 30,
{
}

/// What was heard from the panel of a host is what the page shows of it from then on: the traffic,
/// or the error; and the other hosts are shown as before.
pub proof fn law_traffic_reaches_the_page(
    st: StateView,
    h: config::VpsView,
    heard: panel::TrafficView,
    t: nat,
    other: config::VpsView,
)
    requires
        other.name != h.name,
    ensures
        ({
            let now = serve::with_traffic(st, h.name, heard);
            let v = serve::card_json(now, h, t);
            &&& heard.error is None ==> at(v, "traffic"@) == serve::traffic_json(heard, h.quota)
            &&& heard.error matches Some(e) ==> at(v, "traffic_error"@) == Json::Str(e)
            &&& at(v, "online"@) == at(serve::card_json(st, h, t), "online"@)
            &&& serve::card_json(now, other, t) == serve::card_json(st, other, t)
        }),
{
    let now = serve::with_traffic(st, h.name, heard);
    law_card_shown(now, h, t);
    law_card_shown(st, h, t);
    assert(now.traffic[h.name] == heard);
    assert(serve::traffic_member(now, other) == serve::traffic_member(st, other));
}

/// A report is what the page shows of its host from then on, and the host is online for as long as
/// the settings say; the other hosts are shown as before.
pub proof fn law_kept_report_reaches_the_page(
    st: StateView,
    h: config::VpsView,
    came: nat,
    v: Json,
    t: nat,
    other: config::VpsView,
)
    requires
        other.name != h.name,
    ensures
        ({
            let now = serve::with_report(st, h.name, came, v);
            let c = serve::card_json(now, h, t);
            &&& at(c, "metrics"@) == normalize::normalized(v)
            &&& at(c, "online"@) == Json::Bool(t <= came + st.base.offline_after)
            &&& serve::card_json(now, other, t) == serve::card_json(st, other, t)
        }),
{
    let now = serve::with_report(st, h.name, came, v);
    law_card_shown(now, h, t);
    assert(now.nodes[h.name] == (came, v));
    assert(serve::online(now, other.name, t) == serve::online(st, other.name, t));
    assert(serve::metrics_json(now, other.name) == serve::metrics_json(st, other.name));
    assert(serve::traffic_member(now, other) == serve::traffic_member(st, other));
}

} // verus!
