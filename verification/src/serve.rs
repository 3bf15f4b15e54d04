//! The dashboard: what it knows, and how it answers requests.
//!
//! The list of hosts can be changed while the dashboard runs. Every change is
//! written to the configuration file at once.

use vstd::prelude::*;
use crate::agent;
use crate::clock;
use crate::config;
use crate::config::{Config, VpsEntry};
use crate::http::Request;
use crate::json;
use crate::json::{J, Json};
use crate::normalize;
use crate::num::Num;
use crate::panel;
use crate::panel::{NodeTraffic, PanelTraffic};
use crate::reader;
use crate::table;
use crate::text;
use crate::url;

verus! {

// ---------------------------------------------------------------------- state

/// What the dashboard knows.
#[derive(Debug)]
pub struct State {
    /// When each host last reported, and what.
    pub nodes: Vec<(String, (u64, J))>,
    /// What was last heard from the panel of each host.
    pub traffic: Vec<(String, PanelTraffic)>,
    /// The hosts, as they are now.
    pub vps: Vec<VpsEntry>,
    /// The configuration file.
    pub cfg_path: String,
    /// The other settings, with the hosts as they were at the start.
    pub base: Config,
}

/// The contents of what the dashboard knows.
#[verifier::ext_equal]
pub ghost struct StateView {
    pub nodes: Map<Seq<char>, (nat, Json)>,
    pub traffic: Map<Seq<char>, panel::TrafficView>,
    pub vps: Seq<config::VpsView>,
    pub cfg_path: Seq<char>,
    pub base: config::ConfigView,
}

/// Reports by the name of the host.
pub open spec fn nodes_map(t: Seq<(String, (u64, J))>) -> Map<Seq<char>, (nat, Json)> {
    Map::new(
        |k: Seq<char>| table::lookup(t, k) is Some,
        |k: Seq<char>|
            {
                let x = table::lookup(t, k)->0;
                (x.0 as nat, x.1.view())
            },
    )
}

/// Traffic by the name of the host.
pub open spec fn traffic_map(t: Seq<(String, PanelTraffic)>) -> Map<
    Seq<char>,
    panel::TrafficView,
> {
    Map::new(
        |k: Seq<char>| table::lookup(t, k) is Some,
        |k: Seq<char>| table::lookup(t, k)->0@,
    )
}

impl View for State {
    type V = StateView;

    open spec fn view(&self) -> StateView {
        StateView {
            nodes: nodes_map(self.nodes@),
            traffic: traffic_map(self.traffic@),
            vps: config::hosts_view(self.vps@),
            cfg_path: self.cfg_path@,
            base: self.base@,
        }
    }
}

/// What the dashboard knows at the start.
pub open spec fn fresh(c: config::ConfigView, path: Seq<char>) -> StateView {
    StateView {
        nodes: Map::empty(),
        traffic: Map::empty(),
        vps: c.vps,
        cfg_path: path,
        base: c,
    }
}

/// What the dashboard knows after a report that came at the time `t`.
pub open spec fn with_report(st: StateView, name: Seq<char>, t: nat, v: Json) -> StateView {
    StateView { nodes: st.nodes.insert(name, (t, v)), ..st }
}

/// What the dashboard knows after it has heard from the panel of a host.
pub open spec fn with_traffic(st: StateView, name: Seq<char>, t: panel::TrafficView) -> StateView {
    StateView { traffic: st.traffic.insert(name, t), ..st }
}

impl State {
    /// A dashboard that has heard from nobody yet.
    pub fn new(cfg: Config, path: &str) -> (r: State)
        ensures
            r@ == fresh(cfg@, path@),
    {
        let nodes: Vec<(String, (u64, J))> = Vec::new();
        let traffic: Vec<(String, PanelTraffic)> = Vec::new();
        assert(nodes_map(nodes@) =~= Map::empty());
        assert(traffic_map(traffic@) =~= Map::empty());
        let vps = config::copy_hosts(&cfg.vps);
        State { nodes, traffic, vps, cfg_path: path.to_string(), base: cfg }
    }

    /// Keeps a report that came at the time `t`.
    pub fn store_report(&mut self, name: &str, t: u64, v: J)
        ensures
            final(self)@ == (StateView {
                nodes: old(self)@.nodes.insert(name@, (t as nat, v.view())),
                ..old(self)@
            }),
            final(self)@ == with_report(old(self)@, name@, t as nat, v.view()),
    {
        let ghost was = self.nodes@;
        table::set(&mut self.nodes, name, (t, v));
        proof {
            table::law_set(was, name@, (t, v), self.nodes@);
            assert(nodes_map(self.nodes@) =~= nodes_map(was).insert(name@, (t as nat, v.view())));
        }
    }

    /// Keeps what was heard from the panel of a host.
    pub fn store_traffic(&mut self, name: &str, t: PanelTraffic)
        ensures
            final(self)@ == (StateView {
                traffic: old(self)@.traffic.insert(name@, t@),
                ..old(self)@
            }),
            final(self)@ == with_traffic(old(self)@, name@, t@),
    {
        let ghost was = self.traffic@;
        table::set(&mut self.traffic, name, t);
        proof {
            table::law_set(was, name@, t, self.traffic@);
            assert(traffic_map(self.traffic@) =~= traffic_map(was).insert(name@, t@));
        }
    }
}

// ---------------------------------------------------------------------- hosts

/// The first host at or after `i` with the given name, or the number of hosts.
pub open spec fn host_slot(v: Seq<config::VpsView>, name: Seq<char>, i: int) -> int
    decreases v.len() - i,
{
    if i >= v.len() {
        v.len() as int
    } else if v[i].name == name {
        i
    } else {
        host_slot(v, name, i + 1)
    }
}

/// The hosts with `h` in the place of the first one of its name, or at the end.
pub open spec fn upserted(v: Seq<config::VpsView>, h: config::VpsView) -> Seq<config::VpsView> {
    let i = host_slot(v, h.name, 0);
    if 0 <= i < v.len() {
        v.update(i, h)
    } else {
        v.push(h)
    }
}

/// The hosts whose name is not the given one.
pub open spec fn hosts_without(v: Seq<config::VpsView>, name: Seq<char>) -> Seq<config::VpsView>
    decreases v.len(),
{
    if v.len() == 0 {
        v
    } else if v.last().name == name {
        hosts_without(v.drop_last(), name)
    } else {
        hosts_without(v.drop_last(), name).push(v.last())
    }
}

/// The host in what a form sends: its name is trimmed, and may not be empty.
pub open spec fn form_host(v: Json) -> Result<config::VpsView, Seq<char>> {
    let name = text::trimmed(json::str_at(v, "name"@, Seq::empty()));
    if name.len() == 0 {
        Err("name 不能为空"@)
    } else {
        Ok(config::host_in(v, name))
    }
}

/// Reads the host in what a form sends.
pub fn entry_from_json(v: &J) -> (r: Result<VpsEntry, String>)
    ensures
        match r {
            Ok(h) => form_host(v.view()) == Ok::<config::VpsView, Seq<char>>(h@),
            Err(e) => form_host(v.view()) == Err::<config::VpsView, Seq<char>>(e@),
        },
{
    proof {
        reveal_strlit("");
        assert(""@ =~= Seq::<char>::empty());
    }
    let name = text::trim(v.str_at("name", "").as_str());
    if name.as_str().unicode_len() == 0 {
        return Err("name 不能为空".to_string());
    }
    Ok(config::read_host(v, name))
}

/// The text of the configuration file for the hosts `v`.
pub open spec fn saved_text(st: StateView, v: Seq<config::VpsView>) -> Seq<char> {
    config::dumped(config::ConfigView { vps: v, ..st.base })
}

impl State {
    /// The text of the configuration file with the hosts as they are now.
    fn config_text(&self) -> (r: String)
        ensures
            r@ == saved_text(self@, self@.vps),
    {
        let mut c = self.base.clone();
        c.vps = config::copy_hosts(&self.vps);
        assert(c@ =~= config::ConfigView { vps: self@.vps, ..self@.base });
        config::dump(&c)
    }

    /// Puts a host in the place of the first one of its name, or at the end. Gives the text of the
    /// configuration file.
    pub fn upsert_host(&mut self, h: VpsEntry) -> (r: String)
        ensures
            final(self)@ == (StateView { vps: upserted(old(self)@.vps, h@), ..old(self)@ }),
            r@ == saved_text(old(self)@, upserted(old(self)@.vps, h@)),
    {
        let ghost was = self@.vps;
        let mut i: usize = 0;
        while i < self.vps.len() && !text::same(self.vps[i].name.as_str(), h.name.as_str())
            invariant
                i <= self.vps@.len(),
                was == config::hosts_view(self.vps@),
                *self == *old(self),
                host_slot(was, h@.name, 0) == host_slot(was, h@.name, i as int),
            decreases self.vps@.len() - i,
        {
            i = i + 1;
        }
        if i < self.vps.len() {
            self.vps.set(i, h);
            assert(self@.vps =~= was.update(i as int, h@));
        } else {
            self.vps.push(h);
            assert(self@.vps =~= was.push(h@));
        }
        self.config_text()
    }

    /// Removes the hosts of the given name, with what they reported and the traffic of their
    /// panels. Gives whether there was any, and the text of the configuration file.
    pub fn remove_host(&mut self, name: &str) -> (r: (bool, String))
        ensures
            final(self)@ == (StateView {
                vps: hosts_without(old(self)@.vps, name@),
                traffic: old(self)@.traffic.remove(name@),
                nodes: old(self)@.nodes.remove(name@),
                ..old(self)@
            }),
            r.0 == (hosts_without(old(self)@.vps, name@).len() != old(self)@.vps.len()),
            r.1@ == saved_text(old(self)@, hosts_without(old(self)@.vps, name@)),
    {
        let ghost was = self@.vps;
        let n = self.vps.len();
        let mut kept: Vec<VpsEntry> = Vec::new();
        let mut i: usize = 0;
        assert(config::hosts_view(kept@) =~= Seq::<config::VpsView>::empty());
        while i < n
            invariant
                i <= n == self.vps@.len(),
                was == config::hosts_view(self.vps@),
                *self == *old(self),
                config::hosts_view(kept@) == hosts_without(was.take(i as int), name@),
            decreases n - i,
        {
            let ghost before = config::hosts_view(kept@);
            if !text::same(self.vps[i].name.as_str(), name) {
                kept.push(self.vps[i].clone());
                assert(config::hosts_view(kept@) =~= before.push(was[i as int]));
            }
            i = i + 1;
            assert(was.take(i as int).drop_last() =~= was.take(i - 1));
        }
        assert(was.take(i as int) =~= was);
        let removed = kept.len() != n;
        assert(config::hosts_view(kept@).len() == kept@.len());
        self.vps = kept;
        table::remove(&mut self.traffic, name);
        table::remove(&mut self.nodes, name);
        proof {
            table::law_without(old(self).traffic@, name@);
            table::law_without(old(self).nodes@, name@);
            assert(self@.traffic =~= old(self)@.traffic.remove(name@));
            assert(self@.nodes =~= old(self)@.nodes.remove(name@));
        }
        (removed, self.config_text())
    }
}

// ----------------------------------------------------------------------- data

/// The traffic of a node as the page shows it.
pub open spec fn node_json(n: panel::NodeView) -> Json {
    Json::Obj(
        json::built(
            seq![
                ("node"@, Json::Str(n.node)),
                ("port"@, agent::whole(n.port)),
                ("client"@, Json::Str(n.client)),
                ("up"@, agent::whole(n.up)),
                ("down"@, agent::whole(n.down)),
                (
                    "total"@,
                    agent::whole(
                        if n.total > 0 {
                            n.total
                        } else {
                            0
                        },
                    ),
                ),
            ],
        ),
    )
}

/// The quota of a host: that of its panel or, where the panel reports none, its own.
pub open spec fn quota_of(t: panel::TrafficView, own: int) -> int {
    let q = panel::sum(panel::quotas(t.nodes));
    if q <= 0 && own > 0 {
        own
    } else {
        q
    }
}

/// The traffic of a host as the page shows it.
pub open spec fn traffic_json(t: panel::TrafficView, own: int) -> Json {
    Json::Obj(
        json::built(
            seq![
                ("used"@, agent::whole(panel::sum(panel::uses(t.nodes)))),
                ("quota"@, agent::whole(quota_of(t, own))),
                (
                    "nodes"@,
                    Json::Arr(t.nodes.map_values(|n: panel::NodeView| node_json(n))),
                ),
            ],
        ),
    )
}

/// What the page shows of the traffic of a host, as a member: the traffic, the error, that nothing
/// was heard yet, or nothing where the host has no panel.
pub open spec fn traffic_member(st: StateView, h: config::VpsView) -> Seq<(Seq<char>, Json)> {
    if st.traffic.contains_key(h.name) {
        let t = st.traffic[h.name];
        match t.error {
            None => seq![("traffic"@, traffic_json(t, h.quota))],
            Some(e) => seq![("traffic_error"@, Json::Str(e))],
        }
    } else if h.panel is Some {
        seq![("traffic_error"@, Json::Str("尚未拉取（首次轮询进行中）"@))]
    } else {
        Seq::empty()
    }
}

/// Whether a host reported within the last seconds, as many as the settings say.
pub open spec fn online(st: StateView, name: Seq<char>, t: nat) -> bool {
    &&& st.nodes.contains_key(name)
    &&& t <= st.nodes[name].0 + st.base.offline_after
}

/// What the page shows of the last report of a host.
pub open spec fn metrics_json(st: StateView, name: Seq<char>) -> Json {
    if st.nodes.contains_key(name) {
        normalize::normalized(st.nodes[name].1)
    } else {
        Json::Null
    }
}

/// A host as the page shows it at the time `t`.
pub open spec fn card_json(st: StateView, h: config::VpsView, t: nat) -> Json {
    Json::Obj(
        json::built(
            seq![
                ("name"@, Json::Str(h.name)),
                ("manage_url"@, Json::Str(h.manage_url)),
                ("online"@, Json::Bool(online(st, h.name, t))),
                ("panel_configured"@, Json::Bool(h.panel is Some)),
                ("metrics"@, metrics_json(st, h.name)),
            ] + traffic_member(st, h),
        ),
    )
}

/// What the page shows at the time `t`.
pub open spec fn data_json(st: StateView, t: nat) -> Json {
    Json::Obj(
        json::built(
            seq![
                ("ts"@, agent::whole(t as int)),
                (
                    "vps"@,
                    Json::Arr(st.vps.map_values(|h: config::VpsView| card_json(st, h, t))),
                ),
            ],
        ),
    )
}

/// Whether the traffic of every host can be added up within 64 bits.
pub open spec fn countable(st: StateView) -> bool {
    forall|i: int|
        0 <= i < st.vps.len() ==> host_countable(st, #[trigger] st.vps[i])
}

/// Whether the traffic of a host can be added up within 64 bits.
pub open spec fn host_countable(st: StateView, h: config::VpsView) -> bool {
    st.traffic.contains_key(h.name) && st.traffic[h.name].error is None ==> panel::countable(
        st.traffic[h.name].nodes,
    )
}

/// The traffic of a node as JSON.
fn node_value(n: &NodeTraffic) -> (r: J)
    ensures
        r.view() == node_json(n@),
{
    let total: i64 = if n.total > 0 {
        n.total
    } else {
        0
    };
    let fields: Vec<(String, J)> = vec![
        ("node".to_string(), J::Str(n.node.clone())),
        ("port".to_string(), J::Num(Num::of_i64(n.port))),
        ("client".to_string(), J::Str(n.client.clone())),
        ("up".to_string(), J::Num(Num::of_i64(n.up))),
        ("down".to_string(), J::Num(Num::of_i64(n.down))),
        ("total".to_string(), J::Num(Num::of_i64(total))),
    ];
    assert(json::members(fields@) =~= seq![
        ("node"@, Json::Str(n@.node)),
        ("port"@, agent::whole(n@.port)),
        ("client"@, Json::Str(n@.client)),
        ("up"@, agent::whole(n@.up)),
        ("down"@, agent::whole(n@.down)),
        ("total"@, agent::whole(total as int)),
    ]);
    json::object(fields)
}

/// The traffic of a host as JSON.
fn traffic_value(t: &PanelTraffic, own: i64) -> (r: J)
    requires
        panel::countable(t@.nodes),
    ensures
        r.view() == traffic_json(t@, own as int),
{
    let ghost all = t@.nodes.map_values(|n: panel::NodeView| node_json(n));
    let mut nodes: Vec<J> = Vec::new();
    let mut i: usize = 0;
    while i < t.nodes.len()
        invariant
            i <= t.nodes@.len(),
            all == t@.nodes.map_values(|n: panel::NodeView| node_json(n)),
            json::items(nodes@) == all.take(i as int),
        decreases t.nodes@.len() - i,
    {
        let ghost was = json::items(nodes@);
        nodes.push(node_value(&t.nodes[i]));
        i = i + 1;
        assert(json::items(nodes@) =~= was.push(all[i - 1]));
        assert(json::items(nodes@) =~= all.take(i as int));
    }
    assert(all.take(i as int) =~= all);
    proof {
        json::lemma_arr_view(nodes);
    }
    let mut q = t.total_quota();
    if q <= 0 && own > 0 {
        q = own;
    }
    let fields: Vec<(String, J)> = vec![
        ("used".to_string(), J::Num(Num::of_i64(t.total_used()))),
        ("quota".to_string(), J::Num(Num::of_i64(q))),
        ("nodes".to_string(), J::Arr(nodes)),
    ];
    assert(json::members(fields@) =~= seq![
        ("used"@, agent::whole(panel::sum(panel::uses(t@.nodes)))),
        ("quota"@, agent::whole(quota_of(t@, own as int))),
        ("nodes"@, Json::Arr(all)),
    ]);
    json::object(fields)
}

impl State {
    /// Says whether the traffic of every host can be added up within 64 bits.
    pub fn is_countable(&self) -> (r: bool)
        ensures
            r == countable(self@),
    {
        let mut i: usize = 0;
        while i < self.vps.len()
            invariant
                i <= self.vps@.len(),
                forall|j: int| 0 <= j < i ==> host_countable(self@, #[trigger] self@.vps[j]),
            decreases self.vps@.len() - i,
        {
            let h = &self.vps[i];
            assert(self@.vps[i as int] == h@);
            if let Some(k) = table::find(&self.traffic, h.name.as_str()) {
                let t = &self.traffic[k].1;
                if t.error.is_none() && !t.countable() {
                    assert(!host_countable(self@, self@.vps[i as int]));
                    return false;
                }
            }
            i = i + 1;
        }
        true
    }

    /// Whether a host is online at the time `t`, and what the page shows of its last report.
    fn last_report(&self, name: &str, t: u64) -> (r: (bool, J))
        ensures
            r.0 == online(self@, name@, t as nat),
            r.1.view() == metrics_json(self@, name@),
    {
        match table::find(&self.nodes, name) {
            Some(k) => {
                let (ts, payload) = (&self.nodes[k].1.0, &self.nodes[k].1.1);
                let age: u64 = if t > *ts {
                    t - *ts
                } else {
                    0
                };
                (age <= self.base.offline_after, normalize::normalize_metrics(payload))
            },
            None => (false, J::Null),
        }
    }

    /// Adds what the page shows of the traffic of a host.
    fn put_traffic(&self, h: &VpsEntry, fields: &mut Vec<(String, J)>)
        requires
            host_countable(self@, h@),
        ensures
            json::members(final(fields)@) == json::members(old(fields)@) + traffic_member(
                self@,
                h@,
            ),
    {
        let ghost was = json::members(fields@);
        match table::find(&self.traffic, h.name.as_str()) {
            Some(k) => {
                let x = &self.traffic[k].1;
                assert(self@.traffic.contains_key(h@.name) && self@.traffic[h@.name] == x@);
                match &x.error {
                    None => {
                        let v = traffic_value(x, h.quota);
                        json::append(fields, "traffic", v);
                    },
                    Some(e) => {
                        json::append(fields, "traffic_error", J::Str(e.clone()));
                    },
                }
            },
            None => {
                assert(!self@.traffic.contains_key(h@.name));
                if h.panel.is_some() {
                    let waiting = "尚未拉取（首次轮询进行中）".to_string();
                    json::append(fields, "traffic_error", J::Str(waiting));
                }
            },
        }
        assert(json::members(fields@) =~= was + traffic_member(self@, h@));
    }

    /// A host as the page shows it at the time `t`.
    #[verifier::spinoff_prover]
    #[verifier::rlimit(60)]
    fn card(&self, h: &VpsEntry, t: u64) -> (r: J)
        requires
            host_countable(self@, h@),
        ensures
            r.view() == card_json(self@, h@, t as nat),
    {
        let (live, metrics) = self.last_report(h.name.as_str(), t);
        let mut fields: Vec<(String, J)> = vec![
            ("name".to_string(), J::Str(h.name.clone())),
            ("manage_url".to_string(), J::Str(h.manage_url.clone())),
            ("online".to_string(), J::Bool(live)),
            ("panel_configured".to_string(), J::Bool(h.panel.is_some())),
            ("metrics".to_string(), metrics),
        ];
        assert(json::members(fields@) =~= seq![
            ("name"@, Json::Str(h@.name)),
            ("manage_url"@, Json::Str(h@.manage_url)),
            ("online"@, Json::Bool(online(self@, h@.name, t as nat))),
            ("panel_configured"@, Json::Bool(h@.panel is Some)),
            ("metrics"@, metrics_json(self@, h@.name)),
        ]);
        self.put_traffic(h, &mut fields);
        json::object(fields)
    }

    /// What the page shows at the time `t`.
    pub fn data(&self, t: u64) -> (r: J)
        requires
            countable(self@),
        ensures
            r.view() == data_json(self@, t as nat),
    {
        let ghost all = self@.vps.map_values(|h: config::VpsView| card_json(self@, h, t as nat));
        let mut list: Vec<J> = Vec::new();
        let mut i: usize = 0;
        while i < self.vps.len()
            invariant
                i <= self.vps@.len(),
                countable(self@),
                all == self@.vps.map_values(|h: config::VpsView| card_json(self@, h, t as nat)),
                json::items(list@) == all.take(i as int),
            decreases self.vps@.len() - i,
        {
            let ghost was = json::items(list@);
            assert(self@.vps[i as int] == self.vps@[i as int]@);
            assert(host_countable(self@, self@.vps[i as int]));
            list.push(self.card(&self.vps[i], t));
            i = i + 1;
            assert(json::items(list@) =~= was.push(all[i - 1]));
            assert(json::items(list@) =~= all.take(i as int));
        }
        assert(all.take(i as int) =~= all);
        proof {
            json::lemma_arr_view(list);
        }
        let fields: Vec<(String, J)> = vec![
            ("ts".to_string(), J::Num(Num::of_u64(t))),
            ("vps".to_string(), J::Arr(list)),
        ];
        assert(json::members(fields@) =~= seq![
            ("ts"@, agent::whole(t as int)),
            ("vps"@, Json::Arr(all)),
        ]);
        json::object(fields)
    }
}

// -------------------------------------------------------------------- requests

/// An answer: the status, the type of the body and the body.
#[derive(Debug)]
pub struct Answer {
    pub status: u16,
    pub ctype: &'static str,
    pub body: String,
}

/// The contents of an answer.
#[verifier::ext_equal]
pub ghost struct AnswerView {
    pub status: nat,
    pub ctype: Seq<char>,
    pub body: Seq<char>,
}

impl View for Answer {
    type V = AnswerView;

    open spec fn view(&self) -> AnswerView {
        AnswerView { status: self.status as nat, ctype: self.ctype@, body: self.body@ }
    }
}

/// What is to be done for a request: give an answer, or first write the configuration file. Then
/// the answer depends on whether that succeeds; for a removal it says whether there was a host.
#[derive(Debug)]
pub enum Action {
    Reply(Answer),
    Save(Saving),
}

/// A configuration file to write: its path and its text.
#[derive(Debug)]
pub struct Saving {
    pub path: String,
    pub text: String,
    pub removed: Option<bool>,
}

/// The contents of what is to be done for a request.
pub ghost enum ActionView {
    Reply(AnswerView),
    Save { path: Seq<char>, text: Seq<char>, removed: Option<bool> },
}

/// The contents of what is to be done for a request.
pub open spec fn action_view(a: Action) -> ActionView {
    match a {
        Action::Reply(r) => ActionView::Reply(r@),
        Action::Save(s) => ActionView::Save { path: s.path@, text: s.text@, removed: s.removed },
    }
}

/// The type of most answers.
pub const JSON: &'static str = "application/json";

/// The type of answers that hold text of the hosts.
pub const JSON_TEXT: &'static str = "application/json; charset=utf-8";

/// The type of the page.
pub const HTML: &'static str = "text/html; charset=utf-8";

/// An answer that names an error.
pub open spec fn refused(status: nat, e: Seq<char>) -> AnswerView {
    AnswerView { status, ctype: JSON@, body: "{\"ok\":false,\"error\":\""@ + e + "\"}"@ }
}

/// The answer that all is well.
pub open spec fn fine() -> AnswerView {
    AnswerView { status: 200, ctype: JSON@, body: "{\"ok\":true}"@ }
}

/// The answer to what has a wrong key.
pub open spec fn bad_key() -> AnswerView {
    AnswerView { status: 403, ctype: JSON@, body: "{\"ok\":false,\"error\":\"bad key\"}"@ }
}

/// The parts of a request that decide the answer.
#[verifier::ext_equal]
pub ghost struct RequestView {
    pub method: Seq<char>,
    pub path: Seq<char>,
    pub key: Seq<char>,
    pub body: Seq<char>,
}

/// The key that a query gives, or the empty one.
pub open spec fn key_in(q: Seq<(String, String)>) -> Seq<char> {
    match url::text_at(q, "key"@) {
        Some(k) => k,
        None => Seq::empty(),
    }
}

/// The parts of a request that decide the answer.
pub open spec fn request_view(r: Request) -> RequestView {
    RequestView { method: r.method@, path: r.path@, key: key_in(r.query@), body: r.body@ }
}

/// What a report at the time `t` does.
pub open spec fn reported(st: StateView, r: RequestView, t: nat) -> (StateView, ActionView) {
    if r.key != st.base.key {
        (st, ActionView::Reply(bad_key()))
    } else {
        match reader::meaning(r.body) {
            Ok(v) => {
                let name = json::str_at(v, "name"@, "unknown"@);
                (
                    StateView { nodes: st.nodes.insert(name, (t, v)), ..st },
                    ActionView::Reply(fine()),
                )
            },
            Err(e) => (st, ActionView::Reply(refused(400, "invalid json: "@ + e))),
        }
    }
}

/// What the form for a host does.
pub open spec fn posted(st: StateView, r: RequestView) -> (StateView, ActionView) {
    if r.key != st.base.key {
        (st, ActionView::Reply(bad_key()))
    } else {
        match reader::meaning(r.body) {
            Ok(v) => match form_host(v) {
                Ok(h) => {
                    let vps = upserted(st.vps, h);
                    (
                        StateView { vps, ..st },
                        ActionView::Save {
                            path: st.cfg_path,
                            text: saved_text(st, vps),
                            removed: None,
                        },
                    )
                },
                Err(e) => (st, ActionView::Reply(refused(400, e))),
            },
            Err(e) => (st, ActionView::Reply(refused(400, "invalid json: "@ + e))),
        }
    }
}

/// Where the hosts stand in the paths.
pub const HOSTS: &'static str = "/api/hosts/";

/// What the removal of a host does.
pub open spec fn deleted(st: StateView, r: RequestView) -> (StateView, ActionView) {
    if r.key != st.base.key {
        (st, ActionView::Reply(bad_key()))
    } else {
        let name = url::plain_name(r.path.skip(HOSTS@.len() as int));
        let vps = hosts_without(st.vps, name);
        (
            StateView {
                vps,
                traffic: st.traffic.remove(name),
                nodes: st.nodes.remove(name),
                ..st
            },
            ActionView::Save {
                path: st.cfg_path,
                text: saved_text(st, vps),
                removed: Some(vps.len() != st.vps.len()),
            },
        )
    }
}

/// Whether a request asks for what the page shows.
pub open spec fn asks_for_data(r: RequestView) -> bool {
    r.method == "GET"@ && r.path == "/api/data"@
}

/// What a request at the time `t` does to what the dashboard knows, and what is to be done for it.
pub open spec fn handled(st: StateView, page: Seq<char>, r: RequestView, t: nat) -> (
    StateView,
    ActionView,
) {
    let m = r.method;
    let p = r.path;
    if m == "GET"@ && (p == "/"@ || p == "/index.html"@) {
        (st, ActionView::Reply(AnswerView { status: 200, ctype: HTML@, body: page }))
    } else if m == "POST"@ && p == "/api/report"@ {
        reported(st, r, t)
    } else if m == "GET"@ && p == "/api/hosts"@ {
        let body = json::render(config::hosts_json(st.vps), None);
        (st, ActionView::Reply(AnswerView { status: 200, ctype: JSON_TEXT@, body }))
    } else if m == "POST"@ && p == "/api/hosts"@ {
        posted(st, r)
    } else if m == "DELETE"@ && text::begins(p, HOSTS@) {
        deleted(st, r)
    } else if asks_for_data(r) {
        let body = json::render(data_json(st, t), None);
        (st, ActionView::Reply(AnswerView { status: 200, ctype: JSON_TEXT@, body }))
    } else if m == "GET"@ && p == "/api/health"@ {
        (st, ActionView::Reply(fine()))
    } else {
        (
            st,
            ActionView::Reply(
                AnswerView { status: 404, ctype: JSON@, body: "{\"error\":\"not found\"}"@ },
            ),
        )
    }
}

/// The answer once the configuration file was to be written.
pub open spec fn after_save(removed: Option<bool>, error: Option<Seq<char>>) -> AnswerView {
    match error {
        Some(e) => refused(500, e),
        None => match removed {
            None => fine(),
            Some(b) => AnswerView {
                status: 200,
                ctype: JSON@,
                body: "{\"ok\":true,\"removed\":"@ + (if b {
                    "true"@
                } else {
                    "false"@
                }) + "}"@,
            },
        },
    }
}

/// An answer that names an error.
fn refuse(status: u16, e: &str) -> (r: Action)
    ensures
        action_view(r) == ActionView::Reply(refused(status as nat, e@)),
{
    let mut body = "{\"ok\":false,\"error\":\"".to_string();
    text::put(&mut body, e);
    text::put(&mut body, "\"}");
    Action::Reply(Answer { status, ctype: JSON, body })
}

/// An answer that names an error in the JSON of a request.
fn refuse_json(e: &str) -> (r: Action)
    ensures
        action_view(r) == ActionView::Reply(refused(400, "invalid json: "@ + e@)),
{
    let mut what = "invalid json: ".to_string();
    text::put(&mut what, e);
    refuse(400, what.as_str())
}

/// The answer that all is well.
fn accept() -> (r: Answer)
    ensures
        r@ == fine(),
{
    Answer { status: 200, ctype: JSON, body: "{\"ok\":true}".to_string() }
}

/// The answer to what has a wrong key.
fn forbid() -> (r: Action)
    ensures
        action_view(r) == ActionView::Reply(bad_key()),
{
    Action::Reply(
        Answer {
            status: 403,
            ctype: JSON,
            body: "{\"ok\":false,\"error\":\"bad key\"}".to_string(),
        },
    )
}

impl Saving {
    /// The answer once the file was written, or could not be.
    pub fn answer(&self, result: Result<(), String>) -> (r: Answer)
        ensures
            r@ == after_save(
                self.removed,
                match result {
                    Ok(_) => None,
                    Err(e) => Some(e@),
                },
            ),
    {
        match result {
            Err(e) => {
                let mut body = "{\"ok\":false,\"error\":\"".to_string();
                text::put(&mut body, e.as_str());
                text::put(&mut body, "\"}");
                Answer { status: 500, ctype: JSON, body }
            },
            Ok(_) => match self.removed {
                None => accept(),
                Some(b) => {
                    let mut body = "{\"ok\":true,\"removed\":".to_string();
                    if b {
                        text::put(&mut body, "true");
                    } else {
                        text::put(&mut body, "false");
                    }
                    text::put(&mut body, "}");
                    Answer { status: 200, ctype: JSON, body }
                },
            },
        }
    }
}

impl State {
    /// Whether the key of a request is that of the dashboard.
    fn has_key(&self, req: &Request) -> (r: bool)
        ensures
            r == (request_view(*req).key == self@.base.key),
    {
        match table::find(&req.query, "key") {
            Some(i) => text::same(req.query[i].1.as_str(), self.base.key.as_str()),
            None => {
                proof {
                    reveal_strlit("");
                    assert(""@ =~= Seq::<char>::empty());
                }
                text::same("", self.base.key.as_str())
            },
        }
    }

    /// Takes in a report at the time `t`.
    fn take_report(&mut self, req: &Request, t: u64) -> (r: Action)
        ensures
            (final(self)@, action_view(r)) == reported(old(self)@, request_view(*req), t as nat),
    {
        if !self.has_key(req) {
            return forbid();
        }
        match reader::parse(req.body.as_str()) {
            Ok(v) => {
                let name = v.str_at("name", "unknown");
                self.store_report(name.as_str(), t, v);
                Action::Reply(accept())
            },
            Err(e) => refuse_json(e.as_str()),
        }
    }

    /// Takes in the form for a host.
    fn take_host(&mut self, req: &Request) -> (r: Action)
        ensures
            (final(self)@, action_view(r)) == posted(old(self)@, request_view(*req)),
    {
        if !self.has_key(req) {
            return forbid();
        }
        match reader::parse(req.body.as_str()) {
            Ok(v) => match entry_from_json(&v) {
                Ok(h) => {
                    let text = self.upsert_host(h);
                    Action::Save(Saving { path: self.cfg_path.clone(), text, removed: None })
                },
                Err(e) => refuse(400, e.as_str()),
            },
            Err(e) => refuse_json(e.as_str()),
        }
    }

    /// Takes in the removal of a host.
    fn drop_host(&mut self, req: &Request) -> (r: Action)
        requires
            text::begins(req.path@, HOSTS@),
        ensures
            (final(self)@, action_view(r)) == deleted(old(self)@, request_view(*req)),
    {
        if !self.has_key(req) {
            return forbid();
        }
        match text::strip_prefix(req.path.as_str(), HOSTS) {
            Some(rest) => {
                let name = url::url_decode_name(rest.as_str());
                let (removed, text) = self.remove_host(name.as_str());
                Action::Save(
                    Saving { path: self.cfg_path.clone(), text, removed: Some(removed) },
                )
            },
            None => forbid(),
        }
    }

    /// Handles a request that comes at the time `t`.
    pub fn handle_at(&mut self, page: &str, req: &Request, t: u64) -> (r: Action)
        requires
            asks_for_data(request_view(*req)) ==> countable(old(self)@),
        ensures
            (final(self)@, action_view(r)) == handled(
                old(self)@,
                page@,
                request_view(*req),
                t as nat,
            ),
    {
        let get = text::same(req.method.as_str(), "GET");
        let post = text::same(req.method.as_str(), "POST");
        let path = req.path.as_str();
        if get && (text::same(path, "/") || text::same(path, "/index.html")) {
            Action::Reply(Answer { status: 200, ctype: HTML, body: page.to_string() })
        } else if post && text::same(path, "/api/report") {
            self.take_report(req, t)
        } else if get && text::same(path, "/api/hosts") {
            let body = config::hosts_to_json(&self.vps).to_string();
            Action::Reply(Answer { status: 200, ctype: JSON_TEXT, body })
        } else if post && text::same(path, "/api/hosts") {
            self.take_host(req)
        } else if text::same(req.method.as_str(), "DELETE") && text::starts_with(path, HOSTS) {
            self.drop_host(req)
        } else if get && text::same(path, "/api/data") {
            let body = self.data(t).to_string();
            Action::Reply(Answer { status: 200, ctype: JSON_TEXT, body })
        } else if get && text::same(path, "/api/health") {
            Action::Reply(accept())
        } else {
            Action::Reply(
                Answer {
                    status: 404,
                    ctype: JSON,
                    body: "{\"error\":\"not found\"}".to_string(),
                },
            )
        }
    }

    /// Handles a request now, whatever the clock says.
    pub fn handle(&mut self, page: &str, req: &Request) -> (r: Action)
        requires
            asks_for_data(request_view(*req)) ==> countable(old(self)@),
        ensures
            exists|t: u64|
                (final(self)@, action_view(r)) == #[trigger] handled(
                    old(self)@,
                    page@,
                    request_view(*req),
                    t as nat,
                ),
    {
        let t = clock::now();
        self.handle_at(page, req, t)
    }
}

/// How long to wait between two rounds through the panels, in seconds.
pub open spec fn pause_of(interval: nat) -> nat {
    if interval < 30 {
        30
    } else {
        interval
    }
}

/// How long to wait between two rounds through the panels, in seconds: at least 30.
pub fn poll_pause(interval: u64) -> (r: u64)
    ensures
        r == (if interval < 30 {
            30
        } else {
            interval
        }),
        r == pause_of(interval as nat),
{
    if interval < 30 {
        30
    } else {
        interval
    }
}

} // verus!
