//! The configuration of the dashboard.

use vstd::prelude::*;
use crate::json;
use crate::json::{J, Json};
use crate::num;
use crate::num::Num;
use crate::panel;
use crate::panel::PanelCreds;
use crate::reader;
use crate::roundtrip;
use crate::text;

verus! {

/// A host on the dashboard.
#[derive(Debug)]
pub struct VpsEntry {
    pub name: String,
    /// The page that opens when the card is clicked.
    pub manage_url: String,
    pub panel: Option<PanelCreds>,
    /// Further TCP endpoints that the agent should probe.
    pub port_check: Vec<String>,
    /// A quota in bytes, for when the panel reports none.
    pub quota: i64,
}

/// The contents of a host.
#[verifier::ext_equal]
pub ghost struct VpsView {
    pub name: Seq<char>,
    pub manage_url: Seq<char>,
    pub panel: Option<panel::CredsView>,
    pub port_check: Seq<Seq<char>>,
    pub quota: int,
}

/// The contents of the access to a panel, where there is one.
pub open spec fn creds_view(p: Option<PanelCreds>) -> Option<panel::CredsView> {
    match p {
        Some(c) => Some(c@),
        None => None,
    }
}

impl View for VpsEntry {
    type V = VpsView;

    open spec fn view(&self) -> VpsView {
        VpsView {
            name: self.name@,
            manage_url: self.manage_url@,
            panel: creds_view(self.panel),
            port_check: text::texts(self.port_check@),
            quota: self.quota as int,
        }
    }
}

impl Clone for VpsEntry {
    /// A copy.
    fn clone(&self) -> (r: VpsEntry)
        ensures
            r@ == self@,
    {
        let panel = match &self.panel {
            Some(p) => Some(p.clone()),
            None => None,
        };
        VpsEntry {
            name: self.name.clone(),
            manage_url: self.manage_url.clone(),
            panel,
            port_check: text::copy_all(&self.port_check),
            quota: self.quota,
        }
    }
}

/// The contents of a list of hosts.
pub open spec fn hosts_view(v: Seq<VpsEntry>) -> Seq<VpsView> {
    Seq::new(v.len(), |i: int| v[i]@)
}

/// A copy of a list of hosts.
pub fn copy_hosts(v: &Vec<VpsEntry>) -> (r: Vec<VpsEntry>)
    ensures
        hosts_view(r@) == hosts_view(v@),
{
    let mut out: Vec<VpsEntry> = Vec::new();
    let mut i: usize = 0;
    while i < v.len()
        invariant
            i <= v@.len(),
            hosts_view(out@) == hosts_view(v@).take(i as int),
        decreases v@.len() - i,
    {
        let ghost was = hosts_view(out@);
        out.push(v[i].clone());
        i = i + 1;
        assert(hosts_view(out@) =~= was.push(hosts_view(v@)[i - 1]));
        assert(hosts_view(out@) =~= hosts_view(v@).take(i as int));
    }
    assert(hosts_view(v@).take(i as int) =~= hosts_view(v@));
    out
}

/// The settings of the dashboard and its hosts.
#[derive(Debug)]
pub struct Config {
    pub listen: String,
    pub key: String,
    pub title: String,
    /// How often the page loads the data again, in seconds.
    pub refresh: u64,
    /// After how many seconds without a report a host counts as offline.
    pub offline_after: u64,
    /// How often the panels are asked for traffic, in seconds.
    pub panel_interval: u64,
    pub vps: Vec<VpsEntry>,
}

/// The contents of a configuration.
#[verifier::ext_equal]
pub ghost struct ConfigView {
    pub listen: Seq<char>,
    pub key: Seq<char>,
    pub title: Seq<char>,
    pub refresh: nat,
    pub offline_after: nat,
    pub panel_interval: nat,
    pub vps: Seq<VpsView>,
}

impl View for Config {
    type V = ConfigView;

    open spec fn view(&self) -> ConfigView {
        ConfigView {
            listen: self.listen@,
            key: self.key@,
            title: self.title@,
            refresh: self.refresh as nat,
            offline_after: self.offline_after as nat,
            panel_interval: self.panel_interval as nat,
            vps: hosts_view(self.vps@),
        }
    }
}

impl Clone for Config {
    /// A copy.
    fn clone(&self) -> (r: Config)
        ensures
            r@ == self@,
    {
        Config {
            listen: self.listen.clone(),
            key: self.key.clone(),
            title: self.title.clone(),
            refresh: self.refresh,
            offline_after: self.offline_after,
            panel_interval: self.panel_interval,
            vps: copy_hosts(&self.vps),
        }
    }
}

/// The settings where nothing else is said.
pub open spec fn defaults() -> ConfigView {
    ConfigView {
        listen: "0.0.0.0:8899"@,
        key: "change-me"@,
        title: "VPS 探针"@,
        refresh: 5,
        offline_after: 90,
        panel_interval: 300,
        vps: Seq::empty(),
    }
}

impl Default for Config {
    fn default() -> (c: Config)
        ensures
            c@ == defaults(),
    {
        let c = Config {
            listen: "0.0.0.0:8899".to_string(),
            key: "change-me".to_string(),
            title: "VPS 探针".to_string(),
            refresh: 5,
            offline_after: 90,
            panel_interval: 300,
            vps: Vec::new(),
        };
        assert(c@.vps =~= Seq::<VpsView>::empty());
        c
    }
}

// ------------------------------------------------------------------ from JSON

/// The access to a panel in the JSON of a host, where it names an address.
pub open spec fn panel_in(v: Json) -> Option<panel::CredsView> {
    match json::field(v, "panel"@) {
        None => None,
        Some(p) => {
            let url = json::str_at(p, "url"@, Seq::empty());
            if url.len() == 0 {
                None
            } else {
                Some(
                    panel::CredsView {
                        url,
                        username: json::str_at(p, "username"@, "admin"@),
                        password: json::str_at(p, "password"@, Seq::empty()),
                    },
                )
            }
        },
    }
}

/// The strings among the first `n` values.
pub open spec fn strings_to(a: Seq<Json>, n: int) -> Seq<Seq<char>>
    decreases n,
{
    if n <= 0 {
        Seq::empty()
    } else {
        match json::str_of(a[n - 1]) {
            Some(s) => strings_to(a, n - 1).push(s),
            None => strings_to(a, n - 1),
        }
    }
}

/// The endpoints to probe in the JSON of a host.
pub open spec fn ports_in(v: Json) -> Seq<Seq<char>> {
    let a = json::items_at(v, "port_check"@);
    strings_to(a, a.len() as int)
}

/// The host in a JSON value, under the given name.
pub open spec fn host_in(v: Json, name: Seq<char>) -> VpsView {
    VpsView {
        name,
        manage_url: json::str_at(v, "manage_url"@, Seq::empty()),
        panel: panel_in(v),
        port_check: ports_in(v),
        quota: json::int_at(v, "quota"@),
    }
}

/// The host in an element of the list of hosts in a configuration.
pub open spec fn listed_host(v: Json) -> VpsView {
    host_in(v, json::str_at(v, "name"@, "unnamed"@))
}

/// The number of the member `k` as an unsigned integer, or `d`.
pub open spec fn nat_at(v: Json, k: Seq<char>, d: nat) -> nat {
    match json::field(v, k) {
        Some(x) => match json::num_of(x) {
            Some(n) => num::to_nat(n),
            None => d,
        },
        None => d,
    }
}

/// The configuration in a JSON value.
pub open spec fn config_in(v: Json) -> ConfigView {
    let d = defaults();
    let hosts = json::items_at(v, "vps"@);
    ConfigView {
        listen: json::str_at(v, "listen"@, d.listen),
        key: json::str_at(v, "key"@, d.key),
        title: json::str_at(v, "title"@, d.title),
        refresh: nat_at(v, "refresh"@, d.refresh),
        offline_after: nat_at(v, "offline_after"@, d.offline_after),
        panel_interval: nat_at(v, "panel_interval"@, d.panel_interval),
        vps: Seq::new(hosts.len(), |i: int| listed_host(hosts[i])),
    }
}

/// Reads the access to a panel.
fn read_panel(v: &J) -> (r: Option<PanelCreds>)
    ensures
        creds_view(r) == panel_in(v.view()),
{
    proof {
        reveal_strlit("");
        assert(""@ =~= Seq::<char>::empty());
    }
    match v.get("panel") {
        None => None,
        Some(p) => {
            let url = p.str_at("url", "");
            if url.as_str().unicode_len() == 0 {
                None
            } else {
                Some(
                    PanelCreds {
                        url,
                        username: p.str_at("username", "admin"),
                        password: p.str_at("password", ""),
                    },
                )
            }
        },
    }
}

/// Reads the endpoints to probe.
pub(crate) fn read_ports(v: &J) -> (r: Vec<String>)
    ensures
        text::texts(r@) == ports_in(v.view()),
{
    let list = v.items_at("port_check");
    let ghost a = json::items_at(v.view(), "port_check"@);
    let mut out: Vec<String> = Vec::new();
    let mut i: usize = 0;
    assert(a.len() == list@.len());
    assert(text::texts(out@) =~= Seq::<Seq<char>>::empty());
    while i < list.len()
        invariant
            i <= list@.len(),
            a == json::ref_items(list@),
            text::texts(out@) == strings_to(a, i as int),
        decreases list@.len() - i,
    {
        let ghost was = text::texts(out@);
        assert(a[i as int] == list@[i as int].view());
        if let Some(s) = list[i].as_str() {
            out.push(s.to_string());
            assert(text::texts(out@) =~= was.push(s@));
        }
        i = i + 1;
    }
    out
}

/// Reads a host under the given name.
pub fn read_host(v: &J, name: String) -> (r: VpsEntry)
    ensures
        r@ == host_in(v.view(), name@),
{
    proof {
        reveal_strlit("");
        assert(""@ =~= Seq::<char>::empty());
    }
    VpsEntry {
        name,
        manage_url: v.str_at("manage_url", ""),
        panel: read_panel(v),
        port_check: read_ports(v),
        quota: v.int_at("quota"),
    }
}

/// Reads an unsigned integer, or takes `d`.
fn read_nat(v: &J, k: &str, d: u64) -> (r: u64)
    ensures
        r == nat_at(v.view(), k@, d as nat),
{
    match v.get(k) {
        Some(x) => match x.as_f64() {
            Some(n) => n.to_u64(),
            None => d,
        },
        None => d,
    }
}

/// Reads a configuration from a JSON value; what it does not say stays as it is by default.
pub fn from_json(v: &J) -> (c: Config)
    ensures
        c@ == config_in(v.view()),
{
    let d = Config::default();
    let list = v.items_at("vps");
    let ghost hosts = json::items_at(v.view(), "vps"@);
    let ghost all = config_in(v.view()).vps;
    let mut vps: Vec<VpsEntry> = Vec::new();
    let mut i: usize = 0;
    assert(hosts.len() == list@.len());
    while i < list.len()
        invariant
            i <= list@.len(),
            hosts == json::ref_items(list@),
            hosts == json::items_at(v.view(), "vps"@),
            all == config_in(v.view()).vps,
            hosts_view(vps@) == all.take(i as int),
        decreases list@.len() - i,
    {
        let ghost was = hosts_view(vps@);
        assert(hosts[i as int] == list@[i as int].view());
        let name = list[i].str_at("name", "unnamed");
        vps.push(read_host(list[i], name));
        i = i + 1;
        assert(hosts_view(vps@) =~= was.push(all[i - 1]));
        assert(hosts_view(vps@) =~= all.take(i as int));
    }
    assert(all.take(i as int) =~= all);
    Config {
        listen: v.str_at("listen", d.listen.as_str()),
        key: v.str_at("key", d.key.as_str()),
        title: v.str_at("title", d.title.as_str()),
        refresh: read_nat(v, "refresh", d.refresh),
        offline_after: read_nat(v, "offline_after", d.offline_after),
        panel_interval: read_nat(v, "panel_interval", d.panel_interval),
        vps,
    }
}

/// The configuration in the text of a configuration file, or what is wrong with it.
pub open spec fn loaded(s: Seq<char>) -> Result<ConfigView, Seq<char>> {
    match reader::meaning(s) {
        Ok(v) => Ok(config_in(v)),
        Err(e) => Err("config JSON invalid: "@ + e),
    }
}

/// Reads the text of a configuration file.
pub fn load(text: &str) -> (r: Result<Config, String>)
    ensures
        match r {
            Ok(c) => loaded(text@) == Ok::<ConfigView, Seq<char>>(c@),
            Err(e) => loaded(text@) == Err::<ConfigView, Seq<char>>(e@),
        },
{
    match reader::parse(text) {
        Ok(v) => Ok(from_json(&v)),
        Err(e) => {
            let mut out = "config JSON invalid: ".to_string();
            text::put(&mut out, e.as_str());
            Err(out)
        },
    }
}

// -------------------------------------------------------------------- to JSON

/// Strings as JSON values.
pub open spec fn json_strings(s: Seq<Seq<char>>) -> Seq<Json> {
    s.map_values(|x: Seq<char>| Json::Str(x))
}

/// The access to a panel as JSON.
pub open spec fn panel_json(p: Option<panel::CredsView>) -> Json {
    match p {
        None => Json::Null,
        Some(c) => Json::Obj(
            json::built(
                seq![
                    ("url"@, Json::Str(c.url)),
                    ("username"@, Json::Str(c.username)),
                    ("password"@, Json::Str(c.password)),
                ],
            ),
        ),
    }
}

/// The quota as a member, where there is one.
pub open spec fn quota_member(q: int) -> Seq<(Seq<char>, Json)> {
    if q > 0 {
        seq![("quota"@, Json::Num(num::of_int(q)))]
    } else {
        Seq::empty()
    }
}

/// A host as JSON.
pub open spec fn host_json(h: VpsView) -> Json {
    Json::Obj(
        json::built(
            seq![
                ("name"@, Json::Str(h.name)),
                ("manage_url"@, Json::Str(h.manage_url)),
                ("panel"@, panel_json(h.panel)),
                ("port_check"@, Json::Arr(json_strings(h.port_check))),
            ] + quota_member(h.quota),
        ),
    )
}

/// A list of hosts as JSON.
pub open spec fn hosts_json(v: Seq<VpsView>) -> Json {
    Json::Arr(v.map_values(|h: VpsView| host_json(h)))
}

/// A configuration as JSON.
pub open spec fn config_json(c: ConfigView) -> Json {
    Json::Obj(
        json::built(
            seq![
                ("listen"@, Json::Str(c.listen)),
                ("key"@, Json::Str(c.key)),
                ("title"@, Json::Str(c.title)),
                ("refresh"@, Json::Num(num::of_int(c.refresh as int))),
                ("offline_after"@, Json::Num(num::of_int(c.offline_after as int))),
                ("panel_interval"@, Json::Num(num::of_int(c.panel_interval as int))),
                ("vps"@, hosts_json(c.vps)),
            ],
        ),
    )
}

/// The text of a configuration file.
pub open spec fn dumped(c: ConfigView) -> Seq<char> {
    json::render(config_json(c), Some(Seq::empty())) + seq!['\n']
}

/// Strings as a JSON array.
fn strings_value(v: &Vec<String>) -> (r: J)
    ensures
        r.view() == Json::Arr(json_strings(text::texts(v@))),
{
    let ghost all = json_strings(text::texts(v@));
    let mut out: Vec<J> = Vec::new();
    let mut i: usize = 0;
    while i < v.len()
        invariant
            i <= v@.len(),
            all == json_strings(text::texts(v@)),
            json::items(out@) == all.take(i as int),
        decreases v@.len() - i,
    {
        let ghost was = json::items(out@);
        out.push(J::Str(v[i].clone()));
        i = i + 1;
        assert(json::items(out@) =~= was.push(all[i - 1]));
        assert(json::items(out@) =~= all.take(i as int));
    }
    assert(all.take(i as int) =~= all);
    proof {
        json::lemma_arr_view(out);
    }
    J::Arr(out)
}

/// The access to a panel as JSON.
fn panel_value(p: &Option<PanelCreds>) -> (r: J)
    ensures
        r.view() == panel_json(creds_view(*p)),
{
    match p {
        None => J::Null,
        Some(c) => {
            let fields: Vec<(String, J)> = vec![
                ("url".to_string(), J::Str(c.url.clone())),
                ("username".to_string(), J::Str(c.username.clone())),
                ("password".to_string(), J::Str(c.password.clone())),
            ];
            assert(json::members(fields@) =~= seq![
                ("url"@, Json::Str(c@.url)),
                ("username"@, Json::Str(c@.username)),
                ("password"@, Json::Str(c@.password)),
            ]);
            json::object(fields)
        },
    }
}

/// A host as JSON.
pub fn host_value(h: &VpsEntry) -> (r: J)
    ensures
        r.view() == host_json(h@),
{
    let mut fields: Vec<(String, J)> = vec![
        ("name".to_string(), J::Str(h.name.clone())),
        ("manage_url".to_string(), J::Str(h.manage_url.clone())),
        ("panel".to_string(), panel_value(&h.panel)),
        ("port_check".to_string(), strings_value(&h.port_check)),
    ];
    if h.quota > 0 {
        fields.push(("quota".to_string(), J::Num(Num::of_i64(h.quota))));
    }
    assert(json::members(fields@) =~= seq![
        ("name"@, Json::Str(h@.name)),
        ("manage_url"@, Json::Str(h@.manage_url)),
        ("panel"@, panel_json(h@.panel)),
        ("port_check"@, Json::Arr(json_strings(h@.port_check))),
    ] + quota_member(h@.quota));
    json::object(fields)
}

/// A list of hosts as JSON.
pub fn hosts_to_json(v: &Vec<VpsEntry>) -> (r: J)
    ensures
        r.view() == hosts_json(hosts_view(v@)),
{
    let ghost all = hosts_view(v@).map_values(|h: VpsView| host_json(h));
    let mut out: Vec<J> = Vec::new();
    let mut i: usize = 0;
    while i < v.len()
        invariant
            i <= v@.len(),
            all == hosts_view(v@).map_values(|h: VpsView| host_json(h)),
            json::items(out@) == all.take(i as int),
        decreases v@.len() - i,
    {
        let ghost was = json::items(out@);
        out.push(host_value(&v[i]));
        i = i + 1;
        assert(json::items(out@) =~= was.push(all[i - 1]));
        assert(json::items(out@) =~= all.take(i as int));
    }
    assert(all.take(i as int) =~= all);
    proof {
        json::lemma_arr_view(out);
    }
    J::Arr(out)
}

/// The text of a configuration file.
pub fn dump(c: &Config) -> (r: String)
    ensures
        r@ == dumped(c@),
{
    let fields: Vec<(String, J)> = vec![
        ("listen".to_string(), J::Str(c.listen.clone())),
        ("key".to_string(), J::Str(c.key.clone())),
        ("title".to_string(), J::Str(c.title.clone())),
        ("refresh".to_string(), J::Num(Num::of_u64(c.refresh))),
        ("offline_after".to_string(), J::Num(Num::of_u64(c.offline_after))),
        ("panel_interval".to_string(), J::Num(Num::of_u64(c.panel_interval))),
        ("vps".to_string(), hosts_to_json(&c.vps)),
    ];
    assert(json::members(fields@) =~= seq![
        ("listen"@, Json::Str(c@.listen)),
        ("key"@, Json::Str(c@.key)),
        ("title"@, Json::Str(c@.title)),
        ("refresh"@, Json::Num(num::of_int(c@.refresh as int))),
        ("offline_after"@, Json::Num(num::of_int(c@.offline_after as int))),
        ("panel_interval"@, Json::Num(num::of_int(c@.panel_interval as int))),
        ("vps"@, hosts_json(c@.vps)),
    ]);
    let v = json::object(fields);
    let pad = String::new();
    assert(pad@ =~= Seq::<char>::empty());
    let mut out = v.to_lines(pad);
    out.push('\n');
    assert(out@ =~= dumped(c@));
    out
}

// ----------------------------------------------------------------------- laws

/// The largest whole number up to which every whole number is a double.
pub open spec fn exact_up_to() -> int {
    0x20_0000_0000_0000
}

/// What a host's JSON keeps of it: a quota below zero and an access without an address are lost.
pub open spec fn kept_host(h: VpsView) -> VpsView {
    VpsView {
        panel: match h.panel {
            Some(p) if p.url.len() > 0 => Some(p),
            _ => None,
        },
        quota: if h.quota > 0 {
            h.quota
        } else {
            0
        },
        ..h
    }
}

/// What the text of a configuration keeps of it.
pub open spec fn kept(c: ConfigView) -> ConfigView {
    ConfigView { vps: c.vps.map_values(|h: VpsView| kept_host(h)), ..c }
}

/// Whether the numbers of a configuration are small enough for doubles.
pub open spec fn small_numbers(c: ConfigView) -> bool {
    &&& c.refresh <= exact_up_to()
    &&& c.offline_after <= exact_up_to()
    &&& c.panel_interval <= exact_up_to()
    &&& forall|i: int| 0 <= i < c.vps.len() ==> (#[trigger] c.vps[i]).quota <= exact_up_to()
}

pub proof fn lemma_strings(p: Seq<Seq<char>>, n: int)
    requires
        0 <= n <= p.len(),
    ensures
        strings_to(json_strings(p), n) == p.take(n),
    decreases n,
{
    if n > 0 {
        lemma_strings(p, n - 1);
        assert(p.take(n) =~= p.take(n - 1).push(p[n - 1]));
    } else {
        assert(p.take(0) =~= Seq::<Seq<char>>::empty());
    }
}

pub proof fn lemma_panel(p: panel::CredsView)
    ensures
        roundtrip::faithful(panel_json(Some(p))),
        ({
            let v = panel_json(Some(p));
            &&& json::field(v, "url"@) == Some(Json::Str(p.url))
            &&& json::field(v, "username"@) == Some(Json::Str(p.username))
            &&& json::field(v, "password"@) == Some(Json::Str(p.password))
        }),
{
    reveal_strlit("url");
    reveal_strlit("username");
    reveal_strlit("password");
    let l = seq![
        ("url"@, Json::Str(p.url)),
        ("username"@, Json::Str(p.username)),
        ("password"@, Json::Str(p.password)),
    ];
    assert("username"@[0] != "password"@[0]);
    assert("url"@.len() == 3);
    assert("username"@.len() == 8);
    assert("password"@.len() == 8);
    roundtrip::lemma_object_faithful(l);
    json::lemma_built_field(l, 0);
    json::lemma_built_field(l, 1);
    json::lemma_built_field(l, 2);
}

/// The members of a host's JSON.
pub proof fn lemma_host_fields(h: VpsView)
    ensures
        ({
            let v = host_json(h);
            &&& json::field(v, "name"@) == Some(Json::Str(h.name))
            &&& json::field(v, "manage_url"@) == Some(Json::Str(h.manage_url))
            &&& json::field(v, "panel"@) == Some(panel_json(h.panel))
            &&& json::field(v, "port_check"@) == Some(Json::Arr(json_strings(h.port_check)))
            &&& json::field(v, "quota"@) == (if h.quota > 0 {
                Some(Json::Num(num::of_int(h.quota)))
            } else {
                None
            })
        }),
{
    reveal_strlit("name");
    reveal_strlit("manage_url");
    reveal_strlit("panel");
    reveal_strlit("port_check");
    reveal_strlit("quota");
    let base = seq![
        ("name"@, Json::Str(h.name)),
        ("manage_url"@, Json::Str(h.manage_url)),
        ("panel"@, panel_json(h.panel)),
        ("port_check"@, Json::Arr(json_strings(h.port_check))),
    ];
    let l = base + quota_member(h.quota);
    assert("manage_url"@[0] != "port_check"@[0]);
    assert("panel"@[0] != "quota"@[0]);
    assert("name"@.len() == 4);
    assert("manage_url"@.len() == 10);
    assert("panel"@.len() == 5);
    assert("port_check"@.len() == 10);
    assert("quota"@.len() == 5);
    assert(l[0] == base[0] && l[1] == base[1] && l[2] == base[2] && l[3] == base[3]);
    json::lemma_built_field(l, 0);
    json::lemma_built_field(l, 1);
    json::lemma_built_field(l, 2);
    json::lemma_built_field(l, 3);
    if h.quota > 0 {
        assert(l[4] == quota_member(h.quota)[0]);
        json::lemma_built_field(l, 4);
    } else {
        assert(l =~= base);
        json::lemma_built_no_field(l, "quota"@);
    }
}

/// Every host comes back from its JSON, but for a quota below zero and an access without an
/// address.
pub proof fn law_host_json_reads_back(h: VpsView)
    requires
        h.quota <= exact_up_to(),
    ensures
        roundtrip::faithful(host_json(h)),
        listed_host(host_json(h)) == kept_host(h),
        host_in(host_json(h), h.name) == kept_host(h),
        json::str_at(host_json(h), "name"@, Seq::empty()) == h.name,
{
    let v = host_json(h);
    lemma_host_fields(h);
    lemma_strings(h.port_check, h.port_check.len() as int);
    assert(h.port_check.take(h.port_check.len() as int) =~= h.port_check);
    assert(ports_in(v) == h.port_check);
    if h.quota > 0 {
        num::law_small_whole_numbers_are_exact(h.quota);
    }
    match h.panel {
        Some(p) => {
            lemma_panel(p);
        },
        None => {},
    }
    assert(panel_in(v) == kept_host(h).panel);
    let base = seq![
        ("name"@, Json::Str(h.name)),
        ("manage_url"@, Json::Str(h.manage_url)),
        ("panel"@, panel_json(h.panel)),
        ("port_check"@, Json::Arr(json_strings(h.port_check))),
    ];
    let l = base + quota_member(h.quota);
    roundtrip::lemma_array_faithful(json_strings(h.port_check));
    assert forall|i: int| 0 <= i < l.len() implies roundtrip::faithful((#[trigger] l[i]).1) by {
        if i < 4 {
            assert(l[i] == base[i]);
        } else {
            assert(l[i] == quota_member(h.quota)[0]);
        }
    }
    roundtrip::lemma_object_faithful(l);
}

/// The members of a configuration's JSON.
proof fn lemma_config_fields(c: ConfigView)
    ensures
        ({
            let v = config_json(c);
            &&& json::field(v, "listen"@) == Some(Json::Str(c.listen))
            &&& json::field(v, "key"@) == Some(Json::Str(c.key))
            &&& json::field(v, "title"@) == Some(Json::Str(c.title))
            &&& json::field(v, "refresh"@) == Some(Json::Num(num::of_int(c.refresh as int)))
            &&& json::field(v, "offline_after"@) == Some(
                Json::Num(num::of_int(c.offline_after as int)),
            )
            &&& json::field(v, "panel_interval"@) == Some(
                Json::Num(num::of_int(c.panel_interval as int)),
            )
            &&& json::field(v, "vps"@) == Some(hosts_json(c.vps))
        }),
{
    reveal_strlit("listen");
    reveal_strlit("key");
    reveal_strlit("title");
    reveal_strlit("refresh");
    reveal_strlit("offline_after");
    reveal_strlit("panel_interval");
    reveal_strlit("vps");
    let l = seq![
        ("listen"@, Json::Str(c.listen)),
        ("key"@, Json::Str(c.key)),
        ("title"@, Json::Str(c.title)),
        ("refresh"@, Json::Num(num::of_int(c.refresh as int))),
        ("offline_after"@, Json::Num(num::of_int(c.offline_after as int))),
        ("panel_interval"@, Json::Num(num::of_int(c.panel_interval as int))),
        ("vps"@, hosts_json(c.vps)),
    ];
    assert("key"@[0] != "vps"@[0]);
    assert("listen"@.len() == 6);
    assert("key"@.len() == 3);
    assert("title"@.len() == 5);
    assert("refresh"@.len() == 7);
    assert("offline_after"@.len() == 13);
    assert("panel_interval"@.len() == 14);
    assert("vps"@.len() == 3);
    json::lemma_built_field(l, 0);
    json::lemma_built_field(l, 1);
    json::lemma_built_field(l, 2);
    json::lemma_built_field(l, 3);
    json::lemma_built_field(l, 4);
    json::lemma_built_field(l, 5);
    json::lemma_built_field(l, 6);
}

/// A configuration that was written to a file and read again is what it was, but that a quota
/// below zero becomes none and an access without an address is dropped. Only numbers beyond 2 to
/// the power 53 may not come back.
pub proof fn law_dump_loads_back(c: ConfigView)
    requires
        small_numbers(c),
    ensures
        loaded(dumped(c)) == Ok::<ConfigView, Seq<char>>(kept(c)),
        (forall|i: int|
            0 <= i < c.vps.len() ==> (#[trigger] c.vps[i]).quota >= 0 && (c.vps[i].panel matches Some(
                p,
            ) ==> p.url.len() > 0)) ==> loaded(dumped(c)) == Ok::<ConfigView, Seq<char>>(c),
{
    let v = config_json(c);
    lemma_config_fields(c);
    num::law_small_whole_numbers_are_exact(c.refresh as int);
    num::law_small_whole_numbers_are_exact(c.offline_after as int);
    num::law_small_whole_numbers_are_exact(c.panel_interval as int);
    let hosts = c.vps.map_values(|h: VpsView| host_json(h));
    assert forall|i: int| 0 <= i < hosts.len() implies roundtrip::faithful(#[trigger] hosts[i])
        && listed_host(hosts[i]) == kept_host(c.vps[i]) by {
        law_host_json_reads_back(c.vps[i]);
    }
    roundtrip::lemma_array_faithful(hosts);
    let l = seq![
        ("listen"@, Json::Str(c.listen)),
        ("key"@, Json::Str(c.key)),
        ("title"@, Json::Str(c.title)),
        ("refresh"@, Json::Num(num::of_int(c.refresh as int))),
        ("offline_after"@, Json::Num(num::of_int(c.offline_after as int))),
        ("panel_interval"@, Json::Num(num::of_int(c.panel_interval as int))),
        ("vps"@, hosts_json(c.vps)),
    ];
    assert forall|i: int| 0 <= i < l.len() implies roundtrip::faithful((#[trigger] l[i]).1) by {}
    roundtrip::lemma_object_faithful(l);
    assert(config_in(v) =~= kept(c)) by {
        assert(config_in(v).vps =~= kept(c).vps);
    }
    roundtrip::law_written_reads_back(v, Some(Seq::empty()), seq!['\n']);
    if forall|i: int|
        0 <= i < c.vps.len() ==> (#[trigger] c.vps[i]).quota >= 0 && (c.vps[i].panel matches Some(
            p,
        ) ==> p.url.len() > 0) {
        assert(kept(c).vps =~= c.vps) by {
            assert forall|i: int| 0 <= i < c.vps.len() implies #[trigger] kept(c).vps[i]
                == c.vps[i] by {
                assert(c.vps[i].quota >= 0);
            }
        }
    }
}

} // verus!
