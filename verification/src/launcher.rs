//! The state of the launcher's window, and how clicks and replies change it.

use vstd::prelude::*;
use crate::config;
use crate::config::{Config, VpsEntry};
use crate::digits;
use crate::gui;
use crate::gui::HostForm;
use crate::http;
use crate::http::{Call, Resp};
use crate::panel;
use crate::sent;
use crate::table;
use crate::text;
use crate::url;

verus! {

/// What the window shows and holds: the settings of the dashboard with its hosts, those of the
/// agent, which of the two runs, the form that is open, and the line that says what happened last.
#[derive(Debug)]
pub struct Launcher {
    pub title: String,
    pub listen: String,
    pub key: String,
    pub refresh: String,
    pub offline_after: String,
    pub hosts: Vec<HostForm>,
    pub serve_running: bool,
    pub agent_server: String,
    pub agent_key: String,
    pub agent_name: String,
    pub agent_interval: String,
    pub agent_ports: String,
    pub agent_running: bool,
    pub editor_open: bool,
    pub editor: HostForm,
    pub editing: Option<usize>,
    pub status: String,
}

/// The contents of the window.
#[verifier::ext_equal]
pub ghost struct LauncherView {
    pub title: Seq<char>,
    pub listen: Seq<char>,
    pub key: Seq<char>,
    pub refresh: Seq<char>,
    pub offline_after: Seq<char>,
    pub hosts: Seq<gui::FormView>,
    pub serve_running: bool,
    pub agent_server: Seq<char>,
    pub agent_key: Seq<char>,
    pub agent_name: Seq<char>,
    pub agent_interval: Seq<char>,
    pub agent_ports: Seq<char>,
    pub agent_running: bool,
    pub editor_open: bool,
    pub editor: gui::FormView,
    pub editing: Option<usize>,
    pub status: Seq<char>,
}

impl View for Launcher {
    type V = LauncherView;

    open spec fn view(&self) -> LauncherView {
        LauncherView {
            title: self.title@,
            listen: self.listen@,
            key: self.key@,
            refresh: self.refresh@,
            offline_after: self.offline_after@,
            hosts: gui::forms_view(self.hosts@),
            serve_running: self.serve_running,
            agent_server: self.agent_server@,
            agent_key: self.agent_key@,
            agent_name: self.agent_name@,
            agent_interval: self.agent_interval@,
            agent_ports: self.agent_ports@,
            agent_running: self.agent_running,
            editor_open: self.editor_open,
            editor: self.editor@,
            editing: self.editing,
            status: self.status@,
        }
    }
}

// ---------------------------------------------------------------------- start

/// The window at the start, without a configuration.
pub open spec fn bare_window() -> LauncherView {
    LauncherView {
        title: "我的 VPS 监控面板"@,
        listen: "0.0.0.0:8899"@,
        key: "change-me"@,
        refresh: "5"@,
        offline_after: "90"@,
        hosts: Seq::empty(),
        serve_running: false,
        agent_server: "http://127.0.0.1:8899"@,
        agent_key: "change-me"@,
        agent_name: Seq::empty(),
        agent_interval: "30"@,
        agent_ports: Seq::empty(),
        agent_running: false,
        editor_open: false,
        editor: gui::blank_form(),
        editing: None,
        status: "就绪"@,
    }
}

/// The window at the start, filled in from a configuration.
pub open spec fn filled_window(c: config::ConfigView) -> LauncherView {
    LauncherView {
        title: c.title,
        listen: c.listen,
        key: c.key,
        refresh: digits::decimal(c.refresh),
        offline_after: digits::decimal(c.offline_after),
        hosts: c.vps.map_values(|h: config::VpsView| gui::form_of(h)),
        ..bare_window()
    }
}

/// The number that a text writes, or `d`.
pub open spec fn number_or(s: Seq<char>, d: nat) -> nat {
    match digits::unsigned(text::trimmed(s), 10, u64::MAX as nat) {
        Some(n) => n,
        None => d,
    }
}

/// The configuration that the window describes.
pub open spec fn config_of(w: LauncherView) -> config::ConfigView {
    config::ConfigView {
        listen: text::trimmed(w.listen),
        key: text::trimmed(w.key),
        title: text::trimmed(w.title),
        refresh: number_or(w.refresh, 5),
        offline_after: number_or(w.offline_after, 90),
        panel_interval: 300,
        vps: w.hosts.map_values(|f: gui::FormView| gui::entry_of(f)),
    }
}

/// The port on which the dashboard listens: what follows the last colon, or 8899.
pub open spec fn port_of(listen: Seq<char>) -> nat {
    let i = text::last_of(listen, ':', listen.len() as int);
    match digits::unsigned(listen.skip(i + 1), 10, 65535) {
        Some(p) => p,
        None => 8899,
    }
}

/// Reads a number in a form.
fn read_or(s: &str, d: u64) -> (r: u64)
    ensures
        r == number_or(s@, d as nat),
{
    match digits::read_unsigned(text::trim(s).as_str(), 10, u64::MAX) {
        Some(n) => n,
        None => d,
    }
}

/// The arguments with which the agent is started.
pub open spec fn agent_arguments(w: LauncherView) -> Seq<Seq<char>> {
    seq![
        "agent"@,
        "--server"@,
        text::trimmed(w.agent_server),
        "--key"@,
        text::trimmed(w.agent_key),
    ] + option_arguments("--name"@, text::trimmed(w.agent_name), text::trimmed(w.agent_name).len()
        > 0) + option_arguments(
        "--interval"@,
        text::trimmed(w.agent_interval),
        number_or(w.agent_interval, 30) != 30,
    ) + option_arguments(
        "--port-check"@,
        text::trimmed(w.agent_ports),
        text::trimmed(w.agent_ports).len() > 0,
    )
}

/// An option with its value, where it is given.
pub open spec fn option_arguments(name: Seq<char>, value: Seq<char>, given: bool) -> Seq<
    Seq<char>,
> {
    if given {
        seq![name, value]
    } else {
        Seq::empty()
    }
}

/// Adds an option with its value, where it is given.
fn put_option(args: &mut Vec<String>, name: &str, value: String, given: bool)
    ensures
        text::texts(final(args)@) == text::texts(old(args)@) + option_arguments(
            name@,
            value@,
            given,
        ),
{
    let ghost was = text::texts(args@);
    if given {
        args.push(name.to_string());
        args.push(value);
    }
    assert(text::texts(args@) =~= was + option_arguments(name@, value@, given));
}

impl Launcher {
    /// The window at the start, filled in from a configuration where there is one.
    pub fn new(cfg: Option<&Config>) -> (r: Launcher)
        ensures
            r@ == (match cfg {
                Some(c) => filled_window(c@),
                None => bare_window(),
            }),
    {
        let hosts: Vec<HostForm> = Vec::new();
        assert(gui::forms_view(hosts@) =~= Seq::<gui::FormView>::empty());
        let mut w = Launcher {
            title: "我的 VPS 监控面板".to_string(),
            listen: "0.0.0.0:8899".to_string(),
            key: "change-me".to_string(),
            refresh: "5".to_string(),
            offline_after: "90".to_string(),
            hosts,
            serve_running: false,
            agent_server: "http://127.0.0.1:8899".to_string(),
            agent_key: "change-me".to_string(),
            agent_name: String::new(),
            agent_interval: "30".to_string(),
            agent_ports: String::new(),
            agent_running: false,
            editor_open: false,
            editor: HostForm::default(),
            editing: None,
            status: "就绪".to_string(),
        };
        assert(w@ =~= bare_window());
        if let Some(c) = cfg {
            w.title = c.title.clone();
            w.listen = c.listen.clone();
            w.key = c.key.clone();
            w.refresh = digits::show_unsigned(c.refresh);
            w.offline_after = digits::show_unsigned(c.offline_after);
            w.hosts = forms_of(&c.vps);
            assert(w@ =~= filled_window(c@));
        }
        w
    }

    /// The configuration that the window describes.
    pub fn build_config(&self) -> (r: Config)
        ensures
            r@ == config_of(self@),
    {
        let ghost all = config_of(self@).vps;
        let mut vps: Vec<VpsEntry> = Vec::new();
        let mut i: usize = 0;
        while i < self.hosts.len()
            invariant
                i <= self.hosts@.len(),
                all == config_of(self@).vps,
                config::hosts_view(vps@) == all.take(i as int),
            decreases self.hosts@.len() - i,
        {
            let ghost was = config::hosts_view(vps@);
            vps.push(self.hosts[i].to_entry());
            i = i + 1;
            assert(config::hosts_view(vps@) =~= was.push(all[i - 1]));
            assert(config::hosts_view(vps@) =~= all.take(i as int));
        }
        assert(all.take(i as int) =~= all);
        Config {
            listen: text::trim(self.listen.as_str()),
            key: text::trim(self.key.as_str()),
            title: text::trim(self.title.as_str()),
            refresh: read_or(self.refresh.as_str(), 5),
            offline_after: read_or(self.offline_after.as_str(), 90),
            panel_interval: 300,
            vps,
        }
    }

    /// The port on which the dashboard listens.
    pub fn listen_port(&self) -> (r: u16)
        ensures
            r == port_of(self@.listen),
    {
        let cs = text::chars_of(self.listen.as_str());
        let n = cs.len();
        let from: usize = match text::find_last(&cs, ':') {
            Some(i) => i + 1,
            None => 0,
        };
        proof {
            text::lemma_last_of(cs@, ':', cs@.len() as int);
        }
        assert(cs@.subrange(from as int, n as int) =~= cs@.skip(from as int));
        match digits::read_unsigned(text::string_of(&cs, from, n).as_str(), 10, 65535) {
            Some(p) => p as u16,
            None => 8899,
        }
    }

    /// The arguments with which the agent is started.
    pub fn agent_args(&self) -> (r: Vec<String>)
        ensures
            text::texts(r@) == agent_arguments(self@),
    {
        let mut args: Vec<String> = vec![
            "agent".to_string(),
            "--server".to_string(),
            text::trim(self.agent_server.as_str()),
            "--key".to_string(),
            text::trim(self.agent_key.as_str()),
        ];
        assert(text::texts(args@) =~= seq![
            "agent"@,
            "--server"@,
            text::trimmed(self@.agent_server),
            "--key"@,
            text::trimmed(self@.agent_key),
        ]);
        let name = text::trim(self.agent_name.as_str());
        let named = name.as_str().unicode_len() > 0;
        put_option(&mut args, "--name", name, named);
        let interval = text::trim(self.agent_interval.as_str());
        put_option(
            &mut args,
            "--interval",
            interval,
            read_or(self.agent_interval.as_str(), 30) != 30,
        );
        let ports = text::trim(self.agent_ports.as_str());
        let probed = ports.as_str().unicode_len() > 0;
        put_option(&mut args, "--port-check", ports, probed);
        args
    }
}

/// Fills in forms with the hosts of a configuration.
fn forms_of(v: &Vec<VpsEntry>) -> (r: Vec<HostForm>)
    ensures
        gui::forms_view(r@) == config::hosts_view(v@).map_values(
            |h: config::VpsView| gui::form_of(h),
        ),
{
    let ghost all = config::hosts_view(v@).map_values(|h: config::VpsView| gui::form_of(h));
    let mut out: Vec<HostForm> = Vec::new();
    let mut i: usize = 0;
    while i < v.len()
        invariant
            i <= v@.len(),
            all == config::hosts_view(v@).map_values(|h: config::VpsView| gui::form_of(h)),
            gui::forms_view(out@) == all.take(i as int),
        decreases v@.len() - i,
    {
        let ghost was = gui::forms_view(out@);
        out.push(HostForm::from_entry(&v[i]));
        i = i + 1;
        assert(gui::forms_view(out@) =~= was.push(all[i - 1]));
        assert(gui::forms_view(out@) =~= all.take(i as int));
    }
    assert(all.take(i as int) =~= all);
    out
}

// ---------------------------------------------------------------------- calls

/// The address of the dashboard on this machine.
pub open spec fn local_url(w: LauncherView) -> Seq<char> {
    "http://127.0.0.1:"@ + digits::decimal(port_of(w.listen))
}

/// The call that sends a host to the dashboard.
pub open spec fn host_call(w: LauncherView, f: gui::FormView) -> http::CallView {
    http::CallView {
        method: "POST"@,
        url: local_url(w) + "/api/hosts?key="@ + text::trimmed(w.key),
        headers: seq![("Content-Type"@, "application/json"@)],
        body: Some(sent::source_text(gui::form_source(f))),
    }
}

/// The call that removes a host from the dashboard.
pub open spec fn delete_call(w: LauncherView, name: Seq<char>) -> http::CallView {
    http::CallView {
        method: "DELETE"@,
        url: local_url(w) + "/api/hosts/"@ + url::encoded(name) + "?key="@ + text::trimmed(w.key),
        headers: Seq::empty(),
        body: None,
    }
}

/// The call for the list of hosts.
pub open spec fn list_call(w: LauncherView) -> http::CallView {
    http::CallView {
        method: "GET"@,
        url: local_url(w) + "/api/hosts"@,
        headers: Seq::empty(),
        body: None,
    }
}

/// An optional call.
pub open spec fn call_view(c: Option<Call>) -> Option<http::CallView> {
    match c {
        Some(x) => Some(x@),
        None => None,
    }
}

impl Launcher {
    /// The address of the dashboard on this machine.
    pub fn page_url(&self) -> (r: String)
        ensures
            r@ == local_url(self@),
    {
        let mut out = "http://127.0.0.1:".to_string();
        digits::put_decimal(&mut out, self.listen_port() as u64);
        out
    }

    /// The call that sends the host in the form to the dashboard.
    fn host_post(&self) -> (c: Call)
        ensures
            c@ == host_call(self@, self@.editor),
    {
        let mut url = self.page_url();
        text::put(&mut url, "/api/hosts?key=");
        text::put(&mut url, text::trim(self.key.as_str()).as_str());
        let headers: Vec<(String, String)> = vec![
            ("Content-Type".to_string(), "application/json".to_string()),
        ];
        assert(table::pairs(headers@) =~= seq![("Content-Type"@, "application/json"@)]);
        let body = self.editor.host_to_json();
        Call { method: "POST".to_string(), url, headers, body: Some(body) }
    }

    /// The call that removes a host from the dashboard.
    fn host_delete(&self, name: &str) -> (c: Call)
        ensures
            c@ == delete_call(self@, name@),
    {
        let mut url = self.page_url();
        text::put(&mut url, "/api/hosts/");
        text::put(&mut url, url::url_encode(name).as_str());
        text::put(&mut url, "?key=");
        text::put(&mut url, text::trim(self.key.as_str()).as_str());
        let headers: Vec<(String, String)> = Vec::new();
        assert(table::pairs(headers@) =~= Seq::<(Seq<char>, Seq<char>)>::empty());
        Call { method: "DELETE".to_string(), url, headers, body: None }
    }
}

// --------------------------------------------------------------------- clicks

/// The window with a form open: an empty one, or one with the host at a place.
pub open spec fn opened(w: LauncherView, place: Option<usize>) -> LauncherView {
    LauncherView {
        editor: match place {
            Some(i) => w.hosts[i as int],
            None => gui::blank_form(),
        },
        editing: place,
        editor_open: true,
        ..w
    }
}

/// The window with no form open.
pub open spec fn closed(w: LauncherView) -> LauncherView {
    LauncherView { editor_open: false, editing: None, ..w }
}

/// The window once the host in its form was taken over: in its place where one was edited, else at
/// the end.
pub open spec fn taken_over(w: LauncherView) -> LauncherView {
    LauncherView {
        hosts: match w.editing {
            Some(i) => if i < w.hosts.len() {
                w.hosts.update(i as int, w.editor)
            } else {
                w.hosts
            },
            None => w.hosts.push(w.editor),
        },
        editor_open: false,
        editing: None,
        status: "已保存服务器"@,
        ..w
    }
}

/// The window and the call after a click on "save": a form without a name stays open; the host goes
/// to the dashboard first where that runs.
pub open spec fn after_save_click(w: LauncherView) -> (LauncherView, Option<http::CallView>) {
    if text::trimmed(w.editor.name).len() == 0 {
        (LauncherView { status: "名称不能为空"@, ..w }, None)
    } else if w.serve_running {
        (w, Some(host_call(w, w.editor)))
    } else {
        (taken_over(w), None)
    }
}

/// What a reply other than 200, or none, is called after what was tried.
pub open spec fn failure(what: Seq<char>, r: Result<http::RespView, Seq<char>>) -> Seq<char> {
    match r {
        Ok(x) => what + "HTTP "@ + digits::decimal(x.status),
        Err(e) => what + e,
    }
}

/// Whether a reply has the status 200.
pub open spec fn succeeded(r: Result<http::RespView, Seq<char>>) -> bool {
    r matches Ok(x) && x.status == 200
}

/// The window after the reply to a host that was sent.
pub open spec fn after_host_reply(
    w: LauncherView,
    r: Result<http::RespView, Seq<char>>,
) -> LauncherView {
    if succeeded(r) {
        taken_over(w)
    } else {
        LauncherView { status: failure("添加主机失败："@, r), ..w }
    }
}

/// The window and the call after a click on "delete" for host `i`.
pub open spec fn after_delete_click(w: LauncherView, i: int) -> (
    LauncherView,
    Option<http::CallView>,
) {
    (
        LauncherView { hosts: w.hosts.remove(i), ..w },
        if w.serve_running {
            Some(delete_call(w, w.hosts[i].name))
        } else {
            None
        },
    )
}

/// The window and the call after a click on "refresh".
pub open spec fn after_refresh_click(w: LauncherView) -> (LauncherView, Option<http::CallView>) {
    if w.serve_running {
        (w, Some(list_call(w)))
    } else {
        (LauncherView { status: "面板未运行，无法刷新"@, ..w }, None)
    }
}

/// The window after the reply to the call for the list of hosts.
pub open spec fn after_list_reply(
    w: LauncherView,
    r: Result<http::RespView, Seq<char>>,
) -> LauncherView {
    match r {
        Ok(x) if x.status == 200 => {
            let hosts = gui::forms_in(x.body);
            LauncherView {
                hosts,
                status: "已刷新，共 "@ + digits::decimal(hosts.len()) + " 台"@,
                ..w
            }
        },
        _ => LauncherView { status: failure("刷新失败："@, r), ..w },
    }
}

/// Says what went wrong.
fn describe(what: &str, r: &Result<Resp, String>) -> (s: String)
    ensures
        s@ == failure(what@, panel::reply_view(*r)),
{
    let mut out = what.to_string();
    match r {
        Ok(x) => {
            text::put(&mut out, "HTTP ");
            digits::put_decimal(&mut out, x.status as u64);
        },
        Err(e) => {
            text::put(&mut out, e.as_str());
        },
    }
    out
}

impl Launcher {
    /// A click on "add": opens an empty form.
    pub fn add_click(&mut self)
        ensures
            final(self)@ == (LauncherView {
                editor: gui::blank_form(),
                editing: None,
                editor_open: true,
                ..old(self)@
            }),
            final(self)@ == opened(old(self)@, None),
    {
        self.editor = HostForm::default();
        self.editing = None;
        self.editor_open = true;
    }

    /// A click on "edit" for host `i`: opens a form with the host.
    pub fn edit_click(&mut self, i: usize)
        requires
            i < old(self)@.hosts.len(),
        ensures
            final(self)@ == (LauncherView {
                editor: old(self)@.hosts[i as int],
                editing: Some(i),
                editor_open: true,
                ..old(self)@
            }),
            final(self)@ == opened(old(self)@, Some(i)),
    {
        self.editor = self.hosts[i].clone();
        self.editing = Some(i);
        self.editor_open = true;
    }

    /// A click on "cancel", or the form's window was closed.
    pub fn close_editor(&mut self)
        ensures
            final(self)@ == (LauncherView { editor_open: false, editing: None, ..old(self)@ }),
            final(self)@ == closed(old(self)@),
    {
        self.editor_open = false;
        self.editing = None;
    }

    /// Takes over the host in the form.
    fn take_over(&mut self)
        ensures
            final(self)@ == taken_over(old(self)@),
    {
        let ghost was = self@.hosts;
        let h = self.editor.clone();
        match self.editing {
            Some(i) => {
                if i < self.hosts.len() {
                    self.hosts.set(i, h);
                    assert(self@.hosts =~= was.update(i as int, old(self)@.editor));
                }
            },
            None => {
                self.hosts.push(h);
                assert(self@.hosts =~= was.push(old(self)@.editor));
            },
        }
        self.editor_open = false;
        self.editing = None;
        self.status = "已保存服务器".to_string();
    }

    /// A click on "save". Gives the call to make, where there is one.
    pub fn save_click(&mut self) -> (r: Option<Call>)
        ensures
            (final(self)@, call_view(r)) == after_save_click(old(self)@),
    {
        if text::trim(self.editor.name.as_str()).as_str().unicode_len() == 0 {
            self.status = "名称不能为空".to_string();
            None
        } else if self.serve_running {
            Some(self.host_post())
        } else {
            self.take_over();
            None
        }
    }

    /// The reply to a host that was sent.
    pub fn host_reply(&mut self, r: &Result<Resp, String>)
        ensures
            final(self)@ == after_host_reply(old(self)@, panel::reply_view(*r)),
    {
        match r {
            Ok(x) if x.status == 200 => {
                self.take_over();
            },
            _ => {
                self.status = describe("添加主机失败：", r);
            },
        }
    }

    /// A click on "delete" for host `i`. Gives the call to make, where there is one.
    pub fn delete_click(&mut self, i: usize) -> (r: Option<Call>)
        requires
            i < old(self)@.hosts.len(),
        ensures
            (final(self)@, call_view(r)) == after_delete_click(old(self)@, i as int),
    {
        let ghost was = self@.hosts;
        assert(was[i as int] == self.hosts@[i as int]@);
        let call = if self.serve_running {
            Some(self.host_delete(self.hosts[i].name.as_str()))
        } else {
            None
        };
        self.hosts.remove(i);
        assert(self@.hosts =~= was.remove(i as int));
        call
    }

    /// A click on "refresh". Gives the call to make, where there is one.
    pub fn refresh_click(&mut self) -> (r: Option<Call>)
        ensures
            (final(self)@, call_view(r)) == after_refresh_click(old(self)@),
    {
        if self.serve_running {
            let mut url = self.page_url();
            text::put(&mut url, "/api/hosts");
            let headers: Vec<(String, String)> = Vec::new();
            assert(table::pairs(headers@) =~= Seq::<(Seq<char>, Seq<char>)>::empty());
            Some(Call { method: "GET".to_string(), url, headers, body: None })
        } else {
            self.status = "面板未运行，无法刷新".to_string();
            None
        }
    }

    /// The reply to the call for the list of hosts.
    pub fn list_reply(&mut self, r: &Result<Resp, String>)
        ensures
            final(self)@ == after_list_reply(old(self)@, panel::reply_view(*r)),
    {
        match r {
            Ok(x) if x.status == 200 => {
                self.hosts = gui::parse_hosts(x.body.as_str());
                let mut s = "已刷新，共 ".to_string();
                digits::put_decimal(&mut s, self.hosts.len() as u64);
                text::put(&mut s, " 台");
                assert(gui::forms_view(self.hosts@).len() == self.hosts@.len());
                self.status = s;
            },
            _ => {
                self.status = describe("刷新失败：", r);
            },
        }
    }
}

// ------------------------------------------------------------------ processes

/// How the start of the dashboard ended: it runs, the configuration could not be written, or the
/// process could not be started.
#[derive(Debug)]
pub enum Start {
    Running,
    NoConfig(String),
    NoProcess(String),
}

/// The window after the start of the dashboard.
pub open spec fn after_serve_start(w: LauncherView, s: Start) -> LauncherView {
    match s {
        Start::Running => LauncherView {
            serve_running: true,
            status: "面板已启动 → http://"@ + text::trimmed(w.listen),
            ..w
        },
        Start::NoConfig(e) => LauncherView { status: "写配置失败："@ + e@, ..w },
        Start::NoProcess(e) => LauncherView { status: "启动失败："@ + e@, ..w },
    }
}

/// The window after the start of the agent.
pub open spec fn after_agent_start(w: LauncherView, error: Option<Seq<char>>) -> LauncherView {
    match error {
        None => LauncherView {
            agent_running: true,
            status: "Agent 已启动 → "@ + text::trimmed(w.agent_server),
            ..w
        },
        Some(e) => LauncherView { status: "启动失败："@ + e, ..w },
    }
}

/// A text with another before it.
fn joined(a: &str, b: &str) -> (r: String)
    ensures
        r@ == a@ + b@,
{
    let mut out = a.to_string();
    text::put(&mut out, b);
    out
}

impl Launcher {
    /// The dashboard was to be started.
    pub fn serve_start(&mut self, s: Start)
        ensures
            final(self)@ == after_serve_start(old(self)@, s),
    {
        match s {
            Start::Running => {
                self.serve_running = true;
                self.status = joined(
                    "面板已启动 → http://",
                    text::trim(self.listen.as_str()).as_str(),
                );
            },
            Start::NoConfig(e) => {
                self.status = joined("写配置失败：", e.as_str());
            },
            Start::NoProcess(e) => {
                self.status = joined("启动失败：", e.as_str());
            },
        }
    }

    /// The dashboard was stopped.
    pub fn serve_stop(&mut self)
        ensures
            final(self)@ == (LauncherView {
                serve_running: false,
                status: "面板已停止"@,
                ..old(self)@
            }),
    {
        self.serve_running = false;
        self.status = "面板已停止".to_string();
    }

    /// A click on "start" for the agent: says whether to start it. It is not started without an
    /// address.
    pub fn agent_click(&mut self) -> (r: bool)
        ensures
            r == (text::trimmed(old(self)@.agent_server).len() > 0),
            final(self)@ == (if r {
                old(self)@
            } else {
                LauncherView { status: "请填写面板地址"@, ..old(self)@ }
            }),
    {
        if text::trim(self.agent_server.as_str()).as_str().unicode_len() == 0 {
            self.status = "请填写面板地址".to_string();
            false
        } else {
            true
        }
    }

    /// The agent was to be started.
    pub fn agent_start(&mut self, error: Option<String>)
        ensures
            final(self)@ == after_agent_start(old(self)@, http::maybe(error)),
    {
        match error {
            None => {
                self.agent_running = true;
                self.status = joined(
                    "Agent 已启动 → ",
                    text::trim(self.agent_server.as_str()).as_str(),
                );
            },
            Some(e) => {
                self.status = joined("启动失败：", e.as_str());
            },
        }
    }

    /// The agent was stopped.
    pub fn agent_stop(&mut self)
        ensures
            final(self)@ == (LauncherView {
                agent_running: false,
                status: "Agent 已停止"@,
                ..old(self)@
            }),
    {
        self.agent_running = false;
        self.status = "Agent 已停止".to_string();
    }
}

// ---------------------------------------------------------------------- texts

/// The line of a host in the list.
pub open spec fn row(f: gui::FormView) -> Seq<char> {
    f.name + "  "@ + (if f.panel_url.len() == 0 {
        "（无面板）"@
    } else {
        "（含流量面板）"@
    }) + "  "@ + (if f.port_check.len() == 0 {
        Seq::empty()
    } else {
        "端口:"@ + f.port_check
    })
}

/// The line of a host in the list.
pub fn row_text(h: &HostForm) -> (r: String)
    ensures
        r@ == row(h@),
{
    let mut out = h.name.clone();
    text::put(&mut out, "  ");
    if h.panel_url.as_str().unicode_len() == 0 {
        text::put(&mut out, "（无面板）");
    } else {
        text::put(&mut out, "（含流量面板）");
    }
    text::put(&mut out, "  ");
    let ghost head = out@;
    if h.port_check.as_str().unicode_len() > 0 {
        text::put(&mut out, "端口:");
        text::put(&mut out, h.port_check.as_str());
    }
    assert(out@ =~= row(h@));
    out
}

/// How many lines the log keeps.
pub const LOG_LINES: usize = 600;

/// The log after a line: it keeps the latest lines only.
pub open spec fn logged(log: Seq<String>, line: String) -> Seq<String> {
    if log.len() + 1 > LOG_LINES {
        log.push(line).skip(1)
    } else {
        log.push(line)
    }
}

/// Adds a line to the log, which keeps the latest lines only.
pub fn push_line(log: &mut Vec<String>, line: String)
    ensures
        final(log)@ == (if old(log)@.len() + 1 > LOG_LINES {
            old(log)@.push(line).skip(1)
        } else {
            old(log)@.push(line)
        }),
        final(log)@ == logged(old(log)@, line),
{
    log.push(line);
    if log.len() > LOG_LINES {
        log.remove(0);
        assert(log@ =~= old(log)@.push(line).skip(1));
    }
}

/// The log never grows beyond its length.
pub proof fn law_log_is_bounded(log: Seq<String>, line: String)
    requires
        log.len() <= LOG_LINES,
    ensures
        (if log.len() + 1 > LOG_LINES {
            log.push(line).skip(1)
        } else {
            log.push(line)
        }).len() <= LOG_LINES,
        logged(log, line).len() <= LOG_LINES,
{
}

/// The log never grows beyond six hundred lines, and loses none before. It ends with the lines that
/// came last, in the order in which they came.
pub proof fn law_log_keeps_the_latest(log: Seq<String>, line: String)
    requires
        log.len() <= 600,
    ensures
        logged(log, line).len() == (if log.len() < 600 {
            log.len() + 1
        } else {
            600
        }),
        logged(log, line).last() == line,
        forall|i: int|
            1 <= i < logged(log, line).len() ==> #[trigger] logged(log, line)[logged(log, line).len()
                - 1 - i] == log[log.len() - i],
{
}

} // verus!
