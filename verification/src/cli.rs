//! The command line.

use vstd::prelude::*;
use crate::agent;
use crate::config;
use crate::config::{Config, VpsEntry};
use crate::digits;
use crate::gui;
use crate::http;
use crate::json;
use crate::json::{J, Json};
use crate::metrics;
use crate::metrics::Metrics;
use crate::panel;
use crate::panel::PanelCreds;
use crate::text;

verus! {

/// The version of the program.
pub const VERSION: &'static str = "2.1.0";

/// What `usage` says after the name and the version.
pub const HELP: &'static str = r#"  — 轻量 VPS 探针（Rust 单文件静态二进制，零依赖）

用法:
  vps-probe serve  [--config <config.json>]      启动面板（接收 agent 上报 + 拉 3x-ui 流量）
  vps-probe agent  --server <URL> --key <密钥> --name <名称> [选项]
  vps-probe init   [--output config.json]        生成一份配置模板
  vps-probe version

serve 选项:
  --config <file>     配置文件路径（默认 ./config.json）
  --listen <addr>     覆盖配置里的监听地址，如 0.0.0.0:8899

  面板网页里可直接「添加 / 编辑 / 删除」服务器（无需手改 config.json），
  N 台 VPS 就在网页里点 N 次表单；每台 VPS 仍只需跑一次 agent。

agent 选项:
  --server <URL>      面板地址，如 http://1.2.3.4:8899
  --key <密钥>        与面板 config.json 里的 key 一致
  --name <名称>       本机在面板上显示的名字（默认取 /etc/hostname）
  --interval <秒>     上报间隔（默认 30）
  --port-check <列表> 额外探活的 TCP 端点，逗号分隔，如 1.2.3.4:39999,1.2.3.4:2096
  --once              只采集并上报一次然后退出

示例:
  # 面板机（任意一台常开的 VPS）
  vps-probe serve --config /etc/vps-probe/config.json

  # 被监控的 VPS（不需要 Python / Rust / 任何运行库）
  vps-probe agent --server http://1.2.3.4:8899 --key mykey --name HK-VPS \
                  --interval 30 --port-check 38.47.108.240:39999
"#;

/// The name and the version of the program.
pub open spec fn title() -> Seq<char> {
    "vps-probe "@ + VERSION@
}

/// The name and the version of the program.
pub fn version() -> (r: String)
    ensures
        r@ == title(),
{
    let mut out = "vps-probe ".to_string();
    text::put(&mut out, VERSION);
    out
}

/// How the program is used.
pub fn usage() -> (r: String)
    ensures
        r@ == title() + HELP@,
{
    let mut out = version();
    text::put(&mut out, HELP);
    out
}

/// What the program is asked to do.
#[derive(Debug, Clone, Copy, PartialEq, Eq, Structural)]
pub enum Command {
    Serve,
    Agent,
    Init,
    Version,
    Help,
}

/// What the first argument asks for.
pub open spec fn asked(args: Seq<Seq<char>>) -> Command {
    if args.len() < 2 {
        Command::Help
    } else if args[1] == "serve"@ {
        Command::Serve
    } else if args[1] == "agent"@ {
        Command::Agent
    } else if args[1] == "init"@ {
        Command::Init
    } else if args[1] == "version"@ || args[1] == "--version"@ || args[1] == "-V"@ {
        Command::Version
    } else {
        Command::Help
    }
}

/// Reads what the first argument after the name of the program asks for.
pub fn command(args: &Vec<String>) -> (r: Command)
    ensures
        r == asked(text::texts(args@)),
{
    if args.len() < 2 {
        return Command::Help;
    }
    let c = args[1].as_str();
    assert(text::texts(args@)[1] == c@);
    if text::same(c, "serve") {
        Command::Serve
    } else if text::same(c, "agent") {
        Command::Agent
    } else if text::same(c, "init") {
        Command::Init
    } else if text::same(c, "version") || text::same(c, "--version") || text::same(c, "-V") {
        Command::Version
    } else {
        Command::Help
    }
}

/// What an argument of the form `flag=value` gives.
pub open spec fn value_in(a: Seq<char>, flag: Seq<char>) -> Option<Seq<char>> {
    let n = flag.len() as int;
    if text::begins(a, flag) && a.len() > n && a[n] == '=' {
        Some(a.skip(n + 1))
    } else {
        None
    }
}

/// The value of a flag among the arguments from `i` on: the argument after it, or what follows its
/// equals sign.
pub open spec fn flag_value(args: Seq<Seq<char>>, flag: Seq<char>, i: int) -> Option<Seq<char>>
    decreases args.len() - i,
{
    if i >= args.len() {
        None
    } else if args[i] == flag {
        if i + 1 < args.len() {
            Some(args[i + 1])
        } else {
            None
        }
    } else if value_in(args[i], flag) is Some {
        value_in(args[i], flag)
    } else {
        flag_value(args, flag, i + 1)
    }
}

/// Reads the value of a flag. The name of the program, which comes first, is not looked at.
pub fn arg(args: &Vec<String>, flag: &str) -> (r: Option<String>)
    ensures
        http::maybe(r) == flag_value(text::texts(args@), flag@, 1),
{
    let ghost av = text::texts(args@);
    let fs = text::chars_of(flag);
    let n = fs.len();
    let mut i: usize = 1;
    while i < args.len()
        invariant
            1 <= i,
            av == text::texts(args@),
            fs@ == flag@,
            n == fs@.len(),
            flag_value(av, flag@, 1) == flag_value(av, flag@, i as int),
        decreases args@.len() - i,
    {
        let a = &args[i];
        assert(av[i as int] == a@);
        if text::same(a.as_str(), flag) {
            if i + 1 < args.len() {
                assert(av[i + 1] == args@[i + 1]@);
                return Some(args[i + 1].clone());
            }
            return None;
        }
        let cs = text::chars_of(a.as_str());
        if text::starts_with(a.as_str(), flag) && cs.len() > n && cs[n] == '=' {
            let m = cs.len();
            let v = text::string_of(&cs, n + 1, m);
            assert(cs@.subrange(n + 1, m as int) =~= cs@.skip(n + 1));
            return Some(v);
        }
        i = i + 1;
    }
    None
}

/// The first argument that is a flag, or that has an equals sign right after it, decides its value;
/// both forms give the same.
pub proof fn law_first_form_of_a_flag_decides(args: Seq<Seq<char>>, flag: Seq<char>, n: int)
    requires
        1 <= n < args.len(),
        forall|i: int|
            1 <= i < n ==> (#[trigger] args[i]) != flag && value_in(args[i], flag) is None,
    ensures
        args[n] == flag && n + 1 < args.len() ==> flag_value(args, flag, 1) == Some(args[n + 1]),
        args[n] == flag && n + 1 == args.len() ==> flag_value(args, flag, 1) is None,
        forall|v: Seq<char>|
            args[n] == #[trigger] (flag + seq!['='] + v) ==> flag_value(args, flag, 1) == Some(v),
{
    lemma_flag_from(args, flag, 1, n);
    assert forall|v: Seq<char>| args[n] == #[trigger] (flag + seq!['='] + v) implies flag_value(
        args,
        flag,
        1,
    ) == Some(v) by {
        let a = args[n];
        let k = flag.len() as int;
        assert(a.len() == k + 1 + v.len());
        assert(a.take(k) =~= flag);
        assert(a[k] == '=');
        assert(a.skip(k + 1) =~= v);
    }
}

proof fn lemma_flag_from(args: Seq<Seq<char>>, flag: Seq<char>, i: int, n: int)
    requires
        1 <= i <= n < args.len(),
        forall|j: int|
            1 <= j < n ==> (#[trigger] args[j]) != flag && value_in(args[j], flag) is None,
    ensures
        flag_value(args, flag, i) == flag_value(args, flag, n),
    decreases n - i,
{
    if i < n {
        assert(args[i] != flag);
        lemma_flag_from(args, flag, i + 1, n);
    }
}

/// Whether a flag stands among the arguments after the first.
pub open spec fn given(args: Seq<Seq<char>>, flag: Seq<char>) -> bool {
    exists|i: int| 1 <= i < args.len() && #[trigger] args[i] == flag
}

/// Says whether a flag is given.
pub fn has(args: &Vec<String>, flag: &str) -> (r: bool)
    ensures
        r == given(text::texts(args@), flag@),
{
    let ghost av = text::texts(args@);
    let mut i: usize = 1;
    while i < args.len()
        invariant
            1 <= i,
            av == text::texts(args@),
            forall|j: int| 1 <= j < i && j < av.len() ==> #[trigger] av[j] != flag@,
        decreases args@.len() - i,
    {
        assert(av[i as int] == args@[i as int]@);
        if text::same(args[i].as_str(), flag) {
            return true;
        }
        i = i + 1;
    }
    false
}

/// The seconds between two reports: the number given, or 30; at least 5.
pub open spec fn interval_of(s: Option<Seq<char>>) -> nat {
    let n: nat = match s {
        Some(t) => match digits::unsigned(t, 10, u64::MAX as nat) {
            Some(x) => x,
            None => 30,
        },
        None => 30,
    };
    if n < 5 {
        5
    } else {
        n
    }
}

/// Reads the seconds between two reports.
pub fn interval(s: Option<&str>) -> (r: u64)
    ensures
        r == interval_of(http::shown(s)),
{
    let n: u64 = match s {
        Some(t) => match digits::read_unsigned(t, 10, u64::MAX) {
            Some(x) => x,
            None => 30,
        },
        None => 30,
    };
    if n < 5 {
        5
    } else {
        n
    }
}

/// Reads the list of endpoints to probe.
pub fn port_list(s: Option<&str>) -> (r: Vec<String>)
    ensures
        text::texts(r@) == (match s {
            Some(t) => text::entries(t@, gui::SEPARATORS@),
            None => Seq::empty(),
        }),
{
    match s {
        Some(t) => text::split_entries(t, gui::SEPARATORS),
        None => {
            let none: Vec<String> = Vec::new();
            assert(text::texts(none@) =~= Seq::<Seq<char>>::empty());
            none
        },
    }
}

// ------------------------------------------------------------------- template

/// A host of the template.
pub open spec fn template_host(
    name: Seq<char>,
    manage_url: Seq<char>,
    panel_url: Seq<char>,
    port: Seq<char>,
) -> config::VpsView {
    config::VpsView {
        name,
        manage_url,
        panel: Some(
            panel::CredsView { url: panel_url, username: "admin"@, password: "面板密码"@ },
        ),
        port_check: seq![port],
        quota: 0,
    }
}

/// The configuration that `init` writes, to be edited.
pub open spec fn template_config() -> config::ConfigView {
    config::ConfigView {
        vps: seq![
            template_host(
                "HK-VPS"@,
                "http://38.47.108.240:2054/"@,
                "http://38.47.108.240:2054/你的webBasePath"@,
                "38.47.108.240:39999"@,
            ),
            template_host(
                "JP-VPS"@,
                "http://140.235.37.110:8284/mGo8HWHf"@,
                "http://140.235.37.110:8284/mGo8HWHf"@,
                "140.235.37.110:29214"@,
            ),
        ],
        ..config::defaults()
    }
}

/// A host of the template.
fn example_host(name: &str, manage_url: &str, panel_url: &str, port: &str) -> (r: VpsEntry)
    ensures
        r@ == template_host(name@, manage_url@, panel_url@, port@),
{
    let port_check: Vec<String> = vec![port.to_string()];
    assert(text::texts(port_check@) =~= seq![port@]);
    VpsEntry {
        name: name.to_string(),
        manage_url: manage_url.to_string(),
        panel: Some(
            PanelCreds {
                url: panel_url.to_string(),
                username: "admin".to_string(),
                password: "面板密码".to_string(),
            },
        ),
        port_check,
        quota: 0,
    }
}

/// The configuration that `init` writes, to be edited.
pub fn template() -> (r: Config)
    ensures
        r@ == template_config(),
{
    let mut c = Config::default();
    assert(config::hosts_view(c.vps@).len() == c.vps@.len());
    c.vps.push(
        example_host(
            "HK-VPS",
            "http://38.47.108.240:2054/",
            "http://38.47.108.240:2054/你的webBasePath",
            "38.47.108.240:39999",
        ),
    );
    c.vps.push(
        example_host(
            "JP-VPS",
            "http://140.235.37.110:8284/mGo8HWHf",
            "http://140.235.37.110:8284/mGo8HWHf",
            "140.235.37.110:29214",
        ),
    );
    assert(c@.vps =~= template_config().vps);
    c
}

// -------------------------------------------------------------------- metrics

/// The state of a machine as it is printed.
pub open spec fn printed_members(name: Seq<char>, m: Metrics) -> Seq<(Seq<char>, Json)> {
    seq![
        ("name"@, Json::Str(name)),
        ("cpu_percent"@, Json::Num(m.cpu_percent.bits)),
        ("cores"@, agent::whole(m.cores as int)),
        ("mem_used"@, agent::whole(m.mem_used as int)),
        ("mem_total"@, agent::whole(m.mem_total as int)),
        ("mem_percent"@, Json::Num(metrics::percent(m.mem_used as nat, m.mem_total as nat))),
        ("load1"@, Json::Num(m.load1.bits)),
        ("load5"@, Json::Num(m.load5.bits)),
        ("load15"@, Json::Num(m.load15.bits)),
        ("uptime_secs"@, agent::whole(m.uptime_secs as int)),
        ("net_rx_rate"@, Json::Num(m.net_rx_rate.bits)),
        ("net_tx_rate"@, Json::Num(m.net_tx_rate.bits)),
        ("disk_used"@, agent::whole(m.disk_used as int)),
        ("disk_total"@, agent::whole(m.disk_total as int)),
        ("os"@, Json::Str(m.os@)),
    ]
}

/// The state of a machine as it is printed.
pub fn metrics_to_json(name: &str, m: &Metrics) -> (r: String)
    ensures
        r@ == json::render(Json::Obj(json::built(printed_members(name@, *m))), None),
{
    let mut fields: Vec<(String, J)> = Vec::new();
    assert(json::members(fields@) =~= Seq::<(Seq<char>, Json)>::empty());
    json::append(&mut fields, "name", J::Str(name.to_string()));
    json::append(&mut fields, "cpu_percent", J::Num(m.cpu_percent));
    json::append(&mut fields, "cores", agent::whole_value(m.cores as u64));
    json::append(&mut fields, "mem_used", agent::whole_value(m.mem_used));
    json::append(&mut fields, "mem_total", agent::whole_value(m.mem_total));
    json::append(&mut fields, "mem_percent", J::Num(m.mem_percent()));
    json::append(&mut fields, "load1", J::Num(m.load1));
    json::append(&mut fields, "load5", J::Num(m.load5));
    json::append(&mut fields, "load15", J::Num(m.load15));
    json::append(&mut fields, "uptime_secs", agent::whole_value(m.uptime_secs));
    json::append(&mut fields, "net_rx_rate", J::Num(m.net_rx_rate));
    json::append(&mut fields, "net_tx_rate", J::Num(m.net_tx_rate));
    json::append(&mut fields, "disk_used", agent::whole_value(m.disk_used));
    json::append(&mut fields, "disk_total", agent::whole_value(m.disk_total));
    json::append(&mut fields, "os", J::Str(m.os.clone()));
    assert(json::members(fields@) == printed_members(name@, *m));
    json::object(fields).to_string()
}

} // verus!
