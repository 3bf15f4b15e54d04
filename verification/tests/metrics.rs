use vps_probe::agent::{choose_name, hostname, now, report, report_at, report_now};
use vps_probe::cli::metrics_to_json;
use vps_probe::clock::seconds;
use vps_probe::json::parse;
use vps_probe::metrics::{
    collect, collect_elsewhere, cpu_countable, cpu_fallback, cpu_percent, cpu_snapshot, disk_usage, load_average,
    mem_countable, meminfo, net_countable, net_rate, net_snapshot, os_name, uptime, MemoryTool, Metrics,
    OtherReadings, Readings,
};
use vps_probe::normalize::normalize_metrics;
use vps_probe::num::Num;

fn float(n: Num) -> f64 {
    f64::from_bits(n.bits)
}

fn num(x: f64) -> Num {
    Num { bits: x.to_bits() }
}

const STAT1: &str = "cpu  100 0 50 800 50 0 0 0\ncpu0 1 2 3 4\n";
const STAT2: &str = "intr 5\ncpu  160 0 70 860 60 0 0 0\n";
const DEV1: &str = "Inter-| Receive\n face |bytes\n    lo: 999 0 0 0 0 0 0 0 999 0\n  eth0: 1000 1 0 0 0 0 0 0 500 1\n wg0: 5 0 0 0 0 0 0 0 7 0 0\n";
const DEV2: &str = "Inter-| Receive\n face |bytes\n    lo: 9999 0 0 0 0 0 0 0 9999 0\n  eth0: 2000 1 0 0 0 0 0 0 900 1\n wg0: x 0 0 0 0 0 0 0 7 0 0\nshort 1 2\n";
const MEM: &str = "MemTotal:       1000 kB\nMemFree: 1 kB\nMemAvailable:    400 kB\nSwapTotal: 50 kB\nSwapFree: 60 kB\n";

fn some(s: &str) -> Option<String> {
    Some(s.to_string())
}

fn readings() -> Readings {
    Readings {
        stat: [some(STAT1), some(STAT2)],
        dev: [some(DEV1), some(DEV2)],
        meminfo: some(MEM),
        df: Some(b"Filesystem 1B-blocks Used Avail\n/dev/a 0 1 2\n/dev/b 200 50 150\n".to_vec()),
        loadavg: some("0.50 1.25 2 1/100 999\n"),
        uptime: some("12345.67 999.9\n"),
        os_release: some("NAME=x\nPRETTY_NAME=\"Debian GNU/Linux 12\"\n"),
        issue: None,
        ostype: None,
        cores: 4,
        ports: vec![("a:1".to_string(), true), ("b:2".to_string(), false), ("a:1".to_string(), false)],
    }
}

fn sample() -> Metrics {
    collect(&readings())
}

#[test]
fn reads_the_processor() {
    assert_eq!(cpu_snapshot(STAT1), Some((1000, 850)));
    assert_eq!(cpu_snapshot("cpu 1 2 x 3 4\n"), Some((10, 4)));
    assert_eq!(cpu_snapshot("cpu 1 2 3\n"), None);
    assert_eq!(cpu_snapshot("cpu0 1 2 3 4\n"), None);
    assert!(cpu_countable(STAT1));
    assert!(!cpu_countable("cpu 18446744073709551615 1 0 0\n"));
}

#[test]
fn the_use_of_the_processor() {
    assert_eq!(float(cpu_percent((1000, 850), (1150, 920))), (150.0 - 70.0) / 150.0 * 100.0);
    assert_eq!(float(cpu_percent((5, 0), (5, 0))), 0.0);
    assert_eq!(float(cpu_percent((5, 0), (4, 0))), 0.0);
    assert_eq!(float(cpu_percent((0, 0), (10, 20))), 0.0);
    assert_eq!(float(cpu_percent((0, 9), (10, 2))), 100.0);
}

#[test]
fn reads_the_network() {
    assert_eq!(net_snapshot(DEV1), (1005, 507));
    assert_eq!(net_snapshot(DEV2), (2000, 907));
    assert_eq!(net_snapshot("one line"), (0, 0));
    assert_eq!(float(net_rate(1005, 2000)), 995.0 / 0.4);
    assert_eq!(float(net_rate(2000, 1005)), 0.0);
    assert!(net_countable(DEV1));
    let wide = "h\nh\n a: 18446744073709551615 0 0 0 0 0 0 0 0 0\n b: 1 0 0 0 0 0 0 0 0 0\n";
    assert!(!net_countable(wide));
}

#[test]
fn reads_the_memory() {
    assert_eq!(meminfo(MEM, true), (600 * 1024, 1000 * 1024, 0, 50 * 1024));
    assert_eq!(meminfo(MEM, false), (600 * 1024, 1000 * 1024, 0, 0));
    assert_eq!(meminfo("MemTotal:\n", true), (0, 0, 0, 0));
    assert!(mem_countable(MEM, true));
    assert!(!mem_countable("MemTotal: 18446744073709551615 kB\n", true));
    assert!(!mem_countable("SwapFree: 18446744073709551615 kB\n", true));
    assert!(mem_countable("SwapFree: 18446744073709551615 kB\n", false));
}

#[test]
fn reads_the_disk() {
    let out = b"Filesystem 1B-blocks Used\n/dev/a 0 1\n/dev/b 200 50\n".to_vec();
    assert_eq!(disk_usage(&out, true), (50, 200));
    assert_eq!(disk_usage(&out, false), (1, 0));
    assert_eq!(disk_usage(&b"x 1 2\n".to_vec(), true), (0, 0));
    // Bytes that are not UTF-8 are no reason to give up.
    assert_eq!(disk_usage(&b"h\n\xff 7 3\n".to_vec(), true), (3, 7));
}

#[test]
fn reads_the_name_of_the_system() {
    assert_eq!(os_name("PRETTY_NAME=\"A B\"\n", "", ""), "A B");
    assert_eq!(os_name("", "PRETTY_NAME= \"\"C\"\" \n", ""), "C");
    assert_eq!(os_name("NAME=x\n", "PRETTY_NAME=y\n", " Linux\n"), "Linux Linux");
    assert_eq!(os_name("", "", ""), "Linux");
}

#[test]
fn reads_the_load_and_the_uptime() {
    let (a, b, c) = load_average("0.50 x 2 3");
    assert_eq!((float(a), float(b), float(c)), (0.5, 2.0, 0.0));
    assert_eq!(uptime("99.99 1"), 99);
    assert_eq!(uptime("x"), 0);
    assert_eq!(uptime(""), 0);
}

#[test]
fn collects_on_linux() {
    assert!(readings().countable());
    let m = sample();
    assert_eq!(float(m.cpu_percent), (150.0 - 70.0) / 150.0 * 100.0);
    assert_eq!((m.cores, m.mem_used, m.mem_total), (4, 614400, 1024000));
    assert_eq!((m.swap_used, m.swap_total), (0, 51200));
    assert_eq!((float(m.load1), float(m.load5), float(m.load15)), (0.5, 1.25, 2.0));
    assert_eq!(m.uptime_secs, 12345);
    assert_eq!((float(m.net_rx_rate), float(m.net_tx_rate)), (995.0 / 0.4, 400.0 / 0.4));
    assert_eq!((m.disk_used, m.disk_total), (50, 200));
    assert_eq!(m.os, "Debian GNU/Linux 12");
    assert_eq!(m.ports, vec![("a:1".to_string(), false), ("b:2".to_string(), false)]);
    assert_eq!(float(m.mem_percent()), 614400.0 * 100.0 / 1024000.0);
    assert_eq!(float(m.disk_percent()), 25.0);
}

#[test]
fn nothing_to_read_gives_zeros() {
    let r = Readings {
        stat: [None, None],
        dev: [None, None],
        meminfo: None,
        df: None,
        loadavg: None,
        uptime: None,
        os_release: None,
        issue: None,
        ostype: None,
        cores: 1,
        ports: vec![],
    };
    assert!(r.countable());
    let m = collect(&r);
    assert_eq!((float(m.cpu_percent), m.mem_total, m.disk_total, m.uptime_secs), (0.0, 0, 0, 0));
    assert_eq!((float(m.mem_percent()), float(m.disk_percent())), (0.0, 0.0));
    assert_eq!(m.os, "Linux");
}

#[test]
fn collects_elsewhere() {
    let wmic = b"\r\nFreePhysicalMemory=300\r\nTotalVisibleMemorySize= 1000 \r\n".to_vec();
    let r = OtherReadings {
        meminfo: some("nothing"),
        memory: MemoryTool::Wmic(wmic),
        df: Some(b"h\n/ 9 4\n".to_vec()),
        cpu: Some(b"\r\nLoadPercentage= 37 \r\n".to_vec()),
        os: "windows".to_string(),
        arch: "x86_64".to_string(),
        cores: 8,
        ports: vec![("p".to_string(), true)],
    };
    assert!(r.countable());
    let m = collect_elsewhere(&r);
    assert_eq!((m.mem_used, m.mem_total), (700 * 1024, 1000 * 1024));
    assert_eq!((m.disk_used, m.disk_total, m.os.as_str()), (4, 9, "windows x86_64"));
    assert_eq!(float(m.cpu_percent), 37.0);
    assert_eq!(m.ports, vec![("p".to_string(), true)]);
    let r = OtherReadings { meminfo: some(MEM), ..r };
    let m = collect_elsewhere(&r);
    assert_eq!((m.mem_used, m.mem_total, m.swap_total), (614400, 1024000, 0));
}

#[test]
fn tools_of_other_systems() {
    assert_eq!(MemoryTool::Sysctl(b" 17179869184\n".to_vec()).memory(), (0, 17179869184));
    assert_eq!(MemoryTool::Missing.memory(), (0, 0));
    let huge = MemoryTool::Wmic(b"TotalVisibleMemorySize=18446744073709551615\n".to_vec());
    assert!(!huge.countable());
    assert!(MemoryTool::Missing.countable());
    assert_eq!(float(cpu_fallback(&None)), 0.0);
    assert_eq!(float(cpu_fallback(&Some(b"LoadPercentage=x".to_vec()))), 0.0);
}

#[test]
fn reports() {
    let m = sample();
    let text = report("HK", 77, &m).to_string();
    let v = parse(&text).unwrap();
    assert_eq!(v.get("name").unwrap().as_str(), Some("HK"));
    assert_eq!(v.get("ts").unwrap().as_i64(), 77);
    assert_eq!(v.get("cores").unwrap().as_i64(), 4);
    assert_eq!(v.get("swap_total").unwrap().as_i64(), 51200);
    assert_eq!(v.get("load").unwrap().to_string(), "[0.5,1.25,2]");
    assert_eq!(v.get("uptime").unwrap().as_i64(), 12345);
    assert_eq!(v.get("ports").unwrap().to_string(), r#"{"a:1":false,"b:2":false}"#);
    assert_eq!(v.get("disk_percent").unwrap().to_string(), "25");
}

#[test]
fn the_page_shows_what_was_reported() {
    let v = normalize_metrics(&parse(&report("HK", 77, &sample()).to_string()).unwrap());
    assert_eq!(
        v.to_string(),
        "{\"cores\":4,\"cpu_percent\":53.333333333333336,\"disk_percent\":25,\"disk_total\":200,\"disk_used\":50,\
         \"load1\":0.5,\"load15\":2,\"load5\":1.25,\"mem_percent\":60,\"mem_total\":1024000,\"mem_used\":614400,\
         \"net_rx_rate\":2487.5,\"net_tx_rate\":1000,\"os\":\"Debian GNU/Linux 12\",\
         \"ports\":{\"a:1\":false,\"b:2\":false},\"uptime_secs\":12345}"
    );
    assert_eq!(normalize_metrics(&v), v);
}

#[test]
fn missing_figures_are_worked_out_or_zero() {
    let v = normalize_metrics(&parse(r#"{"mem_used":"1","mem_total":4,"disk_used":1,"load":5,"load1":2}"#).unwrap());
    assert_eq!(
        v.to_string(),
        "{\"cores\":1,\"cpu_percent\":0,\"disk_percent\":0,\"disk_total\":0,\"disk_used\":1,\"load1\":2,\"load15\":0,\
         \"load5\":0,\"mem_percent\":25,\"mem_total\":4,\"mem_used\":1,\"net_rx_rate\":0,\"net_tx_rate\":0,\"os\":\"\",\
         \"ports\":null,\"uptime_secs\":0}"
    );
}

#[test]
fn the_call_of_an_agent() {
    let c = report_at("http://d:8899//", "k", "n", 5, &sample());
    assert_eq!((c.method.as_str(), c.url.as_str()), ("POST", "http://d:8899/api/report?key=k"));
    assert_eq!(c.headers, vec![("Content-Type".to_string(), "application/json".to_string())]);
    assert_eq!(c.body.unwrap(), report("n", 5, &sample()).to_string());
    let before = now();
    let c = report_now("http://d", "k", "n", &sample());
    let ts = parse(&c.body.unwrap()).unwrap().get("ts").unwrap().as_i64() as u64;
    assert!(before <= ts && ts <= now());
}

#[test]
fn the_clock_runs_from_1970() {
    // Later than the start of 2020, earlier than 2200.
    assert!(now() > 1_577_836_800 && now() < 7_258_118_400);
    assert_eq!((seconds(Some(1_577_836_800)), seconds(None)), (1_577_836_800, 0));
}

#[test]
fn names() {
    assert_eq!(choose_name("a", Some("h\n")), "a");
    assert_eq!(choose_name("", Some(" h \n")), "h");
    assert_eq!(choose_name("", Some(" \n")), "vps");
    assert_eq!(choose_name("", None), "vps");
    assert_eq!(hostname(Some("\n")), None);
}

#[test]
fn prints_metrics() {
    assert_eq!(
        metrics_to_json("n", &sample()),
        "{\"cores\":4,\"cpu_percent\":53.333333333333336,\"disk_total\":200,\"disk_used\":50,\"load1\":0.5,\
         \"load15\":2,\"load5\":1.25,\"mem_percent\":60,\"mem_total\":1024000,\"mem_used\":614400,\"name\":\"n\",\
         \"net_rx_rate\":2487.5,\"net_tx_rate\":1000,\"os\":\"Debian GNU/Linux 12\",\"uptime_secs\":12345}"
    );
    let mut m = sample();
    m.cpu_percent = num(0.1);
    assert!(metrics_to_json("n", &m).contains("\"cpu_percent\":0.1,"));
}
