use vps_probe::config::{dump, from_json, hosts_to_json, load, Config, VpsEntry};
use vps_probe::json::parse;
use vps_probe::panel::PanelCreds;

fn sample() -> Config {
    let mut c = Config::default();
    c.key = "k\"1".to_string();
    c.refresh = 9007199254740992;
    c.vps.push(VpsEntry {
        name: "香港".to_string(),
        manage_url: "http://m/".to_string(),
        panel: Some(PanelCreds {
            url: "http://p".to_string(),
            username: String::new(),
            password: "\\\n".to_string(),
        }),
        port_check: vec!["a:1".to_string(), "b:2".to_string()],
        quota: 5,
    });
    c.vps.push(VpsEntry {
        name: "x".to_string(),
        manage_url: String::new(),
        panel: None,
        port_check: vec![],
        quota: 0,
    });
    c
}

#[test]
fn defaults() {
    let c = Config::default();
    assert_eq!((c.listen.as_str(), c.key.as_str(), c.title.as_str()), ("0.0.0.0:8899", "change-me", "VPS 探针"));
    assert_eq!((c.refresh, c.offline_after, c.panel_interval), (5, 90, 300));
    assert!(c.vps.is_empty());
}

#[test]
fn an_empty_object_gives_the_defaults() {
    let c = load("{}").unwrap();
    assert_eq!(dump(&c), dump(&Config::default()));
}

#[test]
fn reads_every_field() {
    let c = load(
        r#"{"listen":"1.2.3.4:1","key":"k","title":"t","refresh":7.9,"offline_after":"60","panel_interval":-1,
            "vps":[{"name":"a","manage_url":"m","panel":{"url":"u","password":"p"},"port_check":["x",1,"y"],
            "quota":"10"},{"panel":null},{"panel":{"username":"z"}},5]}"#,
    )
    .unwrap();
    assert_eq!((c.listen.as_str(), c.key.as_str(), c.title.as_str()), ("1.2.3.4:1", "k", "t"));
    assert_eq!((c.refresh, c.offline_after, c.panel_interval), (7, 60, 0));
    assert_eq!(c.vps.len(), 4);
    let v = &c.vps[0];
    assert_eq!((v.name.as_str(), v.manage_url.as_str(), v.quota), ("a", "m", 10));
    let p = v.panel.as_ref().unwrap();
    assert_eq!((p.url.as_str(), p.username.as_str(), p.password.as_str()), ("u", "admin", "p"));
    assert_eq!(v.port_check, vec!["x", "y"]);
    assert_eq!(c.vps[1].name, "unnamed");
    assert!(c.vps[1].panel.is_none() && c.vps[2].panel.is_none());
    assert_eq!(c.vps[3].name, "unnamed");
}

#[test]
fn a_wrong_type_leaves_the_default() {
    let c = load(r#"{"listen":5,"refresh":[],"vps":{}}"#).unwrap();
    assert_eq!((c.listen.as_str(), c.refresh, c.vps.len()), ("0.0.0.0:8899", 5, 0));
}

#[test]
fn invalid_text_is_named() {
    assert_eq!(load("{,}").unwrap_err(), "config JSON invalid: expected '\"' at 1");
}

#[test]
fn dumps_lines() {
    let mut c = Config::default();
    c.vps.push(VpsEntry {
        name: "n".to_string(),
        manage_url: String::new(),
        panel: None,
        port_check: vec!["p".to_string()],
        quota: 3,
    });
    assert_eq!(
        dump(&c),
        "{\n  \"key\": \"change-me\",\n  \"listen\": \"0.0.0.0:8899\",\n  \"offline_after\": 90,\n  \
         \"panel_interval\": 300,\n  \"refresh\": 5,\n  \"title\": \"VPS 探针\",\n  \"vps\": [\n    {\n      \
         \"manage_url\": \"\",\n      \"name\": \"n\",\n      \"panel\": null,\n      \"port_check\": [\n        \
         \"p\"\n      ],\n      \"quota\": 3\n    }\n  ]\n}\n"
    );
}

#[test]
fn a_dumped_configuration_loads_back() {
    let c = sample();
    let d = load(&dump(&c)).unwrap();
    assert_eq!(format!("{:?}", d), format!("{:?}", c));
}

#[test]
fn a_quota_below_zero_and_an_access_without_an_address_are_lost() {
    let mut c = sample();
    c.vps[0].quota = -5;
    c.vps[0].panel.as_mut().unwrap().url = String::new();
    let d = load(&dump(&c)).unwrap();
    assert_eq!(d.vps[0].quota, 0);
    assert!(d.vps[0].panel.is_none());
}

#[test]
fn lists_hosts() {
    let c = sample();
    let text = hosts_to_json(&c.vps).to_string();
    assert_eq!(
        text,
        r#"[{"manage_url":"http://m/","name":"香港","panel":{"password":"\\\n","url":"http://p","username":""},"port_check":["a:1","b:2"],"quota":5},{"manage_url":"","name":"x","panel":null,"port_check":[]}]"#
    );
    let back = from_json(&parse(&format!("{{\"vps\":{}}}", text)).unwrap());
    assert_eq!(format!("{:?}", back.vps), format!("{:?}", c.vps));
}
