//! The launcher: the forms of its window, what it writes and sends, and how it
//! reacts to clicks and replies.

use vstd::prelude::*;
use crate::config;
use crate::config::VpsEntry;
use crate::digits;
use crate::json;
use crate::json::{J, Json};
use crate::panel;
use crate::panel::PanelCreds;
use crate::reader;
use crate::sent;
use crate::text;

verus! {

// ---------------------------------------------------------------------- forms

/// What separates the entries of a list in a form.
pub const SEPARATORS: &'static str = ", ;";

/// A host as it is edited in the form.
#[derive(Debug)]
pub struct HostForm {
    pub name: String,
    pub manage_url: String,
    pub panel_url: String,
    pub panel_user: String,
    pub panel_pass: String,
    pub port_check: String,
    pub quota: String,
}

/// The contents of a form.
#[verifier::ext_equal]
pub ghost struct FormView {
    pub name: Seq<char>,
    pub manage_url: Seq<char>,
    pub panel_url: Seq<char>,
    pub panel_user: Seq<char>,
    pub panel_pass: Seq<char>,
    pub port_check: Seq<char>,
    pub quota: Seq<char>,
}

impl View for HostForm {
    type V = FormView;

    open spec fn view(&self) -> FormView {
        FormView {
            name: self.name@,
            manage_url: self.manage_url@,
            panel_url: self.panel_url@,
            panel_user: self.panel_user@,
            panel_pass: self.panel_pass@,
            port_check: self.port_check@,
            quota: self.quota@,
        }
    }
}

impl Clone for HostForm {
    /// A copy.
    fn clone(&self) -> (r: HostForm)
        ensures
            r@ == self@,
    {
        HostForm {
            name: self.name.clone(),
            manage_url: self.manage_url.clone(),
            panel_url: self.panel_url.clone(),
            panel_user: self.panel_user.clone(),
            panel_pass: self.panel_pass.clone(),
            port_check: self.port_check.clone(),
            quota: self.quota.clone(),
        }
    }
}

/// The empty form.
pub open spec fn blank_form() -> FormView {
    FormView {
        name: Seq::empty(),
        manage_url: Seq::empty(),
        panel_url: Seq::empty(),
        panel_user: Seq::empty(),
        panel_pass: Seq::empty(),
        port_check: Seq::empty(),
        quota: Seq::empty(),
    }
}

impl Default for HostForm {
    /// The empty form.
    fn default() -> (r: HostForm)
        ensures
            r@ == blank_form(),
    {
        HostForm {
            name: String::new(),
            manage_url: String::new(),
            panel_url: String::new(),
            panel_user: String::new(),
            panel_pass: String::new(),
            port_check: String::new(),
            quota: String::new(),
        }
    }
}

/// The contents of a list of forms.
pub open spec fn forms_view(v: Seq<HostForm>) -> Seq<FormView> {
    Seq::new(v.len(), |i: int| v[i]@)
}

/// The integer that a text in a form writes, or zero.
pub open spec fn integer(s: Seq<char>) -> int {
    match digits::signed(text::trimmed(s)) {
        Some(n) => n,
        None => 0,
    }
}

/// The host that a form describes.
pub open spec fn entry_of(f: FormView) -> config::VpsView {
    config::VpsView {
        name: text::trimmed(f.name),
        manage_url: text::trimmed(f.manage_url),
        panel: if text::trimmed(f.panel_url).len() == 0 {
            None
        } else {
            Some(
                panel::CredsView {
                    url: text::trimmed(f.panel_url),
                    username: text::trimmed(f.panel_user),
                    password: f.panel_pass,
                },
            )
        },
        port_check: text::entries(f.port_check, SEPARATORS@),
        quota: integer(f.quota),
    }
}

/// Reads an integer in a form.
fn read_integer(s: &str) -> (r: i64)
    ensures
        r == integer(s@),
{
    match digits::read_signed(text::trim(s).as_str()) {
        Some(n) => n,
        None => 0,
    }
}

/// What a form shows of a host from a configuration.
pub open spec fn form_of(h: config::VpsView) -> FormView {
    FormView {
        name: h.name,
        manage_url: h.manage_url,
        panel_url: match h.panel {
            Some(p) => p.url,
            None => Seq::empty(),
        },
        panel_user: match h.panel {
            Some(p) => p.username,
            None => Seq::empty(),
        },
        panel_pass: match h.panel {
            Some(p) => p.password,
            None => Seq::empty(),
        },
        port_check: text::joined(h.port_check, ","@),
        quota: if h.quota > 0 {
            digits::signed_decimal(h.quota)
        } else {
            Seq::empty()
        },
    }
}

/// The panel of a host in JSON, as texts for a form.
pub open spec fn panel_text(v: Json, k: Seq<char>) -> Seq<char> {
    match json::field(v, "panel"@) {
        Some(p) => json::str_at(p, k, Seq::empty()),
        None => Seq::empty(),
    }
}

/// What a form shows of a host in the list that the dashboard gives.
pub open spec fn form_in(v: Json) -> FormView {
    FormView {
        name: json::str_at(v, "name"@, Seq::empty()),
        manage_url: json::str_at(v, "manage_url"@, Seq::empty()),
        panel_url: panel_text(v, "url"@),
        panel_user: panel_text(v, "username"@),
        panel_pass: panel_text(v, "password"@),
        port_check: text::joined(config::ports_in(v), ","@),
        quota: digits::signed_decimal(json::int_at(v, "quota"@)),
    }
}

/// The forms for the list of hosts that the dashboard gives; none where it is not a list.
pub open spec fn forms_in(body: Seq<char>) -> Seq<FormView> {
    match reader::meaning(body) {
        Ok(v) => json::items_of(v).map_values(|x: Json| form_in(x)),
        Err(_) => Seq::empty(),
    }
}

/// The panel that a form describes, as it is sent.
pub open spec fn panel_source(f: FormView) -> sent::Source {
    if text::trimmed(f.panel_url).len() == 0 {
        sent::Source::Null
    } else {
        sent::Source::Obj(
            seq![
                ("url"@, sent::Source::Str(f.panel_url)),
                ("username"@, sent::Source::Str(f.panel_user)),
                ("password"@, sent::Source::Str(f.panel_pass)),
            ],
        )
    }
}

/// Texts as they are sent.
pub open spec fn string_sources(v: Seq<Seq<char>>) -> Seq<sent::Source> {
    v.map_values(|s: Seq<char>| sent::Source::Str(s))
}

/// The host that a form describes, as it is sent to the dashboard.
pub open spec fn form_source(f: FormView) -> sent::Source {
    sent::Source::Obj(
        seq![
            ("name"@, sent::Source::Str(f.name)),
            ("manage_url"@, sent::Source::Str(f.manage_url)),
            ("panel"@, panel_source(f)),
            (
                "port_check"@,
                sent::Source::Arr(string_sources(text::entries(f.port_check, SEPARATORS@))),
            ),
            ("quota"@, sent::Source::Int(integer(f.quota))),
        ],
    )
}

/// The text of a panel, member by member.
proof fn lemma_panel_text(f: FormView)
    requires
        text::trimmed(f.panel_url).len() > 0,
    ensures
        sent::source_text(panel_source(f)) == seq!['{'] + (sent::label("url"@) + sent::quoted(
            f.panel_url,
        ) + seq![','] + sent::label("username"@) + sent::quoted(f.panel_user) + seq![',']
            + sent::label("password"@) + sent::quoted(f.panel_pass)) + seq!['}'],
{
    let m = panel_source(f)->Obj_0;
    assert(sent::source_text(m[0].1) == sent::quoted(f.panel_url));
    assert(sent::source_text(m[1].1) == sent::quoted(f.panel_user));
    assert(sent::source_text(m[2].1) == sent::quoted(f.panel_pass));
    assert(sent::members_text(m, 1) == sent::label(m[0].0) + sent::source_text(m[0].1));
    assert(sent::members_text(m, 2) == sent::members_text(m, 1) + seq![','] + sent::label(m[1].0)
        + sent::source_text(m[1].1));
    assert(sent::members_text(m, 3) == sent::members_text(m, 2) + seq![','] + sent::label(m[2].0)
        + sent::source_text(m[2].1));
}

/// The text of a host, member by member.
proof fn lemma_form_text(f: FormView)
    ensures
        sent::source_text(form_source(f)) == seq!['{'] + (sent::label("name"@) + sent::quoted(
            f.name,
        ) + seq![','] + sent::label("manage_url"@) + sent::quoted(f.manage_url) + seq![',']
            + sent::label("panel"@) + sent::source_text(panel_source(f)) + seq![',']
            + sent::label("port_check"@) + sent::source_text(
            sent::Source::Arr(string_sources(text::entries(f.port_check, SEPARATORS@))),
        ) + seq![','] + sent::label("quota"@) + digits::signed_decimal(integer(f.quota)))
            + seq!['}'],
{
    let m = form_source(f)->Obj_0;
    assert(sent::source_text(m[0].1) == sent::quoted(f.name));
    assert(sent::source_text(m[1].1) == sent::quoted(f.manage_url));
    assert(sent::source_text(m[4].1) == digits::signed_decimal(integer(f.quota)));
    assert(sent::members_text(m, 1) == sent::label(m[0].0) + sent::source_text(m[0].1));
    assert(sent::members_text(m, 2) == sent::members_text(m, 1) + seq![','] + sent::label(m[1].0)
        + sent::source_text(m[1].1));
    assert(sent::members_text(m, 3) == sent::members_text(m, 2) + seq![','] + sent::label(m[2].0)
        + sent::source_text(m[2].1));
    assert(sent::members_text(m, 4) == sent::members_text(m, 3) + seq![','] + sent::label(m[3].0)
        + sent::source_text(m[3].1));
    assert(sent::members_text(m, 5) == sent::members_text(m, 4) + seq![','] + sent::label(m[4].0)
        + sent::source_text(m[4].1));
}

/// Appends the name of a member, with the colon.
fn put_label(out: &mut String, name: &str)
    ensures
        final(out)@ == old(out)@ + sent::label(name@),
{
    out.push('"');
    text::put(out, name);
    out.push('"');
    out.push(':');
    assert(out@ =~= old(out)@ + sent::label(name@));
}

/// Writes a list of texts.
fn ports_text(v: &Vec<String>) -> (r: String)
    ensures
        r@ == sent::source_text(sent::Source::Arr(string_sources(text::texts(v@)))),
{
    let ghost a = string_sources(text::texts(v@));
    let mut out = String::new();
    out.push('[');
    let mut i: usize = 0;
    assert(out@ =~= seq!['['] + sent::items_text(a, 0));
    while i < v.len()
        invariant
            i <= v@.len(),
            a == string_sources(text::texts(v@)),
            out@ == seq!['['] + sent::items_text(a, i as nat),
        decreases v@.len() - i,
    {
        if i > 0 {
            out.push(',');
        }
        text::put(&mut out, sent::jstr(v[i].as_str()).as_str());
        i = i + 1;
        assert(a[i - 1] == sent::Source::Str(v@[i - 1]@));
        assert(sent::source_text(a[i - 1]) == sent::quoted(v@[i - 1]@));
        assert(out@ =~= seq!['['] + sent::items_text(a, i as nat));
    }
    out.push(']');
    assert(out@ =~= sent::source_text(sent::Source::Arr(a)));
    out
}

impl HostForm {
    /// The host that the form describes.
    pub fn to_entry(&self) -> (r: VpsEntry)
        ensures
            r@ == entry_of(self@),
    {
        let url = text::trim(self.panel_url.as_str());
        let panel = if url.as_str().unicode_len() == 0 {
            None
        } else {
            Some(
                PanelCreds {
                    url,
                    username: text::trim(self.panel_user.as_str()),
                    password: self.panel_pass.clone(),
                },
            )
        };
        VpsEntry {
            name: text::trim(self.name.as_str()),
            manage_url: text::trim(self.manage_url.as_str()),
            panel,
            port_check: text::split_entries(self.port_check.as_str(), SEPARATORS),
            quota: read_integer(self.quota.as_str()),
        }
    }

    /// Fills in a form with a host from a configuration.
    pub fn from_entry(h: &VpsEntry) -> (r: HostForm)
        ensures
            r@ == form_of(h@),
    {
        let (panel_url, panel_user, panel_pass) = match &h.panel {
            Some(p) => (p.url.clone(), p.username.clone(), p.password.clone()),
            None => (String::new(), String::new(), String::new()),
        };
        let quota = if h.quota > 0 {
            digits::show_signed(h.quota)
        } else {
            String::new()
        };
        HostForm {
            name: h.name.clone(),
            manage_url: h.manage_url.clone(),
            panel_url,
            panel_user,
            panel_pass,
            port_check: text::join(&h.port_check, ","),
            quota,
        }
    }

    /// Writes the panel that the form describes.
    fn panel_json(&self) -> (r: String)
        ensures
            r@ == sent::source_text(panel_source(self@)),
    {
        if text::trim(self.panel_url.as_str()).as_str().unicode_len() == 0 {
            return "null".to_string();
        }
        let mut out = String::new();
        out.push('{');
        put_label(&mut out, "url");
        text::put(&mut out, sent::jstr(self.panel_url.as_str()).as_str());
        out.push(',');
        put_label(&mut out, "username");
        text::put(&mut out, sent::jstr(self.panel_user.as_str()).as_str());
        out.push(',');
        put_label(&mut out, "password");
        text::put(&mut out, sent::jstr(self.panel_pass.as_str()).as_str());
        out.push('}');
        proof {
            lemma_panel_text(self@);
        }
        assert(out@ =~= sent::source_text(panel_source(self@)));
        out
    }

    /// Writes the host that the form describes, for the dashboard.
    pub fn host_to_json(&self) -> (r: String)
        ensures
            r@ == sent::source_text(form_source(self@)),
    {
        let mut out = String::new();
        out.push('{');
        put_label(&mut out, "name");
        text::put(&mut out, sent::jstr(self.name.as_str()).as_str());
        out.push(',');
        put_label(&mut out, "manage_url");
        text::put(&mut out, sent::jstr(self.manage_url.as_str()).as_str());
        out.push(',');
        put_label(&mut out, "panel");
        let panel = self.panel_json();
        text::put(&mut out, panel.as_str());
        out.push(',');
        put_label(&mut out, "port_check");
        let ports = ports_text(&text::split_entries(self.port_check.as_str(), SEPARATORS));
        text::put(&mut out, ports.as_str());
        out.push(',');
        put_label(&mut out, "quota");
        let quota = digits::show_signed(read_integer(self.quota.as_str()));
        text::put(&mut out, quota.as_str());
        out.push('}');
        proof {
            lemma_form_text(self@);
        }
        assert(out@ =~= sent::source_text(form_source(self@)));
        out
    }
}

/// Reads a text of the panel of a host.
fn read_panel_text(v: &J, k: &str) -> (r: String)
    ensures
        r@ == panel_text(v.view(), k@),
{
    proof {
        reveal_strlit("");
        assert(""@ =~= Seq::<char>::empty());
    }
    match v.get("panel") {
        Some(p) => p.str_at(k, ""),
        None => String::new(),
    }
}

/// Fills in a form with a host in the list that the dashboard gives.
fn read_form(v: &J) -> (r: HostForm)
    ensures
        r@ == form_in(v.view()),
{
    proof {
        reveal_strlit("");
        assert(""@ =~= Seq::<char>::empty());
    }
    HostForm {
        name: v.str_at("name", ""),
        manage_url: v.str_at("manage_url", ""),
        panel_url: read_panel_text(v, "url"),
        panel_user: read_panel_text(v, "username"),
        panel_pass: read_panel_text(v, "password"),
        port_check: text::join(&config::read_ports(v), ","),
        quota: digits::show_signed(v.int_at("quota")),
    }
}

/// Reads the list of hosts that the dashboard gives.
pub fn parse_hosts(body: &str) -> (r: Vec<HostForm>)
    ensures
        forms_view(r@) == forms_in(body@),
{
    let mut out: Vec<HostForm> = Vec::new();
    assert(forms_view(out@) =~= Seq::<FormView>::empty());
    if let Ok(v) = reader::parse(body) {
        let list = v.as_arr();
        let ghost a = json::items_of(v.view());
        let ghost all = a.map_values(|x: Json| form_in(x));
        let mut i: usize = 0;
        assert(a.len() == list@.len());
        assert(all.take(0) =~= Seq::<FormView>::empty());
        while i < list.len()
            invariant
                i <= list@.len(),
                a == json::ref_items(list@),
                all == a.map_values(|x: Json| form_in(x)),
                forms_view(out@) == all.take(i as int),
            decreases list@.len() - i,
        {
            let ghost was = forms_view(out@);
            assert(a[i as int] == list@[i as int].view());
            out.push(read_form(list[i]));
            i = i + 1;
            assert(forms_view(out@) =~= was.push(all[i - 1]));
            assert(forms_view(out@) =~= all.take(i as int));
        }
        assert(all.take(i as int) =~= all);
    }
    out
}

} // verus!
