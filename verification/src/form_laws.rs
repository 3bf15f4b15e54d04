//! What holds of the launcher's forms: a host survives the way through a form,
//! through the dashboard's list and through the configuration file.

use vstd::prelude::*;
use crate::config;
use crate::digits;
use crate::gui;
use crate::json;
use crate::json::Json;
use crate::launcher;
use crate::num;
use crate::panel;
use crate::reader;
use crate::roundtrip;
use crate::sent;
use crate::serve;
use crate::text;

verus! {

// ---------------------------------------------------------------------- lists

/// Whether a text holds none of the given characters.
pub open spec fn free_of(s: Seq<char>, set: Seq<char>) -> bool {
    forall|i: int| 0 <= i < s.len() ==> !set.contains(#[trigger] s[i])
}

/// A text without separators is one field.
pub proof fn lemma_one_field(s: Seq<char>, set: Seq<char>, i: int)
    requires
        free_of(s, set),
        0 <= i <= s.len(),
    ensures
        text::first_in(s, set, i) == s.len(),
    decreases s.len() - i,
{
    if i < s.len() {
        lemma_one_field(s, set, i + 1);
    }
}

/// The first separator of a text is also that of a longer one.
proof fn lemma_first_kept(a: Seq<char>, b: Seq<char>, set: Seq<char>, i: int)
    requires
        0 <= i <= a.len(),
    ensures
        text::first_in(a, set, i) < a.len() ==> text::first_in(a + b, set, i) == text::first_in(
            a,
            set,
            i,
        ),
        text::first_in(a, set, i) == a.len() ==> text::first_in(a + b, set, i) == text::first_in(
            a + b,
            set,
            a.len() as int,
        ),
    decreases a.len() - i,
{
    if i < a.len() {
        assert((a + b)[i] == a[i]);
        if !set.contains(a[i]) {
            lemma_first_kept(a, b, set, i + 1);
        }
    }
}

/// A field after a separator comes after the other fields.
pub proof fn lemma_field_appended(a: Seq<char>, c: char, b: Seq<char>, set: Seq<char>)
    requires
        set.contains(c),
        free_of(b, set),
    ensures
        text::fields(a + seq![c] + b, set) == text::fields(a, set).push(b),
    decreases a.len(),
{
    let t = seq![c] + b;
    let s = a + t;
    assert(a + seq![c] + b =~= s);
    text::lemma_first_in(a, set, 0);
    lemma_first_kept(a, t, set, 0);
    let i = text::first_in(a, set, 0);
    if i < a.len() {
        let r = a.skip(i + 1);
        assert(s.skip(i + 1) =~= r + seq![c] + b);
        assert(s.take(i) =~= a.take(i));
        lemma_field_appended(r, c, b, set);
        assert(text::fields(s, set) =~= text::fields(a, set).push(b));
    } else {
        assert(s[a.len() as int] == c);
        assert(text::first_in(s, set, a.len() as int) == a.len());
        assert(s.take(a.len() as int) =~= a);
        assert(s.skip(a.len() as int + 1) =~= b);
        lemma_one_field(b, set, 0);
        assert(text::fields(b, set) =~= seq![b]);
        assert(text::first_in(s, set, 0) == a.len());
        assert(text::fields(s, set) =~= seq![a] + seq![b]);
        assert(text::fields(a, set) =~= seq![a]);
        assert(text::fields(s, set) =~= text::fields(a, set).push(b));
    }
}

/// Whether texts can stand in a list and be found in it again: none is empty, has white space
/// around it or holds a separator.
pub open spec fn listable(p: Seq<Seq<char>>) -> bool {
    forall|i: int|
        0 <= i < p.len() ==> (#[trigger] p[i]).len() > 0 && text::trimmed(p[i]) == p[i] && free_of(
            p[i],
            gui::SEPARATORS@,
        )
}

proof fn lemma_joined_fields(p: Seq<Seq<char>>, n: int)
    requires
        listable(p),
        0 < n <= p.len(),
    ensures
        text::fields(text::joined_to(p, ","@, n), gui::SEPARATORS@) == p.take(n),
    decreases n,
{
    reveal_strlit(",");
    reveal_strlit(", ;");
    assert(","@ =~= seq![',']);
    assert(gui::SEPARATORS@[0] == ',');
    assert(gui::SEPARATORS@.contains(','));
    assert(free_of(p[n - 1], gui::SEPARATORS@));
    if n == 1 {
        lemma_one_field(p[0], gui::SEPARATORS@, 0);
        assert(p.take(1) =~= seq![p[0]]);
    } else {
        let a = text::joined_to(p, ","@, n - 1);
        lemma_joined_fields(p, n - 1);
        lemma_field_appended(a, ',', p[n - 1], gui::SEPARATORS@);
        assert(text::joined_to(p, ","@, n) == a + seq![','] + p[n - 1]);
        assert(p.take(n) =~= p.take(n - 1).push(p[n - 1]));
    }
}

proof fn lemma_filled(p: Seq<Seq<char>>)
    requires
        listable(p),
    ensures
        text::filled(p) == p,
    decreases p.len(),
{
    if p.len() > 0 {
        let h = p.drop_last();
        assert forall|i: int| 0 <= i < h.len() implies (#[trigger] h[i]).len() > 0 && text::trimmed(
            h[i],
        ) == h[i] && free_of(h[i], gui::SEPARATORS@) by {
            assert(h[i] == p[i]);
        }
        lemma_filled(h);
        assert(p[p.len() - 1].len() > 0);
        assert(h.push(p.last()) =~= p);
    }
}

/// A list of endpoints that was joined with commas splits into the same endpoints.
pub proof fn law_joined_list_splits(p: Seq<Seq<char>>)
    requires
        listable(p),
    ensures
        text::entries(text::joined(p, ","@), gui::SEPARATORS@) == p,
{
    if p.len() == 0 {
        let e = Seq::<char>::empty();
        assert(text::joined(p, ","@) =~= e);
        lemma_one_field(e, gui::SEPARATORS@, 0);
        assert(text::fields(e, gui::SEPARATORS@) =~= seq![e]);
        assert(text::trimmed(e) =~= e);
        assert(seq![e].drop_last() =~= Seq::<Seq<char>>::empty());
        assert(text::filled(Seq::<Seq<char>>::empty()) =~= p);
        assert(text::filled(seq![e]) =~= p);
    } else {
        lemma_joined_fields(p, p.len() as int);
        assert(p.take(p.len() as int) =~= p);
        lemma_filled(p);
    }
}

// -------------------------------------------------------------------- numbers

/// A text that neither starts nor ends with white space stays as it is when it is trimmed.
proof fn lemma_trimmed(s: Seq<char>)
    requires
        s.len() > 0,
        !text::is_space(s[0]),
        !text::is_space(s.last()),
    ensures
        text::trimmed(s) == s,
{
}

/// The decimal text of a number is not changed by trimming.
proof fn lemma_decimal_trimmed(n: nat)
    ensures
        text::trimmed(digits::decimal(n)) == digits::decimal(n),
{
    let s = digits::decimal(n);
    digits::lemma_decimal(n);
    assert(digits::is_digit(s[0], 10));
    assert(digits::is_digit(s[s.len() - 1], 10));
    lemma_trimmed(s);
}

/// An integer that a form shows is the one that it reads.
proof fn lemma_integer(n: i64)
    ensures
        gui::integer(digits::signed_decimal(n as int)) == n,
{
    let s = digits::signed_decimal(n as int);
    if n < 0 {
        let d = digits::decimal((-n) as nat);
        digits::lemma_decimal((-n) as nat);
        assert(digits::is_digit(d[d.len() - 1], 10));
        assert(s.last() == d[d.len() - 1]);
        lemma_trimmed(s);
    } else {
        lemma_decimal_trimmed(n as nat);
    }
    digits::law_signed_written_reads_back(n);
}

// ---------------------------------------------------------------------- forms

/// Whether a form shows a host in full: its texts have no white space around them, its endpoints
/// can stand in a list, it has no quota below zero and no access without an address.
pub open spec fn formable(h: config::VpsView) -> bool {
    &&& text::trimmed(h.name) == h.name
    &&& text::trimmed(h.manage_url) == h.manage_url
    &&& h.panel matches Some(p) ==> p.url.len() > 0 && text::trimmed(p.url) == p.url
        && text::trimmed(p.username) == p.username
    &&& listable(h.port_check)
    &&& 0 <= h.quota <= i64::MAX
}

/// A host from the configuration comes back from its form.
pub proof fn law_form_gives_host_back(h: config::VpsView)
    requires
        formable(h),
    ensures
        gui::entry_of(gui::form_of(h)) == h,
{
    law_joined_list_splits(h.port_check);
    let e = Seq::<char>::empty();
    assert(text::trimmed(e) =~= e);
    if h.quota > 0 {
        lemma_integer(h.quota as i64);
    } else {
        assert(digits::signed(e) is None);
    }
}

/// A host in the list that the dashboard gives comes back from its form.
pub proof fn law_listed_host_comes_back(h: config::VpsView)
    requires
        formable(h),
        h.quota <= config::exact_up_to(),
    ensures
        gui::entry_of(gui::form_in(config::host_json(h))) == h,
{
    let v = config::host_json(h);
    config::lemma_host_fields(h);
    config::law_host_json_reads_back(h);
    law_joined_list_splits(h.port_check);
    let e = Seq::<char>::empty();
    assert(text::trimmed(e) =~= e);
    assert(config::ports_in(v) == h.port_check) by {
        assert(config::listed_host(v).port_check == h.port_check);
    }
    assert(json::int_at(v, "quota"@) == h.quota) by {
        assert(config::listed_host(v).quota == h.quota);
    }
    lemma_integer(h.quota as i64);
    match h.panel {
        Some(p) => {
            config::lemma_panel(p);
        },
        None => {},
    }
}

/// The list of hosts that the dashboard gives fills the forms, one for each host, and each form
/// describes its host.
pub proof fn law_list_fills_the_forms(v: Seq<config::VpsView>)
    requires
        forall|i: int|
            0 <= i < v.len() ==> formable(#[trigger] v[i]) && v[i].quota <= config::exact_up_to(),
    ensures
        ({
            let forms = gui::forms_in(json::render(config::hosts_json(v), None));
            &&& forms.len() == v.len()
            &&& forall|i: int| 0 <= i < v.len() ==> gui::entry_of(#[trigger] forms[i]) == v[i]
        }),
{
    let l = v.map_values(|h: config::VpsView| config::host_json(h));
    assert forall|i: int| 0 <= i < l.len() implies roundtrip::faithful(#[trigger] l[i]) by {
        assert(v[i].quota <= config::exact_up_to());
        config::law_host_json_reads_back(v[i]);
    }
    roundtrip::lemma_array_faithful(l);
    let j = config::hosts_json(v);
    roundtrip::law_written_reads_back(j, None, Seq::empty());
    assert(json::render(j, None) + Seq::<char>::empty() =~= json::render(j, None));
    let forms = gui::forms_in(json::render(j, None));
    assert forall|i: int| 0 <= i < v.len() implies gui::entry_of(#[trigger] forms[i]) == v[i] by {
        assert(formable(v[i]));
        law_listed_host_comes_back(v[i]);
        assert(forms[i] == gui::form_in(l[i]));
    }
}

/// A window that was filled in from a configuration describes the same configuration, but that the
/// time between two rounds through the panels is the usual one.
pub proof fn law_window_keeps_the_configuration(c: config::ConfigView)
    requires
        text::trimmed(c.listen) == c.listen,
        text::trimmed(c.key) == c.key,
        text::trimmed(c.title) == c.title,
        c.refresh <= u64::MAX,
        c.offline_after <= u64::MAX,
        forall|i: int| 0 <= i < c.vps.len() ==> formable(#[trigger] c.vps[i]),
    ensures
        launcher::config_of(launcher::filled_window(c)) == (config::ConfigView {
            panel_interval: 300,
            ..c
        }),
{
    let w = launcher::filled_window(c);
    lemma_decimal_trimmed(c.refresh);
    lemma_decimal_trimmed(c.offline_after);
    digits::law_unsigned_written_reads_back(c.refresh, u64::MAX as nat);
    digits::law_unsigned_written_reads_back(c.offline_after, u64::MAX as nat);
    assert(launcher::config_of(w).vps =~= c.vps) by {
        assert forall|i: int| 0 <= i < c.vps.len() implies #[trigger] launcher::config_of(w).vps[i]
            == c.vps[i] by {
            assert(formable(c.vps[i]));
            law_form_gives_host_back(c.vps[i]);
        }
    }
}

// -------------------------------------------------------------------- sending

/// The host that the dashboard makes of a form that was sent: as the form describes it, but that
/// only the name is trimmed.
pub open spec fn received(f: gui::FormView) -> config::VpsView {
    config::VpsView {
        name: text::trimmed(f.name),
        manage_url: f.manage_url,
        panel: if text::trimmed(f.panel_url).len() == 0 {
            None
        } else {
            Some(
                panel::CredsView {
                    url: f.panel_url,
                    username: f.panel_user,
                    password: f.panel_pass,
                },
            )
        },
        port_check: text::entries(f.port_check, gui::SEPARATORS@),
        quota: gui::integer(f.quota),
    }
}

proof fn lemma_pairs(m: Seq<(Seq<char>, sent::Source)>, n: nat)
    requires
        n <= m.len(),
    ensures
        sent::pairs_to(m, n).len() == n,
        forall|i: int|
            0 <= i < n ==> #[trigger] sent::pairs_to(m, n)[i] == (
                m[i].0,
                sent::source_value(m[i].1),
            ),
    decreases n,
{
    if n > 0 {
        lemma_pairs(m, (n - 1) as nat);
    }
}

proof fn lemma_values(p: Seq<Seq<char>>, n: nat)
    requires
        n <= p.len(),
    ensures
        sent::values_to(gui::string_sources(p), n) == config::json_strings(p).take(n as int),
    decreases n,
{
    if n > 0 {
        lemma_values(p, (n - 1) as nat);
        assert(sent::source_value(gui::string_sources(p)[n - 1]) == Json::Str(p[n - 1]));
        assert(config::json_strings(p).take(n as int) =~= config::json_strings(p).take(
            n - 1,
        ).push(Json::Str(p[n - 1])));
    } else {
        assert(config::json_strings(p).take(0) =~= Seq::<Json>::empty());
    }
}

proof fn lemma_panel_sent(f: gui::FormView)
    requires
        text::trimmed(f.panel_url).len() > 0,
    ensures
        sent::simple(gui::panel_source(f)),
        ({
            let v = sent::source_value(gui::panel_source(f));
            &&& json::field(v, "url"@) == Some(Json::Str(f.panel_url))
            &&& json::field(v, "username"@) == Some(Json::Str(f.panel_user))
            &&& json::field(v, "password"@) == Some(Json::Str(f.panel_pass))
        }),
{
    reveal_strlit("url");
    reveal_strlit("username");
    reveal_strlit("password");
    let m = gui::panel_source(f)->Obj_0;
    lemma_pairs(m, 3);
    let l = sent::pairs_to(m, 3);
    assert("url"@.len() == 3 && "username"@.len() == 8 && "password"@.len() == 8);
    assert("username"@[0] != "password"@[0]);
    assert(sent::source_value(m[0].1) == Json::Str(f.panel_url));
    assert(sent::source_value(m[1].1) == Json::Str(f.panel_user));
    assert(sent::source_value(m[2].1) == Json::Str(f.panel_pass));
    assert(l[0].0 == "url"@ && l[1].0 == "username"@ && l[2].0 == "password"@);
    json::lemma_built_field(l, 0);
    json::lemma_built_field(l, 1);
    json::lemma_built_field(l, 2);
    assert forall|i: int| 0 <= i < m.len() implies sent::unquoted((#[trigger] m[i]).0)
        && sent::simple(m[i].1) by {}
}

/// The members of a host that was sent.
proof fn lemma_form_sent(f: gui::FormView)
    ensures
        sent::simple(gui::form_source(f)),
        ({
            let v = sent::source_value(gui::form_source(f));
            &&& json::field(v, "name"@) == Some(Json::Str(f.name))
            &&& json::field(v, "manage_url"@) == Some(Json::Str(f.manage_url))
            &&& json::field(v, "panel"@) == Some(sent::source_value(gui::panel_source(f)))
            &&& json::field(v, "port_check"@) == Some(
                Json::Arr(
                    config::json_strings(text::entries(f.port_check, gui::SEPARATORS@)),
                ),
            )
            &&& json::field(v, "quota"@) == Some(Json::Num(num::of_int(gui::integer(f.quota))))
        }),
{
    reveal_strlit("name");
    reveal_strlit("manage_url");
    reveal_strlit("panel");
    reveal_strlit("port_check");
    reveal_strlit("quota");
    let m = gui::form_source(f)->Obj_0;
    let p = text::entries(f.port_check, gui::SEPARATORS@);
    lemma_pairs(m, 5);
    lemma_values(p, p.len());
    assert(config::json_strings(p).take(p.len() as int) =~= config::json_strings(p));
    let l = sent::pairs_to(m, 5);
    assert("name"@.len() == 4 && "manage_url"@.len() == 10 && "panel"@.len() == 5
        && "port_check"@.len() == 10 && "quota"@.len() == 5);
    assert("manage_url"@[0] != "port_check"@[0]);
    assert("panel"@[0] != "quota"@[0]);
    assert(gui::string_sources(p).len() == p.len());
    assert(sent::source_value(m[0].1) == Json::Str(f.name));
    assert(sent::source_value(m[1].1) == Json::Str(f.manage_url));
    assert(sent::source_value(m[3].1) == Json::Arr(config::json_strings(p)));
    assert(sent::source_value(m[4].1) == Json::Num(num::of_int(gui::integer(f.quota))));
    assert(l[0].0 == "name"@ && l[1].0 == "manage_url"@ && l[2].0 == "panel"@ && l[3].0
        == "port_check"@ && l[4].0 == "quota"@);
    json::lemma_built_field(l, 0);
    json::lemma_built_field(l, 1);
    json::lemma_built_field(l, 2);
    json::lemma_built_field(l, 3);
    json::lemma_built_field(l, 4);
    if text::trimmed(f.panel_url).len() > 0 {
        lemma_panel_sent(f);
    }
    assert(sent::simple(m[2].1));
    assert(sent::simple(m[3].1)) by {
        let a = gui::string_sources(p);
        assert forall|i: int| 0 <= i < a.len() implies sent::simple(#[trigger] a[i]) by {}
    }
    assert forall|i: int| 0 <= i < m.len() implies sent::unquoted((#[trigger] m[i]).0)
        && sent::simple(m[i].1) by {}
}

/// A form that was sent to the dashboard arrives: the dashboard takes over the host that the form
/// describes.
pub proof fn law_sent_form_arrives(f: gui::FormView)
    requires
        text::trimmed(f.name).len() > 0,
        -config::exact_up_to() <= gui::integer(f.quota) <= config::exact_up_to(),
    ensures
        ({
            let v = sent::source_value(gui::form_source(f));
            &&& reader::meaning(sent::source_text(gui::form_source(f))) == Ok::<Json, Seq<char>>(v)
            &&& serve::form_host(v) == Ok::<config::VpsView, Seq<char>>(received(f))
        }),
{
    let v = sent::source_value(gui::form_source(f));
    let p = text::entries(f.port_check, gui::SEPARATORS@);
    lemma_form_sent(f);
    sent::law_sent_reads_back(gui::form_source(f));
    config::lemma_strings(p, p.len() as int);
    assert(p.take(p.len() as int) =~= p);
    num::law_small_whole_numbers_are_exact(gui::integer(f.quota));
    if text::trimmed(f.panel_url).len() > 0 {
        lemma_panel_sent(f);
        let e = Seq::<char>::empty();
        assert(text::trimmed(e) =~= e);
        if f.panel_url.len() == 0 {
            assert(f.panel_url =~= e);
        }
    }
}

} // verus!
