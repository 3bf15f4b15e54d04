//! What holds of the window, the command line and the page: texts go in and come out as what
//! they stand for.

use vstd::prelude::*;
use crate::addresses;
use crate::agent;
use crate::cli;
use crate::digits;
use crate::form_laws;
use crate::gui;
use crate::http;
use crate::json;
use crate::launcher;
use crate::launcher::LauncherView;
use crate::panel_laws;
use crate::text;
use crate::text_laws;
use crate::url;
use crate::web;

verus! {

// -------------------------------------------------------------------- numbers

/// A decimal number between white space is read as the number, wherever the window asks for one.
pub proof fn law_numbers_in_forms(before: Seq<char>, n: nat, after: Seq<char>, d: nat)
    requires
        text_laws::blanks(before),
        text_laws::blanks(after),
    ensures
        n <= u64::MAX ==> launcher::number_or(before + digits::decimal(n) + after, d) == n,
        n <= i64::MAX ==> gui::integer(before + digits::decimal(n) + after) == n,
        0 < n <= i64::MAX ==> gui::integer(before + (seq!['-'] + digits::decimal(n)) + after) == -n,
{
    let s = digits::decimal(n);
    digits::lemma_decimal(n);
    assert(digits::is_digit(s[0], 10));
    assert(digits::is_digit(s[s.len() - 1], 10));
    text_laws::law_trimmed(before, s, after);
    if n <= u64::MAX {
        digits::law_unsigned_written_reads_back(n, u64::MAX as nat);
    }
    if n <= i64::MAX {
        digits::law_signed_written_reads_back(n as i64);
        let t = seq!['-'] + s;
        assert(t.last() == s[s.len() - 1]);
        text_laws::law_trimmed(before, t, after);
        if n > 0 {
            digits::law_signed_written_reads_back((-n) as i64);
        }
    }
}

/// The port on which the dashboard listens is the number after the last colon.
pub proof fn law_listen_port(host: Seq<char>, port: nat)
    requires
        port <= 65535,
    ensures
        launcher::port_of(host + seq![':'] + digits::decimal(port)) == port,
{
    let d = digits::decimal(port);
    let s = host + seq![':'] + d;
    let c = host.len() as int;
    digits::lemma_decimal(port);
    digits::law_unsigned_written_reads_back(port, 65535);
    assert(s[c] == ':');
    assert forall|i: int| c < i < s.len() implies #[trigger] s[i] != ':' by {
        assert(s[i] == d[i - c - 1]);
        assert(digits::is_digit(d[i - c - 1], 10));
    }
    text::lemma_last_of(s, ':', s.len() as int);
    assert(s.skip(c + 1) =~= d);
}

/// The time between two reports is the number given, but at least five seconds, and thirty where
/// none is given.
pub proof fn law_interval(n: nat)
    requires
        n <= u64::MAX,
    ensures
        n >= 5 ==> cli::interval_of(Some(digits::decimal(n))) == n,
        n < 5 ==> cli::interval_of(Some(digits::decimal(n))) == 5,
        cli::interval_of(None) == 30,
{
    digits::law_unsigned_written_reads_back(n, u64::MAX as nat);
}

// ---------------------------------------------------------------------- lists

/// An endpoint behind a comma, a blank or a semicolon comes behind the others in the list; an empty
/// one does not count.
pub proof fn law_endpoint_is_listed(s: Seq<char>, c: char, x: Seq<char>)
    requires
        c == ',' || c == ' ' || c == ';',
        text_laws::tight(x),
        text_laws::without(x, ',') && text_laws::without(x, ' ') && text_laws::without(x, ';'),
    ensures
        x.len() > 0 ==> text::entries(s + seq![c] + x, gui::SEPARATORS@) == text::entries(
            s,
            gui::SEPARATORS@,
        ).push(x),
        x.len() == 0 ==> text::entries(s + seq![c] + x, gui::SEPARATORS@) == text::entries(
            s,
            gui::SEPARATORS@,
        ),
{
    let set = gui::SEPARATORS@;
    lemma_separators(c);
    assert forall|i: int| 0 <= i < x.len() implies !set.contains(#[trigger] x[i]) by {
        assert(x[i] != ',' && x[i] != ' ' && x[i] != ';');
        lemma_separators(x[i]);
    }
    form_laws::lemma_field_appended(s, c, x, set);
    let e = Seq::<char>::empty();
    text_laws::law_trimmed(e, x, e);
    assert(e + x + e =~= x);
    let f = text::fields(s, set);
    assert(f.push(x).drop_last() =~= f);
}

proof fn lemma_separators(c: char)
    ensures
        gui::SEPARATORS@.contains(c) <==> (c == ',' || c == ' ' || c == ';'),
{
    reveal_strlit(", ;");
    let set = gui::SEPARATORS@;
    assert(set == ", ;"@);
    assert(set.len() == 3 && set[0] == ',' && set[1] == ' ' && set[2] == ';');
    if set.contains(c) {
        let w = choose|w: int| 0 <= w < set.len() && set[w] == c;
        assert(w == 0 || w == 1 || w == 2);
    }
}

// ---------------------------------------------------------------------- calls

/// The calls of the window go to the dashboard on this machine, on the port on which it listens:
/// the list of hosts, a host for the list with the key, and the removal of a host with the key.
pub proof fn law_window_calls(w: LauncherView, f: gui::FormView, name: Seq<char>)
    ensures
        ({
            let port = launcher::port_of(w.listen);
            let here = "127.0.0.1"@;
            let key = text::trimmed(w.key);
            &&& launcher::list_call(w).method == "GET"@
            &&& http::url_parts(launcher::list_call(w).url) == Some((here, port, "/api/hosts"@))
            &&& launcher::host_call(w, f).method == "POST"@
            &&& http::url_parts(launcher::host_call(w, f).url) == Some(
                (here, port, "/api/hosts"@ + "?key="@ + key),
            )
            &&& launcher::delete_call(w, name).method == "DELETE"@
            &&& http::url_parts(launcher::delete_call(w, name).url) == Some(
                (here, port, "/api/hosts/"@ + url::encoded(name) + "?key="@ + key),
            )
        }),
{
    let port = launcher::port_of(w.listen);
    let here = "127.0.0.1"@;
    let key = text::trimmed(w.key);
    let d = digits::decimal(port);
    law_port_is_one(w.listen);
    reveal_strlit("127.0.0.1");
    reveal_strlit("http://127.0.0.1:");
    reveal_strlit("http://");
    reveal_strlit("/api/hosts");
    reveal_strlit("/api/hosts/");
    reveal_strlit("/api/hosts?key=");
    reveal_strlit("?key=");
    assert("http://127.0.0.1:"@ =~= "http://"@ + (here + seq![':']));
    assert("/api/hosts?key="@ =~= "/api/hosts"@ + "?key="@);
    let base = "http://"@ + (here + seq![':'] + d);
    assert(launcher::local_url(w) =~= base);
    let p1 = "/api/hosts"@;
    let p2 = "/api/hosts"@ + "?key="@ + key;
    let p3 = "/api/hosts/"@ + url::encoded(name) + "?key="@ + key;
    assert(p1[0] == '/' && p2[0] == '/' && p3[0] == '/');
    assert(launcher::list_call(w).url =~= base + p1);
    assert(launcher::host_call(w, f).url =~= base + p2);
    assert(launcher::delete_call(w, name).url =~= base + p3);
    assert(addresses::lacks(here, '/')) by {
        assert forall|i: int| 0 <= i < here.len() implies #[trigger] here[i] != '/' by {}
    }
    addresses::law_address_parts(here, port, p1);
    addresses::law_address_parts(here, port, p2);
    addresses::law_address_parts(here, port, p3);
}

/// The port on which the dashboard listens is one.
pub proof fn law_port_is_one(listen: Seq<char>)
    ensures
        launcher::port_of(listen) <= 65535,
{
}

/// An agent reports to the same address whatever slashes its server ends with, and the report goes
/// there as what it is.
pub proof fn law_agent_address(base: Seq<char>, slashes: nat, key: Seq<char>)
    requires
        base.len() > 0 ==> base.last() != '/',
    ensures
        agent::report_url(base + Seq::new(slashes, |i: int| '/'), key) == base
            + "/api/report?key="@ + key,
{
    panel_laws::law_slashes_do_not_matter(base, slashes);
}

/// The name under which an agent reports: the one it was given; else what the file with the name of
/// the machine holds between white space; else a fixed one.
pub proof fn law_agent_name(given: Seq<char>, before: Seq<char>, host: Seq<char>, after: Seq<char>)
    requires
        text_laws::blanks(before),
        text_laws::blanks(after),
        text_laws::tight(host),
    ensures
        ({
            let file = Some(before + host + after);
            let none = Seq::<char>::empty();
            &&& given.len() > 0 ==> agent::agent_name(given, file) == given
            &&& given.len() > 0 ==> agent::agent_name(given, None) == given
            &&& host.len() > 0 ==> agent::agent_name(none, file) == host
            &&& host.len() == 0 ==> agent::agent_name(none, file) == "vps"@
            &&& agent::agent_name(none, None) == "vps"@
        }),
{
    text_laws::law_trimmed(before, host, after);
}

// --------------------------------------------------------------------- clicks

/// Saving a form that was open for a host changes that host alone; saving a new one puts it behind
/// the others. The form is closed then, and nothing else changes but the line that says so.
pub proof fn law_saved_form(w: LauncherView)
    ensures
        ({
            let v = launcher::taken_over(w);
            &&& w.editing is None ==> v.hosts.len() == w.hosts.len() + 1 && v.hosts.last()
                == w.editor
            &&& w.editing matches Some(k) ==> v.hosts.len() == w.hosts.len() && (k < w.hosts.len()
                ==> v.hosts[k as int] == w.editor)
            &&& forall|i: int|
                0 <= i < w.hosts.len() && !(w.editing matches Some(k) && k == i)
                    ==> #[trigger] v.hosts[i] == w.hosts[i]
            &&& !v.editor_open && v.editing is None
            &&& v == LauncherView {
                hosts: v.hosts,
                editor_open: false,
                editing: None,
                status: v.status,
                ..w
            }
        }),
{
}

/// A click on "save" does nothing but say so where the name is blank; it makes a call exactly where
/// the dashboard runs, and changes the hosts at once where it does not. After the call the hosts
/// change exactly where the reply has the status 200.
pub proof fn law_save_click(w: LauncherView, r: Result<http::RespView, Seq<char>>)
    ensures
        ({
            let (v, call) = launcher::after_save_click(w);
            let blank = text::trimmed(w.editor.name).len() == 0;
            let replied = launcher::after_host_reply(w, r);
            &&& blank ==> call is None && v == LauncherView { status: v.status, ..w }
            &&& call is Some <==> !blank && w.serve_running
            &&& call is Some ==> v == w && call->0 == launcher::host_call(w, w.editor)
            &&& !blank && !w.serve_running ==> v == launcher::taken_over(w)
            &&& (r matches Ok(x) && x.status == 200) ==> replied == launcher::taken_over(w)
            &&& !(r matches Ok(x) && x.status == 200) ==> replied == LauncherView {
                status: replied.status,
                ..w
            }
        }),
{
}

/// A click on "delete" removes that host from the window alone, and calls for its removal from the
/// dashboard exactly where that runs.
pub proof fn law_delete_click(w: LauncherView, i: int)
    requires
        0 <= i < w.hosts.len(),
    ensures
        ({
            let (v, call) = launcher::after_delete_click(w, i);
            &&& v.hosts.len() == w.hosts.len() - 1
            &&& forall|j: int| 0 <= j < i ==> #[trigger] v.hosts[j] == w.hosts[j]
            &&& forall|j: int| i <= j < v.hosts.len() ==> #[trigger] v.hosts[j] == w.hosts[j + 1]
            &&& v == LauncherView { hosts: v.hosts, ..w }
            &&& call is Some <==> w.serve_running
            &&& call matches Some(c) ==> c == launcher::delete_call(w, w.hosts[i].name)
        }),
{
}

// ------------------------------------------------------------------- arguments

/// Whether a text cannot be taken for a flag.
pub open spec fn no_flag(s: Seq<char>) -> bool {
    s.len() < 2 || s[0] != '-' || s[1] != '-'
}

/// Whether a text has the form of a flag.
pub open spec fn is_flag(s: Seq<char>) -> bool {
    s.len() > 2 && s[0] == '-' && s[1] == '-'
}

/// An argument that is no flag decides nothing.
proof fn lemma_no_flag(a: Seq<char>, flag: Seq<char>)
    requires
        no_flag(a),
        is_flag(flag),
    ensures
        a != flag,
        cli::value_in(a, flag) is None,
{
    if text::begins(a, flag) {
        assert(a.take(flag.len() as int)[0] == flag[0]);
        assert(a.take(flag.len() as int)[1] == flag[1]);
    }
}

/// A flag of another length than one and that is no start of it decides nothing for that one.
proof fn lemma_other_flag(a: Seq<char>, flag: Seq<char>)
    requires
        a != flag,
        a.len() <= flag.len() || a[2] != flag[2],
        flag.len() > 2,
    ensures
        cli::value_in(a, flag) is None,
{
    if text::begins(a, flag) && a.len() > flag.len() {
        assert(a.take(flag.len() as int)[2] == flag[2]);
    }
}

proof fn lemma_flags()
    ensures
        is_flag("--server"@) && is_flag("--key"@) && is_flag("--name"@) && is_flag("--interval"@)
            && is_flag("--port-check"@),
        no_flag("agent"@),
        "--server"@.len() == 8 && "--server"@[2] == 's',
        "--key"@.len() == 5 && "--key"@[2] == 'k',
        "--name"@.len() == 6 && "--name"@[2] == 'n',
        "--interval"@.len() == 10 && "--interval"@[2] == 'i',
        "--port-check"@.len() == 12 && "--port-check"@[2] == 'p',
        "agent"@ != "serve"@,
{
    reveal_strlit("--server");
    reveal_strlit("--key");
    reveal_strlit("--name");
    reveal_strlit("--interval");
    reveal_strlit("--port-check");
    reveal_strlit("agent");
    reveal_strlit("serve");
    assert("agent"@[0] == 'a' && "serve"@[0] == 's');
}

proof fn lemma_flag_at(args: Seq<Seq<char>>, flag: Seq<char>, i: int, n: int)
    requires
        1 <= i <= n <= args.len(),
        forall|j: int|
            1 <= j < n ==> (#[trigger] args[j]) != flag && cli::value_in(args[j], flag) is None,
    ensures
        cli::flag_value(args, flag, i) == cli::flag_value(args, flag, n),
    decreases n - i,
{
    if i < n {
        assert(args[i] != flag);
        lemma_flag_at(args, flag, i + 1, n);
    }
}

/// The arguments with which the window starts the agent ask for the agent, and their flags have the
/// values that the window holds, without the white space around them; those that are left empty
/// are not given.
pub proof fn law_agent_arguments_are_read(w: LauncherView, program: Seq<char>)
    requires
        no_flag(text::trimmed(w.agent_server)),
        no_flag(text::trimmed(w.agent_key)),
        no_flag(text::trimmed(w.agent_name)),
        no_flag(text::trimmed(w.agent_interval)),
        no_flag(text::trimmed(w.agent_ports)),
    ensures
        ({
            let args = seq![program] + launcher::agent_arguments(w);
            let name = text::trimmed(w.agent_name);
            let ports = text::trimmed(w.agent_ports);
            &&& cli::asked(args) == cli::Command::Agent
            &&& cli::flag_value(args, "--server"@, 1) == Some(text::trimmed(w.agent_server))
            &&& cli::flag_value(args, "--key"@, 1) == Some(text::trimmed(w.agent_key))
            &&& cli::flag_value(args, "--name"@, 1) == (if name.len() > 0 {
                Some(name)
            } else {
                None
            })
            &&& cli::flag_value(args, "--interval"@, 1) == (if launcher::number_or(
                w.agent_interval,
                30,
            ) != 30 {
                Some(text::trimmed(w.agent_interval))
            } else {
                None
            })
            &&& cli::flag_value(args, "--port-check"@, 1) == (if ports.len() > 0 {
                Some(ports)
            } else {
                None
            })
        }),
{
    let args = seq![program] + launcher::agent_arguments(w);
    lemma_flags();
    let n = args.len() as int;
    assert(args[1] == "agent"@);
    assert(args[2] == "--server"@);
    assert(args[3] == text::trimmed(w.agent_server));
    assert(args[4] == "--key"@);
    assert(args[5] == text::trimmed(w.agent_key));
    let i: int = if text::trimmed(w.agent_name).len() > 0 {
        8
    } else {
        6
    };
    let p: int = if launcher::number_or(w.agent_interval, 30) != 30 {
        i + 2
    } else {
        i
    };
    if i == 8 {
        assert(args[6] == "--name"@);
        assert(args[7] == text::trimmed(w.agent_name));
    }
    if p > i {
        assert(args[i] == "--interval"@);
        assert(args[i + 1] == text::trimmed(w.agent_interval));
    }
    if text::trimmed(w.agent_ports).len() > 0 {
        assert(n == p + 2);
        assert(args[p] == "--port-check"@);
        assert(args[p + 1] == text::trimmed(w.agent_ports));
    } else {
        assert(n == p);
    }
    lemma_flag_found(args, "--server"@, 2);
    lemma_flag_found(args, "--key"@, 4);
    lemma_flag_found(args, "--name"@, 6);
    lemma_flag_found(args, "--interval"@, i);
    lemma_flag_found(args, "--port-check"@, p);
}

/// Whether an argument is one of the flags of the agent, or none.
pub open spec fn known(a: Seq<char>) -> bool {
    ||| no_flag(a)
    ||| a == "--server"@
    ||| a == "--key"@
    ||| a == "--name"@
    ||| a == "--interval"@
    ||| a == "--port-check"@
}

/// The value of a flag that stands at a place, or nowhere.
proof fn lemma_flag_found(args: Seq<Seq<char>>, flag: Seq<char>, k: int)
    requires
        1 <= k <= args.len(),
        flag == "--server"@ || flag == "--key"@ || flag == "--name"@ || flag == "--interval"@
            || flag == "--port-check"@,
        forall|j: int| 1 <= j < args.len() ==> known(#[trigger] args[j]),
        forall|j: int| 1 <= j < args.len() && j != k ==> #[trigger] args[j] != flag,
        k + 1 == args.len() ==> args[k] != flag,
    ensures
        cli::flag_value(args, flag, 1) == (if k < args.len() && args[k] == flag {
            Some(args[k + 1])
        } else {
            None
        }),
{
    lemma_flags();
    let n = if k < args.len() && args[k] == flag {
        k
    } else {
        args.len() as int
    };
    assert forall|j: int| 1 <= j < n implies (#[trigger] args[j]) != flag && cli::value_in(
        args[j],
        flag,
    ) is None by {
        assert(known(args[j]));
        if no_flag(args[j]) {
            lemma_no_flag(args[j], flag);
        } else {
            lemma_other_flag(args[j], flag);
        }
    }
    lemma_flag_at(args, flag, 1, n);
}

// ----------------------------------------------------------------------- page

/// Whether two braces that open stand nowhere next to each other in a text, nor one at its end.
pub open spec fn no_place(s: Seq<char>) -> bool {
    forall|i: int| 0 <= i < s.len() && #[trigger] s[i] == '{' ==> i + 1 < s.len() && s[i + 1] != '{'
}

/// A text without a place for something stays as it is up to what follows it.
proof fn lemma_replaced_skips(a: Seq<char>, b: Seq<char>, pat: Seq<char>, new: Seq<char>)
    requires
        no_place(a),
        pat.len() > 2 && pat[0] == '{' && pat[1] == '{',
    ensures
        text::replaced(a + b, pat, new) == a + text::replaced(b, pat, new),
    decreases a.len(),
{
    let s = a + b;
    if a.len() == 0 {
        assert(s =~= b);
        assert(a + text::replaced(b, pat, new) =~= text::replaced(b, pat, new));
    } else {
        let c = a.skip(1);
        assert forall|i: int| 0 <= i < c.len() && #[trigger] c[i] == '{' implies i + 1 < c.len()
            && c[i + 1] != '{' by {
            assert(a[i + 1] == '{');
        }
        assert(s.skip(1) =~= c + b);
        lemma_replaced_skips(c, b, pat, new);
        assert(s[0] == a[0]);
        if text::begins(s, pat) {
            assert(s.take(pat.len() as int)[0] == pat[0]);
            assert(s.take(pat.len() as int)[1] == pat[1]);
            assert(a[0] == '{');
            assert(s[1] == a[1]);
            assert(false);
        }
        if s.len() < pat.len() {
            lemma_replaced_short(b, pat, new);
            assert(a + b =~= s);
        } else {
            assert(seq![s[0]] + (c + text::replaced(b, pat, new)) =~= a + text::replaced(
                b,
                pat,
                new,
            ));
        }
    }
}

proof fn lemma_replaced_short(b: Seq<char>, pat: Seq<char>, new: Seq<char>)
    requires
        b.len() < pat.len(),
    ensures
        text::replaced(b, pat, new) == b,
{
}

/// What stands in a place is put there.
proof fn lemma_replaced_place(pat: Seq<char>, b: Seq<char>, new: Seq<char>)
    requires
        pat.len() > 0,
    ensures
        text::replaced(pat + b, pat, new) == new + text::replaced(b, pat, new),
{
    let s = pat + b;
    assert(s.take(pat.len() as int) =~= pat);
    assert(s.skip(pat.len() as int) =~= b);
}

/// A place for one thing is none for another.
proof fn lemma_replaced_other(q: Seq<char>, b: Seq<char>, pat: Seq<char>, new: Seq<char>)
    requires
        q.len() > 3 && q[0] == '{' && q[1] == '{' && no_place(q.skip(2)),
        q[2] != '{',
        pat.len() > 2 && pat[0] == '{' && pat[1] == '{' && pat[2] != q[2],
    ensures
        text::replaced(q + b, pat, new) == q + text::replaced(b, pat, new),
{
    let s = q + b;
    let r = q.skip(2);
    assert(s[0] == '{' && s[1] == '{' && s[2] == q[2]);
    lemma_replaced_skips(r, b, pat, new);
    let t = s.skip(1);
    assert(t[0] == '{' && t[1] == q[2]);
    assert(t.skip(1) =~= r + b);
    if text::begins(s, pat) {
        assert(s.take(pat.len() as int)[2] == pat[2]);
    }
    if text::begins(t, pat) {
        assert(t.take(pat.len() as int)[1] == pat[1]);
        assert(q[2] == '{');
    }
    let end = text::replaced(b, pat, new);
    if s.len() < pat.len() {
        lemma_replaced_short(b, pat, new);
    } else if t.len() < pat.len() {
        lemma_replaced_short(b, pat, new);
        assert(text::replaced(t, pat, new) == t);
        assert(seq![s[0]] + t =~= q + b);
    } else {
        assert(text::replaced(t, pat, new) =~= seq![t[0]] + (r + end));
        assert(text::replaced(s, pat, new) =~= seq![s[0]] + (seq![t[0]] + (r + end)));
        assert(seq![s[0]] + (seq![t[0]] + (r + end)) =~= q + end);
    }
}

proof fn lemma_places()
    ensures
        ({
            let t = "{{TITLE}}"@;
            let r = "{{REFRESH}}"@;
            let k = "{{KEY}}"@;
            &&& t.len() == 9 && t[0] == '{' && t[1] == '{' && t[2] == 'T' && no_place(t.skip(2))
            &&& r.len() == 11 && r[0] == '{' && r[1] == '{' && r[2] == 'R' && no_place(r.skip(2))
            &&& k.len() == 7 && k[0] == '{' && k[1] == '{' && k[2] == 'K' && no_place(k.skip(2))
        }),
{
    reveal_strlit("{{TITLE}}");
    reveal_strlit("{{REFRESH}}");
    reveal_strlit("{{KEY}}");
    let t = "{{TITLE}}"@;
    let r = "{{REFRESH}}"@;
    let k = "{{KEY}}"@;
    assert forall|i: int| 0 <= i < t.skip(2).len() implies #[trigger] t.skip(2)[i] != '{' by {
        assert(t.skip(2)[i] == t[i + 2]);
    }
    assert forall|i: int| 0 <= i < r.skip(2).len() implies #[trigger] r.skip(2)[i] != '{' by {
        assert(r.skip(2)[i] == r[i + 2]);
    }
    assert forall|i: int| 0 <= i < k.skip(2).len() implies #[trigger] k.skip(2)[i] != '{' by {
        assert(k.skip(2)[i] == k[i + 2]);
    }
}

/// The page is its template with the title, the seconds between two loads and the key as a string
/// literal in their places, and nothing else changed.
pub proof fn law_page_is_filled(
    a: Seq<char>,
    b: Seq<char>,
    c: Seq<char>,
    d: Seq<char>,
    title: Seq<char>,
    refresh: nat,
    key: Seq<char>,
)
    requires
        no_place(a) && no_place(b) && no_place(c) && no_place(d),
        no_place(title),
    ensures
        web::filled(
            a + ("{{TITLE}}"@ + (b + ("{{REFRESH}}"@ + (c + ("{{KEY}}"@ + d))))),
            title,
            refresh,
            key,
        ) == a + (title + (b + (digits::decimal(refresh) + (c + (json::quoted(key) + d))))),
{
    let t = "{{TITLE}}"@;
    let r = "{{REFRESH}}"@;
    let k = "{{KEY}}"@;
    let n = digits::decimal(refresh);
    let q = json::quoted(key);
    let e = Seq::<char>::empty();
    lemma_places();
    digits::lemma_decimal(refresh);
    assert(no_place(n)) by {
        assert forall|i: int| 0 <= i < n.len() implies #[trigger] n[i] != '{' by {
            assert(digits::is_digit(n[i], 10));
        }
    }
    assert(d + e =~= d);
    // The title.
    lemma_replaced_skips(a, t + (b + (r + (c + (k + d)))), t, title);
    lemma_replaced_place(t, b + (r + (c + (k + d))), title);
    lemma_replaced_skips(b, r + (c + (k + d)), t, title);
    lemma_replaced_other(r, c + (k + d), t, title);
    lemma_replaced_skips(c, k + d, t, title);
    lemma_replaced_other(k, d, t, title);
    lemma_replaced_skips(d, e, t, title);
    // The seconds.
    lemma_replaced_skips(a, title + (b + (r + (c + (k + d)))), r, n);
    lemma_replaced_skips(title, b + (r + (c + (k + d))), r, n);
    lemma_replaced_skips(b, r + (c + (k + d)), r, n);
    lemma_replaced_place(r, c + (k + d), n);
    lemma_replaced_skips(c, k + d, r, n);
    lemma_replaced_other(k, d, r, n);
    lemma_replaced_skips(d, e, r, n);
    // The key.
    lemma_replaced_skips(a, title + (b + (n + (c + (k + d)))), k, q);
    lemma_replaced_skips(title, b + (n + (c + (k + d))), k, q);
    lemma_replaced_skips(b, n + (c + (k + d)), k, q);
    lemma_replaced_skips(n, c + (k + d), k, q);
    lemma_replaced_skips(c, k + d, k, q);
    lemma_replaced_place(k, d, q);
    lemma_replaced_skips(d, e, k, q);
    lemma_replaced_short(e, t, title);
    lemma_replaced_short(e, r, n);
    lemma_replaced_short(e, k, q);
}


// ---------------------------------------------------------------------- forms

/// A form describes its host without the white space around its texts; the password stays as it
/// is, and a form without an address of a panel describes none.
pub proof fn law_form_is_trimmed(
    f: gui::FormView,
    before: Seq<char>,
    x: Seq<char>,
    after: Seq<char>,
)
    requires
        text_laws::blanks(before),
        text_laws::blanks(after),
        text_laws::tight(x),
    ensures
        ({
            let h = gui::entry_of(f);
            let s = before + x + after;
            &&& f.name == s ==> h.name == x
            &&& f.manage_url == s ==> h.manage_url == x
            &&& f.panel_url == s ==> (h.panel is Some <==> x.len() > 0)
            &&& f.panel_url == s ==> (h.panel matches Some(p) ==> p.url == x)
            &&& f.panel_user == s ==> (h.panel matches Some(p) ==> p.username == x)
            &&& h.panel matches Some(p) ==> p.password == f.panel_pass
        }),
{
    text_laws::law_trimmed(before, x, after);
}

/// A list that came with the status 200 takes the place of the hosts in the window; any other reply
/// leaves them. The window asks for the list exactly where the dashboard runs.
pub proof fn law_list_reply(w: LauncherView, r: Result<http::RespView, Seq<char>>)
    ensures
        ({
            let v = launcher::after_list_reply(w, r);
            &&& v == LauncherView { hosts: v.hosts, status: v.status, ..w }
            &&& r matches Ok(x) ==> (x.status == 200 ==> v.hosts == gui::forms_in(x.body))
            &&& !(r matches Ok(x) && x.status == 200) ==> v.hosts == w.hosts
            &&& launcher::after_refresh_click(w).1 is Some <==> w.serve_running
            &&& launcher::after_refresh_click(w).0 == LauncherView {
                status: launcher::after_refresh_click(w).0.status,
                ..w
            }
        }),
{
}

/// The dashboard and the agent count as running exactly from a start that succeeded.
pub proof fn law_start(w: LauncherView, s: launcher::Start, error: Option<Seq<char>>)
    ensures
        launcher::after_serve_start(w, s).serve_running == (s is Running || w.serve_running),
        launcher::after_agent_start(w, error).agent_running == (error is None || w.agent_running),
        launcher::after_serve_start(w, s).hosts == w.hosts,
        launcher::after_agent_start(w, error).hosts == w.hosts,
{
}

/// The line of a host starts with its name and ends with its endpoints, where it has any.
pub proof fn law_row(f: gui::FormView)
    ensures
        text::begins(launcher::row(f), f.name),
        panel_laws::ends_with(launcher::row(f), f.port_check),
{
    let s = launcher::row(f);
    let n = f.port_check.len() as int;
    assert(s.take(f.name.len() as int) =~= f.name);
    assert(s.skip(s.len() - n) =~= f.port_check);
}


/// The window describes the configuration in its fields, without the white space around them, and
/// with the usual numbers where a field holds none.
pub proof fn law_window_is_trimmed(
    w: LauncherView,
    before: Seq<char>,
    x: Seq<char>,
    after: Seq<char>,
    n: nat,
)
    requires
        text_laws::blanks(before),
        text_laws::blanks(after),
        text_laws::tight(x),
        n <= u64::MAX,
    ensures
        ({
            let c = launcher::config_of(w);
            let s = before + x + after;
            let d = before + digits::decimal(n) + after;
            &&& w.listen == s ==> c.listen == x
            &&& w.key == s ==> c.key == x
            &&& w.title == s ==> c.title == x
            &&& w.refresh == d ==> c.refresh == n
            &&& w.offline_after == d ==> c.offline_after == n
            &&& w.refresh == before + after ==> c.refresh == 5
            &&& w.offline_after == before + after ==> c.offline_after == 90
            &&& c.vps.len() == w.hosts.len()
            &&& forall|i: int|
                0 <= i < w.hosts.len() ==> #[trigger] c.vps[i] == gui::entry_of(w.hosts[i])
        }),
{
    let e = Seq::<char>::empty();
    text_laws::law_trimmed(before, x, after);
    text_laws::law_trimmed(before, e, after);
    assert(before + e + after =~= before + after);
    law_numbers_in_forms(before, n, after, 5);
    law_numbers_in_forms(before, n, after, 90);
}


/// Where a text with a character other than digits stands for a number, the usual number is taken.
pub proof fn law_no_numbers(a: Seq<char>, c: char, b: Seq<char>, d: nat, host: Seq<char>)
    requires
        c < '0' || '9' < c,
        a.len() == 0 ==> c != '+' && c != '-',
        text_laws::tight(a + seq![c] + b),
        text_laws::without(a + seq![c] + b, ':'),
    ensures
        cli::interval_of(Some(a + seq![c] + b)) == 30,
        launcher::number_or(a + seq![c] + b, d) == d,
        gui::integer(a + seq![c] + b) == 0,
        launcher::port_of(host + seq![':'] + (a + seq![c] + b)) == 8899,
{
    let s = a + seq![c] + b;
    let e = Seq::<char>::empty();
    digits::law_other_characters_are_refused(a, c, b, u64::MAX as nat);
    digits::law_other_characters_are_refused(a, c, b, 65535);
    text_laws::law_trimmed(e, s, e);
    assert(e + s + e =~= s);
    lemma_no_port(host, s);
}

proof fn lemma_no_port(host: Seq<char>, s: Seq<char>)
    requires
        text_laws::without(s, ':'),
        digits::unsigned(s, 10, 65535) is None,
    ensures
        launcher::port_of(host + seq![':'] + s) == 8899,
{
    let t = host + seq![':'] + s;
    let k = host.len() as int;
    assert(t[k] == ':');
    assert forall|i: int| k < i < t.len() implies #[trigger] t[i] != ':' by {
        assert(t[i] == s[i - k - 1]);
    }
    text::lemma_last_of(t, ':', t.len() as int);
    assert(t.skip(k + 1) =~= s);
}


/// A form that was opened for a host and saved as it is leaves the hosts as they are; one that was
/// filled in changes that host alone, or comes behind the others where it was opened empty; and one
/// that was closed leaves everything else as it is.
pub proof fn law_open_and_save(w: LauncherView, i: usize, f: gui::FormView)
    requires
        i < w.hosts.len(),
    ensures
        launcher::taken_over(launcher::opened(w, Some(i))).hosts == w.hosts,
        launcher::taken_over(LauncherView { editor: f, ..launcher::opened(w, Some(i)) }).hosts
            == w.hosts.update(i as int, f),
        launcher::taken_over(LauncherView { editor: f, ..launcher::opened(w, None) }).hosts
            == w.hosts.push(f),
        launcher::opened(w, None).editor.name.len() == 0,
        launcher::opened(w, Some(i)).editor_open && launcher::opened(w, None).editor_open,
        !launcher::closed(launcher::opened(w, Some(i))).editor_open,
        launcher::closed(launcher::opened(w, Some(i))).hosts == w.hosts,
        launcher::opened(launcher::closed(w), Some(i)) == launcher::opened(w, Some(i)),
{
    let v = launcher::opened(w, Some(i));
    assert(launcher::taken_over(v).hosts =~= w.hosts);
}

} // verus!
