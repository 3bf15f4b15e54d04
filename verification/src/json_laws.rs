//! What holds of the JSON that is written, and of what is taken out of JSON that was read.

use vstd::prelude::*;
use crate::agent;
use crate::big;
use crate::cli;
use crate::config;
use crate::digits;
use crate::grammar;
use crate::json;
use crate::json::Json;
use crate::laws;
use crate::metrics::Metrics;
use crate::normalize;
use crate::num;
use crate::num_laws;
use crate::reader;
use crate::roundtrip;
use crate::shortest;

verus! {

// -------------------------------------------------------------------- writing

/// A text without quotes, backslashes and control characters is written as it is, between quotes.
pub proof fn law_plain_text_is_quoted(s: Seq<char>)
    requires
        grammar::plain(s),
        forall|i: int| 0 <= i < s.len() ==> #[trigger] s[i] >= ' ',
    ensures
        json::quoted(s) == seq!['"'] + s + seq!['"'],
{
    lemma_escaped_plain(s, s.len() as int);
    assert(s.take(s.len() as int) =~= s);
}

proof fn lemma_plain_char(c: char)
    requires
        c >= ' ',
        c != '"' && c != '\\',
    ensures
        json::escaped_char(c) == seq![c],
{
}

proof fn lemma_escaped_plain(s: Seq<char>, n: int)
    requires
        0 <= n <= s.len(),
        grammar::plain(s),
        forall|i: int| 0 <= i < s.len() ==> #[trigger] s[i] >= ' ',
    ensures
        json::escaped(s, n) == s.take(n),
    decreases n,
{
    if n > 0 {
        lemma_escaped_plain(s, n - 1);
        assert(s[n - 1] >= ' ');
        lemma_plain_char(s[n - 1]);
        assert(s.take(n) =~= s.take(n - 1) + seq![s[n - 1]]);
    } else {
        assert(s.take(0) =~= Seq::<char>::empty());
    }
}

/// A whole number below ten to the power 15 is written with its digits alone.
pub proof fn law_whole_number_is_written(n: int)
    requires
        -1_000_000_000_000_000 < n < 1_000_000_000_000_000,
    ensures
        json::render(Json::Num(num::of_int(n)), None) == digits::signed_decimal(n),
{
    num::law_small_whole_numbers_are_exact(n);
    let a = (if n < 0 {
        -n
    } else {
        n
    }) as nat;
    let u = num::unit();
    big::lemma_power_positive(2, 1074);
    assert((a * u) / u == a) by (nonlinear_arith)
        requires
            u > 0,
    ;
    assert(shortest::is_small_whole(num::magnitude(num::of_int(n))));
}

/// An array that is written on one line has its elements between brackets, with commas and nothing
/// else between them.
#[verifier::spinoff_prover]
#[verifier::rlimit(60)]
pub proof fn law_array_on_a_line(a: Seq<Json>, v: Json)
    ensures
        json::render(Json::Arr(Seq::empty()), None) == seq!['[', ']'],
        json::render(Json::Arr(seq![v]), None) == seq!['['] + json::render(v, None) + seq![']'],
        a.len() > 0 ==> json::render(Json::Arr(a.push(v)), None) == json::render(
            Json::Arr(a),
            None,
        ).drop_last() + seq![','] + json::render(v, None) + seq![']'],
{
    let e = Seq::<char>::empty();
    let one = seq![v];
    assert(one[0] == v);
    assert(json::render_items(one, 1, None) == json::render(v, None));
    assert(json::render(Json::Arr(one), None) =~= seq!['['] + json::render(v, None) + seq![']']);
    if a.len() > 0 {
        let b = a.push(v);
        let x = json::render_items(a, a.len(), None);
        lemma_items_kept(a, v, a.len(), None);
        assert(json::render(Json::Arr(a), None) =~= seq!['['] + x + seq![']']);
        assert(json::render(Json::Arr(a), None).drop_last() =~= seq!['['] + x);
        assert(json::render_items(b, b.len(), None) =~= x + seq![','] + json::render(v, None));
        assert(json::render(Json::Arr(b), None) =~= seq!['['] + x + seq![','] + json::render(
            v,
            None,
        ) + seq![']']);
    }
}

proof fn lemma_items_kept(a: Seq<Json>, v: Json, n: nat, pad: Option<Seq<char>>)
    requires
        n <= a.len(),
    ensures
        json::render_items(a.push(v), n, pad) == json::render_items(a, n, pad),
    decreases n,
{
    let b = a.push(v);
    if n > 0 {
        assert(b[n - 1] == a[n - 1]);
        assert(b[0] == a[0]);
        if n > 1 {
            lemma_items_kept(a, v, (n - 1) as nat, pad);
        }
    }
}

/// An array that is spread over lines has each element on a line of its own, two blanks deeper.
#[verifier::spinoff_prover]
#[verifier::rlimit(60)]
pub proof fn law_array_over_lines(a: Seq<Json>, v: Json, p: Seq<char>)
    ensures
        ({
            let inner = p + seq![' ', ' '];
            let deep = json::render(v, Some(inner));
            let end = seq!['\n'] + p + seq![']'];
            &&& json::render(Json::Arr(seq![v]), Some(p)) == seq!['['] + (seq!['\n'] + inner) + deep
                + end
            &&& a.len() > 0 ==> exists|x: Seq<char>|
                json::render(Json::Arr(a), Some(p)) == #[trigger] (x + end) && json::render(
                    Json::Arr(a.push(v)),
                    Some(p),
                ) == x + seq![','] + (seq!['\n'] + inner) + deep + end
        }),
{
    let inner = p + seq![' ', ' '];
    let deep = json::render(v, Some(inner));
    let end = seq!['\n'] + p + seq![']'];
    let one = seq![v];
    assert(one[0] == v);
    assert(json::deeper(Some(p)) == Some(inner));
    assert(json::render_items(one, 1, Some(inner)) == deep);
    assert(json::render(Json::Arr(one), Some(p)) =~= seq!['['] + (seq!['\n'] + inner) + deep + end);
    if a.len() > 0 {
        let b = a.push(v);
        let y = json::render_items(a, a.len(), Some(inner));
        let x = seq!['['] + (seq!['\n'] + inner) + y;
        lemma_items_kept(a, v, a.len(), Some(inner));
        assert(json::render(Json::Arr(a), Some(p)) =~= x + end);
        assert(json::render_items(b, b.len(), Some(inner)) =~= y + seq![','] + (seq!['\n'] + inner)
            + deep);
        assert(json::render(Json::Arr(b), Some(p)) =~= x + seq![','] + (seq!['\n'] + inner) + deep
            + end);
    }
}

/// An object that is written on one line has its members between braces, each a name in quotes, a
/// colon and a value, with commas and nothing else between them.
#[verifier::spinoff_prover]
#[verifier::rlimit(60)]
pub proof fn law_object_on_a_line(m: Seq<(Seq<char>, Json)>, k: Seq<char>, v: Json)
    ensures
        json::render(Json::Obj(Seq::empty()), None) == seq!['{', '}'],
        json::render(Json::Obj(seq![(k, v)]), None) == seq!['{'] + json::quoted(k) + seq![':']
            + json::render(v, None) + seq!['}'],
        m.len() > 0 ==> json::render(Json::Obj(m.push((k, v))), None) == json::render(
            Json::Obj(m),
            None,
        ).drop_last() + seq![','] + json::quoted(k) + seq![':'] + json::render(v, None) + seq!['}'],
{
    let r = json::render(v, None);
    let one = seq![(k, v)];
    let e = Seq::<char>::empty();
    assert(one[0] == (k, v));
    assert(json::render_members(one, 1, None) == json::quoted(k) + seq![':'] + r);
    assert(json::render(Json::Obj(one), None) == seq!['{'] + e + (json::quoted(k) + seq![':'] + r)
        + e + seq!['}']);
    lemma_one_part(json::quoted(k), r);
    if m.len() > 0 {
        let b = m.push((k, v));
        let x = json::render_members(m, m.len(), None);
        lemma_members_kept(m, (k, v), m.len(), None);
        assert(b[b.len() - 1] == (k, v));
        assert(json::render_members(b, b.len(), None) == x + seq![','] + e + json::quoted(k)
            + seq![':'] + r);
        assert(json::render(Json::Obj(m), None) == seq!['{'] + e + x + e + seq!['}']);
        assert(json::render(Json::Obj(b), None) == seq!['{'] + e + (x + seq![','] + e + json::quoted(
            k,
        ) + seq![':'] + r) + e + seq!['}']);
        lemma_more_parts(x, json::quoted(k), r);
    }
}

proof fn lemma_one_part(q: Seq<char>, r: Seq<char>)
    ensures
        seq!['{'] + Seq::<char>::empty() + (q + seq![':'] + r) + Seq::<char>::empty() + seq!['}']
            == seq!['{'] + q + seq![':'] + r + seq!['}'],
{
    let e = Seq::<char>::empty();
    assert(seq!['{'] + e + (q + seq![':'] + r) + e + seq!['}'] =~= seq!['{'] + q + seq![':'] + r
        + seq!['}']);
}

proof fn lemma_more_parts(x: Seq<char>, q: Seq<char>, r: Seq<char>)
    ensures
        ({
            let e = Seq::<char>::empty();
            seq!['{'] + e + (x + seq![','] + e + q + seq![':'] + r) + e + seq!['}'] == (seq!['{']
                + e + x + e + seq!['}']).drop_last() + seq![','] + q + seq![':'] + r + seq!['}']
        }),
{
    let e = Seq::<char>::empty();
    let y = seq!['{'] + e + x + e + seq!['}'];
    assert(y.drop_last() =~= seq!['{'] + x);
    assert(seq!['{'] + e + (x + seq![','] + e + q + seq![':'] + r) + e + seq!['}'] =~= seq!['{'] + x
        + seq![','] + q + seq![':'] + r + seq!['}']);
}

proof fn lemma_members_kept(
    m: Seq<(Seq<char>, Json)>,
    e: (Seq<char>, Json),
    n: nat,
    pad: Option<Seq<char>>,
)
    requires
        n <= m.len(),
    ensures
        json::render_members(m.push(e), n, pad) == json::render_members(m, n, pad),
    decreases n,
{
    let b = m.push(e);
    if n > 0 {
        assert(b[n - 1] == m[n - 1]);
        assert(b[0] == m[0]);
        if n > 1 {
            lemma_members_kept(m, e, (n - 1) as nat, pad);
        }
    }
}

// -------------------------------------------------------------------- taking out

/// A whole number is taken as an integer from a number and from a string that writes it; a truth
/// value counts as one or zero, and everything else as zero.
pub proof fn law_integers(n: int, b: bool, a: Seq<Json>, m: Seq<(Seq<char>, Json)>)
    requires
        -0x20_0000_0000_0000 <= n <= 0x20_0000_0000_0000,
    ensures
        json::int_of(Json::Num(num::of_int(n))) == n,
        json::int_of(Json::Str(digits::signed_decimal(n))) == n,
        json::int_of(Json::Bool(true)) == 1 && json::int_of(Json::Bool(false)) == 0,
        json::int_of(Json::Null) == 0 && json::int_of(Json::Arr(a)) == 0 && json::int_of(
            Json::Obj(m),
        ) == 0,
        n != 0 <==> json::bool_of(Json::Num(num::of_int(n))),
        json::bool_of(Json::Bool(b)) == b,
        !json::bool_of(Json::Null) && !json::bool_of(Json::Arr(a)) && !json::bool_of(Json::Obj(m)),
{
    num::law_small_whole_numbers_are_exact(n);
    shortest::law_whole_number_reads(n);
}

/// A number in a string counts as the number that it writes.
pub proof fn law_numbers_in_strings(n: grammar::Numeral)
    requires
        grammar::numeral_good(n),
    ensures
        json::num_of(Json::Str(grammar::numeral_text(n))) == Some(grammar::numeral_value(n)),
{
    grammar::law_numeral_reads(n);
}

/// The fraction of a number is dropped when it is taken as an integer, towards zero.
pub proof fn law_fraction_is_dropped(n: nat, f: nat, d: nat)
    requires
        n < 0x1000_0000_0000,
        d > 0,
        f * 128 <= d * 127,
    ensures
        ({
            let m = num::nearest(n * d + f, d);
            &&& num::to_int(num::pattern(false, m)) == n
            &&& num::to_int(num::pattern(true, m)) == -n
            &&& num::to_nat(num::pattern(false, m)) == n
            &&& m > 0 ==> num::to_nat(num::pattern(true, m)) == 0
        }),
{
    num_laws::lemma_whole_part(n, f, d);
}

/// A setting that a configuration does not give has its usual value.
pub proof fn law_missing_settings(v: Json)
    ensures
        ({
            let c = config::config_in(v);
            &&& json::field(v, "listen"@) is None ==> c.listen == "0.0.0.0:8899"@
            &&& json::field(v, "key"@) is None ==> c.key == "change-me"@
            &&& json::field(v, "title"@) is None ==> c.title == "VPS 探针"@
            &&& json::field(v, "refresh"@) is None ==> c.refresh == 5
            &&& json::field(v, "offline_after"@) is None ==> c.offline_after == 90
            &&& json::field(v, "panel_interval"@) is None ==> c.panel_interval == 300
            &&& json::field(v, "vps"@) is None ==> c.vps.len() == 0
        }),
{
}

/// A setting that a configuration gives is the one it gives, as a number or as a string that writes
/// it.
pub proof fn law_given_settings(v: Json, s: Seq<char>, n: nat, k: Seq<char>, d: nat)
    requires
        n <= 0x20_0000_0000_0000,
    ensures
        json::field(v, "listen"@) == Some(Json::Str(s)) ==> config::config_in(v).listen == s,
        json::field(v, "key"@) == Some(Json::Str(s)) ==> config::config_in(v).key == s,
        json::field(v, "title"@) == Some(Json::Str(s)) ==> config::config_in(v).title == s,
        json::field(v, k) == Some(Json::Num(num::of_int(n as int))) ==> config::nat_at(v, k, d)
            == n,
        json::field(v, k) == Some(Json::Str(digits::decimal(n))) ==> config::nat_at(v, k, d) == n,
        config::config_in(v).refresh == config::nat_at(v, "refresh"@, 5),
        config::config_in(v).offline_after == config::nat_at(v, "offline_after"@, 90),
        config::config_in(v).panel_interval == config::nat_at(v, "panel_interval"@, 300),
{
    num::law_small_whole_numbers_are_exact(n as int);
    shortest::law_whole_number_reads(n as int);
}

/// What a host's object gives is what the host has: texts, the address of its panel with the name
/// and the password, and its quota. A panel without an address is none.
pub proof fn law_host_members(v: Json, name: Seq<char>, s: Seq<char>, p: Json, n: int)
    requires
        -0x20_0000_0000_0000 <= n <= 0x20_0000_0000_0000,
    ensures
        ({
            let h = config::host_in(v, name);
            &&& h.name == name
            &&& json::field(v, "manage_url"@) == Some(Json::Str(s)) ==> h.manage_url == s
            &&& json::field(v, "manage_url"@) is None ==> h.manage_url.len() == 0
            &&& json::field(v, "quota"@) == Some(Json::Num(num::of_int(n))) ==> h.quota == n
            &&& json::field(v, "quota"@) is None ==> h.quota == 0
            &&& json::field(v, "panel"@) is None ==> h.panel is None
            &&& json::field(v, "panel"@) == Some(p) && json::field(p, "url"@) is None ==> h.panel is
                None
            &&& json::field(v, "panel"@) == Some(p) && json::field(p, "url"@) == Some(Json::Str(s))
                && s.len() > 0 ==> (h.panel matches Some(c) && c.url == s)
            &&& json::field(v, "panel"@) == Some(p) && json::field(p, "username"@) == Some(
                Json::Str(s),
            ) ==> (h.panel matches Some(c) ==> c.username == s)
            &&& json::field(v, "panel"@) == Some(p) && json::field(p, "username"@) is None ==> (
            h.panel matches Some(c) ==> c.username == "admin"@)
            &&& json::field(v, "panel"@) == Some(p) && json::field(p, "password"@) == Some(
                Json::Str(s),
            ) ==> (h.panel matches Some(c) ==> c.password == s)
        }),
{
    num::law_small_whole_numbers_are_exact(n);
}


// -------------------------------------------------------------------- reports

/// A report gives every figure of a machine under its name.
pub proof fn law_report_members(name: Seq<char>, ts: nat, m: Metrics)
    ensures
        ({
            let v = agent::report_json(name, ts, m);
            &&& json::field(v, "name"@) == Some(Json::Str(name))
            &&& json::field(v, "ts"@) == Some(agent::whole(ts as int))
            &&& json::field(v, "cpu"@) == Some(Json::Num(m.cpu_percent.bits))
            &&& json::field(v, "cores"@) == Some(agent::whole(m.cores as int))
            &&& json::field(v, "mem_used"@) == Some(agent::whole(m.mem_used as int))
            &&& json::field(v, "mem_total"@) == Some(agent::whole(m.mem_total as int))
            &&& json::field(v, "swap_used"@) == Some(agent::whole(m.swap_used as int))
            &&& json::field(v, "swap_total"@) == Some(agent::whole(m.swap_total as int))
            &&& json::field(v, "uptime"@) == Some(agent::whole(m.uptime_secs as int))
            &&& json::field(v, "net_rx_rate"@) == Some(Json::Num(m.net_rx_rate.bits))
            &&& json::field(v, "net_tx_rate"@) == Some(Json::Num(m.net_tx_rate.bits))
            &&& json::field(v, "disk_used"@) == Some(agent::whole(m.disk_used as int))
            &&& json::field(v, "disk_total"@) == Some(agent::whole(m.disk_total as int))
            &&& json::field(v, "os"@) == Some(Json::Str(m.os@))
        }),
{
    let l = agent::report_members(name, ts, m);
    normalize::lemma_report_names(l);
    assert forall|i: int| 0 <= i < l.len() implies json::field(
        agent::report_json(name, ts, m),
        (#[trigger] l[i]).0,
    ) == Some(l[i].1) by {
        assert forall|j: int| i < j < l.len() implies (#[trigger] l[j]).0 != l[i].0 by {}
        json::lemma_built_field(l, i);
    }
    assert(l[0].0 == "name"@ && l[1].0 == "ts"@ && l[2].0 == "cpu"@ && l[3].0 == "cores"@);
    assert(l[4].0 == "mem_used"@ && l[5].0 == "mem_total"@);
    assert(l[7].0 == "swap_used"@ && l[8].0 == "swap_total"@ && l[10].0 == "uptime"@);
    assert(l[11].0 == "net_rx_rate"@ && l[12].0 == "net_tx_rate"@);
    assert(l[13].0 == "disk_used"@ && l[14].0 == "disk_total"@ && l[16].0 == "os"@);
}

/// What is printed of a machine is JSON that gives every figure under its name.
pub proof fn law_printed_members(name: Seq<char>, m: Metrics)
    requires
        laws::writable(m),
    ensures
        reader::meaning(
            json::render(Json::Obj(json::built(cli::printed_members(name, m))), None),
        ) matches Ok(v) && {
            &&& json::field(v, "name"@) == Some(Json::Str(name))
            &&& json::field(v, "cpu_percent"@) == Some(Json::Num(m.cpu_percent.bits))
            &&& json::field(v, "cores"@) == Some(agent::whole(m.cores as int))
            &&& json::field(v, "mem_used"@) == Some(agent::whole(m.mem_used as int))
            &&& json::field(v, "mem_total"@) == Some(agent::whole(m.mem_total as int))
            &&& json::field(v, "load1"@) == Some(Json::Num(m.load1.bits))
            &&& json::field(v, "load5"@) == Some(Json::Num(m.load5.bits))
            &&& json::field(v, "load15"@) == Some(Json::Num(m.load15.bits))
            &&& json::field(v, "uptime_secs"@) == Some(agent::whole(m.uptime_secs as int))
            &&& json::field(v, "net_rx_rate"@) == Some(Json::Num(m.net_rx_rate.bits))
            &&& json::field(v, "net_tx_rate"@) == Some(Json::Num(m.net_tx_rate.bits))
            &&& json::field(v, "disk_used"@) == Some(agent::whole(m.disk_used as int))
            &&& json::field(v, "disk_total"@) == Some(agent::whole(m.disk_total as int))
            &&& json::field(v, "os"@) == Some(Json::Str(m.os@))
        },
{
    let l = cli::printed_members(name, m);
    let v = Json::Obj(json::built(l));
    laws::lemma_whole_faithful(m.cores as int);
    laws::lemma_whole_faithful(m.mem_used as int);
    laws::lemma_whole_faithful(m.mem_total as int);
    laws::lemma_whole_faithful(m.uptime_secs as int);
    laws::lemma_whole_faithful(m.disk_used as int);
    laws::lemma_whole_faithful(m.disk_total as int);
    laws::lemma_percent_faithful(m.mem_used as nat, m.mem_total as nat);
    laws::lemma_number_faithful(m.cpu_percent.bits);
    laws::lemma_number_faithful(m.load1.bits);
    laws::lemma_number_faithful(m.load5.bits);
    laws::lemma_number_faithful(m.load15.bits);
    laws::lemma_number_faithful(m.net_rx_rate.bits);
    laws::lemma_number_faithful(m.net_tx_rate.bits);
    assert forall|i: int| 0 <= i < l.len() implies roundtrip::faithful((#[trigger] l[i]).1) by {}
    roundtrip::lemma_object_faithful(l);
    roundtrip::law_written_reads_back(v, None, Seq::empty());
    assert(json::render(v, None) + Seq::<char>::empty() =~= json::render(v, None));
    lemma_printed_names(l);
    assert forall|i: int| 0 <= i < l.len() implies json::field(v, (#[trigger] l[i]).0) == Some(
        l[i].1,
    ) by {
        assert forall|j: int| i < j < l.len() implies (#[trigger] l[j]).0 != l[i].0 by {}
        json::lemma_built_field(l, i);
    }
    assert(l[0].0 == "name"@ && l[1].0 == "cpu_percent"@ && l[2].0 == "cores"@);
    assert(l[3].0 == "mem_used"@ && l[4].0 == "mem_total"@);
    assert(l[6].0 == "load1"@ && l[7].0 == "load5"@ && l[8].0 == "load15"@);
    assert(l[9].0 == "uptime_secs"@);
    assert(l[10].0 == "net_rx_rate"@ && l[11].0 == "net_tx_rate"@);
    assert(l[12].0 == "disk_used"@ && l[13].0 == "disk_total"@ && l[14].0 == "os"@);
}

proof fn lemma_printed_names(l: Seq<(Seq<char>, Json)>)
    requires
        l.len() == 15,
        l[0].0 == "name"@,
        l[1].0 == "cpu_percent"@,
        l[2].0 == "cores"@,
        l[3].0 == "mem_used"@,
        l[4].0 == "mem_total"@,
        l[5].0 == "mem_percent"@,
        l[6].0 == "load1"@,
        l[7].0 == "load5"@,
        l[8].0 == "load15"@,
        l[9].0 == "uptime_secs"@,
        l[10].0 == "net_rx_rate"@,
        l[11].0 == "net_tx_rate"@,
        l[12].0 == "disk_used"@,
        l[13].0 == "disk_total"@,
        l[14].0 == "os"@,
    ensures
        forall|i: int, j: int| 0 <= i < j < l.len() ==> (#[trigger] l[i]).0 != (#[trigger] l[j]).0,
{
    reveal_strlit("name");
    reveal_strlit("cpu_percent");
    reveal_strlit("cores");
    reveal_strlit("mem_used");
    reveal_strlit("mem_total");
    reveal_strlit("mem_percent");
    reveal_strlit("load1");
    reveal_strlit("load5");
    reveal_strlit("load15");
    reveal_strlit("uptime_secs");
    reveal_strlit("net_rx_rate");
    reveal_strlit("net_tx_rate");
    reveal_strlit("disk_used");
    reveal_strlit("disk_total");
    reveal_strlit("os");
    assert("name"@.len() == 4);
    assert("cpu_percent"@.len() == 11);
    assert("cores"@.len() == 5);
    assert("mem_used"@.len() == 8);
    assert("mem_total"@.len() == 9);
    assert("mem_percent"@.len() == 11);
    assert("load1"@.len() == 5);
    assert("load5"@.len() == 5);
    assert("load15"@.len() == 6);
    assert("uptime_secs"@.len() == 11);
    assert("net_rx_rate"@.len() == 11);
    assert("net_tx_rate"@.len() == 11);
    assert("disk_used"@.len() == 9);
    assert("disk_total"@.len() == 10);
    assert("os"@.len() == 2);
    assert("cpu_percent"@[0] == 'c' && "mem_percent"@[0] == 'm' && "uptime_secs"@[0] == 'u');
    assert("net_rx_rate"@[0] == 'n' && "net_tx_rate"@[0] == 'n');
    assert("net_rx_rate"@[4] == 'r' && "net_tx_rate"@[4] == 't');
    assert("cores"@[0] == 'c' && "load1"@[0] == 'l' && "load5"@[0] == 'l');
    assert("load1"@[4] == '1' && "load5"@[4] == '5');
    assert("mem_total"@[0] == 'm' && "disk_used"@[0] == 'd');
}


// ---------------------------------------------------------------------- order

/// Names stand in the order of the first characters in which they differ, and a name before every
/// longer one that starts with it.
pub proof fn law_order(p: Seq<char>, c: char, x: Seq<char>, d: char, y: Seq<char>)
    ensures
        c < d ==> json::before(p + seq![c] + x, p + seq![d] + y),
        c > d ==> !json::before(p + seq![c] + x, p + seq![d] + y),
        json::before(p, p + seq![c] + x),
        !json::before(p + seq![c] + x, p),
        !json::before(p, p),
    decreases p.len(),
{
    let a = p + seq![c] + x;
    let b = p + seq![d] + y;
    if p.len() > 0 {
        let q = p.skip(1);
        assert(a.skip(1) =~= q + seq![c] + x);
        assert(b.skip(1) =~= q + seq![d] + y);
        assert(a[0] == p[0] && b[0] == p[0]);
        law_order(q, c, x, d, y);
    } else {
        assert(a[0] == c && b[0] == d);
    }
}


/// The call of an agent carries its report: the server reads from it what the agent says of the
/// machine.
pub proof fn law_report_call(
    server: Seq<char>,
    key: Seq<char>,
    name: Seq<char>,
    ts: nat,
    m: Metrics,
)
    requires
        laws::writable(m),
        ts <= u64::MAX,
    ensures
        ({
            let c = agent::report_call(server, key, name, ts, m);
            &&& c.method == "POST"@
            &&& c.url == agent::report_url(server, key)
            &&& c.body matches Some(b) && reader::meaning(b) == Ok::<Json, Seq<char>>(
                agent::report_json(name, ts, m),
            )
        }),
{
    laws::law_report_arrives(name, ts, m);
}

} // verus!
