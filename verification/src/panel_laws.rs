//! What holds of panels: which cookies a login is answered with, and how traffic adds up.

use vstd::prelude::*;
use crate::digits;
use crate::http;
use crate::http::RespView;
use crate::json;
use crate::json::Json;
use crate::num;
use crate::panel;
use crate::panel::{CredsView, NodeView};
use crate::reader;
use crate::roundtrip;
use crate::text;
use crate::text_laws;

verus! {

// -------------------------------------------------------------------- cookies

/// A `Set-Cookie` header with one name and value: white space around them, and attributes.
pub ghost struct Setting {
    pub before: Seq<char>,
    pub name: Seq<char>,
    pub value: Seq<char>,
    pub after: Seq<char>,
    pub attributes: Option<Seq<char>>,
}

/// The name and value of a cookie.
pub open spec fn pair(c: Setting) -> Seq<char> {
    c.name + seq!['='] + c.value
}

/// The text of a `Set-Cookie` header.
pub open spec fn header(c: Setting) -> Seq<char> {
    framed(c.before, pair(c), c.after, c.attributes)
}

/// A text between white space, and what follows a semicolon.
pub open spec fn framed(
    before: Seq<char>,
    kv: Seq<char>,
    after: Seq<char>,
    attributes: Option<Seq<char>>,
) -> Seq<char> {
    match attributes {
        None => before + kv + after,
        Some(x) => before + kv + after + seq![';'] + x,
    }
}

pub open spec fn setting_good(c: Setting) -> bool {
    &&& text_laws::blanks(c.before)
    &&& text_laws::blanks(c.after)
    &&& text_laws::without(c.name, '=')
    &&& text_laws::without(pair(c), ';')
    &&& text_laws::tight(pair(c))
}

pub open spec fn headers(l: Seq<Setting>) -> Seq<Seq<char>> {
    l.map_values(|c: Setting| header(c))
}

pub open spec fn pairs(l: Seq<Setting>) -> Seq<Seq<char>> {
    l.map_values(|c: Setting| pair(c))
}

/// Whether the cookies are well formed and have different names.
pub open spec fn distinct(l: Seq<Setting>) -> bool {
    &&& forall|i: int| 0 <= i < l.len() ==> setting_good(#[trigger] l[i])
    &&& forall|i: int, j: int|
        0 <= i < j < l.len() ==> (#[trigger] l[i]).name != (#[trigger] l[j]).name
}

proof fn lemma_blanks_without(s: Seq<char>)
    requires
        text_laws::blanks(s),
    ensures
        text_laws::without(s, ';'),
{
    assert forall|i: int| 0 <= i < s.len() implies #[trigger] s[i] != ';' by {
        assert(text::is_space(s[i]));
    }
}

proof fn lemma_cookie_of(
    before: Seq<char>,
    kv: Seq<char>,
    after: Seq<char>,
    attributes: Option<Seq<char>>,
)
    requires
        text_laws::blanks(before),
        text_laws::blanks(after),
        text_laws::without(kv, ';'),
        text_laws::tight(kv),
    ensures
        panel::cookie_of(framed(before, kv, after, attributes)) == kv,
{
    let a = before + kv + after;
    lemma_blanks_without(before);
    lemma_blanks_without(after);
    assert forall|i: int| 0 <= i < a.len() implies #[trigger] a[i] != ';' by {
        if i < before.len() {
            assert(a[i] == before[i]);
        } else if i < before.len() + kv.len() {
            assert(a[i] == kv[i - before.len()]);
        } else {
            assert(a[i] == after[i - before.len() - kv.len()]);
        }
    }
    let x = match attributes {
        None => Seq::empty(),
        Some(x) => x,
    };
    text_laws::law_fields(a, ';', x);
    text_laws::law_trimmed(before, kv, after);
}

/// A cookie that was set alone is sent back exactly as it was set: without its attributes and the
/// white space around it, and with every other character.
pub proof fn law_cookie_is_sent_back(
    before: Seq<char>,
    kv: Seq<char>,
    after: Seq<char>,
    attributes: Option<Seq<char>>,
)
    requires
        text_laws::blanks(before),
        text_laws::blanks(after),
        text_laws::without(kv, ';'),
        text_laws::tight(kv),
    ensures
        panel::cookies(seq![framed(before, kv, after, attributes)]) == kv,
        panel::cookies(seq![kv]) == kv,
{
    let h = framed(before, kv, after, attributes);
    lemma_cookie_of(before, kv, after, attributes);
    lemma_cookie_alone(h, kv);
    let e = Seq::<char>::empty();
    lemma_cookie_of(e, kv, e, None);
    assert(framed(e, kv, e, None) =~= kv);
    lemma_cookie_alone(kv, kv);
}

proof fn lemma_cookie_alone(h: Seq<char>, kv: Seq<char>)
    requires
        panel::cookie_of(h) == kv,
    ensures
        panel::cookies(seq![h]) == kv,
{
    let cs = seq![h];
    let none = Seq::<Seq<char>>::empty();
    assert(cs.drop_last() =~= none);
    assert(panel::cookie_parts(none) =~= none);
    if kv.len() == 0 {
        assert(panel::cookie_parts(cs) == none);
        assert(text::joined(none, "; "@) =~= kv);
    } else {
        let p = panel::cookie_parts(cs);
        assert(p =~= none.push(kv));
        assert(p.len() == 1 && p[0] == kv);
    }
}

/// A cookie begins with a name and an equals sign exactly if that is its name.
proof fn lemma_named(c: Setting, n: Seq<char>)
    requires
        setting_good(c),
        text_laws::without(n, '='),
    ensures
        text::begins(pair(c), n + seq!['=']) == (c.name == n),
        panel::cookie_key(pair(c)) == c.name + seq!['='],
{
    let kv = pair(c);
    let key = n + seq!['='];
    text_laws::law_fields(c.name, '=', c.value);
    if c.name == n {
        assert(kv.take(key.len() as int) =~= key);
    } else if text::begins(kv, key) {
        let k = c.name.len() as int;
        let m = n.len() as int;
        assert(kv.take(m + 1)[m] == key[m]);
        assert(kv[m] == '=');
        if m < k {
            assert(kv[m] == c.name[m]);
        } else if k < m {
            assert(kv.take(m + 1)[k] == key[k]);
            assert(kv[k] == '=');
            assert(key[k] == n[k]);
        } else {
            assert forall|i: int| 0 <= i < m implies #[trigger] n[i] == c.name[i] by {
                assert(kv.take(m + 1)[i] == key[i]);
                assert(kv[i] == c.name[i]);
            }
            assert(n =~= c.name);
        }
    }
}

proof fn lemma_nowhere(l: Seq<Setting>, n: Seq<char>, i: int)
    requires
        0 <= i <= l.len(),
        text_laws::without(n, '='),
        forall|k: int| 0 <= k < l.len() ==> setting_good(#[trigger] l[k]),
        forall|k: int| i <= k < l.len() ==> (#[trigger] l[k]).name != n,
    ensures
        text::first_beginning(pairs(l), n + seq!['='], i) == l.len(),
    decreases l.len() - i,
{
    if i < l.len() {
        lemma_named(l[i], n);
        lemma_nowhere(l, n, i + 1);
    }
}

proof fn lemma_somewhere(l: Seq<Setting>, j: int, i: int)
    requires
        0 <= i <= j < l.len(),
        distinct(l),
    ensures
        text::first_beginning(pairs(l), l[j].name + seq!['='], i) == j,
    decreases j - i,
{
    lemma_named(l[i], l[j].name);
    if i < j {
        lemma_somewhere(l, j, i + 1);
    }
}

/// Cookies with different names are all sent back, in the order in which they were set.
pub proof fn law_cookies_are_sent_back(l: Seq<Setting>)
    requires
        distinct(l),
    ensures
        panel::cookies(headers(l)) == text::joined(pairs(l), "; "@),
        panel::cookie_parts(headers(l)) == pairs(l),
    decreases l.len(),
{
    let h = headers(l);
    if l.len() == 0 {
        assert(pairs(l) =~= panel::cookie_parts(h));
    } else {
        let m = l.drop_last();
        let c = l.last();
        assert(distinct(m)) by {
            assert forall|i: int| 0 <= i < m.len() implies setting_good(#[trigger] m[i]) by {
                assert(m[i] == l[i]);
            }
        }
        law_cookies_are_sent_back(m);
        assert(h.drop_last() =~= headers(m));
        assert(setting_good(l[l.len() - 1]));
        lemma_cookie_of(c.before, pair(c), c.after, c.attributes);
        lemma_named(c, c.name);
        assert forall|k: int| 0 <= k < m.len() implies (#[trigger] m[k]).name != c.name by {
            assert(m[k] == l[k]);
            assert(l[k].name != l[l.len() - 1].name);
        }
        lemma_nowhere(m, c.name, 0);
        assert(pairs(l) =~= pairs(m).push(pair(c)));
    }
}

/// A cookie that is set again takes the place of the one with its name.
pub proof fn law_cookie_set_again(l: Seq<Setting>, j: int, c: Setting)
    requires
        distinct(l),
        0 <= j < l.len(),
        setting_good(c),
        c.name == l[j].name,
    ensures
        panel::cookies(headers(l).push(header(c))) == text::joined(
            pairs(l).update(j, pair(c)),
            "; "@,
        ),
{
    let h = headers(l).push(header(c));
    law_cookies_are_sent_back(l);
    assert(h.drop_last() =~= headers(l));
    lemma_cookie_of(c.before, pair(c), c.after, c.attributes);
    lemma_named(c, c.name);
    lemma_somewhere(l, j, 0);
}

// -------------------------------------------------------------------- traffic

/// Each total of two lists of nodes is the sum of those of the lists.
pub proof fn law_totals_add_up(a: Seq<NodeView>, b: Seq<NodeView>)
    ensures
        panel::sum(panel::ups(a + b)) == panel::sum(panel::ups(a)) + panel::sum(panel::ups(b)),
        panel::sum(panel::downs(a + b)) == panel::sum(panel::downs(a)) + panel::sum(
            panel::downs(b),
        ),
        panel::sum(panel::uses(a + b)) == panel::sum(panel::uses(a)) + panel::sum(panel::uses(b)),
        panel::sum(panel::quotas(a + b)) == panel::sum(panel::quotas(a)) + panel::sum(
            panel::quotas(b),
        ),
{
    assert(panel::ups(a + b) =~= panel::ups(a) + panel::ups(b));
    assert(panel::downs(a + b) =~= panel::downs(a) + panel::downs(b));
    assert(panel::uses(a + b) =~= panel::uses(a) + panel::uses(b));
    assert(panel::quotas(a + b) =~= panel::quotas(a) + panel::quotas(b));
    panel::lemma_sum_concat(panel::ups(a), panel::ups(b));
    panel::lemma_sum_concat(panel::downs(a), panel::downs(b));
    panel::lemma_sum_concat(panel::uses(a), panel::uses(b));
    panel::lemma_sum_concat(panel::quotas(a), panel::quotas(b));
}

/// The totals of one node are its own numbers, and those of none are zero.
pub proof fn law_totals_of_one(n: NodeView)
    ensures
        panel::sum(panel::ups(seq![n])) == n.up,
        panel::sum(panel::downs(seq![n])) == n.down,
        panel::sum(panel::uses(seq![n])) == n.up + n.down,
        panel::sum(panel::quotas(seq![n])) == n.total,
        panel::sum(panel::ups(Seq::empty())) == 0,
        panel::sum(panel::downs(Seq::empty())) == 0,
        panel::sum(panel::uses(Seq::empty())) == 0,
        panel::sum(panel::quotas(Seq::empty())) == 0,
{
    reveal_with_fuel(panel::sum_to, 2);
}

// ----------------------------------------------------------------------- list

/// Whether a value is the object of a node's traffic.
pub open spec fn counts(v: Json, up: int, down: int, total: int) -> bool {
    &&& json::field(v, "up"@) == Some(Json::Num(num::of_int(up)))
    &&& json::field(v, "down"@) == Some(Json::Num(num::of_int(down)))
    &&& json::field(v, "total"@) == Some(Json::Num(num::of_int(total)))
    &&& small(up) && small(down) && small(total)
}

/// Whether a whole number is one that every double up to it can hold.
pub open spec fn small(n: int) -> bool {
    -0x20_0000_0000_0000 <= n <= 0x20_0000_0000_0000
}

/// An inbound that has statistics by client gives a node for each client, under the inbound's name
/// and port and the client's e-mail, with the client's own numbers.
pub proof fn law_clients_are_nodes(
    ib: Json,
    remark: Seq<char>,
    port: int,
    stats: Seq<Json>,
    i: int,
    email: Seq<char>,
    up: int,
    down: int,
    total: int,
)
    requires
        json::field(ib, "remark"@) == Some(Json::Str(remark)),
        json::field(ib, "port"@) == Some(Json::Num(num::of_int(port))),
        small(port),
        json::field(ib, "clientStats"@) == Some(Json::Arr(stats)),
        0 <= i < stats.len(),
        json::field(stats[i], "email"@) == Some(Json::Str(email)),
        counts(stats[i], up, down, total),
    ensures
        panel::inbound_nodes(ib).len() == stats.len(),
        panel::inbound_nodes(ib)[i] == (NodeView { node: remark, port, client: email, up, down, total }),
{
    num::law_small_whole_numbers_are_exact(port);
    num::law_small_whole_numbers_are_exact(up);
    num::law_small_whole_numbers_are_exact(down);
    num::law_small_whole_numbers_are_exact(total);
}

/// An inbound without statistics by client gives one node with its own numbers and no client.
pub proof fn law_inbound_is_a_node(
    ib: Json,
    remark: Seq<char>,
    port: int,
    up: int,
    down: int,
    total: int,
)
    requires
        json::field(ib, "remark"@) == Some(Json::Str(remark)),
        json::field(ib, "port"@) == Some(Json::Num(num::of_int(port))),
        small(port),
        json::field(ib, "clientStats"@) matches Some(Json::Arr(a)) ==> a.len() == 0,
        counts(ib, up, down, total),
    ensures
        panel::inbound_nodes(ib) == seq![
            NodeView { node: remark, port, client: Seq::empty(), up, down, total },
        ],
{
    num::law_small_whole_numbers_are_exact(port);
    num::law_small_whole_numbers_are_exact(up);
    num::law_small_whole_numbers_are_exact(down);
    num::law_small_whole_numbers_are_exact(total);
    assert(panel::inbound_nodes(ib) =~= seq![
        NodeView { node: remark, port, client: Seq::empty(), up, down, total },
    ]);
}

/// The nodes of a list of inbounds are those of the inbounds, in their order.
pub proof fn law_nodes_in_turn(a: Seq<Json>, ib: Json)
    ensures
        panel::nodes_in(listed(a.push(ib))) == panel::nodes_in(listed(a)) + panel::inbound_nodes(ib),
        panel::nodes_in(listed(Seq::empty())) == Seq::<NodeView>::empty(),
{
    lemma_listed(a);
    lemma_listed(a.push(ib));
    lemma_listed(Seq::empty());
    lemma_nodes_to(a, ib, a.len() as int);
}

/// An object with a list of inbounds.
pub open spec fn listed(a: Seq<Json>) -> Json {
    Json::Obj(seq![("obj"@, Json::Arr(a))])
}

proof fn lemma_listed(a: Seq<Json>)
    ensures
        json::items_at(listed(a), "obj"@) == a,
{
    let m = seq![("obj"@, Json::Arr(a))];
    assert(m[0].0 == "obj"@);
    assert(json::position(m, "obj"@, 0) == 0);
}

proof fn lemma_nodes_to(a: Seq<Json>, ib: Json, n: int)
    requires
        0 <= n <= a.len(),
    ensures
        panel::nodes_to(a.push(ib), n) == panel::nodes_to(a, n),
    decreases n,
{
    if n > 0 {
        lemma_nodes_to(a, ib, n - 1);
        assert(a.push(ib)[n - 1] == a[n - 1]);
    }
}

// ---------------------------------------------------------------------- calls

/// The address of a panel does not depend on the slashes at its end.
pub proof fn law_slashes_do_not_matter(base: Seq<char>, slashes: nat)
    requires
        base.len() > 0 ==> base.last() != '/',
    ensures
        panel::base_of(base + Seq::new(slashes, |i: int| '/')) == base,
    decreases slashes,
{
    let s = base + Seq::new(slashes, |i: int| '/');
    text_laws::lemma_one('/', '/');
    if slashes > 0 {
        law_slashes_do_not_matter(base, (slashes - 1) as nat);
        assert(s.last() == '/');
        assert(s.drop_last() =~= base + Seq::new((slashes - 1) as nat, |i: int| '/'));
    } else {
        assert(s =~= base);
        if base.len() > 0 {
            text_laws::lemma_one('/', base.last());
        }
    }
}

/// The login carries the name and the password, whatever characters they hold, the token, and the
/// cookie that came with the token, where there is one.
pub proof fn law_login_carries(c: CredsView, token: Seq<char>, cookie: Seq<char>)
    ensures
        ({
            let call = panel::login_call(c, token, cookie);
            let h = call.headers;
            &&& call.method == "POST"@
            &&& call.url == panel::base_of(c.url) + "/login"@
            &&& h.contains(("X-CSRF-Token"@, token))
            &&& cookie.len() > 0 <==> h.contains(("Cookie"@, cookie))
            &&& call.body matches Some(b) && reader::meaning(b) matches Ok(v) && json::field(
                v,
                "username"@,
            ) == Some(Json::Str(c.username)) && json::field(v, "password"@) == Some(
                Json::Str(c.password),
            )
        }),
{
    let l = seq![("username"@, Json::Str(c.username)), ("password"@, Json::Str(c.password))];
    reveal_strlit("username");
    reveal_strlit("password");
    assert("username"@[0] != "password"@[0]);
    json::lemma_built_field(l, 0);
    json::lemma_built_field(l, 1);
    let v = panel::login_payload(c);
    assert forall|i: int| 0 <= i < l.len() implies roundtrip::faithful((#[trigger] l[i]).1) by {}
    roundtrip::lemma_object_faithful(l);
    roundtrip::law_written_reads_back(v, None, Seq::empty());
    assert(json::render(v, None) + Seq::<char>::empty() =~= json::render(v, None));
    let h = panel::login_call(c, token, cookie).headers;
    assert(h[1] == ("X-CSRF-Token"@, token));
    reveal_strlit("Cookie");
    reveal_strlit("Content-Type");
    reveal_strlit("X-CSRF-Token");
    assert("Cookie"@.len() == 6 && "Content-Type"@.len() == 12 && "X-CSRF-Token"@.len() == 12);
    if cookie.len() > 0 {
        assert(h[2] == ("Cookie"@, cookie));
    } else if h.contains(("Cookie"@, cookie)) {
        let w = choose|w: int| 0 <= w < h.len() && h[w] == ("Cookie"@, cookie);
        assert(w == 0 || w == 1);
    }
}

/// A reply with the status 200.
pub open spec fn replied(headers: Seq<(Seq<char>, Seq<char>)>, body: Seq<char>) -> Result<
    RespView,
    Seq<char>,
> {
    Ok(RespView { status: 200, headers, body })
}

/// The calls to a panel follow each other: the token and the cookies of the first reply go into the
/// login; the cookies of the login, or else those from before, go into the call for the list; and
/// the list gives the nodes.
pub proof fn law_fetch_in_turn(
    c: CredsView,
    h1: Seq<(Seq<char>, Seq<char>)>,
    b1: Seq<char>,
    token: Seq<char>,
    h2: Seq<(Seq<char>, Seq<char>)>,
    b2: Seq<char>,
    h3: Seq<(Seq<char>, Seq<char>)>,
    b3: Seq<char>,
    v1: Json,
    v2: Json,
    v3: Json,
)
    requires
        reader::meaning(b1) == Ok::<Json, Seq<char>>(v1),
        json::field(v1, "obj"@) == Some(Json::Str(token)),
        token.len() > 0,
        reader::meaning(b2) == Ok::<Json, Seq<char>>(v2),
        json::field(v2, "success"@) == Some(Json::Bool(true)),
        reader::meaning(b3) == Ok::<Json, Seq<char>>(v3),
        json::field(v3, "success"@) == Some(Json::Bool(true)),
    ensures
        ({
            let first = panel::cookies(http::all_values(h1, "set-cookie"@));
            let second = panel::cookies(http::all_values(h2, "set-cookie"@));
            let r1 = replied(h1, b1);
            let r2 = replied(h2, b2);
            let r3 = replied(h3, b3);
            &&& panel::fetch(c, Seq::empty()) == panel::FetchView::Ask(panel::token_call(c))
            &&& panel::fetch(c, seq![r1]) == panel::FetchView::Ask(
                panel::login_call(c, token, first),
            )
            &&& panel::fetch(c, seq![r1, r2]) == panel::FetchView::Ask(
                panel::list_call(
                    c,
                    if second.len() > 0 {
                        second
                    } else {
                        first
                    },
                ),
            )
            &&& panel::fetch(c, seq![r1, r2, r3]) == panel::FetchView::Done(
                panel::TrafficView { nodes: panel::nodes_in(v3), error: None },
            )
        }),
{
    let first = panel::cookies(http::all_values(h1, "set-cookie"@));
    lemma_first_reply(h1, b1, v1, token);
    lemma_second_reply(h2, b2, v2, first);
    lemma_third_reply(h3, b3, v3);
    let second = panel::cookies(http::all_values(h2, "set-cookie"@));
    let session = if second.len() > 0 {
        second
    } else {
        first
    };
    lemma_fetch(
        c,
        replied(h1, b1),
        replied(h2, b2),
        replied(h3, b3),
        token,
        first,
        session,
        panel::nodes_in(v3),
    );
}

proof fn lemma_fetch(
    c: CredsView,
    r1: Result<RespView, Seq<char>>,
    r2: Result<RespView, Seq<char>>,
    r3: Result<RespView, Seq<char>>,
    token: Seq<char>,
    first: Seq<char>,
    session: Seq<char>,
    nodes: Seq<NodeView>,
)
    requires
        panel::token_in(r1) == Ok::<(Seq<char>, Seq<char>), Seq<char>>((token, first)),
        panel::session_in(r2, first) == Ok::<Seq<char>, Seq<char>>(session),
        panel::list_in(r3) == Ok::<Seq<NodeView>, Seq<char>>(nodes),
    ensures
        panel::fetch(c, Seq::empty()) == panel::FetchView::Ask(panel::token_call(c)),
        panel::fetch(c, seq![r1]) == panel::FetchView::Ask(panel::login_call(c, token, first)),
        panel::fetch(c, seq![r1, r2]) == panel::FetchView::Ask(panel::list_call(c, session)),
        panel::fetch(c, seq![r1, r2, r3]) == panel::FetchView::Done(
            panel::TrafficView { nodes, error: None },
        ),
{
    let s1 = seq![r1];
    let s2 = seq![r1, r2];
    let s3 = seq![r1, r2, r3];
    assert(s1.len() == 1 && s1[0] == r1);
    assert(s2.len() == 2 && s2[0] == r1 && s2[1] == r2);
    assert(s3.len() == 3 && s3[0] == r1 && s3[1] == r2 && s3[2] == r3);
}

proof fn lemma_first_reply(
    h: Seq<(Seq<char>, Seq<char>)>,
    b: Seq<char>,
    v: Json,
    token: Seq<char>,
)
    requires
        reader::meaning(b) == Ok::<Json, Seq<char>>(v),
        json::field(v, "obj"@) == Some(Json::Str(token)),
        token.len() > 0,
    ensures
        panel::token_in(replied(h, b)) == Ok::<(Seq<char>, Seq<char>), Seq<char>>(
            (token, panel::cookies(http::all_values(h, "set-cookie"@))),
        ),
{
}

proof fn lemma_second_reply(
    h: Seq<(Seq<char>, Seq<char>)>,
    b: Seq<char>,
    v: Json,
    cookie: Seq<char>,
)
    requires
        reader::meaning(b) == Ok::<Json, Seq<char>>(v),
        json::field(v, "success"@) == Some(Json::Bool(true)),
    ensures
        panel::session_in(replied(h, b), cookie) == Ok::<Seq<char>, Seq<char>>(
            if panel::cookies(http::all_values(h, "set-cookie"@)).len() > 0 {
                panel::cookies(http::all_values(h, "set-cookie"@))
            } else {
                cookie
            },
        ),
{
}

proof fn lemma_third_reply(h: Seq<(Seq<char>, Seq<char>)>, b: Seq<char>, v: Json)
    requires
        reader::meaning(b) == Ok::<Json, Seq<char>>(v),
        json::field(v, "success"@) == Some(Json::Bool(true)),
    ensures
        panel::list_in(replied(h, b)) == Ok::<Seq<NodeView>, Seq<char>>(panel::nodes_in(v)),
{
}

/// A reply without the status 200 ends the reading with an error that names the status, and one
/// that reports no success ends it too.
pub proof fn law_refusals_end_the_fetch(
    c: CredsView,
    before: Seq<Result<RespView, Seq<char>>>,
    r: RespView,
)
    requires
        before.len() < 3,
        panel::fetch(c, before) is Ask,
    ensures
        r.status != 200 ==> panel::fetch(c, before.push(Ok(r))) is Done && (panel::fetch(
            c,
            before.push(Ok(r)),
        )->Done_0.error matches Some(e) && ends_with(e, " HTTP "@ + digits::decimal(r.status))),
        before.len() >= 1 && r.status == 200 && (reader::meaning(r.body) matches Ok(v)
            && json::field(v, "success"@) == Some(Json::Bool(false))) ==> panel::fetch(
            c,
            before.push(Ok(r)),
        ) is Done && panel::fetch(c, before.push(Ok(r)))->Done_0.error is Some,
        before.len() == 0 && (reader::meaning(r.body) is Err || (reader::meaning(r.body) matches Ok(
            v,
        ) && json::field(v, "obj"@) is None)) ==> panel::fetch(c, before.push(Ok(r))) is Done
            && panel::fetch(c, before.push(Ok(r)))->Done_0.error is Some,
{
    let all = before.push(Ok(r));
    assert(before.len() >= 1 ==> all[0] == before[0]);
    assert(before.len() >= 2 ==> all[1] == before[1]);
    assert(all[before.len() as int] == Ok::<RespView, Seq<char>>(r));
    if r.status != 200 {
        let t = " HTTP "@ + digits::decimal(r.status);
        lemma_ends("csrf-token"@, t);
        lemma_ends("login"@, t);
        lemma_ends("inbounds"@, t);
        assert("csrf-token"@ + " HTTP "@ + digits::decimal(r.status) =~= "csrf-token"@ + t);
        assert("login"@ + " HTTP "@ + digits::decimal(r.status) =~= "login"@ + t);
        assert("inbounds"@ + " HTTP "@ + digits::decimal(r.status) =~= "inbounds"@ + t);
    }
}

/// Whether a text ends with another.
pub open spec fn ends_with(s: Seq<char>, t: Seq<char>) -> bool {
    t.len() <= s.len() && s.skip(s.len() - t.len()) == t
}

proof fn lemma_ends(a: Seq<char>, t: Seq<char>)
    ensures
        ends_with(a + t, t),
{
    assert((a + t).skip(a.len() as int) =~= t);
}

/// The call for the list carries the cookie of the session, where there is one.
pub proof fn law_list_carries(c: CredsView, cookie: Seq<char>)
    ensures
        ({
            let call = panel::list_call(c, cookie);
            &&& call.method == "GET"@ && call.body is None
            &&& call.url == panel::base_of(c.url) + "/panel/api/inbounds/list"@
            &&& cookie.len() > 0 ==> call.headers == seq![("Cookie"@, cookie)]
            &&& cookie.len() == 0 ==> call.headers.len() == 0
        }),
        panel::token_call(c).method == "GET"@,
        panel::token_call(c).url == panel::base_of(c.url) + "/csrf-token"@,
{
}

} // verus!
