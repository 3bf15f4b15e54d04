//! Traffic of the nodes behind a 3x-ui panel.
//!
//! The panel guards its login against forged requests, so reading the traffic
//! takes three calls: one for a token and a session cookie, one to log in with
//! both, and one for the list of inbounds. Traffic is kept per inbound and per
//! client, so that each number shows the node that it belongs to.

use vstd::prelude::*;
use crate::digits;
use crate::http;
use crate::http::{Call, Resp};
use crate::json;
use crate::json::{J, Json};
use crate::reader;
use crate::table;
use crate::text;

verus! {

/// The traffic of one client of an inbound, or of an inbound that has no statistics by client.
#[derive(Debug, Clone)]
pub struct NodeTraffic {
    /// The remark of the inbound, which is the name of the node in the panel.
    pub node: String,
    pub port: i64,
    /// The client's e-mail; empty for an inbound without statistics by client.
    pub client: String,
    pub up: i64,
    pub down: i64,
    pub total: i64,
}

/// The contents of the traffic of a node.
#[verifier::ext_equal]
pub ghost struct NodeView {
    pub node: Seq<char>,
    pub port: int,
    pub client: Seq<char>,
    pub up: int,
    pub down: int,
    pub total: int,
}

impl View for NodeTraffic {
    type V = NodeView;

    open spec fn view(&self) -> NodeView {
        NodeView {
            node: self.node@,
            port: self.port as int,
            client: self.client@,
            up: self.up as int,
            down: self.down as int,
            total: self.total as int,
        }
    }
}

/// Whether a number fits into 64 bits with a sign.
pub open spec fn fits(n: int) -> bool {
    i64::MIN <= n <= i64::MAX
}

/// What a node has used of its quota.
pub open spec fn used_of(n: NodeView) -> int {
    n.up + n.down
}

/// What a node has left of its quota; zero where it has none.
pub open spec fn remain_of(n: NodeView) -> int {
    if n.total > 0 && n.total > used_of(n) {
        n.total - used_of(n)
    } else {
        0
    }
}

impl NodeTraffic {
    /// The traffic both ways.
    pub fn used(&self) -> (r: i64)
        requires
            fits(used_of(self@)),
        ensures
            r == used_of(self@),
    {
        self.up + self.down
    }

    /// What is left of the quota; zero where there is none.
    pub fn remain(&self) -> (r: i64)
        requires
            self.total > 0 ==> fits(used_of(self@)) && fits(self.total - used_of(self@)),
        ensures
            r == remain_of(self@),
    {
        if self.total > 0 {
            let left = self.total - self.used();
            if left > 0 {
                left
            } else {
                0
            }
        } else {
            0
        }
    }
}

/// What was last heard from a panel: the traffic of its nodes, or an error.
#[derive(Debug, Clone)]
pub struct PanelTraffic {
    pub nodes: Vec<NodeTraffic>,
    pub error: Option<String>,
}

/// The contents of a list of nodes.
pub open spec fn nodes_view(v: Seq<NodeTraffic>) -> Seq<NodeView> {
    Seq::new(v.len(), |i: int| v[i]@)
}

/// The contents of what was heard from a panel.
#[verifier::ext_equal]
pub ghost struct TrafficView {
    pub nodes: Seq<NodeView>,
    pub error: Option<Seq<char>>,
}

impl View for PanelTraffic {
    type V = TrafficView;

    open spec fn view(&self) -> TrafficView {
        TrafficView { nodes: nodes_view(self.nodes@), error: http::maybe(self.error) }
    }
}

impl Default for PanelTraffic {
    /// No nodes and no error.
    fn default() -> (r: PanelTraffic)
        ensures
            r@ == (TrafficView { nodes: Seq::empty(), error: None }),
    {
        let r = PanelTraffic { nodes: Vec::new(), error: None };
        assert(r@.nodes =~= Seq::<NodeView>::empty());
        r
    }
}

/// The sum of the first `n` numbers.
pub open spec fn sum_to(v: Seq<int>, n: int) -> int
    decreases n,
{
    if n <= 0 {
        0
    } else {
        sum_to(v, n - 1) + v[n - 1]
    }
}

/// The sum of all the numbers.
pub open spec fn sum(v: Seq<int>) -> int {
    sum_to(v, v.len() as int)
}

/// Whether the numbers can be added up from the first to the last within 64 bits.
pub open spec fn sums_fit(v: Seq<int>) -> bool {
    forall|n: int| 0 <= n <= v.len() ==> fits(#[trigger] sum_to(v, n))
}

pub open spec fn ups(v: Seq<NodeView>) -> Seq<int> {
    v.map_values(|n: NodeView| n.up)
}

pub open spec fn downs(v: Seq<NodeView>) -> Seq<int> {
    v.map_values(|n: NodeView| n.down)
}

pub open spec fn quotas(v: Seq<NodeView>) -> Seq<int> {
    v.map_values(|n: NodeView| n.total)
}

pub open spec fn uses(v: Seq<NodeView>) -> Seq<int> {
    v.map_values(|n: NodeView| used_of(n))
}

/// Whether what each node has used, and the sums of uses and of quotas, fit into 64 bits.
pub open spec fn countable(v: Seq<NodeView>) -> bool {
    &&& forall|i: int| 0 <= i < v.len() ==> fits(#[trigger] uses(v)[i])
    &&& sums_fit(uses(v))
    &&& sums_fit(quotas(v))
}

impl PanelTraffic {
    /// The sum of the uploads.
    pub fn total_up(&self) -> (r: i64)
        requires
            sums_fit(ups(self@.nodes)),
        ensures
            r == sum(ups(self@.nodes)),
    {
        let mut t: i64 = 0;
        let mut i: usize = 0;
        while i < self.nodes.len()
            invariant
                i <= self.nodes@.len(),
                sums_fit(ups(self@.nodes)),
                t == sum_to(ups(self@.nodes), i as int),
            decreases self.nodes@.len() - i,
        {
            assert(fits(sum_to(ups(self@.nodes), i + 1)));
            t = t + self.nodes[i].up;
            i = i + 1;
        }
        t
    }

    /// The sum of the downloads.
    pub fn total_down(&self) -> (r: i64)
        requires
            sums_fit(downs(self@.nodes)),
        ensures
            r == sum(downs(self@.nodes)),
    {
        let mut t: i64 = 0;
        let mut i: usize = 0;
        while i < self.nodes.len()
            invariant
                i <= self.nodes@.len(),
                sums_fit(downs(self@.nodes)),
                t == sum_to(downs(self@.nodes), i as int),
            decreases self.nodes@.len() - i,
        {
            assert(fits(sum_to(downs(self@.nodes), i + 1)));
            t = t + self.nodes[i].down;
            i = i + 1;
        }
        t
    }

    /// The sum of the quotas.
    pub fn total_quota(&self) -> (r: i64)
        requires
            sums_fit(quotas(self@.nodes)),
        ensures
            r == sum(quotas(self@.nodes)),
    {
        let mut t: i64 = 0;
        let mut i: usize = 0;
        while i < self.nodes.len()
            invariant
                i <= self.nodes@.len(),
                sums_fit(quotas(self@.nodes)),
                t == sum_to(quotas(self@.nodes), i as int),
            decreases self.nodes@.len() - i,
        {
            assert(fits(sum_to(quotas(self@.nodes), i + 1)));
            t = t + self.nodes[i].total;
            i = i + 1;
        }
        t
    }

    /// The sum of what the nodes have used.
    pub fn total_used(&self) -> (r: i64)
        requires
            forall|i: int|
                0 <= i < self@.nodes.len() ==> fits(#[trigger] uses(self@.nodes)[i]),
            sums_fit(uses(self@.nodes)),
        ensures
            r == sum(uses(self@.nodes)),
    {
        let mut t: i64 = 0;
        let mut i: usize = 0;
        while i < self.nodes.len()
            invariant
                i <= self.nodes@.len(),
                forall|i: int|
                    0 <= i < self@.nodes.len() ==> fits(#[trigger] uses(self@.nodes)[i]),
                sums_fit(uses(self@.nodes)),
                t == sum_to(uses(self@.nodes), i as int),
            decreases self.nodes@.len() - i,
        {
            assert(fits(uses(self@.nodes)[i as int]));
            assert(fits(sum_to(uses(self@.nodes), i + 1)));
            t = t + self.nodes[i].used();
            i = i + 1;
        }
        t
    }

    /// Whether what each node has used, and the sums of uses and of quotas, fit into 64 bits.
    pub fn countable(&self) -> (r: bool)
        ensures
            r == countable(self@.nodes),
    {
        let ghost v = self@.nodes;
        let mut u: i64 = 0;
        let mut q: i64 = 0;
        let mut i: usize = 0;
        assert(sum_to(uses(v), 0) == 0 && sum_to(quotas(v), 0) == 0);
        while i < self.nodes.len()
            invariant
                i <= self.nodes@.len(),
                v == self@.nodes,
                u == sum_to(uses(v), i as int),
                q == sum_to(quotas(v), i as int),
                forall|n: int| 0 <= n < i ==> fits(#[trigger] uses(v)[n]),
                forall|n: int| 0 <= n <= i ==> fits(#[trigger] sum_to(uses(v), n)),
                forall|n: int| 0 <= n <= i ==> fits(#[trigger] sum_to(quotas(v), n)),
            decreases self.nodes@.len() - i,
        {
            let n = &self.nodes[i];
            let used = match n.up.checked_add(n.down) {
                Some(x) => x,
                None => {
                    assert(!fits(uses(v)[i as int]));
                    return false;
                },
            };
            assert(uses(v)[i as int] == used);
            assert(sum_to(uses(v), i + 1) == u + used);
            assert(sum_to(quotas(v), i + 1) == q + n.total);
            u = match u.checked_add(used) {
                Some(x) => x,
                None => {
                    assert(!fits(sum_to(uses(v), i + 1)));
                    return false;
                },
            };
            q = match q.checked_add(n.total) {
                Some(x) => x,
                None => {
                    assert(!fits(sum_to(quotas(v), i + 1)));
                    return false;
                },
            };
            i = i + 1;
        }
        true
    }
}

/// Up and down together make what is used.
pub proof fn law_used_is_up_and_down(v: Seq<NodeView>)
    ensures
        sum(uses(v)) == sum(ups(v)) + sum(downs(v)),
{
    lemma_used_to(v, v.len() as int);
}

proof fn lemma_used_to(v: Seq<NodeView>, n: int)
    requires
        n <= v.len(),
    ensures
        sum_to(uses(v), n) == sum_to(ups(v), n) + sum_to(downs(v), n),
    decreases n,
{
    if n > 0 {
        lemma_used_to(v, n - 1);
    }
}

/// What is used and what is left make up the quota, unless more was used than the quota allows.
pub proof fn law_used_and_left(n: NodeView)
    ensures
        n.total > 0 && used_of(n) <= n.total ==> used_of(n) + remain_of(n) == n.total,
        remain_of(n) >= 0,
        n.total <= 0 || used_of(n) >= n.total ==> remain_of(n) == 0,
{
}

// -------------------------------------------------------------------- calls

/// The address of a panel, and who logs in there.
#[derive(Debug)]
pub struct PanelCreds {
    pub url: String,
    pub username: String,
    pub password: String,
}

/// The contents of the access to a panel.
#[verifier::ext_equal]
pub ghost struct CredsView {
    pub url: Seq<char>,
    pub username: Seq<char>,
    pub password: Seq<char>,
}

impl View for PanelCreds {
    type V = CredsView;

    open spec fn view(&self) -> CredsView {
        CredsView { url: self.url@, username: self.username@, password: self.password@ }
    }
}

impl Clone for PanelCreds {
    /// A copy.
    fn clone(&self) -> (r: PanelCreds)
        ensures
            r@ == self@,
    {
        PanelCreds {
            url: self.url.clone(),
            username: self.username.clone(),
            password: self.password.clone(),
        }
    }
}

/// The address of a panel without slashes at its end.
pub open spec fn base_of(url: Seq<char>) -> Seq<char> {
    text::strip_end(url, seq!['/'])
}

impl PanelCreds {
    /// The address without slashes at its end.
    pub fn base(&self) -> (r: String)
        ensures
            r@ == base_of(self@.url),
    {
        proof {
            reveal_strlit("/");
            assert("/"@ =~= seq!['/']);
        }
        text::trim_end_of(self.url.as_str(), "/")
    }
}

/// The name and value at the start of a `Set-Cookie` header.
pub open spec fn cookie_of(c: Seq<char>) -> Seq<char> {
    text::trimmed(text::fields(c, seq![';'])[0])
}

/// The name of a cookie and the equals sign.
pub open spec fn cookie_key(kv: Seq<char>) -> Seq<char> {
    text::fields(kv, seq!['='])[0] + seq!['=']
}

/// The cookies that `Set-Cookie` headers set: a later one takes the place of an earlier one with
/// the same name.
pub open spec fn cookie_parts(cs: Seq<Seq<char>>) -> Seq<Seq<char>>
    decreases cs.len(),
{
    if cs.len() == 0 {
        Seq::empty()
    } else {
        let parts = cookie_parts(cs.drop_last());
        let kv = cookie_of(cs.last());
        let i = text::first_beginning(parts, cookie_key(kv), 0);
        if kv.len() == 0 {
            parts
        } else if 0 <= i < parts.len() {
            parts.update(i, kv)
        } else {
            parts.push(kv)
        }
    }
}

/// The `Cookie` header that answers `Set-Cookie` headers.
pub open spec fn cookies(cs: Seq<Seq<char>>) -> Seq<char> {
    text::joined(cookie_parts(cs), "; "@)
}

/// Later cookies win: the first cookie of a name that is sent is the one that was set last.
pub proof fn law_later_cookie_wins(cs: Seq<Seq<char>>, c: Seq<char>)
    requires
        cookie_of(c).contains('='),
    ensures
        ({
            let kv = cookie_of(c);
            let parts = cookie_parts(cs.push(c));
            let i = text::first_beginning(parts, cookie_key(kv), 0);
            &&& text::begins(kv, cookie_key(kv))
            &&& 0 <= i < parts.len() && parts[i] == kv
        }),
{
    let kv = cookie_of(c);
    let key = cookie_key(kv);
    let before = cookie_parts(cs);
    let parts = cookie_parts(cs.push(c));
    assert(cs.push(c).drop_last() =~= cs);
    let e = text::first_in(kv, seq!['='], 0);
    let w = choose|w: int| 0 <= w < kv.len() && kv[w] == '=';
    text::lemma_first_in(kv, seq!['='], 0);
    assert(seq!['='][0] == '=');
    assert(seq!['='].contains(kv[w]));
    assert(0 <= e < kv.len());
    assert(kv[e] == '=') by {
        let z = choose|z: int| 0 <= z < seq!['='].len() && seq!['='][z] == kv[e];
    }
    assert(key =~= kv.take(e + 1));
    assert(text::begins(kv, key));
    let i = text::first_beginning(before, key, 0);
    lemma_beginning_bounds(before, key, 0);
    lemma_beginning_bounds(parts, key, 0);
    let j = text::first_beginning(parts, key, 0);
    assert(parts[i] == kv);
    if j < i {
        assert(parts[j] == before[j]);
        assert(text::begins(parts[j], key));
    }
}

proof fn lemma_beginning_bounds(v: Seq<Seq<char>>, p: Seq<char>, i: int)
    requires
        0 <= i <= v.len(),
    ensures
        i <= text::first_beginning(v, p, i) <= v.len(),
        text::first_beginning(v, p, i) < v.len() ==> text::begins(
            v[text::first_beginning(v, p, i)],
            p,
        ),
        forall|j: int| i <= j < text::first_beginning(v, p, i) ==> !text::begins(#[trigger] v[j], p),
    decreases v.len() - i,
{
    if i < v.len() && !text::begins(v[i], p) {
        lemma_beginning_bounds(v, p, i + 1);
    }
}

/// Merges repeated `Set-Cookie` headers into the value of one `Cookie` header.
pub fn join_cookies(cs: &Vec<&str>) -> (r: String)
    ensures
        r@ == cookies(http::slices(cs@)),
{
    proof {
        reveal_strlit(";");
        reveal_strlit("=");
        assert(";"@ =~= seq![';']);
        assert("="@ =~= seq!['=']);
    }
    let ghost all = http::slices(cs@);
    let mut parts: Vec<String> = Vec::new();
    let mut i: usize = 0;
    assert(text::texts(parts@) =~= Seq::<Seq<char>>::empty());
    while i < cs.len()
        invariant
            i <= cs@.len(),
            all == http::slices(cs@),
            ";"@ == seq![';'],
            "="@ == seq!['='],
            text::texts(parts@) == cookie_parts(all.take(i as int)),
        decreases cs@.len() - i,
    {
        let fs = text::split(cs[i], ";");
        assert(text::texts(fs@).len() == fs@.len());
        assert(text::texts(fs@)[0] == fs@[0]@);
        let kv = text::trim(fs[0].as_str());
        let ghost was = text::texts(parts@);
        i = i + 1;
        assert(all.take(i as int).drop_last() =~= all.take(i - 1));
        assert(all.take(i as int).last() == cs@[i - 1]@);
        if kv.as_str().unicode_len() > 0 {
            let ks = text::split(kv.as_str(), "=");
            assert(text::texts(ks@).len() == ks@.len());
            assert(text::texts(ks@)[0] == ks@[0]@);
            let mut key = ks[0].clone();
            key.push('=');
            assert(key@ =~= cookie_key(kv@));
            match text::find_beginning(&parts, key.as_str()) {
                Some(j) => {
                    parts.set(j, kv);
                    assert(text::texts(parts@) =~= was.update(j as int, kv@));
                },
                None => {
                    parts.push(kv);
                    assert(text::texts(parts@) =~= was.push(kv@));
                },
            }
        }
    }
    assert(all.take(i as int) =~= all);
    text::join(&parts, "; ")
}

// -------------------------------------------------------------------- nodes

/// The traffic that a JSON object gives for a node.
pub open spec fn traffic_in(v: Json, node: Seq<char>, port: int, client: Seq<char>) -> NodeView {
    NodeView {
        node,
        port,
        client,
        up: json::int_at(v, "up"@),
        down: json::int_at(v, "down"@),
        total: json::int_at(v, "total"@),
    }
}

/// The traffic of an inbound: that of each of its clients, or its own.
pub open spec fn inbound_nodes(ib: Json) -> Seq<NodeView> {
    let remark = json::str_at(ib, "remark"@, Seq::empty());
    let port = json::int_at(ib, "port"@);
    let stats = json::items_at(ib, "clientStats"@);
    if stats.len() == 0 {
        seq![traffic_in(ib, remark, port, Seq::empty())]
    } else {
        Seq::new(
            stats.len(),
            |i: int|
                traffic_in(stats[i], remark, port, json::str_at(stats[i], "email"@, Seq::empty())),
        )
    }
}

/// The traffic of the first `n` inbounds.
pub open spec fn nodes_to(a: Seq<Json>, n: int) -> Seq<NodeView>
    decreases n,
{
    if n <= 0 {
        Seq::empty()
    } else {
        nodes_to(a, n - 1) + inbound_nodes(a[n - 1])
    }
}

/// The traffic in a list of inbounds.
pub open spec fn nodes_in(data: Json) -> Seq<NodeView> {
    let a = json::items_at(data, "obj"@);
    nodes_to(a, a.len() as int)
}

/// What an inbound itself says was used.
pub open spec fn inbound_used(ib: Json) -> int {
    json::int_at(ib, "up"@) + json::int_at(ib, "down"@)
}

/// What the clients of an inbound have used.
pub open spec fn client_uses(ib: Json) -> Seq<int> {
    json::items_at(ib, "clientStats"@).map_values(|c: Json| inbound_used(c))
}

/// What the inbounds themselves say was used.
pub open spec fn inbound_uses(data: Json) -> Seq<int> {
    json::items_at(data, "obj"@).map_values(|ib: Json| inbound_used(ib))
}

/// Whether what the clients of an inbound have used adds up to what the inbound says, or there are
/// none.
pub open spec fn adds_up(ib: Json) -> bool {
    client_uses(ib).len() > 0 ==> sum(client_uses(ib)) == inbound_used(ib)
}

/// What is used is the sum over the inbounds of up and down, where the clients of each inbound add
/// up to it or there are none.
pub proof fn law_used_is_the_sum_over_the_inbounds(data: Json)
    requires
        forall|i: int|
            0 <= i < json::items_at(data, "obj"@).len() ==> adds_up(
                #[trigger] json::items_at(data, "obj"@)[i],
            ),
    ensures
        sum(uses(nodes_in(data))) == sum(inbound_uses(data)),
{
    let a = json::items_at(data, "obj"@);
    lemma_used_by_inbounds(a, a.len() as int);
}

proof fn lemma_used_by_inbounds(a: Seq<Json>, n: int)
    requires
        0 <= n <= a.len(),
        forall|i: int| 0 <= i < a.len() ==> adds_up(#[trigger] a[i]),
    ensures
        sum(uses(nodes_to(a, n))) == sum_to(a.map_values(|ib: Json| inbound_used(ib)), n),
    decreases n,
{
    if n > 0 {
        let ib = a[n - 1];
        let x = nodes_to(a, n - 1);
        let y = inbound_nodes(ib);
        lemma_used_by_inbounds(a, n - 1);
        assert(uses(x + y) =~= uses(x) + uses(y));
        lemma_sum_concat(uses(x), uses(y));
        assert(adds_up(ib));
        if client_uses(ib).len() > 0 {
            assert(uses(y) =~= client_uses(ib));
        } else {
            assert(uses(y) =~= seq![inbound_used(ib)]);
            assert(sum_to(seq![inbound_used(ib)], 0) == 0);
            assert(sum(seq![inbound_used(ib)]) == inbound_used(ib));
        }
    }
}

pub proof fn lemma_sum_concat(a: Seq<int>, b: Seq<int>)
    ensures
        sum(a + b) == sum(a) + sum(b),
{
    lemma_sum_prefix(a, b, a.len() as int);
    lemma_sum_rest(a, b, b.len() as int);
}

proof fn lemma_sum_prefix(a: Seq<int>, b: Seq<int>, n: int)
    requires
        n <= a.len(),
    ensures
        sum_to(a + b, n) == sum_to(a, n),
    decreases n,
{
    if n > 0 {
        lemma_sum_prefix(a, b, n - 1);
    }
}

proof fn lemma_sum_rest(a: Seq<int>, b: Seq<int>, n: int)
    requires
        0 <= n <= b.len(),
    ensures
        sum_to(a + b, a.len() + n) == sum(a) + sum_to(b, n),
    decreases n,
{
    if n > 0 {
        lemma_sum_rest(a, b, n - 1);
        assert((a + b)[a.len() + n - 1] == b[n - 1]);
    } else {
        lemma_sum_prefix(a, b, a.len() as int);
    }
}

/// Reads the traffic of a node.
fn read_traffic(v: &J, node: &String, port: i64, client: String) -> (r: NodeTraffic)
    ensures
        r@ == traffic_in(v.view(), node@, port as int, client@),
{
    NodeTraffic {
        node: node.clone(),
        port,
        client,
        up: v.int_at("up"),
        down: v.int_at("down"),
        total: v.int_at("total"),
    }
}

/// Reads the traffic of the nodes from a list of inbounds.
pub fn read_nodes(data: &J) -> (r: Vec<NodeTraffic>)
    ensures
        nodes_view(r@) == nodes_in(data.view()),
{
    proof {
        reveal_strlit("");
        assert(""@ =~= Seq::<char>::empty());
    }
    let inbounds = data.items_at("obj");
    let ghost a = json::items_at(data.view(), "obj"@);
    let mut out: Vec<NodeTraffic> = Vec::new();
    let mut i: usize = 0;
    assert(a.len() == inbounds@.len());
    assert(nodes_view(out@) =~= Seq::<NodeView>::empty());
    while i < inbounds.len()
        invariant
            i <= inbounds@.len(),
            a == json::ref_items(inbounds@),
            ""@ == Seq::<char>::empty(),
            nodes_view(out@) == nodes_to(a, i as int),
        decreases inbounds@.len() - i,
    {
        let ib = inbounds[i];
        assert(a[i as int] == ib.view());
        let remark = ib.str_at("remark", "");
        let port = ib.int_at("port");
        let stats = ib.items_at("clientStats");
        let ghost sv = json::items_at(ib.view(), "clientStats"@);
        assert(sv.len() == stats@.len());
        let ghost was = nodes_view(out@);
        let ghost new = inbound_nodes(ib.view());
        if stats.len() == 0 {
            out.push(read_traffic(ib, &remark, port, String::new()));
            assert(nodes_view(out@) =~= was + new);
        } else {
            let mut j: usize = 0;
            assert(was + new.take(0) =~= was);
            while j < stats.len()
                invariant
                    j <= stats@.len(),
                    ""@ == Seq::<char>::empty(),
                    sv == json::ref_items(stats@),
                    sv == json::items_at(ib.view(), "clientStats"@),
                    sv.len() > 0,
                    new == inbound_nodes(ib.view()),
                    remark@ == json::str_at(ib.view(), "remark"@, Seq::empty()),
                    port == json::int_at(ib.view(), "port"@),
                    nodes_view(out@) == was + new.take(j as int),
                decreases stats@.len() - j,
            {
                let c = stats[j];
                assert(sv[j as int] == c.view());
                let client = c.str_at("email", "");
                let ghost before = nodes_view(out@);
                out.push(read_traffic(c, &remark, port, client));
                assert(nodes_view(out@) =~= before.push(new[j as int]));
                j = j + 1;
                assert(new.take(j as int) =~= new.take(j - 1).push(new[j - 1]));
                assert(nodes_view(out@) =~= was + new.take(j as int));
            }
            assert(new.take(j as int) =~= new);
        }
        i = i + 1;
    }
    out
}

// -------------------------------------------------------------------- fetch

/// What came back from a call: a reply, or why there was none.
pub open spec fn reply_view(r: Result<Resp, String>) -> Result<http::RespView, Seq<char>> {
    match r {
        Ok(x) => Ok(x@),
        Err(e) => Err(e@),
    }
}

/// What came back from the calls so far.
pub open spec fn replies_view(v: Seq<Result<Resp, String>>) -> Seq<
    Result<http::RespView, Seq<char>>,
> {
    Seq::new(v.len(), |i: int| reply_view(v[i]))
}

/// The reply to a call, where it came and has the status 200; else the error, which names the call.
pub open spec fn good(r: Result<http::RespView, Seq<char>>, call: Seq<char>) -> Result<
    http::RespView,
    Seq<char>,
> {
    match r {
        Err(e) => Err(e),
        Ok(x) => if x.status != 200 {
            Err(call + " HTTP "@ + digits::decimal(x.status))
        } else {
            Ok(x)
        },
    }
}

/// A `Cookie` header, where there is a cookie.
pub open spec fn cookie_header(cookie: Seq<char>) -> Seq<(Seq<char>, Seq<char>)> {
    if cookie.len() == 0 {
        Seq::empty()
    } else {
        seq![("Cookie"@, cookie)]
    }
}

/// The call for a token.
pub open spec fn token_call(c: CredsView) -> http::CallView {
    http::CallView {
        method: "GET"@,
        url: base_of(c.url) + "/csrf-token"@,
        headers: Seq::empty(),
        body: None,
    }
}

/// The token and the cookie that the call for a token gives.
pub open spec fn token_in(r: Result<http::RespView, Seq<char>>) -> Result<
    (Seq<char>, Seq<char>),
    Seq<char>,
> {
    match good(r, "csrf-token"@) {
        Err(e) => Err(e),
        Ok(x) => match reader::meaning(x.body) {
            Err(e) => Err("csrf json: "@ + e),
            Ok(v) => {
                let token = json::str_at(v, "obj"@, Seq::empty());
                if token.len() == 0 {
                    Err("empty csrf token"@)
                } else {
                    Ok((token, cookies(http::all_values(x.headers, "set-cookie"@))))
                }
            },
        },
    }
}

/// What is sent to log in.
pub open spec fn login_payload(c: CredsView) -> Json {
    Json::Obj(
        json::built(
            seq![("username"@, Json::Str(c.username)), ("password"@, Json::Str(c.password))],
        ),
    )
}

/// The call to log in.
pub open spec fn login_call(c: CredsView, token: Seq<char>, cookie: Seq<char>) -> http::CallView {
    http::CallView {
        method: "POST"@,
        url: base_of(c.url) + "/login"@,
        headers: seq![("Content-Type"@, "application/json"@), ("X-CSRF-Token"@, token)]
            + cookie_header(cookie),
        body: Some(json::render(login_payload(c), None)),
    }
}

/// The cookie that the login gives, where it succeeds; the cookie from before, where it sets none.
pub open spec fn session_in(r: Result<http::RespView, Seq<char>>, cookie: Seq<char>) -> Result<
    Seq<char>,
    Seq<char>,
> {
    match good(r, "login"@) {
        Err(e) => Err(e),
        Ok(x) => {
            let v = match reader::meaning(x.body) {
                Ok(v) => v,
                Err(_) => Json::Null,
            };
            if !json::bool_at(v, "success"@) {
                Err("login failed: "@ + json::str_at(v, "msg"@, "?"@))
            } else {
                let new = cookies(http::all_values(x.headers, "set-cookie"@));
                if new.len() == 0 {
                    Ok(cookie)
                } else {
                    Ok(new)
                }
            }
        },
    }
}

/// The call for the list of inbounds.
pub open spec fn list_call(c: CredsView, cookie: Seq<char>) -> http::CallView {
    http::CallView {
        method: "GET"@,
        url: base_of(c.url) + "/panel/api/inbounds/list"@,
        headers: cookie_header(cookie),
        body: None,
    }
}

/// The traffic that the call for the list of inbounds gives.
pub open spec fn list_in(r: Result<http::RespView, Seq<char>>) -> Result<
    Seq<NodeView>,
    Seq<char>,
> {
    match good(r, "inbounds"@) {
        Err(e) => Err(e),
        Ok(x) => match reader::meaning(x.body) {
            Err(e) => Err("inbounds json: "@ + e),
            Ok(v) => if !json::bool_at(v, "success"@) {
                Err("inbounds API returned success=false"@)
            } else {
                Ok(nodes_in(v))
            },
        },
    }
}

/// What to do next to read the traffic of a panel: make a call, or nothing more.
pub ghost enum FetchView {
    Ask(http::CallView),
    Done(TrafficView),
}

/// An error in place of traffic.
pub open spec fn failed(e: Seq<char>) -> FetchView {
    FetchView::Done(TrafficView { nodes: Seq::empty(), error: Some(e) })
}

/// What to do next, by what has come back from the calls so far.
pub open spec fn fetch(c: CredsView, replies: Seq<Result<http::RespView, Seq<char>>>) -> FetchView {
    if replies.len() == 0 {
        FetchView::Ask(token_call(c))
    } else {
        match token_in(replies[0]) {
            Err(e) => failed(e),
            Ok((token, cookie)) => if replies.len() == 1 {
                FetchView::Ask(login_call(c, token, cookie))
            } else {
                match session_in(replies[1], cookie) {
                    Err(e) => failed(e),
                    Ok(session) => if replies.len() == 2 {
                        FetchView::Ask(list_call(c, session))
                    } else {
                        match list_in(replies[2]) {
                            Err(e) => failed(e),
                            Ok(nodes) => FetchView::Done(TrafficView { nodes, error: None }),
                        }
                    },
                }
            },
        }
    }
}

/// What to do next to read the traffic of a panel.
#[derive(Debug)]
pub enum Fetch {
    Ask(Call),
    Done(PanelTraffic),
}

/// The contents of what to do next.
pub open spec fn fetch_view(f: Fetch) -> FetchView {
    match f {
        Fetch::Ask(c) => FetchView::Ask(c@),
        Fetch::Done(t) => FetchView::Done(t@),
    }
}

/// Checks the status of a reply.
fn check<'a>(r: &'a Result<Resp, String>, call: &str) -> (o: Result<&'a Resp, String>)
    ensures
        match o {
            Ok(x) => good(reply_view(*r), call@) == Ok::<http::RespView, Seq<char>>(x@),
            Err(e) => good(reply_view(*r), call@) == Err::<http::RespView, Seq<char>>(e@),
        },
{
    match r {
        Err(e) => Err(e.clone()),
        Ok(x) => if x.status != 200 {
            let mut e = call.to_string();
            text::put(&mut e, " HTTP ");
            digits::put_decimal(&mut e, x.status as u64);
            Err(e)
        } else {
            Ok(x)
        },
    }
}

/// An error with what it is about before it.
fn about(what: &str, e: &str) -> (r: String)
    ensures
        r@ == what@ + e@,
{
    let mut out = what.to_string();
    text::put(&mut out, e);
    out
}

/// Reads the reply to the call for a token.
fn read_token(r: &Result<Resp, String>) -> (o: Result<(String, String), String>)
    ensures
        match o {
            Ok(p) => token_in(reply_view(*r)) == Ok::<(Seq<char>, Seq<char>), Seq<char>>(
                (p.0@, p.1@),
            ),
            Err(e) => token_in(reply_view(*r)) == Err::<(Seq<char>, Seq<char>), Seq<char>>(e@),
        },
{
    let x = match check(r, "csrf-token") {
        Ok(x) => x,
        Err(e) => {
            return Err(e);
        },
    };
    let v = match reader::parse(x.body.as_str()) {
        Ok(v) => v,
        Err(e) => {
            return Err(about("csrf json: ", e.as_str()));
        },
    };
    proof {
        reveal_strlit("");
        assert(""@ =~= Seq::<char>::empty());
    }
    let token = v.str_at("obj", "");
    if token.as_str().unicode_len() == 0 {
        return Err("empty csrf token".to_string());
    }
    Ok((token, join_cookies(&x.headers_all("set-cookie"))))
}

/// Reads the reply to the login.
fn read_session(r: &Result<Resp, String>, cookie: &String) -> (o: Result<String, String>)
    ensures
        match o {
            Ok(s) => session_in(reply_view(*r), cookie@) == Ok::<Seq<char>, Seq<char>>(s@),
            Err(e) => session_in(reply_view(*r), cookie@) == Err::<Seq<char>, Seq<char>>(e@),
        },
{
    let x = match check(r, "login") {
        Ok(x) => x,
        Err(e) => {
            return Err(e);
        },
    };
    let v = match reader::parse(x.body.as_str()) {
        Ok(v) => v,
        Err(_) => J::Null,
    };
    if !v.bool_at("success") {
        return Err(about("login failed: ", v.str_at("msg", "?").as_str()));
    }
    let new = join_cookies(&x.headers_all("set-cookie"));
    if new.as_str().unicode_len() == 0 {
        Ok(cookie.clone())
    } else {
        Ok(new)
    }
}

/// Reads the reply to the call for the list of inbounds.
fn read_list(r: &Result<Resp, String>) -> (o: Result<Vec<NodeTraffic>, String>)
    ensures
        match o {
            Ok(v) => list_in(reply_view(*r)) == Ok::<Seq<NodeView>, Seq<char>>(nodes_view(v@)),
            Err(e) => list_in(reply_view(*r)) == Err::<Seq<NodeView>, Seq<char>>(e@),
        },
{
    let x = match check(r, "inbounds") {
        Ok(x) => x,
        Err(e) => {
            return Err(e);
        },
    };
    let v = match reader::parse(x.body.as_str()) {
        Ok(v) => v,
        Err(e) => {
            return Err(about("inbounds json: ", e.as_str()));
        },
    };
    if !v.bool_at("success") {
        return Err("inbounds API returned success=false".to_string());
    }
    Ok(read_nodes(&v))
}

/// Adds a `Cookie` header, where there is a cookie.
fn put_cookie(h: &mut Vec<(String, String)>, cookie: &String)
    ensures
        table::pairs(final(h)@) == table::pairs(old(h)@) + cookie_header(cookie@),
{
    let ghost was = table::pairs(h@);
    if cookie.as_str().unicode_len() > 0 {
        h.push(("Cookie".to_string(), cookie.clone()));
        assert(table::pairs(h@) =~= was + cookie_header(cookie@));
    } else {
        assert(table::pairs(h@) =~= was + cookie_header(cookie@));
    }
}

/// A call to a path of a panel.
fn call_to(creds: &PanelCreds, method: &str, path: &str) -> (c: Call)
    ensures
        c.method@ == method@,
        c.url@ == base_of(creds@.url) + path@,
        table::pairs(c.headers@) == Seq::<(Seq<char>, Seq<char>)>::empty(),
        c.body is None,
{
    let mut url = creds.base();
    text::put(&mut url, path);
    let headers: Vec<(String, String)> = Vec::new();
    assert(table::pairs(headers@) =~= Seq::<(Seq<char>, Seq<char>)>::empty());
    Call { method: method.to_string(), url, headers, body: None }
}

/// The call to log in.
fn login(creds: &PanelCreds, token: String, cookie: &String) -> (c: Call)
    ensures
        c@ == login_call(creds@, token@, cookie@),
{
    let mut c = call_to(creds, "POST", "/login");
    c.headers.push(("Content-Type".to_string(), "application/json".to_string()));
    c.headers.push(("X-CSRF-Token".to_string(), token));
    assert(table::pairs(c.headers@) =~= seq![
        ("Content-Type"@, "application/json"@),
        ("X-CSRF-Token"@, token@),
    ]);
    put_cookie(&mut c.headers, cookie);
    let fields: Vec<(String, J)> = vec![
        ("username".to_string(), J::Str(creds.username.clone())),
        ("password".to_string(), J::Str(creds.password.clone())),
    ];
    assert(json::members(fields@) =~= seq![
        ("username"@, Json::Str(creds@.username)),
        ("password"@, Json::Str(creds@.password)),
    ]);
    c.body = Some(json::object(fields).to_string());
    c
}

/// Says what to do next to read the traffic of a panel, by what has come back from the calls so
/// far. There are three calls at most; a call that fails ends the reading with an error.
pub fn fetch_traffic(creds: &PanelCreds, replies: &Vec<Result<Resp, String>>) -> (r: Fetch)
    ensures
        fetch_view(r) == fetch(creds@, replies_view(replies@)),
{
    let ghost rs = replies_view(replies@);
    if replies.len() == 0 {
        return Fetch::Ask(call_to(creds, "GET", "/csrf-token"));
    }
    assert(rs[0] == reply_view(replies@[0]));
    let (token, cookie) = match read_token(&replies[0]) {
        Ok(p) => p,
        Err(e) => {
            return failure(e);
        },
    };
    if replies.len() == 1 {
        return Fetch::Ask(login(creds, token, &cookie));
    }
    assert(rs[1] == reply_view(replies@[1]));
    let session = match read_session(&replies[1], &cookie) {
        Ok(s) => s,
        Err(e) => {
            return failure(e);
        },
    };
    if replies.len() == 2 {
        let mut c = call_to(creds, "GET", "/panel/api/inbounds/list");
        put_cookie(&mut c.headers, &session);
        assert(table::pairs(c.headers@) =~= cookie_header(session@));
        return Fetch::Ask(c);
    }
    assert(rs[2] == reply_view(replies@[2]));
    match read_list(&replies[2]) {
        Ok(nodes) => Fetch::Done(PanelTraffic { nodes, error: None }),
        Err(e) => failure(e),
    }
}

/// An error in place of traffic.
fn failure(e: String) -> (r: Fetch)
    ensures
        fetch_view(r) == failed(e@),
{
    let t = PanelTraffic { nodes: Vec::new(), error: Some(e) };
    assert(t@.nodes =~= Seq::<NodeView>::empty());
    Fetch::Done(t)
}

/// Reading the traffic ends after three calls at most, and a failed call is the last.
pub proof fn law_fetch_ends(c: CredsView, replies: Seq<Result<http::RespView, Seq<char>>>)
    ensures
        replies.len() >= 3 ==> fetch(c, replies) is Done,
        1 <= replies.len() <= 3 && replies.last() is Err && (replies.len() > 1 ==> fetch(
            c,
            replies.drop_last(),
        ) is Ask) ==> fetch(c, replies) == failed(replies.last()->Err_0),
        fetch(c, replies) matches FetchView::Done(t) ==> (t.error is Some ==> t.nodes.len() == 0),
{
    if 1 < replies.len() <= 3 {
        let h = replies.drop_last();
        assert(h[0] == replies[0]);
        if replies.len() == 3 {
            assert(h[1] == replies[1]);
        }
    }
}

} // verus!
