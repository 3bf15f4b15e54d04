//! What holds of the addresses that agents and the launcher call: the dashboard
//! finds the path, the key and the name in them.

use vstd::prelude::*;
use vstd::utf8;
use crate::agent;
use crate::bytes;
use crate::digits;
use crate::form_laws;
use crate::http;
use crate::launcher;
use crate::laws;
use crate::roundtrip;
use crate::serve;
use crate::text;
use crate::url;

verus! {

/// Whether a text holds no `c`.
pub open spec fn lacks(s: Seq<char>, c: char) -> bool {
    forall|i: int| 0 <= i < s.len() ==> #[trigger] s[i] != c
}

proof fn lemma_not_in(s: char, c: char)
    requires
        s != c,
    ensures
        !seq![c].contains(s),
{
    if seq![c].contains(s) {
        let w = choose|w: int| 0 <= w < seq![c].len() && seq![c][w] == s;
        assert(s == c);
    }
}

proof fn lemma_first_at(s: Seq<char>, c: char, i: int, j: int)
    requires
        0 <= i <= j <= s.len(),
        forall|k: int| i <= k < j ==> #[trigger] s[k] != c,
        j < s.len() ==> s[j] == c,
    ensures
        text::first_in(s, seq![c], i) == j,
    decreases j - i,
{
    assert(seq![c][0] == c);
    if i < j {
        lemma_not_in(s[i], c);
        lemma_first_at(s, c, i + 1, j);
    }
}

// ------------------------------------------------------------------ plain text

proof fn lemma_other_byte(a: char, c: char)
    requires
        a != c,
        a <= '\u{7f}',
        c <= '\u{7f}',
    ensures
        a as u8 != c as u8,
{
}

/// An ASCII byte stands in the bytes of a text only where its character stands in the text.
proof fn lemma_no_byte(s: Seq<char>, c: char, i: int)
    requires
        lacks(s, c),
        c <= '\u{7f}',
        0 <= i < utf8::encode_utf8(s).len(),
    ensures
        utf8::encode_utf8(s)[i] != c as u8,
    decreases s.len(),
{
    if s.len() == 0 {
        assert(utf8::encode_utf8(s) =~= Seq::<u8>::empty());
    } else {
        let h = seq![s[0]];
        let t = s.skip(1);
        assert(s =~= h + t);
        bytes::lemma_encode_concat(h, t);
        let e = utf8::encode_utf8(h);
        if s[0] <= '\u{7f}' {
            roundtrip::lemma_ascii(e, 0, s[0]);
        } else {
            roundtrip::lemma_high_bytes(s[0]);
        }
        if i < e.len() {
            assert(utf8::encode_utf8(s)[i] == e[i]);
            assert(s[0] != c);
            if s[0] <= '\u{7f}' {
                assert(e == seq![s[0] as u8]);
                lemma_other_byte(s[0], c);
            } else {
                assert(e[i] >= 0x80);
            }
        } else {
            assert(utf8::encode_utf8(s)[i] == utf8::encode_utf8(t)[i - e.len()]);
            assert forall|k: int| 0 <= k < t.len() implies #[trigger] t[k] != c by {
                assert(t[k] == s[k + 1]);
            }
            lemma_no_byte(t, c, i - e.len());
        }
    }
}

proof fn lemma_decoded_same(b: Seq<u8>)
    requires
        forall|i: int| 0 <= i < b.len() ==> #[trigger] b[i] != 0x25 && b[i] != 0x2b,
    ensures
        url::decoded(b, true) == b,
    decreases b.len(),
{
    if b.len() == 0 {
        assert(url::decoded(b, true) =~= b);
    } else {
        let t = b.skip(1);
        assert forall|i: int| 0 <= i < t.len() implies #[trigger] t[i] != 0x25 && t[i] != 0x2b by {
            assert(t[i] == b[i + 1]);
        }
        lemma_decoded_same(t);
        assert(seq![b[0]] + t =~= b);
    }
}

/// A text without percent and plus signs stands for itself in a query.
pub proof fn law_plain_text_stays(s: Seq<char>)
    requires
        lacks(s, '%'),
        lacks(s, '+'),
    ensures
        url::plain(s) == s,
{
    let b = utf8::encode_utf8(s);
    assert forall|i: int| 0 <= i < b.len() implies #[trigger] b[i] != 0x25 && b[i] != 0x2b by {
        lemma_no_byte(s, '%', i);
        lemma_no_byte(s, '+', i);
    }
    lemma_decoded_same(b);
    bytes::lemma_text_of_encoded(s);
}

// ------------------------------------------------------------------- addresses

/// The parts of an address whose host and port hold no slash.
proof fn lemma_url_path(authority: Seq<char>, path: Seq<char>)
    requires
        lacks(authority, '/'),
        path.len() > 0,
        path[0] == '/',
    ensures
        http::url_parts("http://"@ + authority + path) matches Some(p) && p.2 == path,
{
    let u = "http://"@ + authority + path;
    let rest = authority + path;
    let n = authority.len() as int;
    assert(u.take("http://"@.len() as int) =~= "http://"@);
    assert(u.skip("http://"@.len() as int) =~= rest);
    assert(rest[n] == path[0]);
    assert forall|k: int| 0 <= k < n implies #[trigger] rest[k] != '/' by {
        assert(rest[k] == authority[k]);
    }
    lemma_first_at(rest, '/', 0, n);
    assert(rest.skip(n) =~= path);
}

/// The path and the query of a target.
proof fn lemma_target(path: Seq<char>, query: Seq<char>)
    requires
        lacks(path, '?'),
    ensures
        http::path_of(path + seq!['?'] + query) == path,
        forall|k: Seq<char>| #[trigger]
            http::query_of(path + seq!['?'] + query, k) == url::assigned(
                text::fields(query, seq!['&']),
                k,
            ),
{
    let t = path + seq!['?'] + query;
    let n = path.len() as int;
    assert(t[n] == '?');
    assert forall|k: int| 0 <= k < n implies #[trigger] t[k] != '?' by {
        assert(t[k] == path[k]);
    }
    lemma_first_at(t, '?', 0, n);
    assert(t.take(n) =~= path);
    assert(t.skip(n + 1) =~= query);
}

/// The key that a query gives.
proof fn lemma_key(key: Seq<char>)
    requires
        lacks(key, '&'),
    ensures
        url::assigned(text::fields("key="@ + key, seq!['&']), "key"@) == Some(url::plain(key)),
{
    reveal_strlit("key=");
    reveal_strlit("key");
    let q = "key="@ + key;
    assert("key="@.len() == 4);
    assert forall|k: int| 0 <= k < q.len() implies #[trigger] q[k] != '&' by {
        if k < 4 {
            assert(q[k] == "key="@[k]);
        } else {
            assert(q[k] == key[k - 4]);
        }
    }
    lemma_first_at(q, '&', 0, q.len() as int);
    let f = text::fields(q, seq!['&']);
    assert(f =~= seq![q]);
    assert(f.last() == q);
    assert(q[3] == '=');
    assert forall|k: int| 0 <= k < 3 implies #[trigger] q[k] != '=' by {
        assert(q[k] == "key="@[k]);
    }
    lemma_first_at(q, '=', 0, 3);
    assert(q.take(3) =~= "key"@);
    assert(q.skip(4) =~= key);
    law_plain_text_stays("key"@);
}

/// The call of an agent reaches the dashboard as a report, with the key as it stands for itself in
/// a query. A key with an ampersand, a percent sign or a plus sign does not arrive as it is.
pub proof fn law_report_address(authority: Seq<char>, key: Seq<char>)
    requires
        lacks(authority, '/'),
        authority.len() > 0,
        lacks(key, '&'),
    ensures
        http::url_parts(agent::report_url("http://"@ + authority, key)) matches Some(p)
            && http::path_of(p.2) == "/api/report"@ && http::query_of(p.2, "key"@) == Some(
            url::plain(key),
        ),
        lacks(key, '%') && lacks(key, '+') ==> url::plain(key) == key,
{
    let server = "http://"@ + authority;
    assert(server.last() == authority.last());
    assert(authority[authority.len() - 1] != '/');
    lemma_not_in(server.last(), '/');
    assert(text::strip_end(server, seq!['/']) == server);
    reveal_strlit("/api/report");
    reveal_strlit("/api/report?key=");
    reveal_strlit("key=");
    let path = "/api/report"@;
    let query = "key="@ + key;
    let target = path + seq!['?'] + query;
    assert("/api/report?key="@ =~= path + seq!['?'] + "key="@);
    assert(agent::report_url(server, key) =~= "http://"@ + authority + target);
    assert(target[0] == '/');
    lemma_url_path(authority, target);
    lemma_target(path, query);
    lemma_key(key);
    assert(http::query_of(target, "key"@) == url::assigned(
        text::fields(query, seq!['&']),
        "key"@,
    ));
    if lacks(key, '%') && lacks(key, '+') {
        law_plain_text_stays(key);
    }
}

/// An encoded name holds no question mark.
proof fn lemma_encoded_chars(b: Seq<u8>, i: int)
    requires
        0 <= i < url::escapes(b).len(),
    ensures
        url::escapes(b)[i] != '?',
    decreases b.len(),
{
    if b.len() > 0 {
        let h = url::escape(b[0]);
        if i < h.len() {
            assert(url::escapes(b)[i] == h[i]);
        } else {
            assert(url::escapes(b)[i] == url::escapes(b.skip(1))[i - h.len()]);
            lemma_encoded_chars(b.skip(1), i - h.len());
        }
    }
}

/// The path of a host.
pub open spec fn host_path(name: Seq<char>) -> Seq<char> {
    serve::HOSTS@ + url::encoded(name)
}

/// The launcher's call for the removal of a host reaches the dashboard as the removal of that host,
/// whatever its name, with the launcher's key.
pub proof fn law_delete_address(w: launcher::LauncherView, name: Seq<char>)
    requires
        lacks(text::trimmed(w.key), '&'),
    ensures
        http::url_parts(launcher::delete_call(w, name).url) matches Some(p) && http::path_of(p.2)
            == host_path(name) && http::query_of(p.2, "key"@) == Some(
            url::plain(text::trimmed(w.key)),
        ),
        text::begins(host_path(name), serve::HOSTS@),
        url::plain_name(host_path(name).skip(serve::HOSTS@.len() as int)) == name,
{
    let key = text::trimmed(w.key);
    let d = digits::decimal(launcher::port_of(w.listen));
    let authority = "127.0.0.1:"@ + d;
    reveal_strlit("http://127.0.0.1:");
    reveal_strlit("http://");
    reveal_strlit("127.0.0.1:");
    reveal_strlit("/api/hosts/");
    reveal_strlit("?key=");
    reveal_strlit("key=");
    digits::lemma_decimal(launcher::port_of(w.listen));
    assert("127.0.0.1:"@.len() == 10);
    assert forall|i: int| 0 <= i < authority.len() implies #[trigger] authority[i] != '/' by {
        if i < 10 {
            assert(authority[i] == "127.0.0.1:"@[i]);
        } else {
            assert(authority[i] == d[i - 10]);
            assert(digits::is_digit(d[i - 10], 10));
        }
    }
    let c = url::encoded(name);
    let path = "/api/hosts/"@ + c;
    let query = "key="@ + key;
    let target = path + seq!['?'] + query;
    assert("?key="@ =~= seq!['?'] + "key="@);
    assert("http://127.0.0.1:"@ =~= "http://"@ + "127.0.0.1:"@);
    assert(launcher::delete_call(w, name).url =~= "http://"@ + authority + target);
    assert("/api/hosts/"@.len() == 11);
    assert forall|i: int| 0 <= i < path.len() implies #[trigger] path[i] != '?' by {
        if i < 11 {
            assert(path[i] == "/api/hosts/"@[i]);
        } else {
            assert(path[i] == c[i - 11]);
            lemma_encoded_chars(utf8::encode_utf8(name), i - 11);
        }
    }
    assert(target[0] == '/');
    lemma_url_path(authority, target);
    lemma_target(path, query);
    lemma_key(key);
    assert(http::query_of(target, "key"@) == url::assigned(
        text::fields(query, seq!['&']),
        "key"@,
    ));
    assert(path.take(11) =~= "/api/hosts/"@);
    assert(path.skip(11) =~= c);
    url::law_name_decode_undoes_encode(name);
}

/// A request with the key for the removal of a host removes the hosts of that name, whatever the
/// name, with all that was heard of them. The answer says whether there was any.
pub proof fn law_delete_removes_the_host(
    st: serve::StateView,
    page: Seq<char>,
    r: serve::RequestView,
    t: nat,
    name: Seq<char>,
)
    requires
        r.method == "DELETE"@,
        r.path == host_path(name),
        r.key == st.base.key,
    ensures
        ({
            let (after, a) = serve::handled(st, page, r, t);
            &&& after == serve::StateView {
                vps: serve::hosts_without(st.vps, name),
                traffic: st.traffic.remove(name),
                nodes: st.nodes.remove(name),
                ..st
            }
            &&& forall|i: int| 0 <= i < after.vps.len() ==> (#[trigger] after.vps[i]).name != name
            &&& a matches serve::ActionView::Save { removed, .. } && removed == Some(
                exists|i: int| 0 <= i < st.vps.len() && (#[trigger] st.vps[i]).name == name,
            )
        }),
{
    laws::lemma_methods();
    let p = host_path(name);
    let n = serve::HOSTS@.len() as int;
    assert(p.take(n) =~= serve::HOSTS@);
    assert(p.skip(n) =~= url::encoded(name));
    url::law_name_decode_undoes_encode(name);
    laws::law_remove(st.vps, name);
    laws::lemma_removed(st.vps, name);
}

// -------------------------------------------------------------------- addresses

/// An address is taken apart into the parts that it was put together from: a host, a port that is
/// 80 where none is given, and a path that is the root where none is given.
pub proof fn law_address_parts(host: Seq<char>, port: nat, path: Seq<char>)
    requires
        lacks(host, '/'),
        port <= 65535,
        path.len() > 0 ==> path[0] == '/',
    ensures
        ({
            let p = if path.len() > 0 {
                path
            } else {
                seq!['/']
            };
            &&& http::url_parts("http://"@ + (host + seq![':'] + digits::decimal(port)) + path)
                == Some((host, port, p))
            &&& lacks(host, ':') ==> http::url_parts("http://"@ + host + path) == Some(
                (host, 80nat, p),
            )
        }),
{
    let d = digits::decimal(port);
    let a = host + seq![':'] + d;
    digits::lemma_decimal(port);
    digits::law_unsigned_written_reads_back(port, 65535);
    assert forall|i: int| 0 <= i < d.len() implies #[trigger] d[i] != '/' && d[i] != ':' by {
        assert(digits::is_digit(d[i], 10));
    }
    assert forall|i: int| 0 <= i < a.len() implies #[trigger] a[i] != '/' by {
        if i < host.len() {
            assert(a[i] == host[i]);
        } else if i > host.len() {
            assert(a[i] == d[i - host.len() - 1]);
        }
    }
    let c = host.len() as int;
    assert(a[c] == ':');
    assert forall|i: int| c < i < a.len() implies #[trigger] a[i] != ':' by {
        assert(a[i] == d[i - c - 1]);
    }
    text::lemma_last_of(a, ':', a.len() as int);
    assert(text::last_of(a, ':', a.len() as int) == c);
    assert(a.take(c) =~= host);
    assert(a.skip(c + 1) =~= d);
    lemma_authority(a, path);
    if lacks(host, ':') {
        text::lemma_last_of(host, ':', host.len() as int);
        lemma_authority(host, path);
    }
}

/// The authority of an address, and what follows it.
proof fn lemma_authority(a: Seq<char>, path: Seq<char>)
    requires
        lacks(a, '/'),
        path.len() > 0 ==> path[0] == '/',
    ensures
        ({
            let rest = a + path;
            let i = text::first_in(rest, seq!['/'], 0);
            &&& text::after("http://"@ + a + path, "http://"@) == Some(rest)
            &&& i == a.len()
            &&& rest.take(i) == a
            &&& i < rest.len() <==> path.len() > 0
            &&& rest.skip(i) == path
            &&& "/"@ == seq!['/']
        }),
{
    let h = "http://"@;
    let s = h + a + path;
    let rest = a + path;
    let n = a.len() as int;
    reveal_strlit("/");
    assert("/"@ =~= seq!['/']);
    assert(s.take(h.len() as int) =~= h);
    assert(s.skip(h.len() as int) =~= rest);
    assert forall|k: int| 0 <= k < n implies #[trigger] rest[k] != '/' by {
        assert(rest[k] == a[k]);
    }
    if path.len() > 0 {
        assert(rest[n] == '/');
    }
    lemma_first_at(rest, '/', 0, n);
    assert(rest.take(n) =~= a);
    assert(rest.skip(n) =~= path);
}

/// An address that does not start as one of plain HTTP does is refused.
pub proof fn law_other_addresses(url: Seq<char>)
    requires
        forall|rest: Seq<char>| url != "http://"@ + rest,
    ensures
        http::url_parts(url) is None,
{
    let h = "http://"@;
    if text::begins(url, h) {
        let rest = url.skip(h.len() as int);
        assert(url =~= url.take(h.len() as int) + rest);
        assert(url == h + rest);
    }
}

// ---------------------------------------------------------------- percent signs

/// A percent sign and the two hexadecimal digits of a byte, in either case, stand for the byte; a
/// plus sign stands for a blank where it does; and every other byte stands for itself.
pub proof fn law_decoding(c: u8, high: bool, low: bool, rest: Seq<u8>, plus: bool)
    ensures
        ({
            let h = digits::hex_digit(c as nat / 16, high) as u8;
            let l = digits::hex_digit(c as nat % 16, low) as u8;
            url::decoded(seq![('%' as u8), h, l] + rest, plus) == seq![c] + url::decoded(rest, plus)
        }),
        url::decoded(seq![('+' as u8)] + rest, true) == seq![(' ' as u8)] + url::decoded(
            rest,
            true,
        ),
        url::decoded(seq![('+' as u8)] + rest, false) == seq![('+' as u8)] + url::decoded(
            rest,
            false,
        ),
        c != '%' as u8 && c != '+' as u8 ==> url::decoded(seq![c] + rest, plus) == seq![c]
            + url::decoded(rest, plus),
{
    let x = digits::hex_digit(c as nat / 16, high);
    let y = digits::hex_digit(c as nat % 16, low);
    let h = x as u8;
    let l = y as u8;
    digits::lemma_hex_digit(c as nat / 16, high);
    digits::lemma_hex_digit(c as nat % 16, low);
    lemma_narrow(x);
    lemma_narrow(y);
    let s = seq![('%' as u8), h, l] + rest;
    assert(s[0] == 0x25 && s[1] == h && s[2] == l);
    assert(url::hex_value(s[1]) == Some(c as nat / 16));
    assert(url::hex_value(s[2]) == Some(c as nat % 16));
    assert(s.skip(3) =~= rest);
    let p = seq![('+' as u8)] + rest;
    assert(p.skip(1) =~= rest);
    assert(p[0] == 0x2b);
    let o = seq![c] + rest;
    assert(o.skip(1) =~= rest);
    assert(o[0] == c);
}

proof fn lemma_narrow(x: char)
    requires
        digits::is_digit(x, 16),
    ensures
        x as u8 as char == x,
{
}

/// A percent sign that is not followed by two hexadecimal digits stands for itself.
pub proof fn law_lone_percent_sign(rest: Seq<u8>, plus: bool)
    requires
        rest.len() < 2 || digits::digit_of(rest[0] as char) is None || digits::digit_of(
            rest[1] as char,
        ) is None,
    ensures
        url::decoded(seq![('%' as u8)] + rest, plus) == seq![('%' as u8)] + url::decoded(
            rest,
            plus,
        ),
{
    let s = seq![('%' as u8)] + rest;
    assert(s.skip(1) =~= rest);
    if rest.len() >= 2 {
        assert(s[1] == rest[0] && s[2] == rest[1]);
    }
}

// --------------------------------------------------------------------- queries

/// An encoded text holds none of the characters that separate the parts of a query.
proof fn lemma_encoded_free(b: Seq<u8>, i: int)
    requires
        0 <= i < url::escapes(b).len(),
    ensures
        url::escapes(b)[i] != '=',
        url::escapes(b)[i] != '&',
        url::escapes(b)[i] != '?',
    decreases b.len(),
{
    if b.len() > 0 {
        let h = url::escape(b[0]);
        if i < h.len() {
            assert(url::escapes(b)[i] == h[i]);
        } else {
            assert(url::escapes(b)[i] == url::escapes(b.skip(1))[i - h.len()]);
            lemma_encoded_free(b.skip(1), i - h.len());
        }
    }
}

/// A name and a value as a part of a query.
pub open spec fn query_part(k: Seq<char>, v: Seq<char>) -> Seq<char> {
    url::encoded(k) + seq!['='] + url::encoded(v)
}

proof fn lemma_query_part(k: Seq<char>, v: Seq<char>)
    ensures
        url::assignment(query_part(k, v)) == Some((k, v)),
        form_laws::free_of(query_part(k, v), seq!['&']),
{
    let x = url::encoded(k);
    let y = url::encoded(v);
    let s = query_part(k, v);
    let n = x.len() as int;
    assert(s[n] == '=');
    assert forall|i: int| 0 <= i < n implies #[trigger] s[i] != '=' by {
        assert(s[i] == x[i]);
        lemma_encoded_free(utf8::encode_utf8(k), i);
    }
    lemma_first_at(s, '=', 0, n);
    assert(s.take(n) =~= x);
    assert(s.skip(n + 1) =~= y);
    url::law_decode_undoes_encode(k);
    url::law_decode_undoes_encode(v);
    assert forall|i: int| 0 <= i < s.len() implies !seq!['&'].contains(#[trigger] s[i]) by {
        if i < n {
            assert(s[i] == x[i]);
            lemma_encoded_free(utf8::encode_utf8(k), i);
        } else if i > n {
            assert(s[i] == y[i - n - 1]);
            lemma_encoded_free(utf8::encode_utf8(v), i - n - 1);
        }
        lemma_not_in(s[i], '&');
    }
}

/// A query gives each name the value that the last part with the name encodes, whatever characters
/// they hold; a target without a query gives none.
pub proof fn law_query(path: Seq<char>, q: Seq<char>, k: Seq<char>, v: Seq<char>, name: Seq<char>)
    requires
        lacks(path, '?'),
    ensures
        http::path_of(path) == path,
        http::query_of(path, name) is None,
        http::path_of(path + seq!['?'] + q) == path,
        http::query_of(path + seq!['?'] + query_part(k, v), name) == (if name == k {
            Some(v)
        } else {
            None
        }),
        http::query_of(path + seq!['?'] + (q + seq!['&'] + query_part(k, v)), name) == (if name
            == k {
            Some(v)
        } else {
            http::query_of(path + seq!['?'] + q, name)
        }),
{
    let p = query_part(k, v);
    let set = seq!['&'];
    lemma_first_at(path, '?', 0, path.len() as int);
    assert(path.take(path.len() as int) =~= path);
    lemma_target(path, q);
    lemma_target(path, p);
    lemma_target(path, q + set + p);
    lemma_query_part(k, v);
    assert(set[0] == '&');
    form_laws::lemma_field_appended(q, '&', p, set);
    form_laws::lemma_one_field(p, set, 0);
    let f = text::fields(q, set);
    assert(f.push(p).drop_last() =~= f);
    let one = text::fields(p, set);
    assert(one =~= seq![p]);
    assert(one.drop_last() =~= Seq::<Seq<char>>::empty());
    assert(one.last() == p);
    assert(url::assigned(one.drop_last(), name) is None);
}


// --------------------------------------------------------------------- encoding

proof fn lemma_escapes_join(a: Seq<u8>, b: Seq<u8>)
    ensures
        url::escapes(a + b) == url::escapes(a) + url::escapes(b),
    decreases a.len(),
{
    if a.len() == 0 {
        assert(a + b =~= b);
        assert(url::escapes(a) + url::escapes(b) =~= url::escapes(b));
    } else {
        assert((a + b).skip(1) =~= a.skip(1) + b);
        lemma_escapes_join(a.skip(1), b);
        assert(url::escape(a[0]) + (url::escapes(a.skip(1)) + url::escapes(b)) =~= url::escapes(a)
            + url::escapes(b));
    }
}

/// A text is encoded character by character.
pub proof fn law_encoding_in_turn(a: Seq<char>, b: Seq<char>)
    ensures
        url::encoded(a + b) == url::encoded(a) + url::encoded(b),
{
    bytes::lemma_encode_concat(a, b);
    lemma_escapes_join(utf8::encode_utf8(a), utf8::encode_utf8(b));
}

/// Whether a character stands for itself in an encoded text.
pub open spec fn stands_for_itself(c: char) -> bool {
    'A' <= c <= 'Z' || 'a' <= c <= 'z' || '0' <= c <= '9' || c == '-' || c == '_' || c == '.' || c
        == '~'
}

/// Letters, digits and four marks are encoded as they are, and every other ASCII character as a
/// percent sign with the two capital hexadecimal digits of its code.
pub proof fn law_encoded_character(c: char)
    requires
        c <= '\u{7f}',
    ensures
        stands_for_itself(c) ==> url::encoded(seq![c]) == seq![c],
        !stands_for_itself(c) ==> url::encoded(seq![c]) == seq![
            '%',
            digits::hex_digit(c as u32 as nat / 16, true),
            digits::hex_digit(c as u32 as nat % 16, true),
        ],
{
    let e = utf8::encode_utf8(seq![c]);
    assert(e.subrange(0, e.len() as int) =~= e);
    roundtrip::lemma_ascii(e, 0, c);
    assert(e == seq![c as u8]);
    assert(e.skip(1) =~= Seq::<u8>::empty());
    assert(url::escapes(e) =~= url::escape(e[0]) + url::escapes(e.skip(1)));
    assert(url::escapes(e.skip(1)) =~= Seq::<char>::empty());
    assert(url::escapes(e) =~= url::escape(e[0]));
    lemma_one_byte(c);
}

proof fn lemma_one_byte(c: char)
    requires
        c <= '\u{7f}',
    ensures
        url::unreserved(c as u8) == stands_for_itself(c),
        stands_for_itself(c) ==> url::escape(c as u8) == seq![c],
        !stands_for_itself(c) ==> url::escape(c as u8) == seq![
            '%',
            digits::hex_digit(c as u32 as nat / 16, true),
            digits::hex_digit(c as u32 as nat % 16, true),
        ],
{
}


/// An address with a port that is no number has the usual one.
pub proof fn law_address_without_a_port(
    host: Seq<char>,
    a: Seq<char>,
    c: char,
    b: Seq<char>,
    path: Seq<char>,
)
    requires
        lacks(host, '/'),
        lacks(a + seq![c] + b, '/'),
        lacks(a + seq![c] + b, ':'),
        c < '0' || '9' < c,
        a.len() == 0 ==> c != '+' && c != '-',
        path.len() > 0 ==> path[0] == '/',
    ensures
        http::url_parts("http://"@ + (host + seq![':'] + (a + seq![c] + b)) + path) == Some(
            (
                host,
                80nat,
                if path.len() > 0 {
                    path
                } else {
                    seq!['/']
                },
            ),
        ),
{
    let d = a + seq![c] + b;
    let s = host + seq![':'] + d;
    let n = host.len() as int;
    digits::law_other_characters_are_refused(a, c, b, 65535);
    assert(s[n] == ':');
    assert forall|i: int| 0 <= i < s.len() implies #[trigger] s[i] != '/' by {
        if i < n {
            assert(s[i] == host[i]);
        } else if i > n {
            assert(s[i] == d[i - n - 1]);
        }
    }
    assert forall|i: int| n < i < s.len() implies #[trigger] s[i] != ':' by {
        assert(s[i] == d[i - n - 1]);
    }
    text::lemma_last_of(s, ':', s.len() as int);
    assert(text::last_of(s, ':', s.len() as int) == n);
    assert(s.take(n) =~= host);
    assert(s.skip(n + 1) =~= d);
    lemma_authority(s, path);
}

/// A part of a query without an equals sign gives its name the empty value, and an empty part gives
/// nothing.
pub proof fn law_query_without_values(path: Seq<char>, q: Seq<char>, k: Seq<char>, name: Seq<char>)
    requires
        lacks(path, '?'),
        url::encoded(k).len() > 0,
    ensures
        http::query_of(path + seq!['?'] + (q + seq!['&'] + url::encoded(k)), name) == (if name == k {
            Some(Seq::empty())
        } else {
            http::query_of(path + seq!['?'] + q, name)
        }),
        http::query_of(path + seq!['?'] + (q + seq!['&']), name) == http::query_of(
            path + seq!['?'] + q,
            name,
        ),
{
    let p = url::encoded(k);
    let set = seq!['&'];
    let e = Seq::<char>::empty();
    lemma_target(path, q);
    lemma_target(path, q + set + p);
    lemma_target(path, q + set);
    assert(q + set + e =~= q + set);
    assert(set[0] == '&');
    assert forall|i: int| 0 <= i < p.len() implies !set.contains(#[trigger] p[i]) && p[i] != '=' by {
        lemma_encoded_free(utf8::encode_utf8(k), i);
        lemma_not_in(p[i], '&');
    }
    lemma_first_at(p, '=', 0, p.len() as int);
    url::law_decode_undoes_encode(k);
    form_laws::lemma_field_appended(q, '&', p, set);
    form_laws::lemma_field_appended(q, '&', e, set);
    let f = text::fields(q, set);
    assert(f.push(p).drop_last() =~= f);
    assert(f.push(e).drop_last() =~= f);
    assert(url::assignment(e) is None);
}

} // verus!
