//! What one side of an HTTP exchange sends, the other side reads.

use vstd::prelude::*;
use vstd::utf8;
use crate::bytes;
use crate::digits;
use crate::http;
use crate::table;
use crate::text;

verus! {

// ---------------------------------------------------------------------- lines

/// A text cut into lines, each with its line end.
pub open spec fn cut(s: Seq<char>) -> Seq<Seq<char>>
    decreases s.len(),
{
    let i = text::first_in(s, seq!['\n'], 0);
    if s.len() == 0 {
        Seq::empty()
    } else if 0 <= i < s.len() {
        seq![s.take(i + 1)] + cut(s.skip(i + 1))
    } else {
        seq![s]
    }
}

/// Whether a text stands on one line.
pub open spec fn one_line(s: Seq<char>) -> bool {
    forall|i: int| 0 <= i < s.len() ==> #[trigger] s[i] != '\n'
}

/// A line with its end.
pub open spec fn ended(s: Seq<char>) -> Seq<char> {
    s + "\r\n"@
}

proof fn lemma_first_is(s: Seq<char>, c: char, i: int, j: int)
    requires
        0 <= i <= j < s.len(),
        forall|k: int| i <= k < j ==> #[trigger] s[k] != c,
        s[j] == c,
    ensures
        text::first_in(s, seq![c], i) == j,
    decreases j - i,
{
    assert(seq![c][0] == c);
    if i < j {
        assert(!seq![c].contains(s[i])) by {
            if seq![c].contains(s[i]) {
                let w = choose|w: int| 0 <= w < seq![c].len() && seq![c][w] == s[i];
                assert(s[i] == c);
            }
        }
        lemma_first_is(s, c, i + 1, j);
    }
}

/// The first line of a text is cut off.
proof fn lemma_cut(a: Seq<char>, rest: Seq<char>)
    requires
        one_line(a),
    ensures
        cut(ended(a) + rest) == seq![ended(a)] + cut(rest),
{
    reveal_strlit("\r\n");
    let l = ended(a);
    let s = l + rest;
    let j = (l.len() - 1) as int;
    assert(l.len() == a.len() + 2);
    assert(s[j] == '\n');
    assert forall|k: int| 0 <= k < j implies #[trigger] s[k] != '\n' by {
        if k < a.len() {
            assert(s[k] == a[k]);
        } else {
            assert(s[k] == '\r');
        }
    }
    lemma_first_is(s, '\n', 0, j);
    assert(s.take(j + 1) =~= l);
    assert(s.skip(j + 1) =~= rest);
}

/// A line loses its end.
proof fn lemma_bare(a: Seq<char>)
    requires
        a.len() > 0 ==> !text::is_space(a.last()) || a.last() == ' ',
    ensures
        http::bare(ended(a)) == a,
{
    reveal_strlit("\r\n");
    let set = "\r\n"@;
    let s = ended(a);
    assert(set[0] == '\r' && set[1] == '\n' && set.len() == 2);
    let t = s.drop_last();
    assert(s.last() == '\n');
    assert(set.contains('\n') && set.contains('\r'));
    assert(t.last() == '\r');
    assert(t.drop_last() =~= a);
    if a.len() > 0 {
        assert(!set.contains(a.last())) by {
            if set.contains(a.last()) {
                let w = choose|w: int| 0 <= w < set.len() && set[w] == a.last();
                assert(a.last() == '\r' || a.last() == '\n');
            }
        }
    }
    reveal_with_fuel(text::strip_end, 4);
}

/// A blank before a text is trimmed off.
proof fn lemma_blank_trimmed(v: Seq<char>)
    ensures
        text::trimmed(seq![' '] + v) == text::trimmed(v),
{
    let s = seq![' '] + v;
    assert(s[0] == ' ');
    assert(s.skip(1) =~= v);
}

/// Whether a text can be the name of a header: it has no colon, no line break and no white space
/// around it.
pub open spec fn header_name(k: Seq<char>) -> bool {
    &&& text::trimmed(k) == k
    &&& k.len() > 0
    &&& forall|i: int| 0 <= i < k.len() ==> #[trigger] k[i] != ':' && k[i] != '\n'
}

/// Whether a text can be the value of a header: it has no line break and no white space around it.
pub open spec fn header_value(v: Seq<char>) -> bool {
    text::trimmed(v) == v && one_line(v)
}

/// A header as it is sent, without the line end.
pub open spec fn header_line(k: Seq<char>, v: Seq<char>) -> Seq<char> {
    k + ": "@ + v
}

/// A text that is not changed by trimming does not end with white space.
proof fn lemma_trimmed_end(v: Seq<char>)
    requires
        text::trimmed(v) == v,
        v.len() > 0,
    ensures
        !text::is_space(v.last()),
{
    lemma_trim_start(v);
    lemma_trim_end(text::trim_start(v));
}

proof fn lemma_trim_start(s: Seq<char>)
    ensures
        text::trim_start(s).len() <= s.len(),
    decreases s.len(),
{
    if s.len() > 0 && text::is_space(s[0]) {
        lemma_trim_start(s.skip(1));
    }
}

proof fn lemma_trim_end(s: Seq<char>)
    ensures
        text::trim_end(s).len() <= s.len(),
        text::trim_end(s).len() > 0 ==> !text::is_space(text::trim_end(s).last()),
    decreases s.len(),
{
    if s.len() > 0 && text::is_space(s.last()) {
        lemma_trim_end(s.drop_last());
    }
}

/// A header line is read as the name and the value.
proof fn lemma_header_line(k: Seq<char>, v: Seq<char>)
    requires
        header_name(k),
        header_value(v),
    ensures
        one_line(header_line(k, v)),
        http::bare(ended(header_line(k, v))) == header_line(k, v),
        header_line(k, v).len() > 0,
        http::field_of(header_line(k, v)) == Some((k, v)),
{
    reveal_strlit(": ");
    let s = header_line(k, v);
    let n = k.len() as int;
    assert(": "@.len() == 2 && ": "@[0] == ':' && ": "@[1] == ' ');
    assert(s.len() == n + 2 + v.len());
    assert forall|i: int| 0 <= i < n implies #[trigger] s[i] == k[i] by {}
    assert(s[n] == ':');
    assert(s[n + 1] == ' ');
    assert forall|i: int| 0 <= i < s.len() implies #[trigger] s[i] != '\n' by {
        if i < n {
            assert(s[i] == k[i]);
        } else if i >= n + 2 {
            assert(s[i] == v[i - n - 2]);
        }
    }
    if v.len() > 0 {
        lemma_trimmed_end(v);
        assert(s.last() == v.last());
    } else {
        assert(s.last() == ' ');
    }
    lemma_bare(s);
    lemma_first_is(s, ':', 0, n);
    assert(s.take(n) =~= k);
    assert(s.skip(n + 1) =~= seq![' '] + v);
    lemma_blank_trimmed(v);
}

// ---------------------------------------------------------------------- words

/// Whether a text is one word.
pub open spec fn one_word(a: Seq<char>) -> bool {
    a.len() > 0 && forall|i: int| 0 <= i < a.len() ==> !text::is_space(#[trigger] a[i])
}

proof fn lemma_word_end(s: Seq<char>, i: int, j: int)
    requires
        0 <= i <= j < s.len(),
        forall|k: int| i <= k < j ==> !text::is_space(#[trigger] s[k]),
        text::is_space(s[j]),
    ensures
        text::word_end(s, i) == j,
    decreases j - i,
{
    if i < j {
        lemma_word_end(s, i + 1, j);
    }
}

/// The first word of a text comes first.
proof fn lemma_first_word(a: Seq<char>, rest: Seq<char>)
    requires
        one_word(a),
    ensures
        text::words(a + seq![' '] + rest) == seq![a] + text::words(rest),
{
    let s = a + seq![' '] + rest;
    let n = a.len() as int;
    assert(s[0] == a[0]);
    assert forall|k: int| 0 <= k < n implies !text::is_space(#[trigger] s[k]) by {
        assert(s[k] == a[k]);
    }
    assert(s[n] == ' ');
    lemma_word_end(s, 0, n);
    assert(s.take(n) =~= a);
    let t = s.skip(n);
    assert(t[0] == ' ');
    assert(t.skip(1) =~= rest);
    assert(text::trim_start(t) == text::trim_start(rest));
    lemma_words_trimmed(t, rest);
}

/// Texts that agree but for white space before them have the same words.
proof fn lemma_words_trimmed(s: Seq<char>, t: Seq<char>)
    requires
        text::trim_start(s) == text::trim_start(t),
    ensures
        text::words(s) == text::words(t),
{
    lemma_trim_start(s);
    lemma_trim_start(t);
    lemma_word_end_bounds(text::trim_start(s), 0);
}

proof fn lemma_word_end_bounds(s: Seq<char>, i: int)
    requires
        0 <= i <= s.len(),
    ensures
        i <= text::word_end(s, i) <= s.len(),
    decreases s.len() - i,
{
    if i < s.len() && !text::is_space(s[i]) {
        lemma_word_end_bounds(s, i + 1);
    }
}

// --------------------------------------------------------------------- answers

/// The reading of a reply after some lines.
pub open spec fn read_lines(r: http::ReadingView, ls: Seq<Seq<char>>) -> Result<
    http::ReadingView,
    Seq<char>,
>
    decreases ls.len(),
{
    if ls.len() == 0 {
        Ok(r)
    } else {
        match http::after_line(r, Some(ls[0])) {
            Ok(n) => read_lines(n, ls.skip(1)),
            Err(e) => Err(e),
        }
    }
}

/// The headers of an answer.
pub open spec fn answer_headers(ctype: Seq<char>, body: Seq<char>) -> Seq<
    (Seq<char>, Seq<char>),
> {
    seq![
        ("Content-Type"@, ctype),
        ("Content-Length"@, digits::decimal(utf8::encode_utf8(body).len())),
        ("Cache-Control"@, "no-store"@),
        ("Connection"@, "close"@),
    ]
}

proof fn lemma_step(r: http::ReadingView, l: Seq<char>, rest: Seq<Seq<char>>)
    ensures
        read_lines(r, seq![l] + rest) == (match http::after_line(r, Some(l)) {
            Ok(n) => read_lines(n, rest),
            Err(e) => Err(e),
        }),
{
    let ls = seq![l] + rest;
    assert(ls[0] == l);
    assert(ls.skip(1) =~= rest);
}

/// A text in which every character can be looked at, with nothing around it to trim.
proof fn lemma_plain_value(v: Seq<char>)
    requires
        v.len() > 0,
        !text::is_space(v[0]),
        !text::is_space(v.last()),
        one_line(v),
    ensures
        header_value(v),
{
}

proof fn lemma_decimal_value(n: nat)
    ensures
        header_value(digits::decimal(n)),
        one_word(digits::decimal(n)),
{
    let s = digits::decimal(n);
    digits::lemma_decimal(n);
    assert(digits::is_digit(s[0], 10) && digits::is_digit(s[s.len() - 1], 10));
    assert forall|i: int| 0 <= i < s.len() implies #[trigger] s[i] != '\n' by {
        assert(digits::is_digit(s[i], 10));
    }
    assert forall|i: int| 0 <= i < s.len() implies !text::is_space(#[trigger] s[i]) by {
        assert(digits::is_digit(s[i], 10));
    }
    lemma_plain_value(s);
}

/// The names and values of the headers of an answer can be sent.
proof fn lemma_answer_names()
    ensures
        header_name("Content-Type"@),
        header_name("Content-Length"@),
        header_name("Cache-Control"@),
        header_name("Connection"@),
        header_value("no-store"@),
        header_value("close"@),
{
    reveal_strlit("Content-Type");
    reveal_strlit("Content-Length");
    reveal_strlit("Cache-Control");
    reveal_strlit("Connection");
    reveal_strlit("no-store");
    reveal_strlit("close");
    lemma_plain_value("Content-Type"@);
    lemma_plain_value("Content-Length"@);
    lemma_plain_value("Cache-Control"@);
    lemma_plain_value("Connection"@);
    lemma_plain_value("no-store"@);
    lemma_plain_value("close"@);
}

/// The length of the body is found among the headers of an answer.
proof fn lemma_answer_length(ctype: Seq<char>, body: Seq<char>)
    requires
        utf8::encode_utf8(body).len() <= usize::MAX,
    ensures
        http::body_stage(answer_headers(ctype, body)) == http::Stage::Length(
            utf8::encode_utf8(body).len() as usize,
        ),
{
    let h = answer_headers(ctype, body);
    let n = utf8::encode_utf8(body).len();
    reveal_strlit("Content-Type");
    reveal_strlit("Content-Length");
    reveal_strlit("content-length");
    assert(text::lowered("Content-Type"@).len() == 12);
    assert(text::lowered("content-length"@).len() == 14);
    assert(text::lowered("Content-Length"@) =~= text::lowered("content-length"@));
    let g = h.skip(1);
    assert(g[0] == h[1]);
    assert(http::first_value(g, "content-length"@) == Some(h[1].1));
    assert(http::first_value(h, "content-length"@) == Some(h[1].1));
    digits::law_unsigned_written_reads_back(n, usize::MAX as nat);
}

/// The status line of an answer.
pub open spec fn status_line(status: nat) -> Seq<char> {
    "HTTP/1.1 "@ + digits::decimal(status) + " "@ + http::reason_of(status)
}

proof fn lemma_status_line(status: nat)
    requires
        status <= 65535,
    ensures
        one_line(status_line(status)),
        http::status_of(ended(status_line(status))) == Some(status),
{
    reveal_strlit("HTTP/1.1 ");
    reveal_strlit(" ");
    reveal_strlit("\r\n");
    reveal_strlit("OK");
    reveal_strlit("Bad Request");
    reveal_strlit("Forbidden");
    reveal_strlit("Not Found");
    reveal_strlit("Internal Server Error");
    let d = digits::decimal(status);
    let w = http::reason_of(status);
    let s = status_line(status);
    lemma_decimal_value(status);
    assert("HTTP/1.1 "@.len() == 9);
    assert forall|i: int| 0 <= i < s.len() implies #[trigger] s[i] != '\n' by {
        if i < 9 {
            assert(s[i] == "HTTP/1.1 "@[i]);
        } else if i < 9 + d.len() {
            assert(s[i] == d[i - 9]);
        } else if i == 9 + d.len() {
            assert(s[i] == ' ');
        } else {
            assert(s[i] == w[i - 10 - d.len()]);
        }
    }
    let p = "HTTP/1.1 "@.take(8);
    assert(one_word(p));
    let rest = w + "\r\n"@;
    assert(ended(s) =~= p + seq![' '] + (d + seq![' '] + rest));
    lemma_first_word(p, d + seq![' '] + rest);
    lemma_first_word(d, rest);
    let ws = text::words(ended(s));
    assert(ws =~= seq![p] + (seq![d] + text::words(rest)));
    assert(ws[1] == d);
    digits::law_unsigned_written_reads_back(status, 65535);
}

/// What stands before the body of an answer, line by line.
proof fn lemma_answer_lines(status: nat, ctype: Seq<char>, body: Seq<char>)
    ensures
        ({
            let h = answer_headers(ctype, body);
            http::answer_head(status, ctype, body) == ended(status_line(status)) + (ended(
                header_line(h[0].0, h[0].1),
            ) + (ended(header_line(h[1].0, h[1].1)) + (ended(header_line(h[2].0, h[2].1)) + (ended(
                header_line(h[3].0, h[3].1),
            ) + (ended(Seq::empty()) + Seq::empty())))))
        }),
{
    reveal_strlit("\r\n");
    reveal_strlit(": ");
    reveal_strlit("Content-Type");
    reveal_strlit("Content-Length");
    reveal_strlit("Cache-Control");
    reveal_strlit("Connection");
    reveal_strlit("no-store");
    reveal_strlit("close");
    reveal_strlit("\r\nContent-Type: ");
    reveal_strlit("\r\nContent-Length: ");
    reveal_strlit("\r\nCache-Control: no-store\r\nConnection: close\r\n\r\n");
    assert("\r\nContent-Type: "@ =~= "\r\n"@ + "Content-Type"@ + ": "@);
    assert("\r\nContent-Length: "@ =~= "\r\n"@ + "Content-Length"@ + ": "@);
    assert("\r\nCache-Control: no-store\r\nConnection: close\r\n\r\n"@ =~= "\r\n"@
        + "Cache-Control"@ + ": "@ + "no-store"@ + "\r\n"@ + "Connection"@ + ": "@ + "close"@
        + "\r\n"@ + "\r\n"@);
    let h = answer_headers(ctype, body);
    assert(http::answer_head(status, ctype, body) =~= ended(status_line(status)) + (ended(
        header_line(h[0].0, h[0].1),
    ) + (ended(header_line(h[1].0, h[1].1)) + (ended(header_line(h[2].0, h[2].1)) + (ended(
        header_line(h[3].0, h[3].1),
    ) + (ended(Seq::empty()) + Seq::empty()))))));
}

/// The reading of a reply after one more header.
proof fn lemma_header_read(r: http::ReadingView, k: Seq<char>, v: Seq<char>)
    requires
        r.stage is Headers,
        header_name(k),
        header_value(v),
    ensures
        http::after_line(r, Some(ended(header_line(k, v)))) == Ok::<http::ReadingView, Seq<char>>(
            http::ReadingView { headers: r.headers.push((k, v)), ..r },
        ),
{
    lemma_header_line(k, v);
}

/// A client reads what the server answers: the status, the headers and the body.
pub proof fn law_answer_is_read(status: nat, ctype: Seq<char>, body: Seq<char>)
    requires
        status <= 65535,
        header_value(ctype),
        utf8::encode_utf8(body).len() <= usize::MAX,
    ensures
        ({
            let r = http::ReadingView {
                stage: http::Stage::Length(utf8::encode_utf8(body).len() as usize),
                status,
                headers: answer_headers(ctype, body),
                body: Seq::empty(),
            };
            &&& read_lines(http::unread(), cut(http::answer_head(status, ctype, body))) == Ok::<
                http::ReadingView,
                Seq<char>,
            >(r)
            &&& http::after_bytes(r, utf8::encode_utf8(body)).stage is Done
            &&& http::reply_of(http::after_bytes(r, utf8::encode_utf8(body))) == (http::RespView {
                status,
                headers: answer_headers(ctype, body),
                body,
            })
        }),
{
    let h = answer_headers(ctype, body);
    let n = utf8::encode_utf8(body).len();
    lemma_answer_lines(status, ctype, body);
    lemma_answer_names();
    lemma_decimal_value(n);
    lemma_status_line(status);
    let l0 = header_line(h[0].0, h[0].1);
    let l1 = header_line(h[1].0, h[1].1);
    let l2 = header_line(h[2].0, h[2].1);
    let l3 = header_line(h[3].0, h[3].1);
    let e = Seq::<char>::empty();
    lemma_header_line(h[0].0, h[0].1);
    lemma_header_line(h[1].0, h[1].1);
    lemma_header_line(h[2].0, h[2].1);
    lemma_header_line(h[3].0, h[3].1);
    let t4 = ended(e) + e;
    let t3 = ended(l3) + t4;
    let t2 = ended(l2) + t3;
    let t1 = ended(l1) + t2;
    let t0 = ended(l0) + t1;
    lemma_cut(status_line(status), t0);
    lemma_cut(l0, t1);
    lemma_cut(l1, t2);
    lemma_cut(l2, t3);
    lemma_cut(l3, t4);
    lemma_cut(e, e);
    let r0 = http::unread();
    let r1 = http::ReadingView { stage: http::Stage::Headers, status, ..r0 };
    let r2 = http::ReadingView { headers: r1.headers.push(h[0]), ..r1 };
    let r3 = http::ReadingView { headers: r2.headers.push(h[1]), ..r2 };
    let r4 = http::ReadingView { headers: r3.headers.push(h[2]), ..r3 };
    let r5 = http::ReadingView { headers: r4.headers.push(h[3]), ..r4 };
    assert(r5.headers =~= h);
    lemma_step(r0, ended(status_line(status)), cut(t0));
    lemma_step(r1, ended(l0), cut(t1));
    lemma_step(r2, ended(l1), cut(t2));
    lemma_step(r3, ended(l2), cut(t3));
    lemma_step(r4, ended(l3), cut(t4));
    lemma_step(r5, ended(e), cut(e));
    lemma_header_read(r1, h[0].0, h[0].1);
    lemma_header_read(r2, h[1].0, h[1].1);
    lemma_header_read(r3, h[2].0, h[2].1);
    lemma_header_read(r4, h[3].0, h[3].1);
    lemma_bare(e);
    lemma_answer_length(ctype, body);
    let r6 = http::ReadingView { stage: http::Stage::Length(n as usize), ..r5 };
    assert(cut(e) =~= Seq::<Seq<char>>::empty());
    assert(read_lines(r6, cut(e)) == Ok::<http::ReadingView, Seq<char>>(r6));
    bytes::lemma_text_of_encoded(body);
    assert(r6.body + utf8::encode_utf8(body) =~= utf8::encode_utf8(body));
}

// -------------------------------------------------------------------- requests

/// The reading of a request after some lines.
pub open spec fn take_lines(r: http::IntakeView, ls: Seq<Seq<char>>) -> http::IntakeView
    decreases ls.len(),
{
    if ls.len() == 0 {
        r
    } else {
        take_lines(http::line_in(r, Some(ls[0])), ls.skip(1))
    }
}

proof fn lemma_take(r: http::IntakeView, l: Seq<char>, rest: Seq<Seq<char>>)
    ensures
        take_lines(r, seq![l] + rest) == take_lines(http::line_in(r, Some(l)), rest),
{
    let ls = seq![l] + rest;
    assert(ls[0] == l);
    assert(ls.skip(1) =~= rest);
}

proof fn lemma_take_both(r: http::IntakeView, a: Seq<Seq<char>>, b: Seq<Seq<char>>)
    ensures
        take_lines(r, a + b) == take_lines(take_lines(r, a), b),
    decreases a.len(),
{
    if a.len() == 0 {
        assert(a + b =~= b);
    } else {
        assert((a + b)[0] == a[0]);
        assert((a + b).skip(1) =~= a.skip(1) + b);
        lemma_take_both(http::line_in(r, Some(a[0])), a.skip(1), b);
    }
}

/// The lines of headers.
pub open spec fn lines_of(h: Seq<(Seq<char>, Seq<char>)>) -> Seq<Seq<char>> {
    h.map_values(|p: (Seq<char>, Seq<char>)| ended(header_line(p.0, p.1)))
}

/// Whether headers can be sent.
pub open spec fn sendable(h: Seq<(Seq<char>, Seq<char>)>) -> bool {
    forall|i: int| 0 <= i < h.len() ==> header_name((#[trigger] h[i]).0) && header_value(h[i].1)
}

/// What a server makes of headers, one after another: names in small letters, a later value in the
/// place of an earlier one.
pub open spec fn gathered(p: Seq<(Seq<char>, Seq<char>)>, h: Seq<(Seq<char>, Seq<char>)>) -> Seq<
    (Seq<char>, Seq<char>),
>
    decreases h.len(),
{
    if h.len() == 0 {
        p
    } else {
        table::set_pair(gathered(p, h.drop_last()), text::lowered(h.last().0), h.last().1)
    }
}

proof fn lemma_sendable_less(h: Seq<(Seq<char>, Seq<char>)>)
    requires
        sendable(h),
        h.len() > 0,
    ensures
        sendable(h.drop_last()),
        header_name(h.last().0),
        header_value(h.last().1),
{
    assert(h[h.len() - 1] == h.last());
    assert forall|i: int| 0 <= i < h.drop_last().len() implies header_name(
        (#[trigger] h.drop_last()[i]).0,
    ) && header_value(h.drop_last()[i].1) by {
        assert(h.drop_last()[i] == h[i]);
    }
}

proof fn lemma_cut_headers(h: Seq<(Seq<char>, Seq<char>)>, rest: Seq<char>)
    requires
        sendable(h),
    ensures
        cut(http::header_lines(h) + rest) == lines_of(h) + cut(rest),
    decreases h.len(),
{
    if h.len() == 0 {
        assert(http::header_lines(h) + rest =~= rest);
        assert(lines_of(h) + cut(rest) =~= cut(rest));
    } else {
        lemma_sendable_less(h);
        let g = h.drop_last();
        let l = header_line(h.last().0, h.last().1);
        lemma_header_line(h.last().0, h.last().1);
        assert(http::header_lines(h) + rest =~= http::header_lines(g) + (ended(l) + rest));
        lemma_cut_headers(g, ended(l) + rest);
        lemma_cut(l, rest);
        assert(lines_of(h) =~= lines_of(g) + seq![ended(l)]);
        assert(lines_of(g) + (seq![ended(l)] + cut(rest)) =~= lines_of(h) + cut(rest));
    }
}

proof fn lemma_take_headers(r: http::IntakeView, h: Seq<(Seq<char>, Seq<char>)>)
    requires
        r.step is Headers,
        sendable(h),
    ensures
        take_lines(r, lines_of(h)) == (http::IntakeView {
            headers: gathered(r.headers, h),
            ..r
        }),
    decreases h.len(),
{
    if h.len() == 0 {
        assert(lines_of(h) =~= Seq::<Seq<char>>::empty());
    } else {
        lemma_sendable_less(h);
        let g = h.drop_last();
        let l = header_line(h.last().0, h.last().1);
        lemma_header_line(h.last().0, h.last().1);
        lemma_take_headers(r, g);
        assert(lines_of(h) =~= lines_of(g) + seq![ended(l)]);
        lemma_take_both(r, lines_of(g), seq![ended(l)]);
        let m = http::IntakeView { headers: gathered(r.headers, g), ..r };
        lemma_take(m, ended(l), Seq::empty());
        assert(seq![ended(l)] + Seq::<Seq<char>>::empty() =~= seq![ended(l)]);
    }
}

/// All headers that a client sends: its own, the given ones and, where there is a body, its length.
pub open spec fn sent_headers(
    host: Seq<char>,
    port: nat,
    h: Seq<(Seq<char>, Seq<char>)>,
    body: Seq<char>,
) -> Seq<(Seq<char>, Seq<char>)> {
    seq![
        ("Host"@, host + ":"@ + digits::decimal(port)),
        ("Connection"@, "close"@),
        ("User-Agent"@, "vps-probe/2.0"@),
    ] + h + (if body.len() > 0 {
        seq![("Content-Length"@, digits::decimal(utf8::encode_utf8(body).len()))]
    } else {
        Seq::empty()
    })
}

/// What a client sends before the body.
pub open spec fn request_head(
    method: Seq<char>,
    host: Seq<char>,
    port: nat,
    path: Seq<char>,
    h: Seq<(Seq<char>, Seq<char>)>,
    body: Seq<char>,
) -> Seq<char> {
    ended(method + " "@ + path + " HTTP/1.1"@) + (http::header_lines(
        sent_headers(host, port, h, body),
    ) + ended(Seq::empty()))
}

proof fn lemma_header_lines_join(
    a: Seq<(Seq<char>, Seq<char>)>,
    b: Seq<(Seq<char>, Seq<char>)>,
)
    ensures
        http::header_lines(a + b) == http::header_lines(a) + http::header_lines(b),
    decreases b.len(),
{
    if b.len() == 0 {
        assert(a + b =~= a);
        assert(http::header_lines(a) + Seq::<char>::empty() =~= http::header_lines(a));
    } else {
        lemma_header_lines_join(a, b.drop_last());
        assert((a + b).drop_last() =~= a + b.drop_last());
        assert((a + b).last() == b.last());
        assert(http::header_lines(a + b) =~= http::header_lines(a) + http::header_lines(b));
    }
}

proof fn lemma_one_header(k: Seq<char>, v: Seq<char>)
    ensures
        http::header_lines(seq![(k, v)]) == ended(header_line(k, v)),
{
    let h = seq![(k, v)];
    assert(h.drop_last() =~= Seq::<(Seq<char>, Seq<char>)>::empty());
    assert(http::header_lines(h.drop_last()) =~= Seq::<char>::empty());
    assert(http::header_lines(h) =~= ended(header_line(k, v)));
}

/// The headers that every request has after the first, as they are sent.
spec fn own_rest() -> Seq<char> {
    ended(header_line("Connection"@, "close"@)) + ended(header_line("User-Agent"@, "vps-probe/2.0"@))
}

/// The length of a body as a header, where it is not empty.
spec fn length_header(body: Seq<char>) -> Seq<(Seq<char>, Seq<char>)> {
    if body.len() > 0 {
        seq![("Content-Length"@, digits::decimal(utf8::encode_utf8(body).len()))]
    } else {
        Seq::empty()
    }
}

/// The headers that every request has.
spec fn own_headers(host: Seq<char>, port: nat) -> Seq<(Seq<char>, Seq<char>)> {
    seq![
        ("Host"@, host + ":"@ + digits::decimal(port)),
        ("Connection"@, "close"@),
        ("User-Agent"@, "vps-probe/2.0"@),
    ]
}

proof fn lemma_fixed_texts()
    ensures
        " HTTP/1.1\r\nHost: "@ == " HTTP/1.1"@ + "\r\n"@ + ("Host"@ + ": "@),
        "\r\nConnection: close\r\nUser-Agent: vps-probe/2.0\r\n"@ == "\r\n"@ + own_rest(),
        "Content-Length: "@ == "Content-Length"@ + ": "@,
{
    reveal_strlit("\r\n");
    reveal_strlit(": ");
    reveal_strlit(" HTTP/1.1");
    reveal_strlit("Host");
    reveal_strlit("Connection");
    reveal_strlit("close");
    reveal_strlit("User-Agent");
    reveal_strlit("vps-probe/2.0");
    reveal_strlit("Content-Length");
    reveal_strlit("Content-Length: ");
    reveal_strlit(" HTTP/1.1\r\nHost: ");
    reveal_strlit("\r\nConnection: close\r\nUser-Agent: vps-probe/2.0\r\n");
    assert(" HTTP/1.1\r\nHost: "@ =~= " HTTP/1.1"@ + "\r\n"@ + ("Host"@ + ": "@));
    assert("\r\nConnection: close\r\nUser-Agent: vps-probe/2.0\r\n"@ =~= "\r\n"@ + own_rest());
    assert("Content-Length: "@ =~= "Content-Length"@ + ": "@);
}

proof fn lemma_own_lines(host: Seq<char>, port: nat)
    ensures
        http::header_lines(own_headers(host, port)) == ended(
            header_line("Host"@, host + ":"@ + digits::decimal(port)),
        ) + own_rest(),
{
    let hp = host + ":"@ + digits::decimal(port);
    let a = seq![("Host"@, hp)];
    let b = seq![("Connection"@, "close"@)];
    let c = seq![("User-Agent"@, "vps-probe/2.0"@)];
    lemma_one_header("Host"@, hp);
    lemma_one_header("Connection"@, "close"@);
    lemma_one_header("User-Agent"@, "vps-probe/2.0"@);
    lemma_header_lines_join(b, c);
    lemma_header_lines_join(a, b + c);
    assert(own_headers(host, port) =~= a + (b + c));
}

proof fn lemma_tail(h: Seq<(Seq<char>, Seq<char>)>, body: Seq<char>)
    requires
        !http::names(h, "content-length"@),
    ensures
        http::tail_text(h, Some(body)) == http::header_lines(length_header(body)) + ended(
            Seq::empty(),
        ) + body,
        body.len() == 0 ==> http::tail_text(h, None) == http::header_lines(length_header(body))
            + ended(Seq::empty()),
{
    let e = ended(Seq::empty());
    assert(e =~= "\r\n"@);
    if body.len() > 0 {
        let d = digits::decimal(utf8::encode_utf8(body).len());
        lemma_fixed_texts();
        lemma_one_header("Content-Length"@, d);
        assert("Content-Length"@ + ": "@ + d + "\r\n"@ =~= ended(header_line("Content-Length"@, d)));
    } else {
        assert(http::header_lines(length_header(body)) =~= Seq::<char>::empty());
        assert(Seq::<char>::empty() + e + body =~= "\r\n"@);
        assert(Seq::<char>::empty() + e =~= "\r\n"@);
    }
}

/// A request is its head and its body.
proof fn lemma_request_text(
    method: Seq<char>,
    host: Seq<char>,
    port: nat,
    path: Seq<char>,
    h: Seq<(Seq<char>, Seq<char>)>,
    body: Seq<char>,
)
    requires
        !http::names(h, "content-length"@),
    ensures
        http::request_text(method, host, port, path, h, Some(body)) == request_head(
            method,
            host,
            port,
            path,
            h,
            body,
        ) + body,
        body.len() == 0 ==> http::request_text(method, host, port, path, h, None) == request_head(
            method,
            host,
            port,
            path,
            h,
            body,
        ),
{
    let own = own_headers(host, port);
    let len = length_header(body);
    assert(sent_headers(host, port, h, body) == own + h + len);
    lemma_header_lines_join(own + h, len);
    lemma_header_lines_join(own, h);
    lemma_fixed_texts();
    lemma_own_lines(host, port);
    lemma_tail(h, body);
    lemma_shape(
        method,
        " "@,
        path,
        " HTTP/1.1"@,
        "\r\n"@,
        "Host"@,
        ": "@,
        host,
        ":"@,
        digits::decimal(port),
        own_rest(),
        http::header_lines(h),
        http::header_lines(len),
        ended(Seq::empty()),
        body,
    );
}

/// Texts in a row, grouped in two ways.
proof fn lemma_shape(
    m: Seq<char>,
    sp: Seq<char>,
    p: Seq<char>,
    v: Seq<char>,
    n: Seq<char>,
    k: Seq<char>,
    c: Seq<char>,
    host: Seq<char>,
    colon: Seq<char>,
    d: Seq<char>,
    own: Seq<char>,
    h: Seq<char>,
    len: Seq<char>,
    e: Seq<char>,
    body: Seq<char>,
)
    ensures
        m + sp + p + (v + n + (k + c)) + host + colon + d + (n + own) + h + (len + e + body) == ((m
            + sp + p + v) + n) + ((((k + c + (host + colon + d)) + n + own) + h + len) + e) + body,
        m + sp + p + (v + n + (k + c)) + host + colon + d + (n + own) + h + (len + e) == ((m + sp
            + p + v) + n) + ((((k + c + (host + colon + d)) + n + own) + h + len) + e),
{
    assert(m + sp + p + (v + n + (k + c)) =~= ((m + sp + p + v) + n) + (k + c));
    let a = (m + sp + p + v) + n;
    let b = k + c + (host + colon + d);
    assert(a + (k + c) + host + colon + d =~= a + b);
    assert(a + b + (n + own) =~= a + (b + n + own));
    let x = b + n + own;
    assert(a + x + h + (len + e + body) =~= a + ((x + h + len) + e) + body);
    assert(a + x + h + (len + e) =~= a + ((x + h + len) + e));
}

proof fn lemma_own_names()
    ensures
        header_name("Host"@),
        header_name("User-Agent"@),
        header_value("vps-probe/2.0"@),
{
    reveal_strlit("Host");
    reveal_strlit("User-Agent");
    reveal_strlit("vps-probe/2.0");
    lemma_plain_value("Host"@);
    lemma_plain_value("User-Agent"@);
    lemma_plain_value("vps-probe/2.0"@);
}

/// The request line is read as the method and the target.
proof fn lemma_request_line(method: Seq<char>, path: Seq<char>)
    requires
        one_word(method),
        one_word(path),
    ensures
        ({
            let l = method + " "@ + path + " HTTP/1.1"@;
            let w = text::words(ended(l));
            &&& one_line(l)
            &&& w.len() >= 2
            &&& w[0] == method
            &&& w[1] == path
        }),
{
    reveal_strlit(" ");
    reveal_strlit(" HTTP/1.1");
    reveal_strlit("\r\n");
    let l = method + " "@ + path + " HTTP/1.1"@;
    let v = " HTTP/1.1"@.skip(1);
    assert(" "@ =~= seq![' ']);
    assert(ended(l) =~= method + seq![' '] + (path + seq![' '] + (v + "\r\n"@)));
    lemma_first_word(method, path + seq![' '] + (v + "\r\n"@));
    lemma_first_word(path, v + "\r\n"@);
    let w = text::words(ended(l));
    assert(w =~= seq![method] + (seq![path] + text::words(v + "\r\n"@)));
    let n = method.len() as int;
    let m = path.len() as int;
    assert forall|i: int| 0 <= i < l.len() implies #[trigger] l[i] != '\n' by {
        if i < n {
            assert(l[i] == method[i]);
            assert(!text::is_space(method[i]));
        } else if i == n {
            assert(l[i] == ' ');
        } else if i <= n + m {
            assert(l[i] == path[i - n - 1]);
            assert(!text::is_space(path[i - n - 1]));
        } else {
            assert(l[i] == " HTTP/1.1"@[i - n - m - 1]);
        }
    }
}

/// The place of a name that no header has.
proof fn lemma_gathered_none(
    p: Seq<(Seq<char>, Seq<char>)>,
    h: Seq<(Seq<char>, Seq<char>)>,
    name: Seq<char>,
)
    requires
        table::pair_at(p, name) is None,
        !http::names(h, name),
    ensures
        table::pair_at(gathered(p, h), name) is None,
    decreases h.len(),
{
    if h.len() > 0 {
        let g = h.drop_last();
        if http::names(g, name) {
            let w = choose|w: int|
                0 <= w < g.len() && text::lowered(#[trigger] g[w].0) == name;
            assert(h[w] == g[w]);
            assert(text::lowered(h[w].0) == name);
        }
        lemma_gathered_none(p, g, name);
        assert(text::lowered(h[h.len() - 1].0) != name);
        lemma_set_other(gathered(p, g), text::lowered(h.last().0), h.last().1, name);
    }
}

proof fn lemma_slot_bounds(p: Seq<(Seq<char>, Seq<char>)>, k: Seq<char>, i: int)
    requires
        0 <= i <= p.len(),
    ensures
        i <= table::pair_slot(p, k, i) <= p.len(),
        forall|j: int| i <= j < table::pair_slot(p, k, i) ==> (#[trigger] p[j]).0 != k,
        table::pair_slot(p, k, i) < p.len() ==> p[table::pair_slot(p, k, i)].0 == k,
    decreases p.len() - i,
{
    if i < p.len() && p[i].0 != k {
        lemma_slot_bounds(p, k, i + 1);
    }
}

/// Setting one name leaves another as it was.
proof fn lemma_set_other(
    p: Seq<(Seq<char>, Seq<char>)>,
    k: Seq<char>,
    v: Seq<char>,
    name: Seq<char>,
)
    requires
        name != k,
        table::pair_at(p, name) is None,
    ensures
        table::pair_at(table::set_pair(p, k, v), name) is None,
{
    let q = table::set_pair(p, k, v);
    lemma_slot_bounds(p, k, 0);
    lemma_slot_bounds(p, name, 0);
    lemma_slot_bounds(q, name, 0);
    let j = table::pair_slot(q, name, 0);
    if j < q.len() {
        let i = table::pair_slot(p, k, 0);
        assert(q[j].0 == name);
        if j < p.len() && j != i {
            assert(q[j] == p[j]);
        }
        assert(false);
    }
}

/// Setting a name gives it its value.
proof fn lemma_set_same(p: Seq<(Seq<char>, Seq<char>)>, k: Seq<char>, v: Seq<char>)
    ensures
        table::pair_at(table::set_pair(p, k, v), k) == Some(v),
{
    let q = table::set_pair(p, k, v);
    let i = table::pair_slot(p, k, 0);
    lemma_slot_bounds(p, k, 0);
    lemma_slot_bounds(q, k, 0);
    let j = table::pair_slot(q, k, 0);
    assert(q[i] == (k, v));
    if j < i {
        assert(q[j] == p[j]);
    }
}

/// The length that a server finds among the headers of a request.
proof fn lemma_request_length(
    host: Seq<char>,
    port: nat,
    h: Seq<(Seq<char>, Seq<char>)>,
    body: Seq<char>,
)
    requires
        !http::names(h, "content-length"@),
        utf8::encode_utf8(body).len() <= usize::MAX,
    ensures
        http::size_of(
            table::pair_at(
                gathered(Seq::empty(), sent_headers(host, port, h, body)),
                "content-length"@,
            ),
        ) == (if body.len() > 0 {
            Some(utf8::encode_utf8(body).len())
        } else {
            None
        }),
{
    let name = "content-length"@;
    let own = own_headers(host, port);
    let base = own + h;
    let e = Seq::<(Seq<char>, Seq<char>)>::empty();
    reveal_strlit("Host");
    reveal_strlit("Connection");
    reveal_strlit("User-Agent");
    reveal_strlit("content-length");
    assert(text::lowered("Host"@).len() == 4);
    assert(text::lowered("Connection"@).len() == 10);
    assert(text::lowered("User-Agent"@).len() == 10);
    assert(name.len() == 14);
    if http::names(base, name) {
        let w = choose|w: int|
            0 <= w < base.len() && text::lowered(#[trigger] base[w].0) == name;
        if w >= 3 {
            assert(base[w] == h[w - 3]);
            assert(text::lowered(h[w - 3].0) == name);
        } else {
            assert(base[w] == own[w]);
        }
        assert(false);
    }
    assert(table::pair_slot(e, name, 0) == 0);
    lemma_gathered_none(e, base, name);
    let all = sent_headers(host, port, h, body);
    if body.len() > 0 {
        let n = utf8::encode_utf8(body).len();
        reveal_strlit("Content-Length");
        assert(text::lowered("Content-Length"@) =~= name);
        assert(all.drop_last() =~= base);
        assert(all.last() == ("Content-Length"@, digits::decimal(n)));
        lemma_set_same(gathered(e, base), name, digits::decimal(n));
        digits::law_unsigned_written_reads_back(n, usize::MAX as nat);
    } else {
        assert(all =~= base);
    }
}

/// A server reads what a client sends: the method, the target, the headers and the body. The bytes
/// of the body follow the head, and the server asks for as many as there are.
pub proof fn law_request_is_read(
    method: Seq<char>,
    host: Seq<char>,
    port: nat,
    path: Seq<char>,
    h: Seq<(Seq<char>, Seq<char>)>,
    body: Seq<char>,
)
    requires
        one_word(method),
        one_word(path),
        header_value(host + ":"@ + digits::decimal(port)),
        sendable(h),
        !http::names(h, "content-length"@),
        utf8::encode_utf8(body).len() <= usize::MAX,
    ensures
        ({
            let head = request_head(method, host, port, path, h, body);
            let n = utf8::encode_utf8(body).len() as usize;
            let r = http::IntakeView {
                step: if body.len() > 0 {
                    http::Step::Body(n)
                } else {
                    http::Step::Done
                },
                method,
                target: path,
                headers: gathered(Seq::empty(), sent_headers(host, port, h, body)),
                body: Seq::empty(),
            };
            &&& http::request_text(method, host, port, path, h, Some(body)) == head + body
            &&& body.len() == 0 ==> http::request_text(method, host, port, path, h, None) == head
            &&& take_lines(http::nothing_in(), cut(head)) == r
            &&& bytes::text_of(http::bytes_in(r, utf8::encode_utf8(body)).body) == body
            &&& http::bytes_in(r, utf8::encode_utf8(body)).step is Done
        }),
{
    let all = sent_headers(host, port, h, body);
    let e = Seq::<char>::empty();
    let l = method + " "@ + path + " HTTP/1.1"@;
    lemma_request_text(method, host, port, path, h, body);
    lemma_request_line(method, path);
    lemma_answer_names();
    lemma_own_names();
    lemma_decimal_value(utf8::encode_utf8(body).len());
    let own = own_headers(host, port);
    assert(sendable(all)) by {
        assert forall|i: int| 0 <= i < all.len() implies header_name((#[trigger] all[i]).0)
            && header_value(all[i].1) by {
            if i < 3 {
                assert(all[i] == own[i]);
            } else if i < 3 + h.len() {
                assert(all[i] == h[i - 3]);
            } else {
                assert(all[i] == length_header(body)[0]);
            }
        }
    }
    let r0 = http::nothing_in();
    let r1 = http::IntakeView { step: http::Step::Headers, method, target: path, ..r0 };
    let tail = http::header_lines(all) + ended(e);
    lemma_cut(l, tail);
    lemma_cut_headers(all, ended(e));
    lemma_cut(e, e);
    assert(ended(e) + e =~= ended(e));
    assert(cut(e) =~= Seq::<Seq<char>>::empty());
    assert(cut(ended(e)) =~= seq![ended(e)]);
    lemma_take(r0, ended(l), cut(tail));
    lemma_take_both(r1, lines_of(all), seq![ended(e)]);
    lemma_take_headers(r1, all);
    let r2 = http::IntakeView { headers: gathered(r1.headers, all), ..r1 };
    lemma_take(r2, ended(e), Seq::empty());
    assert(seq![ended(e)] + Seq::<Seq<char>>::empty() =~= seq![ended(e)]);
    lemma_bare(e);
    lemma_request_length(host, port, h, body);
    bytes::lemma_text_of_encoded(body);
    if body.len() == 0 {
        assert(body =~= e);
        assert(utf8::encode_utf8(e) =~= Seq::<u8>::empty());
    }
}

// -------------------------------------------------------------------- headers

/// Whether the headers of a request are as a server keeps them: no name stands twice, and names are
/// in small letters.
pub open spec fn tidy_headers(p: Seq<(Seq<char>, Seq<char>)>) -> bool {
    &&& forall|i: int, j: int| 0 <= i < j < p.len() ==> (#[trigger] p[i]).0 != (#[trigger] p[j]).0
    &&& forall|i: int| 0 <= i < p.len() ==> text::lowered((#[trigger] p[i]).0) == p[i].0
}

proof fn lemma_low_twice(c: char)
    ensures
        text::low(text::low(c)) == text::low(c),
{
}

proof fn lemma_lowered_twice(s: Seq<char>)
    ensures
        text::lowered(text::lowered(s)) == text::lowered(s),
{
    assert forall|i: int| 0 <= i < s.len() implies #[trigger] text::lowered(text::lowered(s))[i]
        == text::lowered(s)[i] by {
        lemma_low_twice(s[i]);
    }
    assert(text::lowered(text::lowered(s)) =~= text::lowered(s));
}

/// While a request is read, its headers stay as a server keeps them.
pub proof fn law_headers_stay_tidy(r: http::IntakeView, line: Option<Seq<char>>)
    requires
        tidy_headers(r.headers),
    ensures
        tidy_headers(http::line_in(r, line).headers),
        tidy_headers(http::nothing_in().headers),
{
    if r.step is Headers {
        if let Some(l) = line {
            if let Some(f) = http::field_of(http::bare(l)) {
                let k = text::lowered(f.0);
                let q = table::set_pair(r.headers, k, f.1);
                lemma_lowered_twice(f.0);
                lemma_slot_bounds(r.headers, k, 0);
                let i = table::pair_slot(r.headers, k, 0);
                assert forall|a: int| 0 <= a < q.len() && a != i implies #[trigger] q[a]
                    == r.headers[a] by {}
                assert(q[i] == (k, f.1));
                assert forall|a: int, b: int| 0 <= a < b < q.len() implies (#[trigger] q[a]).0 != (
                #[trigger] q[b]).0 by {
                    if a != i && b != i {
                        assert(r.headers[a].0 != r.headers[b].0);
                    } else if a == i {
                        assert(r.headers[a].0 != r.headers[b].0);
                    } else {
                        assert(r.headers[a].0 != k);
                    }
                }
                assert forall|a: int| 0 <= a < q.len() implies text::lowered((#[trigger] q[a]).0)
                    == q[a].0 by {
                    if a != i {
                        assert(text::lowered(r.headers[a].0) == r.headers[a].0);
                    }
                }
            }
        }
    }
}

/// A header of a request is found whatever the case of its name: it is the one whose name is the
/// given one in small letters.
pub proof fn law_header_is_found(p: Seq<(Seq<char>, Seq<char>)>, name: Seq<char>)
    requires
        tidy_headers(p),
    ensures
        http::first_value(p, name) == table::pair_at(p, text::lowered(name)),
    decreases p.len(),
{
    let k = text::lowered(name);
    lemma_slot_bounds(p, k, 0);
    lemma_first_value(p, name, 0);
    assert(p.skip(0) =~= p);
}

proof fn lemma_first_value(p: Seq<(Seq<char>, Seq<char>)>, name: Seq<char>, i: int)
    requires
        tidy_headers(p),
        0 <= i <= p.len(),
    ensures
        ({
            let j = table::pair_slot(p, text::lowered(name), i);
            http::first_value(p.skip(i), name) == (if j < p.len() {
                Some(p[j].1)
            } else {
                None
            })
        }),
    decreases p.len() - i,
{
    if i < p.len() {
        assert(p.skip(i)[0] == p[i]);
        assert(p.skip(i).skip(1) =~= p.skip(i + 1));
        assert(text::lowered(p[i].0) == p[i].0);
        lemma_first_value(p, name, i + 1);
    }
}

// --------------------------------------------------------------------- chunks

/// Chunks add up: a chunk whose size was announced is added to the body, whatever separates it from
/// the next; a size of zero, or the end of the input, ends the body.
pub proof fn law_chunks_add_up(r: http::ReadingView, line: Seq<char>, d: Seq<u8>, gap: Seq<u8>)
    requires
        r.stage is Size,
    ensures
        http::chunk_size(line) > 0 ==> {
            &&& http::after_line(r, Some(line)) matches Ok(n) && http::wanted(n.stage)
                == http::Want::Bytes(http::chunk_size(line) as usize) && http::after_bytes(
                http::after_bytes(n, d),
                gap,
            ) == (http::ReadingView { body: r.body + d, ..r })
        },
        http::chunk_size(line) == 0 ==> http::after_line(r, Some(line)) == Ok::<
            http::ReadingView,
            Seq<char>,
        >(http::ReadingView { stage: http::Stage::Done, ..r }),
        http::after_line(r, None) == Ok::<http::ReadingView, Seq<char>>(
            http::ReadingView { stage: http::Stage::Done, ..r },
        ),
{
}

} // verus!
