//! What holds of the reading of HTTP, line by line: sizes, states, headers and addresses are
//! what the other side wrote.

use vstd::prelude::*;
use crate::digits;
use crate::http;
use crate::http::{IntakeView, ReadingView, Stage, Step, Want};
use crate::table;
use crate::text;
use crate::text_laws;

verus! {

// --------------------------------------------------------------------- chunks

/// A text keeps all that stands before a character other than white space when the white space at
/// its end is dropped.
proof fn lemma_trim_end_keeps(s: Seq<char>, k: int)
    requires
        0 <= k < s.len(),
        !text::is_space(s[k]),
    ensures
        k < text::trim_end(s).len() <= s.len(),
        text::trim_end(s) == s.take(text::trim_end(s).len() as int),
    decreases s.len(),
{
    if text::is_space(s.last()) {
        let t = s.drop_last();
        assert(k < t.len());
        lemma_trim_end_keeps(t, k);
        let n = text::trim_end(t).len() as int;
        assert(t.take(n) =~= s.take(n));
    } else {
        assert(s.take(s.len() as int) =~= s);
    }
}

/// The line before a chunk: white space, the size, perhaps an extension after a semicolon, and the
/// end of the line.
pub open spec fn size_line(
    before: Seq<char>,
    size: Seq<char>,
    extension: Option<Seq<char>>,
    end: Seq<char>,
) -> Seq<char> {
    match extension {
        None => before + size + end,
        Some(x) => before + (size + seq![';'] + (x + end)),
    }
}

proof fn lemma_size_field(
    before: Seq<char>,
    size: Seq<char>,
    extension: Option<Seq<char>>,
    end: Seq<char>,
)
    requires
        text_laws::blanks(before),
        text_laws::blanks(end),
        text_laws::tight(size),
        size.len() > 0,
        text_laws::without(size, ';'),
    ensures
        text::fields(text::trimmed(size_line(before, size, extension, end)), seq![';'])[0] == size,
{
    match extension {
        None => {
            text_laws::law_trimmed(before, size, end);
            text_laws::law_fields(size, ';', end);
        },
        Some(x) => {
            let y = size + seq![';'] + (x + end);
            let k = size.len() as int;
            assert(y[0] == size[0]);
            text_laws::lemma_trim_start_of(before, y);
            assert(y[k] == ';');
            lemma_trim_end_keeps(y, k);
            let n = text::trim_end(y).len() as int;
            let z = y.subrange(k + 1, n);
            assert(y.take(n) =~= size + seq![';'] + z);
            text_laws::law_fields(size, ';', z);
        },
    }
}

/// The size before a chunk is hexadecimal: the digits of a number above zero, in either case, make
/// the reader want as many bytes, with white space around the line or none and whatever follows a
/// semicolon. Zero ends the body.
pub proof fn law_chunk_size_is_hexadecimal(
    r: ReadingView,
    before: Seq<char>,
    ds: Seq<nat>,
    caps: Seq<bool>,
    extension: Option<Seq<char>>,
    end: Seq<char>,
)
    requires
        r.stage is Size,
        text_laws::blanks(before),
        text_laws::blanks(end),
        ds.len() > 0,
        forall|i: int| 0 <= i < ds.len() ==> #[trigger] ds[i] < 16,
        digits::hex_number(ds) <= usize::MAX,
    ensures
        ({
            let n = digits::hex_number(ds);
            let line = size_line(before, digits::hex_text(ds, caps), extension, end);
            http::after_line(r, Some(line)) matches Ok(next) && {
                &&& n > 0 ==> http::wanted(next.stage) == Want::Bytes(n as usize)
                &&& n > 0 ==> next == ReadingView { stage: Stage::Chunk(n as usize), ..r }
                &&& n == 0 ==> next == ReadingView { stage: Stage::Done, ..r }
            }
        }),
{
    let t = digits::hex_text(ds, caps);
    digits::law_hex_digits_read(ds, caps, usize::MAX as nat);
    lemma_hex_plain(t);
    lemma_size_field(before, t, extension, end);
}

proof fn lemma_hex_plain(t: Seq<char>)
    requires
        digits::all_digits(t, 16),
    ensures
        text_laws::tight(t),
        text_laws::without(t, ';'),
{
    assert forall|i: int| 0 <= i < t.len() implies #[trigger] t[i] != ';' && !text::is_space(
        t[i],
    ) by {
        assert(digits::is_digit(t[i], 16));
    }
}

/// The same for a number written without zeros before it, all in capitals or all in small letters,
/// with the usual end of a line.
pub proof fn law_chunk_size_as_written(
    r: ReadingView,
    n: nat,
    capital: bool,
    extension: Option<Seq<char>>,
)
    requires
        r.stage is Size,
        0 < n <= usize::MAX,
    ensures
        http::after_line(
            r,
            Some(
                size_line(
                    Seq::empty(),
                    digits::hexadecimal(n, capital),
                    extension,
                    seq!['\r', '\n'],
                ),
            ),
        ) matches Ok(next) && http::wanted(next.stage) == Want::Bytes(n as usize),
{
    let t = digits::hexadecimal(n, capital);
    digits::law_hexadecimal_reads(n, capital, usize::MAX as nat);
    lemma_hex_plain(t);
    lemma_size_field(Seq::empty(), t, extension, seq!['\r', '\n']);
}

/// A chunk whose size was written before it is added to the body, and the size of the next one is
/// read after the two bytes behind it.
pub proof fn law_chunk_is_added(
    r: ReadingView,
    d: Seq<u8>,
    capital: bool,
    extension: Option<Seq<char>>,
    gap: Seq<u8>,
)
    requires
        r.stage is Size,
        0 < d.len() <= usize::MAX,
    ensures
        ({
            let line = size_line(
                Seq::empty(),
                digits::hexadecimal(d.len(), capital),
                extension,
                seq!['\r', '\n'],
            );
            http::after_line(r, Some(line)) matches Ok(next) && {
                let read = http::after_bytes(next, d);
                &&& http::wanted(next.stage) == Want::Bytes(d.len() as usize)
                &&& http::wanted(read.stage) == Want::Bytes(2)
                &&& http::after_bytes(read, gap) == ReadingView { body: r.body + d, ..r }
            }
        }),
{
    let t = digits::hexadecimal(d.len(), capital);
    digits::law_hexadecimal_reads(d.len(), capital, usize::MAX as nat);
    lemma_hex_plain(t);
    lemma_size_field(Seq::empty(), t, extension, seq!['\r', '\n']);
}

/// A line before a chunk whose size holds a character other than hexadecimal digits ends the body,
/// and so does the end of the input.
pub proof fn law_bad_chunk_size(
    r: ReadingView,
    before: Seq<char>,
    a: Seq<char>,
    c: char,
    b: Seq<char>,
    extension: Option<Seq<char>>,
    end: Seq<char>,
)
    requires
        r.stage is Size,
        text_laws::blanks(before),
        text_laws::blanks(end),
        text_laws::tight(a + seq![c] + b),
        text_laws::without(a + seq![c] + b, ';'),
        !('0' <= c <= '9' || 'a' <= c <= 'f' || 'A' <= c <= 'F'),
        a.len() == 0 ==> c != '+',
    ensures
        http::after_line(r, Some(size_line(before, a + seq![c] + b, extension, end))) == Ok::<
            ReadingView,
            Seq<char>,
        >(ReadingView { stage: Stage::Done, ..r }),
        http::after_line(r, None) == Ok::<ReadingView, Seq<char>>(
            ReadingView { stage: Stage::Done, ..r },
        ),
{
    let s = a + seq![c] + b;
    let n = a.len() as int;
    lemma_size_field(before, s, extension, end);
    assert(s[n] == c);
    assert(!digits::is_digit(c, 16));
    if n > 0 {
        assert(s.skip(1)[n - 1] == c);
        assert(!digits::is_digit(s.skip(1)[n - 1], 16));
    }
    assert(!digits::all_digits(s, 16));
    assert(digits::unsigned(s, 16, usize::MAX as nat) is None);
}

// --------------------------------------------------------------------- status

/// The status of a reply is the second word of its first line, whatever follows it.
pub proof fn law_status(r: ReadingView, l: Seq<text_laws::Column>, rest: Seq<char>, status: nat)
    requires
        r.stage is Status,
        text_laws::row_good(l, rest),
        l.len() >= 2,
        status <= 65535,
        l[1].word == digits::decimal(status),
    ensures
        http::after_line(r, Some(text_laws::row(l, rest) + seq!['\r', '\n'])) == Ok::<
            ReadingView,
            Seq<char>,
        >(ReadingView { stage: Stage::Headers, status, ..r }),
{
    let s = text_laws::row(l, rest) + seq!['\r', '\n'];
    let e = seq!['\r', '\n'];
    lemma_row_longer(l, rest, e);
    text_laws::lemma_row_line(l, rest);
    digits::law_unsigned_written_reads_back(status, 65535);
}

/// The first words of a line do not depend on what follows its end.
proof fn lemma_row_longer(l: Seq<text_laws::Column>, rest: Seq<char>, e: Seq<char>)
    requires
        text_laws::row_good(l, rest),
        text_laws::apart(e),
    ensures
        text::words(text_laws::row(l, rest) + e).len() >= l.len(),
        forall|i: int|
            0 <= i < l.len() ==> #[trigger] text::words(text_laws::row(l, rest) + e)[i]
                == l[i].word,
    decreases l.len(),
{
    if l.len() > 0 {
        let m = l.skip(1);
        let c = l[0];
        assert(text_laws::column_good(l[0]));
        assert forall|i: int| 0 <= i < m.len() implies text_laws::column_good(#[trigger] m[i])
            && m[i].gap.len() > 0 by {
            assert(m[i] == l[i + 1]);
        }
        lemma_row_longer(m, rest, e);
        let u = text_laws::row(m, rest) + e;
        assert(text_laws::row(l, rest) + e =~= c.gap + c.word + u);
        assert(text_laws::apart(u)) by {
            if m.len() > 0 {
                assert(text_laws::column_good(m[0]));
                assert(u[0] == m[0].gap[0]);
            } else if rest.len() > 0 {
                assert(u[0] == rest[0]);
            } else {
                assert(u =~= e);
            }
        }
        text_laws::law_words(c.gap, c.word, u);
        let w = text::words(text_laws::row(l, rest) + e);
        assert forall|i: int| 0 <= i < l.len() implies #[trigger] w[i] == l[i].word by {
            if i > 0 {
                assert(w[i] == text::words(u)[i - 1]);
                assert(m[i - 1] == l[i]);
            }
        }
    }
}

/// A first line of fewer than two words, or whose second word is no number, is an error.
pub proof fn law_bad_status(
    r: ReadingView,
    l: Seq<text_laws::Column>,
    rest: Seq<char>,
    a: Seq<char>,
    c: char,
    b: Seq<char>,
)
    requires
        r.stage is Status,
        text_laws::row_good(l, rest),
        text_laws::blanks(rest),
        c < '0' || '9' < c,
        a.len() == 0 ==> c != '+' && c != '-',
        l.len() < 2 || l[1].word == a + seq![c] + b,
    ensures
        http::after_line(r, Some(text_laws::row(l, rest) + seq!['\r', '\n'])) is Err,
        http::after_line(r, None) is Err,
{
    let e = seq!['\r', '\n'];
    let none = Seq::<char>::empty();
    lemma_row_longer(l, rest, e);
    digits::law_other_characters_are_refused(a, c, b, 65535);
    text_laws::law_no_words(none);
    if l.len() < 2 {
        lemma_few_words(l, rest, e);
    }
}

proof fn lemma_few_words(l: Seq<text_laws::Column>, rest: Seq<char>, e: Seq<char>)
    requires
        text_laws::row_good(l, rest),
        text_laws::blanks(rest),
        text_laws::blanks(e),
        l.len() < 2,
    ensures
        text::words(text_laws::row(l, rest) + e).len() == l.len(),
{
    assert(text_laws::blanks(rest + e)) by {
        assert forall|i: int| 0 <= i < (rest + e).len() implies text::is_space(
            #[trigger] (rest + e)[i],
        ) by {
            if i < rest.len() {
                assert((rest + e)[i] == rest[i]);
            } else {
                assert((rest + e)[i] == e[i - rest.len()]);
            }
        }
    }
    text_laws::law_no_words(rest + e);
    if l.len() == 0 {
        assert(text_laws::row(l, rest) + e =~= rest + e);
    } else {
        let c = l[0];
        assert(text_laws::column_good(l[0]));
        assert(l.skip(1) =~= Seq::<text_laws::Column>::empty());
        assert(text_laws::row(l.skip(1), rest) == rest);
        assert(text_laws::row(l, rest) + e =~= c.gap + c.word + (rest + e));
        assert(text_laws::apart(rest + e));
        text_laws::law_words(c.gap, c.word, rest + e);
    }
}

// -------------------------------------------------------------------- headers

/// Whether a character is an end of a line.
pub open spec fn line_ends(s: Seq<char>) -> bool {
    forall|i: int| 0 <= i < s.len() ==> #[trigger] s[i] == '\r' || s[i] == '\n'
}

proof fn lemma_bare_of(s: Seq<char>, e: Seq<char>)
    requires
        line_ends(e),
        s.len() > 0 ==> s.last() != '\r' && s.last() != '\n',
    ensures
        http::bare(s + e) == s,
    decreases e.len(),
{
    reveal_strlit("\r\n");
    let set = "\r\n"@;
    assert(set[0] == '\r' && set[1] == '\n' && set.len() == 2);
    let t = s + e;
    if e.len() > 0 {
        assert(e[e.len() - 1] == '\r' || e[e.len() - 1] == '\n');
        assert(t.last() == e.last());
        assert(set.contains('\n') && set.contains('\r'));
        assert(t.drop_last() =~= s + e.drop_last());
        assert(line_ends(e.drop_last()));
        lemma_bare_of(s, e.drop_last());
    } else {
        assert(t =~= s);
        if s.len() > 0 && set.contains(s.last()) {
            let w = choose|w: int| 0 <= w < set.len() && set[w] == s.last();
            assert(w == 0 || w == 1);
        }
    }
}

/// A header line: a name and a value around a colon, with white space around each.
pub ghost struct Line {
    pub before: Seq<char>,
    pub name: Seq<char>,
    pub behind: Seq<char>,
    pub front: Seq<char>,
    pub value: Seq<char>,
    pub after: Seq<char>,
}

pub open spec fn line_text(l: Line) -> Seq<char> {
    l.before + l.name + l.behind + seq![':'] + (l.front + l.value + l.after)
}

pub open spec fn line_good(l: Line) -> bool {
    &&& text_laws::blanks(l.before) && text_laws::blanks(l.behind)
    &&& text_laws::blanks(l.front) && text_laws::blanks(l.after)
    &&& text_laws::tight(l.name) && text_laws::without(l.name, ':')
    &&& text_laws::tight(l.value)
}

proof fn lemma_field(l: Line)
    requires
        line_good(l),
    ensures
        http::field_of(line_text(l)) == Some((l.name, l.value)),
{
    let a = l.before + l.name + l.behind;
    let b = l.front + l.value + l.after;
    assert forall|i: int| 0 <= i < a.len() implies #[trigger] a[i] != ':' by {
        let n = l.before.len();
        if i < n {
            assert(text::is_space(l.before[i]));
        } else if i < n + l.name.len() {
            assert(a[i] == l.name[i - n]);
        } else {
            assert(text::is_space(l.behind[i - n - l.name.len()]));
        }
    }
    let t = line_text(l);
    text_laws::lemma_first_behind(a, ':', b, 0);
    assert(t.take(a.len() as int) =~= a);
    assert(t.skip(a.len() as int + 1) =~= b);
    text_laws::law_trimmed(l.before, l.name, l.behind);
    text_laws::law_trimmed(l.front, l.value, l.after);
}

/// A header of a reply is kept with its name and its value, without the white space around them,
/// and whichever way its line ends.
pub proof fn law_header_is_kept(r: ReadingView, l: Line, end: Seq<char>)
    requires
        r.stage is Headers,
        line_good(l),
        line_text(l).last() != '\r' && line_text(l).last() != '\n',
        line_ends(end),
    ensures
        http::after_line(r, Some(line_text(l) + end)) == Ok::<ReadingView, Seq<char>>(
            ReadingView { headers: r.headers.push((l.name, l.value)), ..r },
        ),
{
    let t = line_text(l);
    assert(t.len() > 0);
    lemma_bare_of(t, end);
    lemma_field(l);
}

/// A line without a colon among the headers is passed over; an empty line, or the end of the input,
/// ends them.
pub proof fn law_other_lines(r: ReadingView, s: Seq<char>, end: Seq<char>)
    requires
        r.stage is Headers,
        line_ends(end),
        text_laws::without(s, ':'),
        s.len() > 0 ==> s.last() != '\r' && s.last() != '\n',
    ensures
        s.len() > 0 ==> http::after_line(r, Some(s + end)) == Ok::<ReadingView, Seq<char>>(r),
        s.len() == 0 ==> http::after_line(r, Some(s + end)) == http::after_line(r, None),
        http::after_line(r, None) matches Ok(next) && !(next.stage is Headers),
{
    lemma_bare_of(s, end);
    text_laws::lemma_first_behind(s, ':', Seq::empty(), 0);
}

/// Whether two letters are the same but for their case.
pub open spec fn same_letter(a: char, b: char) -> bool {
    ||| a == b
    ||| 'A' <= a <= 'Z' && b as u32 == a as u32 + 32
    ||| 'A' <= b <= 'Z' && a as u32 == b as u32 + 32
}

/// Whether two texts are the same but for the case of ASCII letters.
pub open spec fn same_letters(a: Seq<char>, b: Seq<char>) -> bool {
    a.len() == b.len() && forall|i: int| 0 <= i < a.len() ==> same_letter(#[trigger] a[i], b[i])
}

proof fn lemma_low(a: char, b: char)
    ensures
        text::low(a) == text::low(b) <==> same_letter(a, b),
{
}

/// Texts are the same in small letters exactly if they are the same but for the case.
pub proof fn law_case(a: Seq<char>, b: Seq<char>)
    ensures
        text::lowered(a) == text::lowered(b) <==> same_letters(a, b),
{
    let x = text::lowered(a);
    let y = text::lowered(b);
    if x == y {
        assert(x.len() == a.len() && y.len() == b.len());
        assert forall|i: int| 0 <= i < a.len() implies same_letter(#[trigger] a[i], b[i]) by {
            assert(x[i] == y[i]);
            lemma_low(a[i], b[i]);
        }
    }
    if same_letters(a, b) {
        assert forall|i: int| 0 <= i < a.len() implies x[i] == y[i] by {
            assert(same_letter(a[i], b[i]));
            lemma_low(a[i], b[i]);
        }
        assert(x =~= y);
    }
}

/// The first header of a name is found, whatever the case of its letters.
pub proof fn law_first_header(h: Seq<(Seq<char>, Seq<char>)>, name: Seq<char>, i: int)
    requires
        0 <= i <= h.len(),
        forall|j: int| 0 <= j < i ==> !same_letters((#[trigger] h[j]).0, name),
        i < h.len() ==> same_letters(h[i].0, name),
    ensures
        i < h.len() ==> http::first_value(h, name) == Some(h[i].1),
        i == h.len() ==> http::first_value(h, name) is None,
    decreases h.len(),
{
    if h.len() > 0 {
        law_case(h[0].0, name);
        if i > 0 {
            let g = h.skip(1);
            assert forall|j: int| 0 <= j < i - 1 implies !same_letters((#[trigger] g[j]).0, name) by {
                assert(g[j] == h[j + 1]);
            }
            if i < h.len() {
                assert(g[i - 1] == h[i]);
            }
            assert(!same_letters(h[0].0, name));
            law_first_header(g, name, i - 1);
        }
    }
}

/// All the values under a name are found, in their order, whatever the case of its letters.
pub proof fn law_all_headers(
    h: Seq<(Seq<char>, Seq<char>)>,
    k: Seq<char>,
    v: Seq<char>,
    name: Seq<char>,
)
    ensures
        same_letters(k, name) ==> http::all_values(h.push((k, v)), name) == http::all_values(
            h,
            name,
        ).push(v),
        !same_letters(k, name) ==> http::all_values(h.push((k, v)), name) == http::all_values(
            h,
            name,
        ),
{
    law_case(k, name);
    assert(h.push((k, v)).drop_last() =~= h);
}

/// Whether no header up to the place `i` has a name.
pub open spec fn none_before(h: Seq<(Seq<char>, Seq<char>)>, name: Seq<char>, i: int) -> bool {
    forall|j: int| 0 <= j < i ==> !same_letters((#[trigger] h[j]).0, name)
}

/// After the headers, the reader wants as many bytes as the first length says.
pub proof fn law_length_decides(r: ReadingView, end: Seq<char>, i: int, n: nat)
    requires
        r.stage is Headers,
        line_ends(end),
        0 <= i < r.headers.len(),
        none_before(r.headers, "content-length"@, i),
        same_letters(r.headers[i].0, "content-length"@),
        r.headers[i].1 == digits::decimal(n),
        n <= usize::MAX,
    ensures
        http::after_line(r, Some(end)) matches Ok(next) && http::wanted(next.stage) == Want::Bytes(
            n as usize,
        ) && next == (ReadingView { stage: Stage::Length(n as usize), ..r }),
{
    let e = Seq::<char>::empty();
    lemma_bare_of(e, end);
    assert(e + end =~= end);
    law_first_header(r.headers, "content-length"@, i);
    digits::law_unsigned_written_reads_back(n, usize::MAX as nat);
}

/// Texts one after another in small letters.
proof fn lemma_lowered_parts(x: Seq<char>, w: Seq<char>, y: Seq<char>)
    ensures
        text::lowered(x + w + y) == text::lowered(x) + text::lowered(w) + text::lowered(y),
{
    let s = x + w + y;
    let t = text::lowered(x) + text::lowered(w) + text::lowered(y);
    assert(text::lowered(x).len() == x.len());
    assert(text::lowered(w).len() == w.len());
    assert(text::lowered(y).len() == y.len());
    assert(text::lowered(s) =~= t);
}

proof fn lemma_chunked_word()
    ensures
        text::lowered("chunked"@) == "chunked"@,
        "chunked"@.len() == 7,
        "chunked"@[0] == 'c',
{
    reveal_strlit("chunked");
    assert forall|k: int| 0 <= k < "chunked"@.len() implies text::low(#[trigger] "chunked"@[k])
        == "chunked"@[k] by {}
    assert(text::lowered("chunked"@) =~= "chunked"@);
}

/// Without a length, the reader wants the size of a chunk where the first encoding names chunks in
/// whatever case and among whatever else, and everything up to the end where there is no encoding
/// or one that cannot name chunks.
pub proof fn law_chunks_or_rest(
    r: ReadingView,
    end: Seq<char>,
    i: int,
    x: Seq<char>,
    w: Seq<char>,
    y: Seq<char>,
)
    requires
        r.stage is Headers,
        line_ends(end),
        none_before(r.headers, "content-length"@, r.headers.len() as int),
        0 <= i <= r.headers.len(),
        none_before(r.headers, "transfer-encoding"@, i),
        i < r.headers.len() ==> same_letters(r.headers[i].0, "transfer-encoding"@),
        i < r.headers.len() ==> r.headers[i].1 == x + w + y,
    ensures
        ({
            let h = r.headers;
            let rest = ReadingView { stage: Stage::Rest, ..r };
            http::after_line(r, Some(end)) matches Ok(next) && {
                &&& i == h.len() ==> next == rest
                &&& i < h.len() && text_laws::without(h[i].1, 'c') && text_laws::without(
                    h[i].1,
                    'C',
                ) ==> next == rest
                &&& next == rest ==> http::wanted(next.stage) == Want::Rest
                &&& i < h.len() && same_letters(w, "chunked"@) ==> next == ReadingView {
                    stage: Stage::Size,
                    ..r
                }
            }
        }),
{
    let e = Seq::<char>::empty();
    let h = r.headers;
    lemma_bare_of(e, end);
    assert(e + end =~= end);
    law_first_header(h, "content-length"@, h.len() as int);
    law_first_header(h, "transfer-encoding"@, i);
    lemma_chunked_word();
    let c = "chunked"@;
    if i < h.len() {
        let v = text::lowered(h[i].1);
        if same_letters(w, c) {
            law_case(w, c);
            lemma_lowered_parts(x, w, y);
            let k = x.len() as int;
            assert(text::lowered(x).len() == x.len());
            assert(v.skip(k).take(7) =~= c);
            assert(text::begins(v.skip(k), c));
        } else if text_laws::without(h[i].1, 'c') && text_laws::without(h[i].1, 'C') {
            assert(v.len() == h[i].1.len());
            if text::occurs(v, c) {
                let k = choose|k: int| 0 <= k <= v.len() && text::begins(#[trigger] v.skip(k), c);
                assert(v.skip(k).take(7)[0] == c[0]);
                assert(v[k] == 'c');
                lemma_low(h[i].1[k], 'c');
                assert(text::low(h[i].1[k]) == 'c');
            }
        }
    }
}

// -------------------------------------------------------------------- requests

/// The method and the target of a request are the first two words of its first line; a line of
/// fewer ends it.
pub proof fn law_request_line(r: IntakeView, l: Seq<text_laws::Column>, rest: Seq<char>)
    requires
        r.step is Start,
        text_laws::row_good(l, rest),
        text_laws::blanks(rest),
    ensures
        ({
            let next = http::line_in(r, Some(text_laws::row(l, rest) + seq!['\r', '\n']));
            &&& l.len() >= 2 ==> next == IntakeView {
                step: Step::Headers,
                method: l[0].word,
                target: l[1].word,
                ..r
            }
            &&& l.len() < 2 ==> next == IntakeView { step: Step::Closed, ..r }
        }),
{
    let e = seq!['\r', '\n'];
    lemma_row_longer(l, rest, e);
    if l.len() < 2 {
        lemma_few_words(l, rest, e);
    }
}

proof fn lemma_pair_slot_bounds(p: Seq<(Seq<char>, Seq<char>)>, k: Seq<char>, i: int)
    requires
        0 <= i <= p.len(),
    ensures
        i <= table::pair_slot(p, k, i) <= p.len(),
        forall|j: int| i <= j < table::pair_slot(p, k, i) ==> (#[trigger] p[j]).0 != k,
        table::pair_slot(p, k, i) < p.len() ==> p[table::pair_slot(p, k, i)].0 == k,
    decreases p.len() - i,
{
    if i < p.len() && p[i].0 != k {
        lemma_pair_slot_bounds(p, k, i + 1);
    }
}

/// Setting one name gives it its value and leaves the values of all others.
pub proof fn law_set_pair(
    p: Seq<(Seq<char>, Seq<char>)>,
    k: Seq<char>,
    v: Seq<char>,
    name: Seq<char>,
)
    ensures
        name == k ==> table::pair_at(table::set_pair(p, k, v), name) == Some(v),
        name != k ==> table::pair_at(table::set_pair(p, k, v), name) == table::pair_at(p, name),
{
    let q = table::set_pair(p, k, v);
    lemma_pair_slot_bounds(p, k, 0);
    lemma_pair_slot_bounds(p, name, 0);
    lemma_pair_slot_bounds(q, name, 0);
    let i = table::pair_slot(p, k, 0);
    let a = table::pair_slot(p, name, 0);
    let b = table::pair_slot(q, name, 0);
    assert(q[i] == (k, v));
    if name == k {
        if b < i {
            assert(q[b] == p[b]);
        }
    } else {
        if a < p.len() {
            assert(q[a] == p[a]);
        }
        if b < q.len() {
            assert(q[b].0 == name);
            assert(b != i);
            assert(q[b] == p[b]);
        }
    }
}

/// A header of a request is found under its name in small letters, whatever the case in which it
/// was written, and the other headers stay.
pub proof fn law_request_header(r: IntakeView, l: Line, end: Seq<char>, name: Seq<char>)
    requires
        r.step is Headers,
        line_good(l),
        line_text(l).last() != '\r' && line_text(l).last() != '\n',
        line_ends(end),
        text::lowered(name) == name,
    ensures
        ({
            let next = http::line_in(r, Some(line_text(l) + end));
            &&& next == IntakeView { headers: next.headers, ..r }
            &&& same_letters(l.name, name) ==> table::pair_at(next.headers, name) == Some(l.value)
            &&& !same_letters(l.name, name) ==> table::pair_at(next.headers, name)
                == table::pair_at(r.headers, name)
        }),
{
    let t = line_text(l);
    assert(t.len() > 0);
    lemma_bare_of(t, end);
    lemma_field(l);
    law_case(l.name, name);
    law_set_pair(r.headers, text::lowered(l.name), l.value, name);
}

/// After the headers, the server wants as many bytes as their length says, or none.
pub proof fn law_request_length(r: IntakeView, end: Seq<char>, n: nat)
    requires
        r.step is Headers,
        line_ends(end),
        n <= usize::MAX,
    ensures
        ({
            let next = http::line_in(r, Some(end));
            let length = table::pair_at(r.headers, "content-length"@);
            &&& length == Some(digits::decimal(n)) ==> next == IntakeView {
                step: Step::Body(n as usize),
                ..r
            } && http::needed(next.step) == Want::Bytes(n as usize)
            &&& length is None ==> next == IntakeView { step: Step::Done, ..r }
        }),
{
    let e = Seq::<char>::empty();
    lemma_bare_of(e, end);
    assert(e + end =~= end);
    digits::law_unsigned_written_reads_back(n, usize::MAX as nat);
}

} // verus!
