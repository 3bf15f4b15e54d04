//! What the readings of a machine's state give back: the numbers that the system wrote.

use vstd::prelude::*;
use vstd::utf8;
use crate::big;
use crate::bytes;
use crate::digits;
use crate::grammar;
use crate::grammar::Numeral;
use crate::metrics;
use crate::metrics::{Metrics, Readings};
use crate::num;
use crate::num_laws;
use crate::numeral;
use crate::shortest;
use crate::text;
use crate::text_laws;
use crate::text_laws::Column;

verus! {

// ---------------------------------------------------------------------- lines

/// Whether a text is made of whole lines.
pub open spec fn complete(a: Seq<char>) -> bool {
    a.len() > 0 ==> a.last() == '\n'
}

/// Whether a text goes on with the end of a line, or is empty.
pub open spec fn line_over(b: Seq<char>) -> bool {
    b.len() > 0 ==> b[0] == '\n'
}

/// The lines after a line.
pub open spec fn lines_after(b: Seq<char>) -> Seq<Seq<char>> {
    if b.len() > 0 {
        text::lines(b.skip(1))
    } else {
        Seq::empty()
    }
}

/// A line of words between other lines stands among their lines, and starts with its words.
pub proof fn lemma_row_between(a: Seq<char>, l: Seq<Column>, rest: Seq<char>, b: Seq<char>) -> (r:
    Seq<char>)
    requires
        complete(a),
        l.len() > 0,
        text_laws::row_good(l, rest),
        line_over(b),
    ensures
        text::lines(a + text_laws::row(l, rest) + b) == text::lines(a) + seq![
            text_laws::row(l, r),
        ] + lines_after(b),
        text_laws::row_good(l, r),
        r == rest || r == text::chomp(rest),
{
    let x = text_laws::row(l, rest);
    text_laws::law_lines_in_turn(a, x + b);
    assert(a + x + b =~= a + (x + b));
    text_laws::lemma_row_line(l, rest);
    if b.len() > 0 {
        let r = text::chomp(rest);
        text_laws::law_lines(x, b.skip(1));
        assert(x + b =~= x + seq!['\n'] + b.skip(1));
        assert(text::lines(a) + (seq![text_laws::row(l, r)] + lines_after(b)) =~= text::lines(a)
            + seq![text_laws::row(l, r)] + lines_after(b));
        r
    } else {
        text_laws::law_lines(x, b);
        assert(x + b =~= x);
        assert(text::lines(a) + seq![x] =~= text::lines(a) + seq![x] + lines_after(b));
        rest
    }
}

/// A number that was written in decimal digits is read as that number.
pub proof fn law_number(n: nat)
    requires
        n <= u64::MAX,
    ensures
        metrics::number(digits::decimal(n)) == n,
{
    digits::law_unsigned_written_reads_back(n, u64::MAX as nat);
}

// ----------------------------------------------------------------------- disk

/// The bytes in use and in all of a disk are the third and the second word of the line after the
/// heading, however many words follow.
pub proof fn law_disk_columns(
    heading: Seq<char>,
    l: Seq<Column>,
    rest: Seq<char>,
    b: Seq<char>,
    sized: bool,
)
    requires
        text_laws::without(heading, '\n'),
        text_laws::row_good(l, rest),
        l.len() >= 3,
        line_over(b),
        sized ==> metrics::number(l[1].word) > 0,
    ensures
        metrics::disk_view(
            utf8::encode_utf8(heading + seq!['\n'] + text_laws::row(l, rest) + b),
            sized,
        ) == (metrics::number(l[2].word), metrics::number(l[1].word)),
{
    let s = heading + seq!['\n'] + text_laws::row(l, rest) + b;
    let r = lemma_under_heading(heading, l, rest, b);
    bytes::lemma_text_of_encoded(s);
    text_laws::law_row_starts(l, r, 1);
    text_laws::law_row_starts(l, r, 2);
}

proof fn lemma_under_heading(heading: Seq<char>, l: Seq<Column>, rest: Seq<char>, b: Seq<char>) -> (r:
    Seq<char>)
    requires
        text_laws::without(heading, '\n'),
        text_laws::row_good(l, rest),
        l.len() > 0,
        line_over(b),
    ensures
        text::lines(heading + seq!['\n'] + text_laws::row(l, rest) + b) == seq![
            text::chomp(heading),
            text_laws::row(l, r),
        ] + lines_after(b),
        text_laws::row_good(l, r),
        r == rest || r == text::chomp(rest),
{
    let a = heading + seq!['\n'];
    let e = Seq::<char>::empty();
    let r = lemma_row_between(a, l, rest, b);
    text_laws::law_lines(heading, e);
    assert(a + e =~= a);
    assert(text::lines(e) =~= Seq::<Seq<char>>::empty());
    assert(text::lines(a) =~= seq![text::chomp(heading)]);
    assert(text::lines(a) + seq![text_laws::row(l, r)] =~= seq![
        text::chomp(heading),
        text_laws::row(l, r),
    ]);
    r
}

/// A line of fewer than three words is passed over, and so is one without a size where one is
/// needed.
pub proof fn law_disk_line_skipped(
    heading: Seq<char>,
    l: Seq<Column>,
    rest: Seq<char>,
    b: Seq<char>,
    sized: bool,
)
    requires
        text_laws::without(heading, '\n'),
        text_laws::row_good(l, rest),
        l.len() > 0,
        text_laws::blanks(rest),
        l.len() < 3 || (sized && metrics::number(l[1].word) == 0),
    ensures
        metrics::disk_view(
            utf8::encode_utf8(heading + seq!['\n'] + text_laws::row(l, rest) + (seq!['\n'] + b)),
            sized,
        ) == metrics::disk_view(utf8::encode_utf8(heading + seq!['\n'] + b), sized),
        metrics::disk_view(utf8::encode_utf8(heading), sized) == (0nat, 0nat),
{
    let t = seq!['\n'] + b;
    let s = heading + seq!['\n'] + text_laws::row(l, rest) + t;
    let u = heading + seq!['\n'] + b;
    let r = lemma_under_heading(heading, l, rest, t);
    bytes::lemma_text_of_encoded(s);
    bytes::lemma_text_of_encoded(u);
    bytes::lemma_text_of_encoded(heading);
    assert(t.skip(1) =~= b);
    text_laws::law_lines(heading, b);
    text_laws::law_row_words(l, r);
    assert(text_laws::blanks(r));
    text_laws::law_no_words(r);
    let x = text::lines(s);
    let y = text::lines(u);
    assert(text::words(x[1]).len() == l.len());
    if l.len() >= 3 {
        assert(text::words(x[1])[1] == l[1].word);
    }
    assert(x.skip(2) =~= text::lines(b));
    assert(y.skip(1) =~= text::lines(b));
    lemma_disk_from(x, y, 2, 1, sized);
    assert(text::lines(heading).len() <= 1) by {
        if heading.len() == 0 {
            assert(text::lines(heading) =~= Seq::<Seq<char>>::empty());
        }
    }
}

proof fn lemma_disk_from(x: Seq<Seq<char>>, y: Seq<Seq<char>>, i: int, j: int, sized: bool)
    requires
        0 <= i <= x.len(),
        0 <= j <= y.len(),
        x.skip(i) == y.skip(j),
    ensures
        metrics::disk_from(x, i, sized) == metrics::disk_from(y, j, sized),
    decreases x.len() - i,
{
    assert(x.skip(i).len() == x.len() - i);
    assert(y.skip(j).len() == y.len() - j);
    if i < x.len() {
        assert(x.skip(i)[0] == x[i]);
        assert(y.skip(j)[0] == y[j]);
        assert(x.skip(i + 1) =~= x.skip(i).skip(1));
        assert(y.skip(j + 1) =~= y.skip(j).skip(1));
        lemma_disk_from(x, y, i + 1, j + 1, sized);
    }
}

// ------------------------------------------------------------------ processor

/// Whether the words of a line from the second on are numbers in decimal digits.
pub open spec fn counts(l: Seq<Column>, n: Seq<nat>) -> bool {
    &&& l.len() == n.len() + 1
    &&& forall|i: int|
        0 <= i < n.len() ==> (#[trigger] n[i]) <= u64::MAX && l[i + 1].word == digits::decimal(n[i])
}

proof fn lemma_counts(w: Seq<Seq<char>>, n: Seq<nat>, i: int)
    requires
        w.len() == n.len() + 1,
        0 <= i <= n.len(),
        forall|i: int|
            0 <= i < n.len() ==> (#[trigger] n[i]) <= u64::MAX && w[i + 1] == digits::decimal(n[i]),
    ensures
        metrics::numbers(w, i + 1) == n.skip(i),
    decreases n.len() - i,
{
    if i < n.len() {
        digits::law_unsigned_written_reads_back(n[i], u64::MAX as nat);
        lemma_counts(w, n, i + 1);
        assert(n.skip(i) =~= seq![n[i]] + n.skip(i + 1));
    } else {
        assert(n.skip(i) =~= Seq::<nat>::empty());
    }
}

/// Where no line of a text starts in a certain way, and a line after it does, that is the first.
proof fn lemma_first_line(x: Seq<Seq<char>>, m: Seq<char>, y: Seq<Seq<char>>, p: Seq<char>, i: int)
    requires
        0 <= i <= x.len(),
        forall|k: int| 0 <= k < x.len() ==> !text::begins(#[trigger] x[k], p),
        text::begins(m, p),
    ensures
        text::first_beginning(x + seq![m] + y, p, i) == x.len(),
    decreases x.len() - i,
{
    let v = x + seq![m] + y;
    if i < x.len() {
        assert(v[i] == x[i]);
        lemma_first_line(x, m, y, p, i + 1);
    } else {
        assert(v[i] == m);
    }
}

/// Whether no line of a text starts in a certain way.
pub open spec fn no_line(a: Seq<char>, p: Seq<char>) -> bool {
    forall|k: int| 0 <= k < text::lines(a).len() ==> !text::begins(#[trigger] text::lines(a)[k], p)
}

/// The time in all is the sum of the numbers on the line of all processors, and the idle time that
/// of the fourth and, where there is one, the fifth. Fewer than four numbers give nothing.
pub proof fn law_processor_times(
    a: Seq<char>,
    l: Seq<Column>,
    n: Seq<nat>,
    rest: Seq<char>,
    b: Seq<char>,
)
    requires
        complete(a),
        no_line(a, "cpu "@),
        text_laws::row_good(l, rest),
        text_laws::blanks(rest),
        line_over(b),
        counts(l, n),
        l[0].gap.len() == 0,
        l[0].word == "cpu"@,
        n.len() > 0 && l[1].gap[0] == ' ',
    ensures
        ({
            let t = metrics::cpu_view(a + text_laws::row(l, rest) + b);
            &&& n.len() < 4 ==> t is None
            &&& n.len() == 4 ==> t == Some((n[0] + n[1] + n[2] + n[3], n[3]))
            &&& n.len() > 4 ==> t == Some(
                (
                    n[0] + n[1] + n[2] + n[3] + n[4] + metrics::sum_to(
                        n.skip(5),
                        n.len() - 5,
                    ),
                    n[3] + n[4],
                ),
            )
        }),
{
    let r = lemma_row_between(a, l, rest, b);
    let m = text_laws::row(l, r);
    text_laws::law_row_words(l, r);
    assert(text_laws::blanks(r));
    text_laws::law_no_words(r);
    let w = text::words(m);
    assert(w =~= text_laws::row_words(l));
    assert forall|i: int| 0 <= i < n.len() implies (#[trigger] n[i]) <= u64::MAX && w[i + 1]
        == digits::decimal(n[i]) by {
        assert(l[i + 1].word == digits::decimal(n[i]));
    }
    lemma_counts(w, n, 0);
    assert(n.skip(0) =~= n);
    reveal_strlit("cpu");
    reveal_strlit("cpu ");
    assert("cpu "@ =~= "cpu"@.push(' '));
    let m2 = text_laws::row(l.skip(1), r);
    assert(m2[0] == ' ') by {
        assert(l.skip(1)[0] == l[1]);
    }
    assert(m =~= "cpu"@ + m2);
    assert(m.take(4) =~= "cpu "@);
    lemma_first_line(text::lines(a), m, lines_after(b), "cpu "@, 0);
    if n.len() >= 4 {
        assert(metrics::sum_to(n, 4) == n[0] + n[1] + n[2] + n[3]) by {
            reveal_with_fuel(metrics::sum_to, 5);
        }
        if n.len() > 4 {
            assert(metrics::sum_to(n, 5) == metrics::sum_to(n, 4) + n[4]);
            lemma_sum_rest(n, 5, n.len() as int);
        }
    }
}

proof fn lemma_sum_rest(v: Seq<nat>, k: int, n: int)
    requires
        0 <= k <= n <= v.len(),
    ensures
        metrics::sum_to(v, n) == metrics::sum_to(v, k) + metrics::sum_to(v.skip(k), n - k),
    decreases n - k,
{
    if k < n {
        lemma_sum_rest(v, k, n - 1);
        assert(v.skip(k)[n - k - 1] == v[n - 1]);
    }
}

// -------------------------------------------------------------------- network

proof fn lemma_net_to(x: Seq<Seq<char>>, y: Seq<Seq<char>>, n: int)
    requires
        0 <= n <= x.len(),
    ensures
        metrics::net_to(x + y, n) == metrics::net_to(x, n),
    decreases n,
{
    if n > 2 {
        lemma_net_to(x, y, n - 1);
        assert((x + y)[n - 1] == x[n - 1]);
    }
}

/// A line of an interface adds its second word to the bytes received and its tenth to the bytes
/// sent, whatever the words between and after them are; the line of the loopback interface and one
/// of fewer than ten words add nothing.
pub proof fn law_interface_adds_its_bytes(
    a: Seq<char>,
    name: Seq<char>,
    l: Seq<Column>,
    rest: Seq<char>,
)
    requires
        complete(a),
        text::lines(a).len() >= 2,
        text_laws::row_good(l, rest),
        text_laws::blanks(rest),
        l.len() > 0,
        name.len() > 0 ==> name.last() != ':',
        l[0].word == name + seq![':'],
    ensures
        ({
            let before = metrics::net_view(a);
            let now = metrics::net_view(a + text_laws::row(l, rest) + seq!['\n']);
            &&& l.len() >= 10 && name != "lo"@ ==> now == (
                before.0 + metrics::number(l[1].word),
                before.1 + metrics::number(l[9].word),
            )
            &&& l.len() < 10 || name == "lo"@ ==> now == before
        }),
{
    let nl = seq!['\n'];
    let x = text::lines(a);
    let r = lemma_row_between(a, l, rest, nl);
    let m = text_laws::row(l, r);
    text_laws::law_row_words(l, r);
    assert(text_laws::blanks(r));
    text_laws::law_no_words(r);
    assert(text::words(m) =~= text_laws::row_words(l));
    assert(lines_after(nl) =~= Seq::<Seq<char>>::empty()) by {
        assert(nl.skip(1) =~= Seq::<char>::empty());
    }
    let v = text::lines(a + text_laws::row(l, rest) + nl);
    assert(v =~= x + seq![m]);
    lemma_net_to(x, seq![m], x.len() as int);
    assert(v[v.len() - 1] == m);
    let w = l[0].word;
    text_laws::lemma_one(':', ':');
    assert(w.last() == ':' && w.drop_last() =~= name);
    if name.len() > 0 {
        text_laws::lemma_one(':', name.last());
    }
    assert(text::strip_end(name, seq![':']) == name);
    assert(text::strip_end(w, seq![':']) == name);
}

/// The two lines of the heading alone give no bytes.
pub proof fn law_no_interfaces(a: Seq<char>)
    requires
        text::lines(a).len() <= 2,
    ensures
        metrics::net_view(a) == (0nat, 0nat),
{
}

// --------------------------------------------------------------------- memory

proof fn lemma_mem_to(x: Seq<Seq<char>>, y: Seq<Seq<char>>, k: Seq<char>, n: int)
    requires
        0 <= n <= x.len(),
    ensures
        metrics::mem_to(x + y, k, n) == metrics::mem_to(x, k, n),
    decreases n,
{
    if n > 0 {
        lemma_mem_to(x, y, k, n - 1);
        assert((x + y)[n - 1] == x[n - 1]);
    }
}

/// A line gives its second word, in units of 1024 bytes, under its first, and leaves what the
/// lines before it gave under other names.
pub proof fn law_memory_line(a: Seq<char>, l: Seq<Column>, rest: Seq<char>, k: Seq<char>)
    requires
        complete(a),
        text_laws::row_good(l, rest),
        l.len() >= 2,
    ensures
        ({
            let now = metrics::mem_at(a + text_laws::row(l, rest) + seq!['\n'], k);
            &&& l[0].word == k ==> now == metrics::number(l[1].word) * 1024
            &&& l[0].word != k ==> now == metrics::mem_at(a, k)
        }),
        complete(a + text_laws::row(l, rest) + seq!['\n']),
{
    let nl = seq!['\n'];
    let x = text::lines(a);
    let r = lemma_row_between(a, l, rest, nl);
    let m = text_laws::row(l, r);
    text_laws::law_row_starts(l, r, 0);
    text_laws::law_row_starts(l, r, 1);
    assert(lines_after(nl) =~= Seq::<Seq<char>>::empty()) by {
        assert(nl.skip(1) =~= Seq::<char>::empty());
    }
    let v = text::lines(a + text_laws::row(l, rest) + nl);
    assert(v =~= x + seq![m]);
    lemma_mem_to(x, seq![m], k, x.len() as int);
    assert(v[v.len() - 1] == m);
}

/// A line of the memory: a name, white space, a number and what follows.
pub open spec fn memory_line(k: Seq<char>, gap: Seq<char>, n: nat, rest: Seq<char>) -> Seq<char> {
    k + gap + digits::decimal(n) + rest + seq!['\n']
}

proof fn lemma_memory_line(
    a: Seq<char>,
    name: Seq<char>,
    gap: Seq<char>,
    n: nat,
    rest: Seq<char>,
    k: Seq<char>,
)
    requires
        complete(a),
        text_laws::solid(name),
        name.len() > 0,
        gap_good(gap),
        n <= u64::MAX,
        text_laws::apart(rest),
        text_laws::without(rest, '\n'),
    ensures
        metrics::mem_at(a + memory_line(name, gap, n, rest), k) == (if name == k {
            n * 1024
        } else {
            metrics::mem_at(a, k)
        }),
        complete(a + memory_line(name, gap, n, rest)),
{
    let d = digits::decimal(n);
    let e = Seq::<char>::empty();
    let l = seq![Column { gap: e, word: name }, Column { gap, word: d }];
    lemma_decimal_solid(n);
    assert(text_laws::column_good(l[0]));
    assert(text_laws::column_good(l[1]));
    assert(text_laws::row_good(l, rest));
    law_memory_line(a, l, rest, k);
    law_number(n);
    let l1 = l.skip(1);
    assert(l1[0] == l[1]);
    assert(l1.skip(1) =~= Seq::<Column>::empty());
    assert(text_laws::row(l1.skip(1), rest) == rest);
    assert(text_laws::row(l1, rest) =~= gap + d + rest);
    assert(text_laws::row(l, rest) =~= name + gap + d + rest);
    assert(a + text_laws::row(l, rest) + seq!['\n'] =~= a + memory_line(name, gap, n, rest));
}

/// Whether a text is white space within a line, and some.
pub open spec fn gap_good(g: Seq<char>) -> bool {
    g.len() > 0 && text_laws::blanks(g) && text_laws::without(g, '\n')
}

pub proof fn lemma_decimal_solid(n: nat)
    ensures
        text_laws::solid(digits::decimal(n)),
        digits::decimal(n).len() > 0,
{
    let d = digits::decimal(n);
    digits::lemma_decimal(n);
    assert forall|i: int| 0 <= i < d.len() implies !text::is_space(#[trigger] d[i]) by {
        assert(digits::is_digit(d[i], 10));
    }
}

/// The memory in use is what is in all less what is available, and the swap space in use what is in
/// all less what is free, each in units of 1024 bytes.
pub proof fn law_memory(
    a: Seq<char>,
    gap: Seq<char>,
    rest: Seq<char>,
    total: nat,
    available: nat,
    swap: nat,
    free: nat,
)
    requires
        complete(a),
        gap_good(gap),
        text_laws::apart(rest),
        text_laws::without(rest, '\n'),
        total <= u64::MAX && available <= u64::MAX && swap <= u64::MAX && free <= u64::MAX,
    ensures
        ({
            let info = a + memory_line("MemTotal:"@, gap, total, rest) + memory_line(
                "MemAvailable:"@,
                gap,
                available,
                rest,
            ) + memory_line("SwapTotal:"@, gap, swap, rest) + memory_line(
                "SwapFree:"@,
                gap,
                free,
                rest,
            );
            let m = metrics::mem_view(info);
            &&& m.1 == total * 1024 && m.3 == swap * 1024
            &&& available <= total ==> m.0 == (total - available) * 1024
            &&& available > total ==> m.0 == 0
            &&& free <= swap ==> m.2 == (swap - free) * 1024
            &&& free > swap ==> m.2 == 0
        }),
{
    lemma_memory_names();
    let t = "MemTotal:"@;
    let v = "MemAvailable:"@;
    let s = "SwapTotal:"@;
    let f = "SwapFree:"@;
    let a1 = a + memory_line(t, gap, total, rest);
    let a2 = a1 + memory_line(v, gap, available, rest);
    let a3 = a2 + memory_line(s, gap, swap, rest);
    lemma_memory_line(a, t, gap, total, rest, t);
    lemma_memory_line(a1, v, gap, available, rest, t);
    lemma_memory_line(a2, s, gap, swap, rest, t);
    lemma_memory_line(a3, f, gap, free, rest, t);
    lemma_memory_line(a1, v, gap, available, rest, v);
    lemma_memory_line(a2, s, gap, swap, rest, v);
    lemma_memory_line(a3, f, gap, free, rest, v);
    lemma_memory_line(a2, s, gap, swap, rest, s);
    lemma_memory_line(a3, f, gap, free, rest, s);
    lemma_memory_line(a3, f, gap, free, rest, f);
}

proof fn lemma_memory_names()
    ensures
        "MemTotal:"@ != "MemAvailable:"@,
        "MemTotal:"@ != "SwapTotal:"@,
        "MemTotal:"@ != "SwapFree:"@,
        "MemAvailable:"@ != "SwapTotal:"@,
        "MemAvailable:"@ != "SwapFree:"@,
        "SwapTotal:"@ != "SwapFree:"@,
        text_laws::solid("MemTotal:"@),
        text_laws::solid("MemAvailable:"@),
        text_laws::solid("SwapTotal:"@),
        text_laws::solid("SwapFree:"@),
        "MemTotal:"@.len() > 0 && "MemAvailable:"@.len() > 0,
        "SwapTotal:"@.len() > 0 && "SwapFree:"@.len() > 0,
{
    reveal_strlit("MemTotal:");
    reveal_strlit("MemAvailable:");
    reveal_strlit("SwapTotal:");
    reveal_strlit("SwapFree:");
    assert("MemTotal:"@.len() == 9 && "MemAvailable:"@.len() == 13);
    assert("SwapTotal:"@.len() == 10 && "SwapFree:"@.len() == 9);
    assert("MemTotal:"@[0] != "SwapFree:"@[0]);
}

// --------------------------------------------------------------------- shares

/// A percentage is the double nearest to a hundred times the part over the whole.
pub proof fn law_percent(part: nat, whole: nat)
    requires
        part * 100 <= 0x20_0000_0000_0000,
        whole <= 0x20_0000_0000_0000,
    ensures
        whole == 0 ==> metrics::percent(part, whole) == 0,
        whole > 0 ==> metrics::percent(part, whole) == num::pattern(
            false,
            num::nearest(part * 100, whole),
        ),
        forall|k: nat|
            whole > 0 && part * 100 == #[trigger] (k * whole) ==> metrics::percent(part, whole)
                == num::of_int(k as int),
{
    if whole > 0 {
        num_laws::law_whole_arithmetic(part, 100);
        num_laws::law_whole_quotient(part * 100, whole);
        assert forall|k: nat| part * 100 == #[trigger] (k * whole) implies metrics::percent(
            part,
            whole,
        ) == num::of_int(k as int) by {
            assert(k <= k * whole) by (nonlinear_arith)
                requires
                    whole >= 1,
            ;
            num_laws::law_whole_arithmetic(k, whole);
        }
    }
}

/// The use of a processor depends on what has passed between the readings alone. It is zero where
/// no time has passed or all of it was idle, and a hundred where none was.
pub proof fn law_processor_use(u1: nat, i1: nat, total: nat, idle: nat)
    requires
        total <= 0x20_0000_0000_0000,
        idle <= 0x20_0000_0000_0000,
    ensures
        metrics::cpu_use(u1, i1, u1 + total, i1 + idle) == metrics::cpu_use(0, 0, total, idle),
        total == 0 ==> metrics::cpu_use(u1, i1, u1 + total, i1 + idle) == 0,
        idle == total ==> metrics::cpu_use(u1, i1, u1 + total, i1 + idle) == 0,
        total > 0 && idle == 0 ==> metrics::cpu_use(u1, i1, u1 + total, i1 + idle) == num::of_int(
            100,
        ),
{
    num::law_small_whole_numbers_are_exact(0);
    num::law_small_whole_numbers_are_exact(1);
    num::law_small_whole_numbers_are_exact(100);
    if total > 0 && (idle == 0 || idle == total) {
        let busy = (total - idle) as nat;
        let q: nat = if idle == 0 {
            1
        } else {
            0
        };
        num_laws::law_whole_arithmetic(total, idle);
        assert(q * total == busy) by (nonlinear_arith)
            requires
                (q == 1 && busy == total) || (q == 0 && busy == 0),
        ;
        num_laws::law_whole_arithmetic(q, total);
        num_laws::law_whole_arithmetic(q, 100);
        num_laws::law_whole_arithmetic(q * 100, 100);
        num_laws::law_whole_arithmetic(q * 100, 0);
        num_laws::law_whole_arithmetic(100, q * 100);
        assert(num::of_int(0) == 0);
    }
}

/// Over a time of a power of two the use of a processor is exactly a hundred times the share of it
/// that was not idle.
pub proof fn law_processor_share(u1: nat, i1: nat, j: nat, total: nat, idle: nat)
    requires
        j <= 40,
        total == big::power(2, j),
        idle < total,
    ensures
        ({
            let x = metrics::cpu_use(u1, i1, u1 + total, i1 + idle);
            &&& num::is_finite(x) && !num::is_neg(x)
            &&& num::scaled(num::magnitude(x)) * total == 100 * (total - idle) * num::unit()
        }),
{
    let u = num::unit();
    let busy = (total - idle) as nat;
    let k = (1074 - j) as nat;
    let p = big::power(2, k);
    big::lemma_power_positive(2, 1074);
    big::lemma_power_positive(2, k);
    big::lemma_power_adds(2, j, k);
    big::lemma_power_grows(2, j, 40);
    lemma_powers();
    assert(u == total * p);
    num_laws::law_whole_arithmetic(total, idle);
    num::law_small_whole_numbers_are_exact(total as int);
    num::law_small_whole_numbers_are_exact(busy as int);
    num::law_small_whole_numbers_are_exact(100);
    num::law_small_whole_numbers_are_exact(0);
    // The share is a double.
    let q = num_laws::lemma_magnitude_of(busy, k);
    let s = busy * p;
    assert((busy * u) * u == s * (total * u)) by (nonlinear_arith)
        requires
            s == busy * p,
            u == total * p,
    ;
    assert(total * u > 0) by (nonlinear_arith)
        requires
            total > 0,
            u > 0,
    ;
    num::lemma_exact(q, busy * u, total * u);
    num::lemma_nearest_is(q, busy * u, total * u);
    // And so is a hundred times it.
    let h = num_laws::lemma_magnitude_of(100 * busy, k);
    let t = (100 * busy) * p;
    assert((s * (100 * u)) * u == t * (u * u)) by (nonlinear_arith)
        requires
            s == busy * p,
            t == (100 * busy) * p,
    ;
    assert(u * u > 0) by (nonlinear_arith)
        requires
            u > 0,
    ;
    num::lemma_exact(h, s * (100 * u), u * u);
    num::lemma_nearest_is(h, s * (100 * u), u * u);
    assert(q > 0) by {
        assert(s > 0) by (nonlinear_arith)
            requires
                s == busy * p,
                busy > 0,
                p > 0,
        ;
        num::lemma_scaled_small();
    }
    assert(t * total == 100 * busy * u) by (nonlinear_arith)
        requires
            t == (100 * busy) * p,
            u == total * p,
    ;
    assert(t <= 100 * u) by (nonlinear_arith)
        requires
            t == (100 * busy) * p,
            u == total * p,
            busy <= total,
    ;
    assert(!num::less(h as u64, 0));
}

proof fn lemma_powers()
    ensures
        big::power(2, 40) == 0x100_0000_0000,
        big::power(2, 53) == 0x20_0000_0000_0000,
        big::power(2, 54) == 0x40_0000_0000_0000,
{
    big::lemma_powers_of_two();
    big::lemma_power_adds(2, 40, 12);
    reveal_with_fuel(big::power, 3);
}

/// The double nearest to four tenths.
proof fn lemma_pause()
    ensures
        num::magnitude(metrics::pause()) < num::INF,
        !num::is_neg(metrics::pause()),
        num::scaled(num::magnitude(metrics::pause())) == 0x19_9999_9999_999a * big::power(2, 1020),
{
    let p = big::power(2, 1020);
    let u = num::unit();
    let s: nat = 0x19_9999_9999_999a;
    big::lemma_power_positive(2, 1020);
    big::lemma_power_adds(2, 54, 1020);
    lemma_powers();
    assert(u == 0x40_0000_0000_0000 * p);
    let m = num_laws::lemma_magnitude_of(s, 1020);
    num::lemma_next(m);
    big::lemma_power_positive(2, num::exponent(m));
    num::lemma_scaled_small();
    assert(s * p > 0) by (nonlinear_arith)
        requires
            s > 0,
            p > 0,
    ;
    assert(m > 0);
    let b = (m - 1) as nat;
    num::lemma_next(b);
    let g = big::power(2, num::exponent(b));
    let c = num::significand(b);
    assert(num::scaled(m) == (c + 1) * g) by (nonlinear_arith)
        requires
            num::scaled(m) == c * g + g,
    ;
    assert(g >= p) by {
        lemma_gap_below(s, p, c, g, num::exponent(b));
    }
    let y = num::scaled(m) + num::scaled(m + 1);
    let z = num::scaled(b) + num::scaled(m);
    assert(2 * 4 * u < y * 10) by (nonlinear_arith)
        requires
            u == 0x40_0000_0000_0000 * p,
            y > 2 * (0x19_9999_9999_999a * p),
            p > 0,
    ;
    assert(2 * 4 * u > z * 10) by (nonlinear_arith)
        requires
            u == 0x40_0000_0000_0000 * p,
            z == 2 * (0x19_9999_9999_999a * p) - g,
            g >= p,
            p > 0,
    ;
    num::lemma_nearest_is(m, 4, 10);
}

/// A number with a significand that is not too small is not close to the double below it.
proof fn lemma_gap_below(s: nat, p: nat, c: nat, g: nat, e: nat)
    requires
        s == 0x19_9999_9999_999a,
        p == big::power(2, 1020),
        c < 2 * num::LEAD,
        g == big::power(2, e),
        s * p == (c + 1) * g,
    ensures
        g >= p,
{
    big::lemma_power_positive(2, 1020);
    if g < p {
        if e >= 1020 {
            big::lemma_power_grows(2, 1020, e);
        }
        big::lemma_power_grows(2, e, 1019);
        assert(p == 2 * big::power(2, 1019));
        assert((c + 1) * g < s * p) by (nonlinear_arith)
            requires
                c + 1 <= 0x20_0000_0000_0000,
                2 * g <= p,
                p > 0,
                s == 0x19_9999_9999_999a,
        ;
    }
}

/// The bytes per second are those moved in four tenths of a second, times five halves, exactly; and
/// none where the count has not grown.
pub proof fn law_rate(first: nat, moved: nat)
    requires
        5 * moved < 0x20_0000_0000_0000,
    ensures
        ({
            let x = metrics::rate(first, first + moved);
            &&& num::is_finite(x) && !num::is_neg(x)
            &&& num::scaled(num::magnitude(x)) * 2 == 5 * moved * num::unit()
        }),
        forall|second: nat| second <= first ==> #[trigger] metrics::rate(first, second) == 0,
{
    let p = big::power(2, 1020);
    let u = num::unit();
    let s: nat = 0x19_9999_9999_999a;
    lemma_pause();
    lemma_powers();
    big::lemma_power_positive(2, 1020);
    big::lemma_power_positive(2, 1074);
    big::lemma_power_adds(2, 54, 1020);
    big::lemma_power_adds(2, 53, 1020);
    num::lemma_scaled_small();
    num::law_small_whole_numbers_are_exact(0);
    let d = s * p;
    assert(d > 0) by (nonlinear_arith)
        requires
            d == s * p,
            s > 0,
            p > 0,
    ;
    assert(num::magnitude(metrics::pause()) > 0);
    assert(metrics::rate(first, first) == 0) by {
        assert(0 * u == 0 * d);
        num::lemma_exact(0, 0, d);
        num::lemma_nearest_is(0, 0, d);
    }
    if moved > 0 {
        num::law_small_whole_numbers_are_exact(moved as int);
        let v = 5 * moved;
        let m = num_laws::lemma_magnitude_of(v, 1073);
        assert(num::scaled(m) == v * (0x20_0000_0000_0000 * p));
        num::lemma_next(m);
        big::lemma_power_positive(2, num::exponent(m));
        assert(v * (0x20_0000_0000_0000 * p) > 0) by (nonlinear_arith)
            requires
                v > 0,
                p > 0,
        ;
        let b = (m - 1) as nat;
        num::lemma_next(b);
        let g = big::power(2, num::exponent(b));
        let c = num::significand(b);
        let sm = num::scaled(m);
        let sn = num::scaled(m + 1);
        let sb = num::scaled(b);
        assert(5 * moved * p <= g) by (nonlinear_arith)
            requires
                sm == c * g + g,
                sm == v * (0x20_0000_0000_0000 * p),
                v == 5 * moved,
                c + 1 <= 0x20_0000_0000_0000,
                g > 0,
        ;
        lemma_rate_above(moved, u, p, sm, sn, d);
        lemma_rate_below(moved, u, p, g, sm, sb, d);
        num::lemma_nearest_is(m, moved * u, d);
        assert(sm * 2 == 5 * moved * u) by (nonlinear_arith)
            requires
                sm == v * (0x20_0000_0000_0000 * p),
                v == 5 * moved,
                u == 0x40_0000_0000_0000 * p,
        ;
        assert(!num::less(m as u64, 0));
    }
}

proof fn lemma_rate_above(moved: nat, u: nat, p: nat, sm: nat, sn: nat, d: nat)
    requires
        u == 0x40_0000_0000_0000 * p,
        d == 0x19_9999_9999_999a * p,
        sm == (5 * moved) * (0x20_0000_0000_0000 * p),
        sn > sm,
        moved > 0,
        p > 0,
    ensures
        2 * (moved * u) * u < (sm + sn) * d,
{
    let w = moved * p * p;
    assert((moved * u) * u == 0x1000_0000_0000_0000_0000_0000_0000 * w) by (nonlinear_arith)
        requires
            u == 0x40_0000_0000_0000 * p,
            w == moved * p * p,
    ;
    assert(sm * d == 0x1000_0000_0000_0040_0000_0000_0000 * w) by (nonlinear_arith)
        requires
            d == 0x19_9999_9999_999a * p,
            sm == (5 * moved) * (0x20_0000_0000_0000 * p),
            w == moved * p * p,
    ;
    assert(2 * (moved * u) * u == 2 * ((moved * u) * u)) by (nonlinear_arith);
    assert((sm + sn) * d > 2 * (sm * d)) by (nonlinear_arith)
        requires
            sn > sm,
            d > 0,
    ;
    assert(w >= 0);
}

proof fn lemma_rate_below(moved: nat, u: nat, p: nat, g: nat, sm: nat, sb: nat, d: nat)
    requires
        u == 0x40_0000_0000_0000 * p,
        d == 0x19_9999_9999_999a * p,
        sm == (5 * moved) * (0x20_0000_0000_0000 * p),
        sm == sb + g,
        5 * moved * p <= g,
        moved > 0,
        p > 0,
    ensures
        2 * (moved * u) * u > (sb + sm) * d,
{
    let w = moved * p * p;
    assert(w > 0) by (nonlinear_arith)
        requires
            w == moved * p * p,
            moved > 0,
            p > 0,
    ;
    assert((moved * u) * u == 0x1000_0000_0000_0000_0000_0000_0000 * w) by (nonlinear_arith)
        requires
            u == 0x40_0000_0000_0000 * p,
            w == moved * p * p,
    ;
    assert(sm * d == 0x1000_0000_0000_0040_0000_0000_0000 * w) by (nonlinear_arith)
        requires
            d == 0x19_9999_9999_999a * p,
            sm == (5 * moved) * (0x20_0000_0000_0000 * p),
            w == moved * p * p,
    ;
    assert(g * d >= 0x80_0000_0000_0002 * w) by (nonlinear_arith)
        requires
            d == 0x19_9999_9999_999a * p,
            5 * moved * p <= g,
            w == moved * p * p,
            p > 0,
    ;
    assert(2 * (moved * u) * u == 2 * ((moved * u) * u)) by (nonlinear_arith);
    assert((sb + sm) * d == 2 * (sm * d) - g * d) by (nonlinear_arith)
        requires
            sm == sb + g,
    ;
}

// ------------------------------------------------------------- load and uptime

/// The load is what the first three words write, whatever follows them.
pub proof fn law_load(l: Seq<Column>, rest: Seq<char>, n: Seq<Numeral>)
    requires
        text_laws::row_good(l, rest),
        l.len() >= 3,
        n.len() == 3,
        forall|i: int|
            0 <= i < 3 ==> grammar::numeral_good(#[trigger] n[i]) && l[i].word
                == grammar::numeral_text(n[i]),
    ensures
        metrics::load_view(text_laws::row(l, rest)) == (
            grammar::numeral_value(n[0]),
            grammar::numeral_value(n[1]),
            grammar::numeral_value(n[2]),
        ),
{
    let w = text::words(text_laws::row(l, rest));
    text_laws::law_row_starts(l, rest, 0);
    text_laws::law_row_starts(l, rest, 1);
    text_laws::law_row_starts(l, rest, 2);
    assert(grammar::numeral_good(n[0]) && grammar::numeral_good(n[1]) && grammar::numeral_good(
        n[2],
    ));
    grammar::law_numeral_reads(n[0]);
    grammar::law_numeral_reads(n[1]);
    grammar::law_numeral_reads(n[2]);
    let d3 = metrics::doubles(w, 3, 3);
    let d2 = metrics::doubles(w, 2, 3);
    let d1 = metrics::doubles(w, 1, 3);
    assert(d3 =~= Seq::<u64>::empty());
    assert(d2 =~= seq![grammar::numeral_value(n[2])]);
    assert(d1 =~= seq![grammar::numeral_value(n[1]), grammar::numeral_value(n[2])]);
    assert(metrics::doubles(w, 0, 3) =~= seq![
        grammar::numeral_value(n[0]),
        grammar::numeral_value(n[1]),
        grammar::numeral_value(n[2]),
    ]);
}

/// The seconds since the start are the first word without its fraction, whatever follows it.
pub proof fn law_uptime(l: Seq<Column>, rest: Seq<char>, n: Numeral)
    requires
        text_laws::row_good(l, rest),
        l.len() > 0,
        grammar::numeral_good(n),
        !n.neg && n.exp is None,
        n.frac matches Some(f) ==> f.len() <= 2,
        l[0].word == grammar::numeral_text(n),
        digits::value(n.whole, 10) < 0x1000_0000_0000,
    ensures
        metrics::uptime_view(text_laws::row(l, rest)) == digits::value(n.whole, 10),
{
    let w = digits::value(n.whole, 10);
    text_laws::law_row_starts(l, rest, 0);
    grammar::law_numeral_reads(n);
    assert(big::power(10, 0) == 1 && big::power(10, 1) == 10 && big::power(10, 2) == 100) by {
        reveal_with_fuel(big::power, 3);
    }
    let e = Seq::<char>::empty();
    let f = match n.frac {
        Some(f) => f,
        None => e,
    };
    let d = big::power(10, f.len());
    let v = digits::value(f, 10);
    assert(n.whole + e =~= n.whole);
    numeral::lemma_value_concat(n.whole, f);
    grammar::lemma_decimal_digits(f);
    lemma_two_digits(f);
    num_laws::lemma_whole_part(w, v, d);
    assert(grammar::numeral_power(n) == -f.len());
    if f.len() == 0 {
        assert((w * 1 + 0) * 1 == w);
        assert(f =~= e);
        assert(digits::value(e, 10) == 0);
    }
}

proof fn lemma_two_digits(f: Seq<char>)
    requires
        digits::all_digits(f, 10),
        f.len() <= 2,
    ensures
        digits::value(f, 10) * 128 <= big::power(10, f.len()) * 127,
{
    assert(big::power(10, 0) == 1 && big::power(10, 1) == 10 && big::power(10, 2) == 100) by {
        reveal_with_fuel(big::power, 3);
    }
    reveal_with_fuel(digits::value, 3);
    if f.len() > 0 {
        assert(digits::is_digit(f[f.len() - 1], 10));
    }
    if f.len() > 1 {
        assert(digits::is_digit(f[0], 10));
        assert(f.drop_last().last() == f[0]);
    }
}

// ------------------------------------------------------------- name of the system

/// A line between other lines, as it is read.
pub proof fn lemma_line_between(a: Seq<char>, x: Seq<char>, b: Seq<char>) -> (y: Seq<char>)
    requires
        complete(a),
        text_laws::without(x, '\n'),
        x.len() > 0,
        line_over(b),
    ensures
        text::lines(a + x + b) == text::lines(a) + seq![y] + lines_after(b),
        y == x || y == text::chomp(x),
{
    text_laws::law_lines_in_turn(a, x + b);
    assert(a + x + b =~= a + (x + b));
    if b.len() > 0 {
        let y = text::chomp(x);
        text_laws::law_lines(x, b.skip(1));
        assert(x + b =~= x + seq!['\n'] + b.skip(1));
        assert(text::lines(a) + (seq![y] + lines_after(b)) =~= text::lines(a) + seq![y]
            + lines_after(b));
        y
    } else {
        text_laws::law_lines(x, b);
        assert(x + b =~= x);
        assert(text::lines(a) + seq![x] =~= text::lines(a) + seq![x] + lines_after(b));
        x
    }
}

/// Quotes around a text that neither starts nor ends with one are dropped.
proof fn lemma_unquoted(name: Seq<char>)
    requires
        name.len() > 0,
        name[0] != '"' && name.last() != '"',
    ensures
        text::strip_end(text::strip_start(seq!['"'] + name + seq!['"'], seq!['"']), seq!['"'])
            == name,
        text::strip_end(text::strip_start(name, seq!['"']), seq!['"']) == name,
{
    let q = seq!['"'];
    let s = q + name + q;
    text_laws::lemma_one('"', '"');
    text_laws::lemma_one('"', name[0]);
    text_laws::lemma_one('"', name.last());
    let t = s.skip(1);
    assert(t =~= name + q);
    assert(s[0] == '"' && t[0] == name[0]);
    assert(text::strip_start(t, q) == t);
    assert(text::strip_start(s, q) == t);
    assert(t.last() == '"' && t.drop_last() =~= name);
    assert(text::strip_end(name, q) == name);
    assert(text::strip_end(t, q) == name);
}

/// The name of the system is what its file says under `PRETTY_NAME`, without white space and quotes
/// around it.
pub proof fn law_system_name(
    a: Seq<char>,
    before: Seq<char>,
    name: Seq<char>,
    after: Seq<char>,
    b: Seq<char>,
    issue: Seq<char>,
    kind: Seq<char>,
    quotes: bool,
)
    requires
        complete(a),
        no_line(a, "PRETTY_NAME="@),
        text_laws::blanks(before) && text_laws::without(before, '\n'),
        text_laws::blanks(after) && text_laws::without(after, '\n'),
        text_laws::without(name, '\n'),
        name.len() > 0,
        name[0] != '"' && name.last() != '"',
        !quotes ==> text_laws::tight(name),
        line_over(b),
    ensures
        ({
            let v = if quotes {
                seq!['"'] + name + seq!['"']
            } else {
                name
            };
            let s = a + ("PRETTY_NAME="@ + (before + v + after)) + b;
            &&& metrics::os_view(s, issue, kind) == name
            &&& metrics::os_view(Seq::empty(), s, kind) == name
        }),
{
    let p = "PRETTY_NAME="@;
    let v = if quotes {
        seq!['"'] + name + seq!['"']
    } else {
        name
    };
    reveal_strlit("PRETTY_NAME=");
    let x = p + (before + v + after);
    let s = a + x + b;
    assert(text_laws::tight(v));
    assert forall|i: int| 0 <= i < x.len() implies #[trigger] x[i] != '\n' by {
        lemma_pieces_free(p, before, v, after, i);
    }
    let y = lemma_line_between(a, x, b);
    let k = p.len() as int;
    let z: Seq<char> = if y == x {
        after
    } else {
        text::chomp(after)
    };
    assert(y == p + (before + v + z)) by {
        if y != x {
            if after.len() > 0 {
                assert(x.last() == after.last());
                assert(text::chomp(x) =~= p + (before + v + text::chomp(after)));
            } else {
                assert(x.last() == v.last());
                assert(!text::is_space(v.last()));
            }
        }
    }
    assert(text_laws::blanks(z));
    assert(y.take(k) =~= p);
    assert(y.skip(k) =~= before + v + z);
    lemma_first_line(text::lines(a), y, lines_after(b), p, 0);
    text_laws::law_trimmed(before, v, z);
    lemma_unquoted(name);
}

proof fn lemma_pieces_free(
    p: Seq<char>,
    before: Seq<char>,
    v: Seq<char>,
    after: Seq<char>,
    i: int,
)
    requires
        text_laws::without(p, '\n'),
        text_laws::without(before, '\n'),
        text_laws::without(v, '\n'),
        text_laws::without(after, '\n'),
        0 <= i < (p + (before + v + after)).len(),
    ensures
        (p + (before + v + after))[i] != '\n',
{
    let x = p + (before + v + after);
    let j = i - p.len();
    if j < 0 {
        assert(x[i] == p[i]);
    } else if j < before.len() {
        assert(x[i] == before[j]);
    } else if j < before.len() + v.len() {
        assert(x[i] == v[j - before.len()]);
    } else {
        assert(x[i] == after[j - before.len() - v.len()]);
    }
}

/// A system whose file gives no name is called by the type of its kernel.
pub proof fn law_system_without_a_name(
    release: Seq<char>,
    issue: Seq<char>,
    before: Seq<char>,
    kind: Seq<char>,
    after: Seq<char>,
)
    requires
        no_line(release, "PRETTY_NAME="@),
        release.len() == 0 ==> no_line(issue, "PRETTY_NAME="@),
        text_laws::blanks(before),
        text_laws::blanks(after),
        text_laws::tight(kind),
    ensures
        kind.len() > 0 ==> metrics::os_view(release, issue, before + kind + after) == "Linux "@
            + kind,
        kind.len() == 0 ==> metrics::os_view(release, issue, before + kind + after) == "Linux"@,
{
    let ls = text::lines(
        if release.len() == 0 {
            issue
        } else {
            release
        },
    );
    lemma_no_first(ls, "PRETTY_NAME="@, 0);
    text_laws::law_trimmed(before, kind, after);
    reveal_strlit("Linux ");
    reveal_strlit("Linux");
    let e = Seq::<char>::empty();
    let t = "Linux "@ + kind;
    if kind.len() > 0 {
        assert(t[0] == 'L' && t.last() == kind.last());
        text_laws::law_trimmed(e, t, e);
        assert(e + t + e =~= t);
    } else {
        text_laws::law_trimmed(e, "Linux"@, seq![' ']);
        assert(e + "Linux"@ + seq![' '] =~= t);
    }
}

proof fn lemma_no_first(v: Seq<Seq<char>>, p: Seq<char>, i: int)
    requires
        0 <= i <= v.len(),
        forall|k: int| 0 <= k < v.len() ==> !text::begins(#[trigger] v[k], p),
    ensures
        text::first_beginning(v, p, i) == v.len(),
    decreases v.len() - i,
{
    if i < v.len() {
        lemma_no_first(v, p, i + 1);
    }
}

// ---------------------------------------------------------------- other systems

proof fn lemma_setting_to(x: Seq<Seq<char>>, y: Seq<Seq<char>>, p: Seq<char>, n: int)
    requires
        0 <= n <= x.len(),
    ensures
        metrics::setting_to(x + y, p, n) == metrics::setting_to(x, p, n),
    decreases n,
{
    if n > 0 {
        lemma_setting_to(x, y, p, n - 1);
        assert((x + y)[n - 1] == x[n - 1]);
    }
}

/// A line that starts with a setting gives its number, with white space around it or none; the
/// line of another one leaves what was given before.
pub proof fn law_setting(
    a: Seq<char>,
    name: Seq<char>,
    before: Seq<char>,
    n: nat,
    after: Seq<char>,
    p: Seq<char>,
)
    requires
        complete(a),
        text_laws::without(name, '\n'),
        name.len() > 0,
        text_laws::blanks(before) && text_laws::without(before, '\n'),
        text_laws::blanks(after) && text_laws::without(after, '\n'),
        n <= u64::MAX,
    ensures
        ({
            let s = a + (name + (before + digits::decimal(n) + after)) + seq!['\n'];
            &&& name == p ==> metrics::setting(utf8::encode_utf8(s), p) == n
            &&& name.len() == p.len() && name != p ==> metrics::setting(utf8::encode_utf8(s), p)
                == metrics::setting(utf8::encode_utf8(a), p)
        }),
{
    let d = digits::decimal(n);
    let x = name + (before + d + after);
    let nl = seq!['\n'];
    let s = a + x + nl;
    lemma_decimal_solid(n);
    assert forall|i: int| 0 <= i < x.len() implies #[trigger] x[i] != '\n' by {
        assert forall|i: int| 0 <= i < d.len() implies #[trigger] d[i] != '\n' by {
            assert(!text::is_space(d[i]));
        }
        lemma_pieces_free(name, before, d, after, i);
    }
    let y = lemma_line_between(a, x, nl);
    assert(!text::is_space(d[0]) && !text::is_space(d[d.len() - 1]));
    let k = name.len() as int;
    let z: Seq<char> = if y == x {
        after
    } else {
        text::chomp(after)
    };
    assert(y == name + (before + d + z)) by {
        if y != x {
            if after.len() > 0 {
                assert(x.last() == after.last());
                assert(text::chomp(x) =~= name + (before + d + text::chomp(after)));
            } else {
                assert(x.last() == d.last());
            }
        }
    }
    assert(text_laws::blanks(z));
    assert(y.take(k) =~= name);
    assert(y.skip(k) =~= before + d + z);
    text_laws::law_trimmed(before, d, z);
    law_number(n);
    bytes::lemma_text_of_encoded(s);
    bytes::lemma_text_of_encoded(a);
    assert(lines_after(nl) =~= Seq::<Seq<char>>::empty()) by {
        assert(nl.skip(1) =~= Seq::<char>::empty());
    }
    let ls = text::lines(s);
    let xs = text::lines(a);
    assert(ls =~= xs + seq![y]);
    assert(ls[ls.len() - 1] == y);
    lemma_setting_to(xs, seq![y], p, xs.len() as int);
}

/// The memory by a tool: what `wmic` gives is in units of 1024 bytes, less what is free; what
/// `sysctl` gives is the size alone, in bytes.
pub proof fn law_tool_memory(t: metrics::MemoryTool, before: Seq<char>, n: nat, after: Seq<char>)
    requires
        text_laws::blanks(before),
        text_laws::blanks(after),
        n <= u64::MAX,
    ensures
        t matches metrics::MemoryTool::Wmic(out) ==> ({
            let total = metrics::setting(out@, "TotalVisibleMemorySize="@);
            let free = metrics::setting(out@, "FreePhysicalMemory="@);
            &&& metrics::tool_memory(t).1 == total * 1024
            &&& free <= total ==> metrics::tool_memory(t).0 + free * 1024 == total * 1024
            &&& free > total ==> metrics::tool_memory(t).0 == 0
        }),
        t matches metrics::MemoryTool::Sysctl(out) ==> (out@ == utf8::encode_utf8(
            before + digits::decimal(n) + after,
        ) ==> metrics::tool_memory(t) == (0nat, n)),
{
    let d = digits::decimal(n);
    lemma_decimal_solid(n);
    assert(!text::is_space(d[0]) && !text::is_space(d[d.len() - 1]));
    text_laws::law_trimmed(before, d, after);
    law_number(n);
    bytes::lemma_text_of_encoded(before + d + after);
}

/// The use that `wmic` gives is the number after `LoadPercentage=`.
pub proof fn law_tool_use(
    a: Seq<char>,
    before: Seq<char>,
    n: nat,
    after: Seq<char>,
    b: Seq<char>,
    out: Option<Vec<u8>>,
)
    requires
        complete(a),
        no_line(a, "LoadPercentage="@),
        text_laws::blanks(before) && text_laws::without(before, '\n'),
        text_laws::blanks(after) && text_laws::without(after, '\n'),
        line_over(b),
        out matches Some(o) && o@ == utf8::encode_utf8(
            a + ("LoadPercentage="@ + (before + digits::decimal(n) + after)) + b,
        ),
    ensures
        metrics::tool_cpu(out) == num::of_int(n as int),
{
    let p = "LoadPercentage="@;
    let d = digits::decimal(n);
    let x = p + (before + d + after);
    let s = a + x + b;
    reveal_strlit("LoadPercentage=");
    lemma_decimal_solid(n);
    assert forall|i: int| 0 <= i < x.len() implies #[trigger] x[i] != '\n' by {
        assert forall|i: int| 0 <= i < d.len() implies #[trigger] d[i] != '\n' by {
            assert(!text::is_space(d[i]));
        }
        lemma_pieces_free(p, before, d, after, i);
    }
    let y = lemma_line_between(a, x, b);
    assert(!text::is_space(d[0]) && !text::is_space(d[d.len() - 1]));
    let k = p.len() as int;
    let z: Seq<char> = if y == x {
        after
    } else {
        text::chomp(after)
    };
    assert(y == p + (before + d + z)) by {
        if y != x {
            if after.len() > 0 {
                assert(x.last() == after.last());
                assert(text::chomp(x) =~= p + (before + d + text::chomp(after)));
            } else {
                assert(x.last() == d.last());
            }
        }
    }
    assert(text_laws::blanks(z));
    assert(y.take(k) =~= p);
    assert(y.skip(k) =~= before + d + z);
    text_laws::law_trimmed(before, d, z);
    bytes::lemma_text_of_encoded(s);
    lemma_first_line(text::lines(a), y, lines_after(b), p, 0);
    shortest::law_whole_number_reads(n as int);
}

// ------------------------------------------------------------------ collection

/// The rates of a machine are those of its interfaces: what one of them received between the two
/// readings counts as received, and what it sent as sent.
pub proof fn law_collected_rates(
    r: Readings,
    m: Metrics,
    a: Seq<char>,
    name: Seq<char>,
    l: Seq<Column>,
    rest: Seq<char>,
    received: nat,
    sent: nat,
)
    requires
        metrics::collected(r, m),
        complete(a),
        text::lines(a).len() >= 2,
        text_laws::row_good(l, rest),
        text_laws::blanks(rest),
        l.len() >= 10,
        name != "lo"@,
        name.len() > 0 ==> name.last() != ':',
        l[0].word == name + seq![':'],
        l[1].word == digits::decimal(received),
        l[9].word == digits::decimal(sent),
        5 * received < 0x20_0000_0000_0000,
        5 * sent < 0x20_0000_0000_0000,
        r.dev[0] matches Some(s) && s@ == a,
        r.dev[1] matches Some(s) && s@ == a + text_laws::row(l, rest) + seq!['\n'],
    ensures
        num::scaled(num::magnitude(m.net_rx_rate.bits)) * 2 == 5 * received * num::unit(),
        num::scaled(num::magnitude(m.net_tx_rate.bits)) * 2 == 5 * sent * num::unit(),
{
    let before = metrics::net_view(a);
    law_interface_adds_its_bytes(a, name, l, rest);
    law_number(received);
    law_number(sent);
    law_rate(before.0, received);
    law_rate(before.1, sent);
}

/// The memory and the disk of a machine are what its files and `df` say, each in its place.
pub proof fn law_collected_sizes(
    r: Readings,
    m: Metrics,
    a: Seq<char>,
    gap: Seq<char>,
    rest: Seq<char>,
    total: nat,
    available: nat,
    swap: nat,
    free: nat,
    heading: Seq<char>,
    l: Seq<Column>,
    b: Seq<char>,
    size: nat,
    used: nat,
)
    requires
        metrics::collected(r, m),
        complete(a),
        gap_good(gap),
        text_laws::apart(rest),
        text_laws::without(rest, '\n'),
        available <= total <= u64::MAX,
        free <= swap <= u64::MAX,
        r.meminfo matches Some(s) && s@ == a + memory_line("MemTotal:"@, gap, total, rest)
            + memory_line("MemAvailable:"@, gap, available, rest) + memory_line(
            "SwapTotal:"@,
            gap,
            swap,
            rest,
        ) + memory_line("SwapFree:"@, gap, free, rest),
        text_laws::without(heading, '\n'),
        text_laws::row_good(l, rest),
        l.len() >= 3,
        line_over(b),
        0 < size <= u64::MAX,
        used <= u64::MAX,
        l[1].word == digits::decimal(size),
        l[2].word == digits::decimal(used),
        r.df matches Some(o) && o@ == utf8::encode_utf8(
            heading + seq!['\n'] + text_laws::row(l, rest) + b,
        ),
    ensures
        m.mem_total == total * 1024,
        m.mem_used == (total - available) * 1024,
        m.swap_total == swap * 1024,
        m.swap_used == (swap - free) * 1024,
        m.disk_total == size,
        m.disk_used == used,
{
    law_memory(a, gap, rest, total, available, swap, free);
    law_number(size);
    law_number(used);
    law_disk_columns(heading, l, rest, b, true);
}

/// The loads and the uptime of a machine are what its files say, and a file that cannot be read
/// gives zeros.
pub proof fn law_collected_loads(
    r: Readings,
    m: Metrics,
    l: Seq<Column>,
    rest: Seq<char>,
    n: Seq<Numeral>,
)
    requires
        metrics::collected(r, m),
        text_laws::row_good(l, rest),
        l.len() >= 3,
        n.len() == 3,
        forall|i: int|
            0 <= i < 3 ==> grammar::numeral_good(#[trigger] n[i]) && l[i].word
                == grammar::numeral_text(n[i]),
    ensures
        r.loadavg matches Some(s) ==> (s@ == text_laws::row(l, rest) ==> m.load1.bits
            == grammar::numeral_value(n[0]) && m.load5.bits == grammar::numeral_value(n[1])
            && m.load15.bits == grammar::numeral_value(n[2])),
        r.loadavg is None ==> m.load1.bits == 0 && m.load5.bits == 0 && m.load15.bits == 0,
        r.uptime is None ==> m.uptime_secs == 0,
        r.meminfo is None ==> m.mem_used == 0 && m.mem_total == 0 && m.swap_used == 0
            && m.swap_total == 0,
        r.df is None ==> m.disk_used == 0 && m.disk_total == 0,
        m.cores == r.cores,
{
    law_load(l, rest, n);
}

/// The use of the processors is worked out from the times of the two readings: with nothing but
/// idle time between them it is zero, and with none of it a hundred.
pub proof fn law_collected_use(
    r: Readings,
    m: Metrics,
    l1: Seq<Column>,
    n1: Seq<nat>,
    l2: Seq<Column>,
    n2: Seq<nat>,
)
    requires
        metrics::collected(r, m),
        text_laws::row_good(l1, Seq::empty()) && counts(l1, n1) && n1.len() == 4,
        text_laws::row_good(l2, Seq::empty()) && counts(l2, n2) && n2.len() == 4,
        l1[0].gap.len() == 0 && l1[0].word == "cpu"@ && l1[1].gap[0] == ' ',
        l2[0].gap.len() == 0 && l2[0].word == "cpu"@ && l2[1].gap[0] == ' ',
        r.stat[0] matches Some(s) && s@ == text_laws::row(l1, Seq::empty()),
        r.stat[1] matches Some(s) && s@ == text_laws::row(l2, Seq::empty()),
        forall|i: int| 0 <= i < 4 ==> n1[i] <= #[trigger] n2[i] <= 0x4_0000_0000_0000,
    ensures
        ({
            let busy = (n2[0] - n1[0]) + (n2[1] - n1[1]) + (n2[2] - n1[2]);
            let idle = n2[3] - n1[3];
            &&& busy == 0 ==> m.cpu_percent.bits == 0
            &&& idle == 0 && busy > 0 ==> m.cpu_percent.bits == num::of_int(100)
        }),
{
    let e = Seq::<char>::empty();
    let none = Seq::<Seq<char>>::empty();
    assert(text::lines(e) =~= none);
    law_processor_times(e, l1, n1, e, e);
    law_processor_times(e, l2, n2, e, e);
    assert(e + text_laws::row(l1, e) + e =~= text_laws::row(l1, e));
    assert(e + text_laws::row(l2, e) + e =~= text_laws::row(l2, e));
    assert(n1[0] <= n2[0] && n1[1] <= n2[1] && n1[2] <= n2[2] && n1[3] <= n2[3]);
    let u1 = n1[0] + n1[1] + n1[2] + n1[3];
    let u2 = n2[0] + n2[1] + n2[2] + n2[3];
    law_processor_use(u1, n1[3], (u2 - u1) as nat, (n2[3] - n1[3]) as nat);
}

/// Elsewhere the memory is what the file says where that gives a size, and else what the tool says.
pub proof fn law_memory_elsewhere(info: Option<String>, tool: metrics::MemoryTool)
    ensures
        info matches Some(s) ==> (metrics::mem_view(s@).1 > 0 ==> metrics::other_memory(info, tool)
            == (metrics::mem_view(s@).0, metrics::mem_view(s@).1)),
        info matches Some(s) ==> (metrics::mem_view(s@).1 == 0 ==> metrics::other_memory(info, tool)
            == metrics::tool_memory(tool)),
        info is None ==> metrics::other_memory(info, tool) == metrics::tool_memory(tool),
{
}

} // verus!
