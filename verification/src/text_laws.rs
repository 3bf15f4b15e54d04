//! What the cutting of texts gives back: the parts that a text was put together from.

use vstd::prelude::*;
use crate::text;

verus! {

/// Whether a text is nothing but white space.
pub open spec fn blanks(s: Seq<char>) -> bool {
    forall|i: int| 0 <= i < s.len() ==> text::is_space(#[trigger] s[i])
}

/// Whether a text neither starts nor ends with white space.
pub open spec fn tight(s: Seq<char>) -> bool {
    s.len() > 0 ==> !text::is_space(s[0]) && !text::is_space(s.last())
}

/// Whether a text has no white space.
pub open spec fn solid(s: Seq<char>) -> bool {
    forall|i: int| 0 <= i < s.len() ==> !text::is_space(#[trigger] s[i])
}

/// Whether a character does not occur in a text.
pub open spec fn without(s: Seq<char>, c: char) -> bool {
    forall|i: int| 0 <= i < s.len() ==> #[trigger] s[i] != c
}

/// Whether a text is empty or goes on with white space.
pub open spec fn apart(s: Seq<char>) -> bool {
    s.len() > 0 ==> text::is_space(s[0])
}

/// Blanks, tabs, the breaks of lines and pages, and the wider blanks of other scripts are white
/// space; what is visible in ASCII is not.
pub proof fn law_white_space(c: char)
    ensures
        c <= '\u{7f}' ==> (text::is_space(c) <==> c == ' ' || '\t' <= c <= '\r'),
        '\u{2000}' <= c <= '\u{200a}' ==> text::is_space(c),
        c == '\u{a0}' || c == '\u{3000}' || c == '\u{2028}' || c == '\u{2029}' ==> text::is_space(c),
        '\u{3001}' <= c ==> !text::is_space(c),
        '\u{a1}' <= c < '\u{1680}' ==> !text::is_space(c),
{
}

/// White space before a text that does not start with any is dropped.
pub proof fn lemma_trim_start_of(a: Seq<char>, s: Seq<char>)
    requires
        blanks(a),
        s.len() > 0 ==> !text::is_space(s[0]),
    ensures
        text::trim_start(a + s) == s,
    decreases a.len(),
{
    let t = a + s;
    if a.len() > 0 {
        assert(t[0] == a[0]);
        assert(t.skip(1) =~= a.skip(1) + s);
        assert forall|i: int| 0 <= i < a.skip(1).len() implies text::is_space(
            #[trigger] a.skip(1)[i],
        ) by {
            assert(a.skip(1)[i] == a[i + 1]);
        }
        lemma_trim_start_of(a.skip(1), s);
    } else {
        assert(t =~= s);
    }
}

/// White space after a text that does not end with any is dropped.
pub proof fn lemma_trim_end_of(s: Seq<char>, b: Seq<char>)
    requires
        blanks(b),
        s.len() > 0 ==> !text::is_space(s.last()),
    ensures
        text::trim_end(s + b) == s,
    decreases b.len(),
{
    let t = s + b;
    if b.len() > 0 {
        let c = b.drop_last();
        assert(t.last() == b.last());
        assert(text::is_space(b[b.len() - 1]));
        assert(t.drop_last() =~= s + c);
        assert forall|i: int| 0 <= i < c.len() implies text::is_space(#[trigger] c[i]) by {
            assert(c[i] == b[i]);
        }
        lemma_trim_end_of(s, c);
    } else {
        assert(t =~= s);
    }
}

/// Trimming gives a text back from between white space.
pub proof fn law_trimmed(a: Seq<char>, s: Seq<char>, b: Seq<char>)
    requires
        blanks(a),
        tight(s),
        blanks(b),
    ensures
        text::trimmed(a + s + b) == s,
{
    assert(a + s + b =~= a + (s + b));
    if s.len() > 0 {
        assert((s + b)[0] == s[0]);
        lemma_trim_start_of(a, s + b);
        lemma_trim_end_of(s, b);
    } else {
        let e = Seq::<char>::empty();
        assert(a + s + b =~= (a + b) + e);
        assert(blanks(a + b));
        lemma_trim_start_of(a + b, e);
        assert(text::trim_end(e) == e);
        assert(s =~= e);
    }
}

/// The first `c` of a text is the one behind a text without any.
pub proof fn lemma_first_behind(a: Seq<char>, c: char, b: Seq<char>, i: int)
    requires
        without(a, c),
        0 <= i <= a.len(),
    ensures
        text::first_in(a + seq![c] + b, seq![c], i) == a.len(),
        text::first_in(a, seq![c], i) == a.len(),
    decreases a.len() - i,
{
    let s = a + seq![c] + b;
    lemma_one(c, s[i]);
    if i < a.len() {
        assert(s[i] == a[i]);
        lemma_first_behind(a, c, b, i + 1);
    } else {
        assert(s[i] == c);
    }
}

/// What the text of one character holds.
pub proof fn lemma_one(c: char, d: char)
    ensures
        seq![c].contains(d) == (c == d),
{
    assert(seq![c][0] == c);
    if seq![c].contains(d) {
        let w = choose|w: int| 0 <= w < seq![c].len() && seq![c][w] == d;
    }
}

/// Splitting gives the text before the first separator, and what splitting the rest gives.
pub proof fn law_fields(a: Seq<char>, c: char, b: Seq<char>)
    requires
        without(a, c),
    ensures
        text::fields(a, seq![c]) == seq![a],
        text::fields(a + seq![c] + b, seq![c]) == seq![a] + text::fields(b, seq![c]),
{
    let s = a + seq![c] + b;
    lemma_first_behind(a, c, b, 0);
    assert(s.take(a.len() as int) =~= a);
    assert(s.skip(a.len() as int + 1) =~= b);
}

/// A word ends where white space follows.
proof fn lemma_word_end_of(w: Seq<char>, s: Seq<char>, i: int)
    requires
        solid(w),
        apart(s),
        0 <= i <= w.len(),
    ensures
        text::word_end(w + s, i) == w.len(),
    decreases w.len() - i,
{
    let t = w + s;
    if i < w.len() {
        assert(t[i] == w[i]);
        lemma_word_end_of(w, s, i + 1);
    } else if s.len() > 0 {
        assert(t[i] == s[0]);
    }
}

/// The words of a text are its first word, whatever the white space before it, and those of the
/// rest.
pub proof fn law_words(g: Seq<char>, w: Seq<char>, s: Seq<char>)
    requires
        blanks(g),
        solid(w),
        w.len() > 0,
        apart(s),
    ensures
        text::words(g + w + s) == seq![w] + text::words(s),
{
    let t = w + s;
    assert(g + w + s =~= g + t);
    assert(t[0] == w[0]);
    lemma_trim_start_of(g, t);
    lemma_word_end_of(w, s, 0);
    assert(t.take(w.len() as int) =~= w);
    assert(t.skip(w.len() as int) =~= s);
}

/// White space holds no words.
pub proof fn law_no_words(g: Seq<char>)
    requires
        blanks(g),
    ensures
        text::words(g) == Seq::<Seq<char>>::empty(),
{
    let e = Seq::<char>::empty();
    lemma_trim_start_of(g, e);
    assert(g + e =~= g);
}

/// The lines of a text are its first line, without the carriage return at its end, and those of the
/// rest.
pub proof fn law_lines(a: Seq<char>, b: Seq<char>)
    requires
        without(a, '\n'),
    ensures
        a.len() > 0 ==> text::lines(a) == seq![a],
        text::lines(a + seq!['\n'] + b) == seq![text::chomp(a)] + text::lines(b),
        text::chomp(a + seq!['\r']) == a,
        (a.len() == 0 || a.last() != '\r') ==> text::chomp(a) == a,
{
    let s = a + seq!['\n'] + b;
    lemma_first_behind(a, '\n', b, 0);
    assert(s.take(a.len() as int) =~= a);
    assert(s.skip(a.len() as int + 1) =~= b);
    assert((a + seq!['\r']).drop_last() =~= a);
    assert((a + seq!['\r']).last() == '\r');
}

/// A text that ends with a line break, or is empty, keeps its lines when another text follows it.
pub proof fn law_lines_in_turn(a: Seq<char>, b: Seq<char>)
    requires
        a.len() > 0 ==> a.last() == '\n',
    ensures
        text::lines(a + b) == text::lines(a) + text::lines(b),
    decreases a.len(),
{
    if a.len() == 0 {
        assert(a + b =~= b);
        assert(text::lines(a) + text::lines(b) =~= text::lines(b));
    } else {
        let i = text::first_in(a, seq!['\n'], 0);
        text::lemma_first_in(a, seq!['\n'], 0);
        lemma_one('\n', a.last());
        assert(a[a.len() - 1] == '\n');
        assert(0 <= i < a.len());
        lemma_one('\n', a[i]);
        let x = a.take(i);
        let y = a.skip(i + 1);
        assert forall|k: int| 0 <= k < x.len() implies #[trigger] x[k] != '\n' by {
            assert(x[k] == a[k]);
            lemma_one('\n', a[k]);
        }
        assert(a =~= x + seq!['\n'] + y);
        assert(a + b =~= x + seq!['\n'] + (y + b));
        law_lines(x, y);
        law_lines(x, y + b);
        if y.len() > 0 {
            assert(y.last() == a.last());
        }
        law_lines_in_turn(y, b);
        assert(seq![text::chomp(x)] + (text::lines(y) + text::lines(b)) =~= seq![text::chomp(x)]
            + text::lines(y) + text::lines(b));
    }
}

// -------------------------------------------------------------------- columns

/// A word of a line, and the white space before it.
pub ghost struct Column {
    pub gap: Seq<char>,
    pub word: Seq<char>,
}

/// A line of words, and what follows the last one.
pub open spec fn row(l: Seq<Column>, rest: Seq<char>) -> Seq<char>
    decreases l.len(),
{
    if l.len() == 0 {
        rest
    } else {
        l[0].gap + l[0].word + row(l.skip(1), rest)
    }
}

/// Whether the words of a line are apart, and it is one line.
pub open spec fn row_good(l: Seq<Column>, rest: Seq<char>) -> bool {
    &&& forall|i: int| 0 <= i < l.len() ==> column_good(#[trigger] l[i])
    &&& forall|i: int| 0 < i < l.len() ==> (#[trigger] l[i]).gap.len() > 0
    &&& apart(rest) && without(rest, '\n')
}

/// Whether a word has no white space in it, nothing but white space before it, and no line break.
pub open spec fn column_good(c: Column) -> bool {
    blanks(c.gap) && without(c.gap, '\n') && solid(c.word) && c.word.len() > 0
}

/// The words of a line.
pub open spec fn row_words(l: Seq<Column>) -> Seq<Seq<char>> {
    l.map_values(|c: Column| c.word)
}

proof fn lemma_row_less(l: Seq<Column>, rest: Seq<char>)
    requires
        row_good(l, rest),
        l.len() > 0,
    ensures
        row_good(l.skip(1), rest),
        apart(row(l.skip(1), rest)),
{
    let m = l.skip(1);
    assert forall|i: int| 0 <= i < m.len() implies column_good(#[trigger] m[i]) && m[i].gap.len()
        > 0 by {
        assert(m[i] == l[i + 1]);
    }
    if m.len() > 0 {
        let t = row(m, rest);
        assert(column_good(m[0]));
        assert(t[0] == m[0].gap[0]);
    }
}

/// The words of a line are those that it was written with, and those in the rest.
pub proof fn law_row_words(l: Seq<Column>, rest: Seq<char>)
    requires
        row_good(l, rest),
    ensures
        text::words(row(l, rest)) == row_words(l) + text::words(rest),
    decreases l.len(),
{
    if l.len() == 0 {
        assert(row_words(l) + text::words(rest) =~= text::words(rest));
    } else {
        let m = l.skip(1);
        lemma_row_less(l, rest);
        law_row_words(m, rest);
        assert(column_good(l[0]));
        law_words(l[0].gap, l[0].word, row(m, rest));
        assert(row_words(l) =~= seq![l[0].word] + row_words(m));
        assert(row_words(l) + text::words(rest) =~= seq![l[0].word] + (row_words(m) + text::words(
            rest,
        )));
    }
}

/// The same line with or without the carriage return that it may end with has the same first
/// words, and no line break.
pub proof fn lemma_row_line(l: Seq<Column>, rest: Seq<char>)
    requires
        row_good(l, rest),
    ensures
        without(row(l, rest), '\n'),
        row_good(l, text::chomp(rest)),
        l.len() > 0 ==> text::chomp(row(l, rest)) == row(l, text::chomp(rest)),
        l.len() > 0 ==> row(l, rest).len() > 0,
    decreases l.len(),
{
    let t = row(l, rest);
    assert(without(text::chomp(rest), '\n')) by {
        assert forall|i: int| 0 <= i < text::chomp(rest).len() implies #[trigger] text::chomp(
            rest,
        )[i] != '\n' by {
            assert(text::chomp(rest)[i] == rest[i]);
        }
    }
    assert(apart(text::chomp(rest)));
    if l.len() > 0 {
        let m = l.skip(1);
        let c = l[0];
        let u = row(m, rest);
        lemma_row_less(l, rest);
        lemma_row_line(m, rest);
        assert(column_good(l[0]));
        assert forall|i: int| 0 <= i < t.len() implies #[trigger] t[i] != '\n' by {
            if i < c.gap.len() {
                assert(t[i] == c.gap[i]);
            } else if i < c.gap.len() + c.word.len() {
                assert(t[i] == c.word[i - c.gap.len()]);
                assert(!text::is_space(c.word[i - c.gap.len()]));
            } else {
                assert(t[i] == u[i - c.gap.len() - c.word.len()]);
            }
        }
        if u.len() > 0 {
            assert(t.last() == u.last());
            if m.len() > 0 {
                assert(text::chomp(t) =~= c.gap + c.word + text::chomp(u));
            } else {
                assert(u == rest);
                assert(row(m, text::chomp(rest)) == text::chomp(rest));
                assert(text::chomp(t) =~= c.gap + c.word + text::chomp(u));
            }
        } else {
            assert(m.len() == 0);
            assert(t.last() == c.word[c.word.len() - 1]);
            assert(!text::is_space(c.word[c.word.len() - 1]));
            assert(text::chomp(t) == t);
            assert(text::chomp(rest) == rest);
        }
    }
}

/// The first words of a line, of which there may be more.
pub proof fn law_row_starts(l: Seq<Column>, rest: Seq<char>, i: int)
    requires
        row_good(l, rest),
        0 <= i < l.len(),
    ensures
        text::words(row(l, rest)).len() >= l.len(),
        text::words(row(l, rest))[i] == l[i].word,
{
    law_row_words(l, rest);
}

} // verus!
