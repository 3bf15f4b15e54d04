//! Text primitives: trimming, splitting, searching, replacing and joining,
//! each stated over the characters of its argument.

use vstd::prelude::*;

verus! {

/// `String::push` appends one character and leaves what was there unchanged.
pub assume_specification[ String::push ](s: &mut String, c: char)
    ensures
        final(s)@ == old(s)@.push(c),
;

/// The characters of each string of a list.
pub open spec fn texts(v: Seq<String>) -> Seq<Seq<char>> {
    Seq::new(v.len(), |i: int| v[i]@)
}

/// The characters of `s`, one by one.
pub fn chars_of(s: &str) -> (r: Vec<char>)
    ensures
        r@ == s@,
{
    let mut out: Vec<char> = Vec::new();
    for c in it: s.chars()
        invariant
            out@ == it.seq().take(it.index() as int),
            it.seq() == s@,
    {
        out.push(c);
    }
    out
}

/// The string made of `cs[from..to]`.
pub fn string_of(cs: &Vec<char>, from: usize, to: usize) -> (r: String)
    requires
        from <= to <= cs@.len(),
    ensures
        r@ == cs@.subrange(from as int, to as int),
{
    let mut out = String::new();
    let mut i: usize = from;
    while i < to
        invariant
            from <= i <= to <= cs@.len(),
            out@ == cs@.subrange(from as int, i as int),
        decreases to - i,
    {
        out.push(cs[i]);
        i = i + 1;
    }
    out
}

/// Appends `s` to `out`.
pub fn put(out: &mut String, s: &str)
    ensures
        final(out)@ == old(out)@ + s@,
{
    for c in it: s.chars()
        invariant
            out@ == old(out)@ + it.seq().take(it.index() as int),
            it.seq() == s@,
    {
        out.push(c);
    }
    assert(s@.take(s@.len() as int) == s@);
}

/// Whether two strings hold the same characters.
pub fn same(a: &str, b: &str) -> (r: bool)
    ensures
        r == (a@ == b@),
{
    a.to_string() == b.to_string()
}

/// An owned copy of a list of strings.
pub fn copy_all(v: &Vec<String>) -> (r: Vec<String>)
    ensures
        texts(r@) == texts(v@),
{
    let mut out: Vec<String> = Vec::new();
    let mut i: usize = 0;
    while i < v.len()
        invariant
            i <= v@.len(),
            out@.len() == i,
            forall|k: int| 0 <= k < i ==> #[trigger] out@[k]@ == v@[k]@,
        decreases v@.len() - i,
    {
        out.push(v[i].clone());
        i = i + 1;
    }
    assert(texts(out@) =~= texts(v@));
    out
}

// ------------------------------------------------------------- whitespace

/// The characters with the Unicode property `White_Space`.
pub open spec fn is_space(c: char) -> bool {
    let u = c as u32;
    ||| 0x09 <= u <= 0x0d
    ||| u == 0x20
    ||| u == 0x85
    ||| u == 0xa0
    ||| u == 0x1680
    ||| 0x2000 <= u <= 0x200a
    ||| u == 0x2028
    ||| u == 0x2029
    ||| u == 0x202f
    ||| u == 0x205f
    ||| u == 0x3000
}

/// Whether `c` is Unicode white space.
pub fn blank(c: char) -> (r: bool)
    ensures
        r == is_space(c),
{
    let u = c as u32;
    (0x09 <= u && u <= 0x0d) || u == 0x20 || u == 0x85 || u == 0xa0 || u == 0x1680 || (0x2000 <= u
        && u <= 0x200a) || u == 0x2028 || u == 0x2029 || u == 0x202f || u == 0x205f || u == 0x3000
}

/// `s` without the white space that it starts with.
pub open spec fn trim_start(s: Seq<char>) -> Seq<char>
    decreases s.len(),
{
    if s.len() > 0 && is_space(s[0]) {
        trim_start(s.skip(1))
    } else {
        s
    }
}

/// `s` without the white space that it ends with.
pub open spec fn trim_end(s: Seq<char>) -> Seq<char>
    decreases s.len(),
{
    if s.len() > 0 && is_space(s.last()) {
        trim_end(s.drop_last())
    } else {
        s
    }
}

/// `s` without the white space around it.
pub open spec fn trimmed(s: Seq<char>) -> Seq<char> {
    trim_end(trim_start(s))
}

/// Removes the white space around `s`.
pub fn trim(s: &str) -> (r: String)
    ensures
        r@ == trimmed(s@),
{
    let cs = chars_of(s);
    let mut i: usize = 0;
    assert(cs@.skip(0) =~= cs@);
    while i < cs.len() && blank(cs[i])
        invariant
            i <= cs@.len(),
            trim_start(cs@) == trim_start(cs@.skip(i as int)),
        decreases cs@.len() - i,
    {
        assert(cs@.skip(i as int).skip(1) =~= cs@.skip(i + 1));
        i = i + 1;
    }
    let ghost t = cs@.skip(i as int);
    assert(trim_start(cs@) == t);
    let mut j: usize = cs.len();
    assert(cs@.subrange(i as int, j as int) =~= t);
    while i < j && blank(cs[j - 1])
        invariant
            i <= j <= cs@.len(),
            trim_end(t) == trim_end(cs@.subrange(i as int, j as int)),
        decreases j,
    {
        assert(cs@.subrange(i as int, j as int).drop_last() =~= cs@.subrange(i as int, j - 1));
        j = j - 1;
    }
    string_of(&cs, i, j)
}

/// `s` without the characters of `set` that it ends with.
pub open spec fn strip_end(s: Seq<char>, set: Seq<char>) -> Seq<char>
    decreases s.len(),
{
    if s.len() > 0 && set.contains(s.last()) {
        strip_end(s.drop_last(), set)
    } else {
        s
    }
}

/// `s` without the characters of `set` that it starts with.
pub open spec fn strip_start(s: Seq<char>, set: Seq<char>) -> Seq<char>
    decreases s.len(),
{
    if s.len() > 0 && set.contains(s[0]) {
        strip_start(s.skip(1), set)
    } else {
        s
    }
}

/// Whether `c` is one of the characters of `set`.
pub fn one_of(c: char, set: &Vec<char>) -> (r: bool)
    ensures
        r == set@.contains(c),
{
    let mut i: usize = 0;
    while i < set.len()
        invariant
            i <= set@.len(),
            forall|k: int| 0 <= k < i ==> set@[k] != c,
        decreases set@.len() - i,
    {
        if set[i] == c {
            return true;
        }
        i = i + 1;
    }
    false
}

/// Removes the characters of `set` that `s` ends with.
pub fn trim_end_of(s: &str, set: &str) -> (r: String)
    ensures
        r@ == strip_end(s@, set@),
{
    let cs = chars_of(s);
    let st = chars_of(set);
    let mut j: usize = cs.len();
    assert(cs@.take(j as int) =~= cs@);
    while 0 < j && one_of(cs[j - 1], &st)
        invariant
            j <= cs@.len(),
            st@ == set@,
            strip_end(cs@, st@) == strip_end(cs@.take(j as int), st@),
        decreases j,
    {
        assert(cs@.take(j as int).drop_last() =~= cs@.take(j - 1));
        j = j - 1;
    }
    assert(cs@.take(j as int) =~= cs@.subrange(0, j as int));
    string_of(&cs, 0, j)
}

/// Removes the characters of `set` that `s` starts with.
pub fn trim_start_of(s: &str, set: &str) -> (r: String)
    ensures
        r@ == strip_start(s@, set@),
{
    let cs = chars_of(s);
    let st = chars_of(set);
    let mut i: usize = 0;
    assert(cs@.skip(0) =~= cs@);
    while i < cs.len() && one_of(cs[i], &st)
        invariant
            i <= cs@.len(),
            st@ == set@,
            strip_start(cs@, st@) == strip_start(cs@.skip(i as int), st@),
        decreases cs@.len() - i,
    {
        assert(cs@.skip(i as int).skip(1) =~= cs@.skip(i + 1));
        i = i + 1;
    }
    let n = cs.len();
    assert(cs@.skip(i as int) =~= cs@.subrange(i as int, n as int));
    string_of(&cs, i, n)
}

// -------------------------------------------------------------- searching

/// The first position at or after `i` that holds a character of `set`, or the
/// length of `s` where there is none.
pub open spec fn first_in(s: Seq<char>, set: Seq<char>, i: int) -> int
    decreases s.len() - i,
{
    if i >= s.len() {
        s.len() as int
    } else if set.contains(s[i]) {
        i
    } else {
        first_in(s, set, i + 1)
    }
}

/// `first_in` stays within the text, and stops at the first hit.
pub proof fn lemma_first_in(s: Seq<char>, set: Seq<char>, i: int)
    requires
        0 <= i <= s.len(),
    ensures
        i <= first_in(s, set, i) <= s.len(),
        first_in(s, set, i) < s.len() ==> set.contains(s[first_in(s, set, i)]),
        forall|k: int| i <= k < first_in(s, set, i) ==> !set.contains(#[trigger] s[k]),
    decreases s.len() - i,
{
    if i < s.len() && !set.contains(s[i]) {
        lemma_first_in(s, set, i + 1);
    }
}

/// Finds the first position at or after `from` that holds a character of `set`.
pub fn find_in(cs: &Vec<char>, set: &Vec<char>, from: usize) -> (r: usize)
    requires
        from <= cs@.len(),
    ensures
        r == first_in(cs@, set@, from as int),
        from <= r <= cs@.len(),
{
    let mut i: usize = from;
    while i < cs.len() && !one_of(cs[i], set)
        invariant
            from <= i <= cs@.len(),
            first_in(cs@, set@, from as int) == first_in(cs@, set@, i as int),
        decreases cs@.len() - i,
    {
        i = i + 1;
    }
    i
}

/// The last position before `n` that holds `c`, or -1 where there is none.
pub open spec fn last_of(s: Seq<char>, c: char, n: int) -> int
    decreases n,
{
    if n <= 0 {
        -1
    } else if s[n - 1] == c {
        n - 1
    } else {
        last_of(s, c, n - 1)
    }
}

/// Finds the last position that holds `c`.
pub fn find_last(cs: &Vec<char>, c: char) -> (r: Option<usize>)
    ensures
        r is Some <==> last_of(cs@, c, cs@.len() as int) >= 0,
        r matches Some(i) ==> i < cs@.len() && i == last_of(cs@, c, cs@.len() as int),
{
    let mut j: usize = cs.len();
    while 0 < j
        invariant
            j <= cs@.len(),
            last_of(cs@, c, cs@.len() as int) == last_of(cs@, c, j as int),
        decreases j,
    {
        if cs[j - 1] == c {
            return Some(j - 1);
        }
        j = j - 1;
    }
    None
}

/// The place of the last `c` is one, or there is none.
pub proof fn lemma_last_of(s: Seq<char>, c: char, n: int)
    requires
        0 <= n <= s.len(),
    ensures
        -1 <= last_of(s, c, n) < n,
        last_of(s, c, n) >= 0 ==> s[last_of(s, c, n)] == c,
        forall|i: int| last_of(s, c, n) < i < n ==> #[trigger] s[i] != c,
    decreases n,
{
    if n > 0 && s[n - 1] != c {
        lemma_last_of(s, c, n - 1);
    }
}

/// Whether `s` starts with `p`.
pub open spec fn begins(s: Seq<char>, p: Seq<char>) -> bool {
    p.len() <= s.len() && s.take(p.len() as int) == p
}

/// Whether the characters from position `i` on start with `p`.
pub fn begins_at(cs: &Vec<char>, i: usize, p: &Vec<char>) -> (r: bool)
    requires
        i <= cs@.len(),
    ensures
        r == begins(cs@.skip(i as int), p@),
{
    let n = cs.len();
    if p.len() > n - i {
        return false;
    }
    let mut k: usize = 0;
    while k < p.len()
        invariant
            k <= p@.len(),
            i + p@.len() <= n == cs@.len(),
            forall|m: int| 0 <= m < k ==> cs@[i + m] == p@[m],
        decreases p@.len() - k,
    {
        if cs[i + k] != p[k] {
            assert(cs@.skip(i as int).take(p@.len() as int)[k as int] != p@[k as int]);
            return false;
        }
        k = k + 1;
    }
    assert(cs@.skip(i as int).take(p@.len() as int) =~= p@);
    true
}

/// Whether `s` starts with `p`.
pub fn starts_with(s: &str, p: &str) -> (r: bool)
    ensures
        r == begins(s@, p@),
{
    let cs = chars_of(s);
    let ps = chars_of(p);
    assert(cs@.skip(0) =~= cs@);
    begins_at(&cs, 0, &ps)
}

/// What follows `p` in `s`, where `s` starts with `p`.
pub open spec fn after(s: Seq<char>, p: Seq<char>) -> Option<Seq<char>> {
    if begins(s, p) {
        Some(s.skip(p.len() as int))
    } else {
        None
    }
}

/// What follows `p` in `s`, where `s` starts with `p`.
pub fn strip_prefix(s: &str, p: &str) -> (r: Option<String>)
    ensures
        r is Some <==> after(s@, p@) is Some,
        r matches Some(t) ==> after(s@, p@) == Some(t@),
{
    let cs = chars_of(s);
    let ps = chars_of(p);
    assert(cs@.skip(0) =~= cs@);
    if begins_at(&cs, 0, &ps) {
        let n = cs.len();
        let m = ps.len();
        assert(cs@.skip(m as int) =~= cs@.subrange(m as int, n as int));
        Some(string_of(&cs, m, n))
    } else {
        None
    }
}

/// Whether `p` occurs somewhere in `s`.
pub open spec fn occurs(s: Seq<char>, p: Seq<char>) -> bool {
    exists|i: int| 0 <= i <= s.len() && begins(#[trigger] s.skip(i), p)
}

/// Whether `p` occurs somewhere in `s`.
pub fn contains(s: &str, p: &str) -> (r: bool)
    ensures
        r == occurs(s@, p@),
{
    let cs = chars_of(s);
    let ps = chars_of(p);
    let mut i: usize = 0;
    loop
        invariant
            i <= cs@.len(),
            cs@ == s@,
            ps@ == p@,
            forall|k: int| 0 <= k < i ==> !begins(#[trigger] cs@.skip(k), ps@),
        decreases cs@.len() - i,
    {
        if begins_at(&cs, i, &ps) {
            return true;
        }
        if i == cs.len() {
            return false;
        }
        i = i + 1;
    }
}

// --------------------------------------------------------------- splitting

/// The parts of `s` between the characters of `set`.
pub open spec fn fields(s: Seq<char>, set: Seq<char>) -> Seq<Seq<char>>
    decreases s.len(),
{
    let i = first_in(s, set, 0);
    if 0 <= i < s.len() {
        seq![s.take(i)] + fields(s.skip(i + 1), set)
    } else {
        seq![s]
    }
}

/// Splits `s` at every character of `set`.
pub fn split(s: &str, set: &str) -> (r: Vec<String>)
    ensures
        texts(r@) == fields(s@, set@),
{
    let cs = chars_of(s);
    let st = chars_of(set);
    let mut out: Vec<String> = Vec::new();
    let mut i: usize = 0;
    let n = cs.len();
    assert(cs@.skip(0) =~= cs@);
    assert(texts(out@) + fields(cs@.skip(0), st@) =~= fields(cs@, st@));
    loop
        invariant
            i <= n == cs@.len(),
            cs@ == s@,
            st@ == set@,
            fields(s@, set@) == texts(out@) + fields(cs@.skip(i as int), st@),
        decreases n - i,
    {
        let j = find_in(&cs, &st, i);
        let ghost rest = cs@.skip(i as int);
        proof {
            lemma_first_in_skip(cs@, st@, i as int, i as int);
        }
        let ghost before = texts(out@);
        out.push(string_of(&cs, i, j));
        assert(texts(out@) =~= before.push(cs@.subrange(i as int, j as int)));
        if j == n {
            assert(cs@.subrange(i as int, j as int) =~= rest);
            assert(texts(out@) =~= before + seq![rest]);
            return out;
        }
        assert(cs@.subrange(i as int, j as int) =~= rest.take(j - i));
        assert(rest.skip(j - i + 1) =~= cs@.skip(j + 1));
        assert(texts(out@) + fields(cs@.skip(j + 1), st@) =~= before + (seq![rest.take(j - i)]
            + fields(cs@.skip(j + 1), st@)));
        i = j + 1;
    }
}

/// Searching from `i` in `s` is searching from `i - a` in what follows the first `a` characters.
pub proof fn lemma_first_in_skip(s: Seq<char>, set: Seq<char>, a: int, i: int)
    requires
        0 <= a <= i <= s.len(),
    ensures
        first_in(s.skip(a), set, i - a) == first_in(s, set, i) - a,
    decreases s.len() - i,
{
    if i < s.len() {
        assert(s.skip(a)[i - a] == s[i]);
        if !set.contains(s[i]) {
            lemma_first_in_skip(s, set, a, i + 1);
        }
    }
}

/// What `trim_start` leaves is no longer than the text and starts with no white space.
pub proof fn lemma_trim_start_len(s: Seq<char>)
    ensures
        trim_start(s).len() <= s.len(),
        trim_start(s).len() > 0 ==> !is_space(trim_start(s)[0]),
    decreases s.len(),
{
    if s.len() > 0 && is_space(s[0]) {
        lemma_trim_start_len(s.skip(1));
    }
}

/// The first position at or after `i` that holds white space, or the length of `s`.
pub open spec fn word_end(s: Seq<char>, i: int) -> int
    decreases s.len() - i,
{
    if i >= s.len() {
        s.len() as int
    } else if is_space(s[i]) {
        i
    } else {
        word_end(s, i + 1)
    }
}

/// The words of `s`: its longest runs without white space.
pub open spec fn words(s: Seq<char>) -> Seq<Seq<char>>
    decreases s.len(),
{
    let t = trim_start(s);
    let k = word_end(t, 0);
    if 0 < k <= t.len() <= s.len() {
        seq![t.take(k)] + words(t.skip(k))
    } else {
        Seq::empty()
    }
}

/// Splits `s` into its words.
pub fn split_words(s: &str) -> (r: Vec<String>)
    ensures
        texts(r@) == words(s@),
{
    let cs = chars_of(s);
    let n = cs.len();
    let mut out: Vec<String> = Vec::new();
    let mut i: usize = 0;
    assert(cs@.skip(0) =~= cs@);
    assert(texts(out@) + words(cs@.skip(0)) =~= words(cs@));
    loop
        invariant
            i <= n == cs@.len(),
            cs@ == s@,
            words(s@) == texts(out@) + words(cs@.skip(i as int)),
        decreases n - i,
    {
        let ghost rest = cs@.skip(i as int);
        let mut a: usize = i;
        while a < n && blank(cs[a])
            invariant
                i <= a <= n == cs@.len(),
                trim_start(rest) == trim_start(cs@.skip(a as int)),
            decreases n - a,
        {
            assert(cs@.skip(a as int).skip(1) =~= cs@.skip(a + 1));
            a = a + 1;
        }
        let ghost t = cs@.skip(a as int);
        proof {
            lemma_trim_start_len(rest);
        }
        assert(trim_start(rest) == t);
        if a == n {
            assert(t.len() == 0);
            assert(texts(out@) + Seq::<Seq<char>>::empty() =~= texts(out@));
            return out;
        }
        let mut b: usize = a;
        while b < n && !blank(cs[b])
            invariant
                a <= b <= n == cs@.len(),
                t == cs@.skip(a as int),
                word_end(t, 0) == word_end(t, b - a),
            decreases n - b,
        {
            assert(t[b - a] == cs@[b as int]);
            b = b + 1;
        }
        assert(b < n ==> t[b - a] == cs@[b as int]);
        assert(word_end(t, 0) == b - a);
        assert(a < b) by {
            assert(!is_space(t[0]));
            assert(t[0] == cs@[a as int]);
        }
        let ghost before = texts(out@);
        out.push(string_of(&cs, a, b));
        assert(cs@.subrange(a as int, b as int) =~= t.take(b - a));
        assert(t.skip(b - a) =~= cs@.skip(b as int));
        assert(texts(out@) + words(cs@.skip(b as int)) =~= before + (seq![t.take(b - a)] + words(
            cs@.skip(b as int),
        )));
        i = b;
    }
}

/// A line without the carriage return that ends it.
pub open spec fn chomp(s: Seq<char>) -> Seq<char> {
    if s.len() > 0 && s.last() == '\r' {
        s.drop_last()
    } else {
        s
    }
}

/// The lines of `s`, without their line endings; a last line may lack one.
pub open spec fn lines(s: Seq<char>) -> Seq<Seq<char>>
    decreases s.len(),
{
    let i = first_in(s, seq!['\n'], 0);
    if s.len() == 0 {
        Seq::empty()
    } else if 0 <= i < s.len() {
        seq![chomp(s.take(i))] + lines(s.skip(i + 1))
    } else {
        seq![s]
    }
}

/// Splits `s` into its lines.
pub fn split_lines(s: &str) -> (r: Vec<String>)
    ensures
        texts(r@) == lines(s@),
{
    let cs = chars_of(s);
    let nl: Vec<char> = vec!['\n'];
    let n = cs.len();
    let mut out: Vec<String> = Vec::new();
    let mut i: usize = 0;
    assert(nl@ =~= seq!['\n']);
    assert(cs@.skip(0) =~= cs@);
    assert(texts(out@) + lines(cs@.skip(0)) =~= lines(cs@));
    while i < n
        invariant
            i <= n == cs@.len(),
            cs@ == s@,
            nl@ == seq!['\n'],
            lines(s@) == texts(out@) + lines(cs@.skip(i as int)),
        decreases n - i,
    {
        let ghost rest = cs@.skip(i as int);
        let j = find_in(&cs, &nl, i);
        proof {
            lemma_first_in_skip(cs@, nl@, i as int, i as int);
        }
        let ghost before = texts(out@);
        if j == n {
            out.push(string_of(&cs, i, n));
            assert(cs@.subrange(i as int, n as int) =~= rest);
            assert(texts(out@) =~= before + seq![rest]);
            return out;
        }
        assert(cs@.subrange(i as int, j as int) =~= rest.take(j - i));
        if i < j && cs[j - 1] == '\r' {
            out.push(string_of(&cs, i, j - 1));
            assert(cs@.subrange(i as int, j - 1) =~= rest.take(j - i).drop_last());
        } else {
            out.push(string_of(&cs, i, j));
        }
        assert(texts(out@) =~= before.push(chomp(rest.take(j - i))));
        assert(rest.skip(j - i + 1) =~= cs@.skip(j + 1));
        assert(texts(out@) + lines(cs@.skip(j + 1)) =~= before + (seq![chomp(rest.take(j - i))]
            + lines(cs@.skip(j + 1))));
        i = j + 1;
    }
    assert(texts(out@) + lines(cs@.skip(n as int)) =~= texts(out@));
    out
}

// ------------------------------------------------- lower case, join, replace

/// An ASCII capital as its small letter; any other character unchanged.
pub open spec fn low(c: char) -> char {
    if 'A' <= c <= 'Z' {
        (c as u8 + 32) as char
    } else {
        c
    }
}

/// `s` with its ASCII capitals as small letters.
pub open spec fn lowered(s: Seq<char>) -> Seq<char> {
    s.map_values(|c: char| low(c))
}

/// Turns the ASCII capitals of `s` into small letters.
pub fn lower(s: &str) -> (r: String)
    ensures
        r@ == lowered(s@),
{
    let mut out = String::new();
    for c in it: s.chars()
        invariant
            out@ == lowered(it.seq().take(it.index() as int)),
            it.seq() == s@,
    {
        if 'A' <= c && c <= 'Z' {
            out.push((c as u8 + 32) as char);
        } else {
            out.push(c);
        }
        assert(s@.take(it.index() + 1) =~= s@.take(it.index() as int).push(c));
        assert(out@ =~= lowered(s@.take(it.index() + 1)));
    }
    assert(s@.take(s@.len() as int) =~= s@);
    out
}

/// The first `n` of `parts`, with `sep` between them.
pub open spec fn joined_to(parts: Seq<Seq<char>>, sep: Seq<char>, n: int) -> Seq<char>
    decreases n,
{
    if n <= 0 {
        Seq::empty()
    } else if n == 1 {
        parts[0]
    } else {
        joined_to(parts, sep, n - 1) + sep + parts[n - 1]
    }
}

/// `parts` with `sep` between them.
pub open spec fn joined(parts: Seq<Seq<char>>, sep: Seq<char>) -> Seq<char> {
    joined_to(parts, sep, parts.len() as int)
}

/// Joins `parts` with `sep` between them.
pub fn join(parts: &Vec<String>, sep: &str) -> (r: String)
    ensures
        r@ == joined(texts(parts@), sep@),
{
    let mut out = String::new();
    let mut i: usize = 0;
    while i < parts.len()
        invariant
            i <= parts@.len(),
            out@ == joined_to(texts(parts@), sep@, i as int),
        decreases parts@.len() - i,
    {
        if i > 0 {
            put(&mut out, sep);
        }
        put(&mut out, parts[i].as_str());
        i = i + 1;
        assert(i == 1 ==> out@ =~= texts(parts@)[0]);
    }
    out
}

/// `s` with every occurrence of `pat`, taken from the left, replaced by `new`.
pub open spec fn replaced(s: Seq<char>, pat: Seq<char>, new: Seq<char>) -> Seq<char>
    decreases s.len(),
{
    if pat.len() == 0 || s.len() < pat.len() {
        s
    } else if begins(s, pat) {
        new + replaced(s.skip(pat.len() as int), pat, new)
    } else {
        seq![s[0]] + replaced(s.skip(1), pat, new)
    }
}

/// Replaces every occurrence of `pat` in `s` by `new`, from the left.
pub fn replace(s: &str, pat: &str, new: &str) -> (r: String)
    requires
        pat@.len() > 0,
    ensures
        r@ == replaced(s@, pat@, new@),
{
    let cs = chars_of(s);
    let ps = chars_of(pat);
    let mut out = String::new();
    let mut i: usize = 0;
    let n = cs.len();
    assert(cs@.skip(0) =~= cs@);
    assert(out@ + replaced(cs@.skip(0), ps@, new@) =~= replaced(cs@, ps@, new@));
    while i < n
        invariant
            i <= n == cs@.len(),
            cs@ == s@,
            ps@ == pat@,
            ps@.len() > 0,
            replaced(s@, pat@, new@) == out@ + replaced(cs@.skip(i as int), ps@, new@),
        decreases n - i,
    {
        let ghost rest = cs@.skip(i as int);
        let ghost before = out@;
        if begins_at(&cs, i, &ps) {
            put(&mut out, new);
            assert(rest.skip(ps@.len() as int) =~= cs@.skip(i + ps@.len()));
            assert(out@ + replaced(cs@.skip(i + ps@.len()), ps@, new@) =~= before + (new@
                + replaced(cs@.skip(i + ps@.len()), ps@, new@)));
            i = i + ps.len();
        } else {
            out.push(cs[i]);
            assert(rest.skip(1) =~= cs@.skip(i + 1));
            proof {
                if rest.len() < ps@.len() {
                    assert(replaced(rest.skip(1), ps@, new@) == rest.skip(1));
                    assert(seq![rest[0]] + rest.skip(1) =~= rest);
                }
            }
            assert(out@ + replaced(cs@.skip(i + 1), ps@, new@) =~= before + (seq![rest[0]]
                + replaced(cs@.skip(i + 1), ps@, new@)));
            i = i + 1;
        }
    }
    assert(cs@.skip(n as int) =~= Seq::<char>::empty());
    assert(out@ + Seq::<char>::empty() =~= out@);
    out
}

/// The first text at or after `i` that begins with `p`, or the number of texts.
pub open spec fn first_beginning(v: Seq<Seq<char>>, p: Seq<char>, i: int) -> int
    decreases v.len() - i,
{
    if i >= v.len() {
        v.len() as int
    } else if begins(v[i], p) {
        i
    } else {
        first_beginning(v, p, i + 1)
    }
}

/// Finds the first text that begins with `p`.
pub fn find_beginning(v: &Vec<String>, p: &str) -> (r: Option<usize>)
    ensures
        match r {
            Some(i) => i < v@.len() && i == first_beginning(texts(v@), p@, 0),
            None => first_beginning(texts(v@), p@, 0) == v@.len(),
        },
{
    let mut i: usize = 0;
    while i < v.len()
        invariant
            i <= v@.len(),
            first_beginning(texts(v@), p@, 0) == first_beginning(
                texts(v@),
                p@,
                i as int,
            ),
        decreases v@.len() - i,
    {
        if starts_with(v[i].as_str(), p) {
            return Some(i);
        }
        i = i + 1;
    }
    None
}

pub proof fn lemma_first_beginning(v: Seq<Seq<char>>, p: Seq<char>, i: int)
    requires
        0 <= i,
    ensures
        first_beginning(v, p, i) < v.len() ==> begins(v[first_beginning(v, p, i)], p),
    decreases v.len() - i,
{
    if i < v.len() && !begins(v[i], p) {
        lemma_first_beginning(v, p, i + 1);
    }
}

/// The texts that are not blank, each trimmed.
pub open spec fn filled(v: Seq<Seq<char>>) -> Seq<Seq<char>>
    decreases v.len(),
{
    if v.len() == 0 {
        Seq::empty()
    } else if trimmed(v.last()).len() == 0 {
        filled(v.drop_last())
    } else {
        filled(v.drop_last()).push(trimmed(v.last()))
    }
}

/// The entries of a list in a text: what stands between the separators, trimmed, and not empty.
pub open spec fn entries(s: Seq<char>, set: Seq<char>) -> Seq<Seq<char>> {
    filled(fields(s, set))
}

/// Splits a list in a text into its entries.
pub fn split_entries(s: &str, set: &str) -> (r: Vec<String>)
    ensures
        texts(r@) == entries(s@, set@),
{
    let parts = split(s, set);
    let ghost ps = texts(parts@);
    let mut out: Vec<String> = Vec::new();
    let mut i: usize = 0;
    assert(texts(out@) =~= Seq::<Seq<char>>::empty());
    while i < parts.len()
        invariant
            i <= parts@.len(),
            ps == texts(parts@),
            texts(out@) == filled(ps.take(i as int)),
        decreases parts@.len() - i,
    {
        let ghost was = texts(out@);
        let t = trim(parts[i].as_str());
        i = i + 1;
        assert(ps.take(i as int).drop_last() =~= ps.take(i - 1));
        assert(ps.take(i as int).last() == parts@[i - 1]@);
        if t.as_str().unicode_len() > 0 {
            out.push(t);
            assert(texts(out@) =~= was.push(t@));
        }
    }
    assert(ps.take(i as int) =~= ps);
    out
}

} // verus!
