//! JSON as the launcher writes it: on one line, the members in the order in
//! which they are given, and strings in which only quotes and backslashes are
//! escaped.

use vstd::prelude::*;
use vstd::utf8;
use crate::digits;
use crate::json;
use crate::json::Json;
use crate::num;
use crate::reader;
use crate::roundtrip;
use crate::shortest;
use crate::text;

verus! {

/// A JSON text to write.
pub ghost enum Source {
    Null,
    Int(int),
    Str(Seq<char>),
    Arr(Seq<Source>),
    Obj(Seq<(Seq<char>, Source)>),
}

/// A text between quotes, in which only quotes and backslashes are escaped.
pub open spec fn quoted(s: Seq<char>) -> Seq<char> {
    roundtrip::spelled(s, true)
}

/// The name of a member, with the colon.
pub open spec fn label(name: Seq<char>) -> Seq<char> {
    seq!['"'] + name + seq!['"', ':']
}

/// The text of a source.
pub open spec fn source_text(v: Source) -> Seq<char>
    decreases v, 0nat,
{
    match v {
        Source::Null => "null"@,
        Source::Int(n) => digits::signed_decimal(n),
        Source::Str(s) => quoted(s),
        Source::Arr(a) => seq!['['] + items_text(a, a.len()) + seq![']'],
        Source::Obj(m) => seq!['{'] + members_text(m, m.len()) + seq!['}'],
    }
}

/// The text of the first `n` elements.
pub open spec fn items_text(a: Seq<Source>, n: nat) -> Seq<char>
    decreases a, n,
{
    if n == 0 || n > a.len() {
        Seq::empty()
    } else if n == 1 {
        source_text(a[0])
    } else {
        items_text(a, (n - 1) as nat) + seq![','] + source_text(a[n - 1])
    }
}

/// The text of the first `n` members.
pub open spec fn members_text(m: Seq<(Seq<char>, Source)>, n: nat) -> Seq<char>
    decreases m, n,
{
    if n == 0 || n > m.len() {
        Seq::empty()
    } else if n == 1 {
        label(m[0].0) + source_text(m[0].1)
    } else {
        members_text(m, (n - 1) as nat) + seq![','] + label(m[n - 1].0) + source_text(m[n - 1].1)
    }
}

/// The value that a source stands for.
pub open spec fn source_value(v: Source) -> Json
    decreases v, 0nat,
{
    match v {
        Source::Null => Json::Null,
        Source::Int(n) => Json::Num(num::of_int(n)),
        Source::Str(s) => Json::Str(s),
        Source::Arr(a) => Json::Arr(values_to(a, a.len())),
        Source::Obj(m) => Json::Obj(json::built(pairs_to(m, m.len()))),
    }
}

/// The values of the first `n` elements.
pub open spec fn values_to(a: Seq<Source>, n: nat) -> Seq<Json>
    decreases a, n,
{
    if n == 0 || n > a.len() {
        Seq::empty()
    } else {
        values_to(a, (n - 1) as nat).push(source_value(a[n - 1]))
    }
}

/// The names and values of the first `n` members.
pub open spec fn pairs_to(m: Seq<(Seq<char>, Source)>, n: nat) -> Seq<(Seq<char>, Json)>
    decreases m, n,
{
    if n == 0 || n > m.len() {
        Seq::empty()
    } else {
        pairs_to(m, (n - 1) as nat).push((m[n - 1].0, source_value(m[n - 1].1)))
    }
}

/// Writes a text between quotes, in which only quotes and backslashes are escaped.
pub fn jstr(s: &str) -> (r: String)
    ensures
        r@ == quoted(s@),
{
    let mut out = String::new();
    out.push('"');
    let cs = text::chars_of(s);
    let mut i: usize = 0;
    assert(out@ =~= seq!['"'] + roundtrip::pieces(s@, 0, true));
    while i < cs.len()
        invariant
            i <= cs@.len(),
            cs@ == s@,
            out@ == seq!['"'] + roundtrip::pieces(s@, i as int, true),
        decreases cs@.len() - i,
    {
        let ghost was = out@;
        let c = cs[i];
        if c == '\\' || c == '"' {
            out.push('\\');
        }
        out.push(c);
        i = i + 1;
        proof {
            assert(out@ =~= was + roundtrip::piece(c, true));
            assert(out@ =~= seq!['"'] + roundtrip::pieces(s@, i as int, true));
        }
    }
    out.push('"');
    assert(out@ =~= quoted(s@));
    out
}

// --------------------------------------------------------------------- reading

/// Whether the names of all members can stand between quotes as they are.
pub open spec fn simple(v: Source) -> bool
    decreases v,
{
    match v {
        Source::Arr(a) => forall|i: int| 0 <= i < a.len() ==> simple(#[trigger] a[i]),
        Source::Obj(m) => forall|i: int|
            0 <= i < m.len() ==> unquoted((#[trigger] m[i]).0) && simple(m[i].1),
        _ => true,
    }
}

/// Whether a text holds neither quotes nor backslashes.
pub open spec fn unquoted(s: Seq<char>) -> bool {
    forall|i: int| 0 <= i < s.len() ==> #[trigger] s[i] != '"' && s[i] != '\\'
}

proof fn lemma_unquoted(s: Seq<char>, n: int)
    requires
        unquoted(s),
        0 <= n <= s.len(),
    ensures
        roundtrip::pieces(s, n, true) == s.take(n),
    decreases n,
{
    if n > 0 {
        lemma_unquoted(s, n - 1);
        assert(s[n - 1] != '"');
        assert(s.take(n) =~= s.take(n - 1) + seq![s[n - 1]]);
    } else {
        assert(s.take(0) =~= Seq::<char>::empty());
    }
}

/// A label is a string and a colon.
proof fn lemma_label(b: Seq<u8>, i: int, s: Seq<char>)
    requires
        unquoted(s),
        roundtrip::holds(b, i, label(s)),
    ensures
        reader::string_at(b, i) == Ok::<(Seq<char>, int), Seq<char>>(
            (s, i + roundtrip::width(label(s)) - 1),
        ),
        reader::at(b, i, '"' as u8),
        reader::at(b, i + roundtrip::width(label(s)) - 1, ':' as u8),
        roundtrip::width(label(s)) >= 3,
{
    let q = quoted(s);
    let c = seq![':'];
    lemma_unquoted(s, s.len() as int);
    assert(s.take(s.len() as int) =~= s);
    assert(label(s) =~= q + c);
    roundtrip::lemma_holds_split(b, i, q, c);
    roundtrip::lemma_ascii(b, i + roundtrip::width(q), ':');
    roundtrip::lemma_string(b, i, s, true);
    let o = seq!['"'];
    let t = roundtrip::pieces(s, s.len() as int, true);
    roundtrip::lemma_holds_split3(b, i, o, t, o);
    roundtrip::lemma_ascii(b, i, '"');
    roundtrip::lemma_ascii(b, i + 1 + roundtrip::width(t), '"');
}

/// How a source starts.
proof fn lemma_source_opens(b: Seq<u8>, i: int, v: Source)
    requires
        roundtrip::holds(b, i, source_text(v)),
    ensures
        roundtrip::width(source_text(v)) > 0,
        roundtrip::opens(b[i]),
{
    let t = source_text(v);
    reveal_strlit("null");
    if let Source::Int(n) = v {
        let a = (if n < 0 {
            -n
        } else {
            n
        }) as nat;
        digits::lemma_decimal(a);
        assert(digits::is_digit(digits::decimal(a)[0], 10));
    }
    assert(t.len() > 0 && t[0] <= '\u{7f}');
    let h = seq![t[0]];
    assert(t =~= h + t.skip(1));
    roundtrip::lemma_holds_split(b, i, h, t.skip(1));
    roundtrip::lemma_ascii(b, i, t[0]);
}

/// A source reads as what it stands for, wherever it stands.
proof fn lemma_source(b: Seq<u8>, i: int, v: Source)
    requires
        simple(v),
        roundtrip::holds(b, i, source_text(v)),
        roundtrip::ends(b, i + roundtrip::width(source_text(v))),
    ensures
        reader::value_at(b, i) == Ok::<(Json, int), Seq<char>>(
            (source_value(v), i + roundtrip::width(source_text(v))),
        ),
    decreases v, 1nat, 0nat,
{
    let t = source_text(v);
    match v {
        Source::Null => {
            reveal_strlit("null");
            let w = seq![('n' as u8), ('u' as u8), ('l' as u8), ('l' as u8)];
            roundtrip::lemma_word(b, i, t, w);
        },
        Source::Int(n) => {
            let a = (if n < 0 {
                -n
            } else {
                n
            }) as nat;
            digits::lemma_decimal(a);
            shortest::law_whole_number_reads(n);
            assert forall|k: int| 0 <= k < t.len() implies digits::is_digit(#[trigger] t[k], 10)
                || t[k] == '.' || t[k] == '-' by {
                if n < 0 && k > 0 {
                    assert(t[k] == digits::decimal(a)[k - 1]);
                }
            }
            roundtrip::lemma_number_text(b, i, t, num::of_int(n));
        },
        Source::Str(s) => {
            roundtrip::lemma_string(b, i, s, true);
        },
        Source::Arr(_) => {
            lemma_source_array(b, i, v);
        },
        Source::Obj(_) => {
            lemma_source_object(b, i, v);
        },
    }
}

#[verifier::spinoff_prover]
#[verifier::rlimit(40)]
proof fn lemma_source_array(b: Seq<u8>, i: int, v: Source)
    requires
        simple(v),
        v is Arr,
        roundtrip::holds(b, i, source_text(v)),
        roundtrip::ends(b, i + roundtrip::width(source_text(v))),
    ensures
        reader::value_at(b, i) == Ok::<(Json, int), Seq<char>>(
            (source_value(v), i + roundtrip::width(source_text(v))),
        ),
    decreases v, 0nat, 0nat,
{
    let a = v->Arr_0;
    let o = seq!['['];
    let c = seq![']'];
    let x = items_text(a, a.len());
    roundtrip::lemma_holds_split3(b, i, o, x, c);
    roundtrip::lemma_ascii(b, i, '[');
    roundtrip::lemma_ascii(b, i + 1 + roundtrip::width(x), ']');
    if a.len() == 0 {
        assert(utf8::encode_utf8(x).len() == 0);
        roundtrip::lemma_skip_is(b, i + 1, i + 1);
        assert(source_value(v)->Arr_0 =~= Seq::<Json>::empty());
    } else {
        lemma_items_start(b, i + 1, a, 1, a.len());
        lemma_source_opens(b, i + 1, a[0]);
        roundtrip::lemma_skip_is(b, i + 1, i + 1);
        assert(Seq::<Json>::empty() =~= values_to(a, 0));
        lemma_source_items(b, i + 1, a, 0);
        assert(source_value(v)->Arr_0 =~= values_to(a, a.len()));
    }
}

proof fn lemma_items_start(b: Seq<u8>, s: int, a: Seq<Source>, k: nat, n: nat)
    requires
        1 <= k <= n <= a.len(),
        roundtrip::holds(b, s, items_text(a, n)),
    ensures
        roundtrip::holds(b, s, items_text(a, k)),
    decreases n,
{
    if k < n {
        let x = items_text(a, (n - 1) as nat);
        roundtrip::lemma_holds_split3(b, s, x, seq![','], source_text(a[n - 1]));
        lemma_items_start(b, s, a, k, (n - 1) as nat);
    }
}

/// Where element `k` starts, for elements whose text starts at `s`.
spec fn item_place(s: int, a: Seq<Source>, k: nat) -> int {
    if k == 0 {
        s
    } else {
        s + roundtrip::width(items_text(a, k)) + 1
    }
}

#[verifier::spinoff_prover]
#[verifier::rlimit(40)]
proof fn lemma_source_items(b: Seq<u8>, s: int, a: Seq<Source>, k: nat)
    requires
        k < a.len(),
        0 <= s,
        forall|i: int| 0 <= i < a.len() ==> simple(#[trigger] a[i]),
        roundtrip::holds(b, s, items_text(a, a.len())),
        reader::at(b, s + roundtrip::width(items_text(a, a.len())), ']' as u8),
    ensures
        reader::items_at(b, item_place(s, a, k), values_to(a, k)) == Ok::<
            (Json, int),
            Seq<char>,
        >(
            (
                Json::Arr(values_to(a, a.len())),
                s + roundtrip::width(items_text(a, a.len())) + 1,
            ),
        ),
    decreases a, 1nat, a.len() - k,
{
    let p = item_place(s, a, k);
    let x = items_text(a, k);
    let c = seq![','];
    let r = source_text(a[k as int]);
    lemma_items_start(b, s, a, k + 1, a.len());
    if k > 0 {
        roundtrip::lemma_holds_split3(b, s, x, c, r);
        roundtrip::lemma_ascii(b, s + roundtrip::width(x), ',');
    }
    assert(simple(a[k as int]));
    let f = p + roundtrip::width(r);
    lemma_source_opens(b, p, a[k as int]);
    roundtrip::lemma_skip_is(b, p, p);
    if k + 1 < a.len() {
        let y = items_text(a, k + 1);
        lemma_items_start(b, s, a, k + 2, a.len());
        roundtrip::lemma_holds_split3(b, s, y, c, source_text(a[k as int + 1]));
        roundtrip::lemma_ascii(b, f, ',');
        lemma_source(b, p, a[k as int]);
        roundtrip::lemma_skip_is(b, f, f);
        lemma_source_items(b, s, a, k + 1);
    } else {
        lemma_source(b, p, a[k as int]);
        roundtrip::lemma_skip_is(b, f, f);
    }
}

#[verifier::spinoff_prover]
#[verifier::rlimit(40)]
proof fn lemma_source_object(b: Seq<u8>, i: int, v: Source)
    requires
        simple(v),
        v is Obj,
        roundtrip::holds(b, i, source_text(v)),
        roundtrip::ends(b, i + roundtrip::width(source_text(v))),
    ensures
        reader::value_at(b, i) == Ok::<(Json, int), Seq<char>>(
            (source_value(v), i + roundtrip::width(source_text(v))),
        ),
    decreases v, 0nat, 0nat,
{
    let m = v->Obj_0;
    let o = seq!['{'];
    let c = seq!['}'];
    let x = members_text(m, m.len());
    roundtrip::lemma_holds_split3(b, i, o, x, c);
    roundtrip::lemma_ascii(b, i, '{');
    roundtrip::lemma_ascii(b, i + 1 + roundtrip::width(x), '}');
    if m.len() == 0 {
        assert(utf8::encode_utf8(x).len() == 0);
        roundtrip::lemma_skip_is(b, i + 1, i + 1);
    } else {
        lemma_members_start(b, i + 1, m, 1, m.len());
        roundtrip::lemma_holds_split(b, i + 1, label(m[0].0), source_text(m[0].1));
        assert(unquoted(m[0].0));
        lemma_label(b, i + 1, m[0].0);
        roundtrip::lemma_skip_is(b, i + 1, i + 1);
        assert(json::built(pairs_to(m, 0)) =~= Seq::<(Seq<char>, Json)>::empty());
        lemma_source_members(b, i + 1, m, 0);
    }
}

proof fn lemma_members_start(b: Seq<u8>, s: int, m: Seq<(Seq<char>, Source)>, k: nat, n: nat)
    requires
        1 <= k <= n <= m.len(),
        roundtrip::holds(b, s, members_text(m, n)),
    ensures
        roundtrip::holds(b, s, members_text(m, k)),
    decreases n,
{
    if k < n {
        let x = members_text(m, (n - 1) as nat);
        let l = label(m[n - 1].0);
        let r = source_text(m[n - 1].1);
        roundtrip::lemma_holds_split3(b, s, x + seq![','], l, r);
        roundtrip::lemma_holds_split(b, s, x, seq![',']);
        lemma_members_start(b, s, m, k, (n - 1) as nat);
    }
}

/// Where member `k` starts, for members whose text starts at `s`.
spec fn member_place(s: int, m: Seq<(Seq<char>, Source)>, k: nat) -> int {
    if k == 0 {
        s
    } else {
        s + roundtrip::width(members_text(m, k)) + 1
    }
}

#[verifier::spinoff_prover]
#[verifier::rlimit(40)]
proof fn lemma_source_members(b: Seq<u8>, s: int, m: Seq<(Seq<char>, Source)>, k: nat)
    requires
        k < m.len(),
        0 <= s,
        forall|i: int| 0 <= i < m.len() ==> unquoted((#[trigger] m[i]).0) && simple(m[i].1),
        roundtrip::holds(b, s, members_text(m, m.len())),
        reader::at(b, s + roundtrip::width(members_text(m, m.len())), '}' as u8),
    ensures
        reader::members_at(
            b,
            member_place(s, m, k),
            json::built(pairs_to(m, k)),
        ) == Ok::<(Json, int), Seq<char>>(
            (
                Json::Obj(json::built(pairs_to(m, m.len()))),
                s + roundtrip::width(members_text(m, m.len())) + 1,
            ),
        ),
    decreases m, 1nat, m.len() - k,
{
    let p = member_place(s, m, k);
    let x = members_text(m, k);
    let c = seq![','];
    let name = m[k as int].0;
    let v = m[k as int].1;
    let l = label(name);
    let r = source_text(v);
    lemma_members_start(b, s, m, k + 1, m.len());
    if k > 0 {
        roundtrip::lemma_holds_split3(b, s, x + c, l, r);
        roundtrip::lemma_holds_split(b, s, x, c);
        roundtrip::lemma_ascii(b, s + roundtrip::width(x), ',');
    } else {
        roundtrip::lemma_holds_split(b, s, l, r);
    }
    assert(unquoted(m[k as int].0) && simple(m[k as int].1));
    assert(roundtrip::holds(b, p, l));
    let w = p + roundtrip::width(l);
    let f = w + roundtrip::width(r);
    lemma_label(b, p, name);
    lemma_source_opens(b, w, v);
    roundtrip::lemma_skip_is(b, p, p);
    roundtrip::lemma_skip_is(b, w - 1, w - 1);
    roundtrip::lemma_skip_is(b, w, w);
    let done = pairs_to(m, k);
    let next = pairs_to(m, k + 1);
    assert(next.drop_last() =~= done);
    assert(next.last() == (name, source_value(v)));
    if k + 1 < m.len() {
        let z = members_text(m, k + 1);
        let l2 = label(m[k as int + 1].0);
        lemma_members_start(b, s, m, k + 2, m.len());
        roundtrip::lemma_holds_split3(b, s, z + c, l2, source_text(m[k as int + 1].1));
        roundtrip::lemma_holds_split(b, s, z, c);
        roundtrip::lemma_ascii(b, f, ',');
        lemma_source(b, w, v);
        roundtrip::lemma_skip_is(b, f, f);
        lemma_source_members(b, s, m, k + 1);
    } else {
        lemma_source(b, w, v);
        roundtrip::lemma_skip_is(b, f, f);
    }
}

/// What the launcher writes reads as what it stands for.
pub proof fn law_sent_reads_back(v: Source)
    requires
        simple(v),
    ensures
        reader::meaning(source_text(v)) == Ok::<Json, Seq<char>>(source_value(v)),
{
    let t = source_text(v);
    let b = utf8::encode_utf8(t);
    assert(b.subrange(0, b.len() as int) =~= b);
    assert(roundtrip::holds(b, 0, t));
    lemma_source_opens(b, 0, v);
    roundtrip::lemma_skip_is(b, 0, 0);
    lemma_source(b, 0, v);
}

} // verus!
