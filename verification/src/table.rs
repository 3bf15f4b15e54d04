//! Tables that map names to values: lists of entries in which no name stands
//! twice.

use vstd::prelude::*;
use crate::text;

verus! {

/// Whether no name stands twice.
pub open spec fn distinct<T>(t: Seq<(String, T)>) -> bool {
    forall|i: int, j: int| 0 <= i < j < t.len() ==> (#[trigger] t[i]).0@ != (#[trigger] t[j]).0@
}

/// The first entry at or after `i` for the name `k`, or the number of entries.
pub open spec fn slot<T>(t: Seq<(String, T)>, k: Seq<char>, i: int) -> int
    decreases t.len() - i,
{
    if i >= t.len() {
        t.len() as int
    } else if t[i].0@ == k {
        i
    } else {
        slot(t, k, i + 1)
    }
}

/// The value for the name `k`.
pub open spec fn lookup<T>(t: Seq<(String, T)>, k: Seq<char>) -> Option<T> {
    let i = slot(t, k, 0);
    if 0 <= i < t.len() {
        Some(t[i].1)
    } else {
        None
    }
}

/// Whether `t` is the table `s` with the value for `k` set to `x`.
pub open spec fn is_set<T>(s: Seq<(String, T)>, k: Seq<char>, x: T, t: Seq<(String, T)>) -> bool {
    let i = slot(s, k, 0);
    if 0 <= i < s.len() {
        t == s.update(i, (s[i].0, x))
    } else {
        t.len() == s.len() + 1 && t.drop_last() == s && t.last().0@ == k && t.last().1 == x
    }
}

/// The entries whose name is not `k`.
pub open spec fn without<T>(s: Seq<(String, T)>, k: Seq<char>) -> Seq<(String, T)> {
    s.filter(|e: (String, T)| e.0@ != k)
}

pub proof fn lemma_slot<T>(t: Seq<(String, T)>, k: Seq<char>, i: int)
    requires
        0 <= i <= t.len(),
    ensures
        i <= slot(t, k, i) <= t.len(),
        forall|j: int| i <= j < slot(t, k, i) ==> (#[trigger] t[j]).0@ != k,
        slot(t, k, i) < t.len() ==> t[slot(t, k, i)].0@ == k,
    decreases t.len() - i,
{
    if i < t.len() && t[i].0@ != k {
        lemma_slot(t, k, i + 1);
    }
}

/// Setting a name keeps the names distinct, gives the name its value, and leaves every other name
/// as it was.
pub proof fn law_set<T>(s: Seq<(String, T)>, k: Seq<char>, x: T, t: Seq<(String, T)>)
    requires
        is_set(s, k, x, t),
    ensures
        distinct(s) ==> distinct(t),
        lookup(t, k) == Some(x),
        forall|q: Seq<char>| q != k ==> #[trigger] lookup(t, q) == lookup(s, q),
{
    lemma_slot(s, k, 0);
    lemma_slot(t, k, 0);
    let n = s.len() as int;
    let i = slot(s, k, 0);
    assert forall|j: int| 0 <= j < n implies (#[trigger] t[j]).0@ == s[j].0@ by {
        if i >= n {
            assert(t[j] == t.drop_last()[j]);
        }
    }
    if i >= n {
        assert(t[n].0@ == k);
    }
    if distinct(s) {
        assert forall|a: int, b: int| 0 <= a < b < t.len() implies (#[trigger] t[a]).0@ != (
        #[trigger] t[b]).0@ by {
            if b < n {
                assert(s[a].0@ != s[b].0@);
            } else {
                assert(s[a].0@ != k);
            }
        }
    }
    let w = slot(t, k, 0);
    assert(w == i) by {
        if w < i {
            assert(t[w].0@ == s[w].0@);
        } else if i < w {
            assert(t[i].0@ == k);
        }
    }
    assert forall|q: Seq<char>| q != k implies #[trigger] lookup(t, q) == lookup(s, q) by {
        lemma_slot(s, q, 0);
        lemma_slot(t, q, 0);
        let a = slot(s, q, 0);
        let b = slot(t, q, 0);
        if a < n {
            assert(t[a].0@ == s[a].0@);
            if b < a {
                assert(t[b].0@ == s[b].0@);
            }
            assert(a == b);
            if i >= n {
                assert(t[a] == t.drop_last()[a]);
            }
        } else if b < n {
            assert(t[b].0@ == s[b].0@);
        }
    }
}

/// Removing a name keeps the names distinct, leaves the name without a value, and leaves every
/// other name as it was.
pub proof fn law_without<T>(s: Seq<(String, T)>, k: Seq<char>)
    ensures
        distinct(s) ==> distinct(without(s, k)),
        lookup(without(s, k), k) is None,
        forall|q: Seq<char>| q != k ==> #[trigger] lookup(without(s, k), q) == lookup(s, q),
        forall|i: int| 0 <= i < without(s, k).len() ==> s.contains(#[trigger] without(s, k)[i]),
    decreases s.len(),
{
    reveal(Seq::filter);
    let p = |e: (String, T)| e.0@ != k;
    let r = without(s, k);
    if s.len() == 0 {
        assert(r =~= s);
        assert(slot(r, k, 0) == 0);
    } else {
        let h = s.drop_last();
        let l = s.last();
        if distinct(s) {
            assert forall|i: int, j: int| 0 <= i < j < h.len() implies (#[trigger] h[i]).0@ != (
            #[trigger] h[j]).0@ by {
                assert(s[i].0@ != s[j].0@);
            }
        }
        law_without(h, k);
        let g = without(h, k);
        lemma_slot(r, k, 0);
        lemma_slot(g, k, 0);
        assert(r == (if p(l) {
            g.push(l)
        } else {
            g
        }));
        assert forall|i: int| 0 <= i < r.len() implies s.contains(#[trigger] r[i]) by {
            if i < g.len() {
                assert(r[i] == g[i]);
                let j = choose|j: int| 0 <= j < h.len() && h[j] == g[i];
                assert(s[j] == h[j]);
            } else {
                assert(s[s.len() - 1] == r[i]);
            }
        }
        if p(l) && distinct(s) {
            assert forall|i: int, j: int| 0 <= i < j < r.len() implies (#[trigger] r[i]).0@ != (
            #[trigger] r[j]).0@ by {
                if j == g.len() {
                    assert(r[i] == g[i]);
                    assert(h.contains(g[i]));
                    let z = choose|z: int| 0 <= z < h.len() && h[z] == g[i];
                    assert(s[z].0@ != s[s.len() - 1].0@);
                } else {
                    assert(r[i] == g[i] && r[j] == g[j]);
                }
            }
        }
        if p(l) && slot(r, k, 0) < g.len() {
            assert(g[slot(r, k, 0)].0@ == k);
        }
        assert forall|q: Seq<char>| q != k implies #[trigger] lookup(r, q) == lookup(s, q) by {
            assert(lookup(g, q) == lookup(h, q));
            lemma_slot(g, q, 0);
            lemma_slot(h, q, 0);
            lemma_slot(r, q, 0);
            lemma_slot(s, q, 0);
            let a = slot(h, q, 0);
            let b = slot(s, q, 0);
            let c = slot(g, q, 0);
            let d = slot(r, q, 0);
            // In `s` as in `h`, or at the end.
            if a < h.len() {
                assert(s[a].0@ == q);
                if b < a {
                    assert(h[b].0@ == q);
                }
                assert(b == a);
            } else if b < h.len() {
                assert(h[b].0@ == q);
            }
            if p(l) {
                if c < g.len() {
                    assert(r[c].0@ == q);
                    if d < c {
                        assert(g[d].0@ == q);
                    }
                    assert(c == d);
                } else if d < g.len() {
                    assert(g[d].0@ == q);
                }
                assert(s[s.len() - 1] == l);
                assert(r[r.len() - 1] == l);
                if a >= h.len() {
                    if l.0@ == q {
                        assert(b == h.len());
                        assert(d == g.len());
                    } else {
                        assert(b == s.len());
                        assert(d == r.len());
                    }
                }
            } else {
                assert(l.0@ == k);
                if a >= h.len() {
                    if b < s.len() {
                        assert(s[b].0@ == q);
                        assert(b == h.len());
                    }
                }
            }
        }
    }
}

/// The names and values of a table of texts.
pub open spec fn pairs(t: Seq<(String, String)>) -> Seq<(Seq<char>, Seq<char>)> {
    Seq::new(t.len(), |i: int| (t[i].0@, t[i].1@))
}

/// The first pair at or after `i` for the name `k`, or the number of pairs.
pub open spec fn pair_slot(p: Seq<(Seq<char>, Seq<char>)>, k: Seq<char>, i: int) -> int
    decreases p.len() - i,
{
    if i >= p.len() {
        p.len() as int
    } else if p[i].0 == k {
        i
    } else {
        pair_slot(p, k, i + 1)
    }
}

/// The value of the first pair for the name `k`.
pub open spec fn pair_at(p: Seq<(Seq<char>, Seq<char>)>, k: Seq<char>) -> Option<Seq<char>> {
    let i = pair_slot(p, k, 0);
    if 0 <= i < p.len() {
        Some(p[i].1)
    } else {
        None
    }
}

/// The pairs with the value for `k` set to `v`: in its place, or at the end.
pub open spec fn set_pair(p: Seq<(Seq<char>, Seq<char>)>, k: Seq<char>, v: Seq<char>) -> Seq<
    (Seq<char>, Seq<char>),
> {
    let i = pair_slot(p, k, 0);
    if 0 <= i < p.len() {
        p.update(i, (k, v))
    } else {
        p.push((k, v))
    }
}

pub proof fn lemma_pair_slot(t: Seq<(String, String)>, k: Seq<char>, i: int)
    requires
        0 <= i <= t.len(),
    ensures
        pair_slot(pairs(t), k, i) == slot(t, k, i),
        i <= slot(t, k, i) <= t.len(),
    decreases t.len() - i,
{
    if i < t.len() && t[i].0@ != k {
        lemma_pair_slot(t, k, i + 1);
    }
}

pub proof fn lemma_set_pair(
    s: Seq<(String, String)>,
    k: Seq<char>,
    x: String,
    t: Seq<(String, String)>,
)
    requires
        is_set(s, k, x, t),
    ensures
        pairs(t) == set_pair(pairs(s), k, x@),
{
    lemma_pair_slot(s, k, 0);
    lemma_slot(s, k, 0);
    let i = slot(s, k, 0);
    if i < s.len() {
        assert(pairs(t) =~= set_pair(pairs(s), k, x@));
    } else {
        assert forall|j: int| 0 <= j < s.len() implies #[trigger] pairs(t)[j] == pairs(s)[j] by {
            assert(t[j] == t.drop_last()[j]);
        }
        assert(pairs(t) =~= set_pair(pairs(s), k, x@));
    }
}

/// Finds the entry for the name `k`.
pub fn find<T>(t: &Vec<(String, T)>, k: &str) -> (r: Option<usize>)
    ensures
        match r {
            Some(i) => i < t@.len() && i == slot(t@, k@, 0) && lookup(t@, k@) == Some(
                t@[i as int].1,
            ),
            None => slot(t@, k@, 0) == t@.len() && lookup(t@, k@) is None,
        },
{
    let mut i: usize = 0;
    while i < t.len()
        invariant
            i <= t@.len(),
            slot(t@, k@, 0) == slot(t@, k@, i as int),
        decreases t@.len() - i,
    {
        if text::same(t[i].0.as_str(), k) {
            return Some(i);
        }
        i = i + 1;
    }
    None
}

/// Sets the value for the name `k`.
pub fn set<T>(t: &mut Vec<(String, T)>, k: &str, x: T)
    ensures
        is_set(old(t)@, k@, x, final(t)@),
{
    match find(t, k) {
        Some(i) => {
            let name = t[i].0.clone();
            t.set(i, (name, x));
        },
        None => {
            t.push((k.to_string(), x));
            assert(t@.drop_last() =~= old(t)@);
        },
    }
}

/// Removes the entries for the name `k`.
pub fn remove<T>(t: &mut Vec<(String, T)>, k: &str)
    ensures
        final(t)@ == without(old(t)@, k@),
{
    let ghost p = |e: (String, T)| e.0@ != k@;
    let ghost start = t@;
    let mut i: usize = t.len();
    assert(start.take(i as int) =~= start);
    assert(start.skip(i as int) =~= Seq::<(String, T)>::empty());
    assert(Seq::<(String, T)>::empty().filter(p) =~= Seq::<(String, T)>::empty()) by {
        reveal(Seq::filter);
    }
    while 0 < i
        invariant
            i <= start.len(),
            i <= t@.len(),
            p == (|e: (String, T)| e.0@ != k@),
            t@ == start.take(i as int) + start.skip(i as int).filter(p),
        decreases i,
    {
        let ghost tail = start.skip(i as int);
        i = i - 1;
        let ghost e = start[i as int];
        assert(t@[i as int] == e);
        proof {
            assert(start.skip(i as int) =~= seq![e] + tail);
            Seq::filter_distributes_over_add(seq![e], tail, p);
            assert(seq![e].drop_last() =~= Seq::<(String, T)>::empty());
            reveal(Seq::filter);
            assert(Seq::<(String, T)>::empty().filter(p) =~= Seq::<(String, T)>::empty());
            assert(seq![e].filter(p) =~= (if p(e) {
                seq![e]
            } else {
                Seq::empty()
            }));
        }
        if text::same(t[i].0.as_str(), k) {
            t.remove(i);
        }
        assert(t@ =~= start.take(i as int) + start.skip(i as int).filter(p));
    }
    assert(start.skip(0) =~= start);
    assert(t@ =~= start.filter(p));
}

/// The value of the last entry for the name `k`.
pub open spec fn recent<T>(s: Seq<(String, T)>, k: Seq<char>) -> Option<T>
    decreases s.len(),
{
    if s.len() == 0 {
        None
    } else if s.last().0@ == k {
        Some(s.last().1)
    } else {
        recent(s.drop_last(), k)
    }
}

/// The table of a list of entries, in which a later entry for a name takes the place of an earlier
/// one.
pub fn gather(list: &Vec<(String, bool)>) -> (r: Vec<(String, bool)>)
    ensures
        distinct(r@),
        forall|k: Seq<char>| #[trigger] lookup(r@, k) == recent(list@, k),
{
    let mut out: Vec<(String, bool)> = Vec::new();
    let mut i: usize = 0;
    while i < list.len()
        invariant
            i <= list@.len(),
            distinct(out@),
            forall|k: Seq<char>| #[trigger] lookup(out@, k) == recent(list@.take(i as int), k),
        decreases list@.len() - i,
    {
        let ghost was = out@;
        let ghost head = list@.take(i as int);
        let (name, x) = (&list[i].0, list[i].1);
        set(&mut out, name.as_str(), x);
        i = i + 1;
        proof {
            law_set(was, name@, x, out@);
            assert(list@.take(i as int).drop_last() =~= head);
            assert(list@.take(i as int).last() == list@[i - 1]);
        }
        assert forall|k: Seq<char>| #[trigger] lookup(out@, k) == recent(
            list@.take(i as int),
            k,
        ) by {
            assert(lookup(was, k) == recent(head, k));
        }
    }
    assert(list@.take(i as int) =~= list@);
    out
}

} // verus!
