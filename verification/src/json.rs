//! A small JSON value type with its parser and its writer.

use vstd::prelude::*;
use crate::digits;
use crate::num::{self, Num};
use crate::numeral;
use crate::shortest;
use crate::text;

pub use crate::reader::parse;

verus! {

/// A JSON value. The members of an object stand in the order of their names.
#[derive(Debug, PartialEq)]
pub enum J {
    Null,
    Bool(bool),
    Num(Num),
    Str(String),
    Arr(Vec<J>),
    Obj(Vec<(String, J)>),
}

/// What a JSON value stands for.
pub enum Json {
    Null,
    Bool(bool),
    Num(u64),
    Str(Seq<char>),
    Arr(Seq<Json>),
    Obj(Seq<(Seq<char>, Json)>),
}

impl J {
    /// What the value stands for.
    pub open spec fn view(&self) -> Json
        decreases self,
    {
        match self {
            J::Null => Json::Null,
            J::Bool(b) => Json::Bool(*b),
            J::Num(n) => Json::Num(n.bits),
            J::Str(s) => Json::Str(s@),
            J::Arr(a) => Json::Arr(
                Seq::new(
                    a@.len(),
                    |i: int|
                        if 0 <= i < a@.len() {
                            a@[i].view()
                        } else {
                            Json::Null
                        },
                ),
            ),
            J::Obj(m) => Json::Obj(
                Seq::new(
                    m@.len(),
                    |i: int|
                        if 0 <= i < m@.len() {
                            (m@[i].0@, m@[i].1.view())
                        } else {
                            (Seq::empty(), Json::Null)
                        },
                ),
            ),
        }
    }
}

/// What a list of values stands for.
pub open spec fn items(a: Seq<J>) -> Seq<Json> {
    Seq::new(a.len(), |i: int| a[i].view())
}

/// What a list of members stands for.
pub open spec fn members(m: Seq<(String, J)>) -> Seq<(Seq<char>, Json)> {
    Seq::new(m.len(), |i: int| (m[i].0@, m[i].1.view()))
}

pub proof fn lemma_arr_view(a: Vec<J>)
    ensures
        J::Arr(a).view() == Json::Arr(items(a@)),
{
    assert(J::Arr(a).view()->Arr_0 =~= items(a@));
}

pub proof fn lemma_obj_view(m: Vec<(String, J)>)
    ensures
        J::Obj(m).view() == Json::Obj(members(m@)),
{
    assert(J::Obj(m).view()->Obj_0 =~= members(m@));
}

impl Clone for J {
    /// A copy.
    fn clone(&self) -> (r: J)
        ensures
            r.view() == self.view(),
    {
        self.duplicate()
    }
}

// -------------------------------------------------------------------- members

/// Whether `a` comes before `b` in the order of names.
pub open spec fn before(a: Seq<char>, b: Seq<char>) -> bool
    decreases a.len(),
{
    if b.len() == 0 {
        false
    } else if a.len() == 0 {
        true
    } else if a[0] == b[0] {
        before(a.skip(1), b.skip(1))
    } else {
        a[0] < b[0]
    }
}

/// The first member at or after `i` whose name is `k`, or the number of members.
pub open spec fn position(m: Seq<(Seq<char>, Json)>, k: Seq<char>, i: int) -> int
    decreases m.len() - i,
{
    if i >= m.len() {
        m.len() as int
    } else if m[i].0 == k {
        i
    } else {
        position(m, k, i + 1)
    }
}

/// The value of the member `k`.
pub open spec fn entry(m: Seq<(Seq<char>, Json)>, k: Seq<char>) -> Option<Json> {
    let i = position(m, k, 0);
    if 0 <= i < m.len() {
        Some(m[i].1)
    } else {
        None
    }
}

/// The value of the member `k`, where `v` is an object that has one.
pub open spec fn field(v: Json, k: Seq<char>) -> Option<Json> {
    match v {
        Json::Obj(m) => entry(m, k),
        _ => None,
    }
}

/// The first member at or after `i` whose name does not come before `k`.
pub open spec fn place(m: Seq<(Seq<char>, Json)>, k: Seq<char>, i: int) -> int
    decreases m.len() - i,
{
    if i >= m.len() {
        m.len() as int
    } else if before(m[i].0, k) {
        place(m, k, i + 1)
    } else {
        i
    }
}

/// The members with `k` set to `v`, in the order of names.
pub open spec fn put(m: Seq<(Seq<char>, Json)>, k: Seq<char>, v: Json) -> Seq<(Seq<char>, Json)> {
    let i = place(m, k, 0);
    if 0 <= i < m.len() && m[i].0 == k {
        m.update(i, (k, v))
    } else {
        m.insert(i, (k, v))
    }
}

/// Whether the members stand in the order of their names, none twice.
pub open spec fn in_order(m: Seq<(Seq<char>, Json)>) -> bool {
    forall|i: int, j: int| 0 <= i < j < m.len() ==> before(#[trigger] m[i].0, #[trigger] m[j].0)
}

proof fn lemma_before_irreflexive(a: Seq<char>)
    ensures
        !before(a, a),
    decreases a.len(),
{
    if a.len() > 0 {
        lemma_before_irreflexive(a.skip(1));
    }
}

proof fn lemma_before_transitive(a: Seq<char>, b: Seq<char>, c: Seq<char>)
    requires
        before(a, b),
        before(b, c),
    ensures
        before(a, c),
    decreases a.len(),
{
    if a.len() > 0 && b.len() > 0 && c.len() > 0 && a[0] == b[0] && b[0] == c[0] {
        lemma_before_transitive(a.skip(1), b.skip(1), c.skip(1));
    }
}

proof fn lemma_before_total(a: Seq<char>, b: Seq<char>)
    ensures
        before(a, b) || before(b, a) || a == b,
    decreases a.len(),
{
    if a.len() == 0 || b.len() == 0 {
        if a.len() == 0 && b.len() == 0 {
            assert(a =~= b);
        }
    } else if a[0] == b[0] {
        lemma_before_total(a.skip(1), b.skip(1));
        if a.skip(1) == b.skip(1) {
            assert(a =~= seq![a[0]] + a.skip(1));
            assert(b =~= seq![b[0]] + b.skip(1));
        }
    }
}

/// Whether `a` comes before `b`, in the order of their characters.
fn comes_before(a: &str, b: &str) -> (r: bool)
    ensures
        r == before(a@, b@),
{
    let x = text::chars_of(a);
    let y = text::chars_of(b);
    let mut i: usize = 0;
    assert(x@.skip(0) =~= x@ && y@.skip(0) =~= y@);
    while i < x.len() && i < y.len()
        invariant
            i <= x@.len(),
            i <= y@.len(),
            x@ == a@,
            y@ == b@,
            before(x@, y@) == before(x@.skip(i as int), y@.skip(i as int)),
        decreases x@.len() - i,
    {
        assert(x@.skip(i as int)[0] == x@[i as int] && y@.skip(i as int)[0] == y@[i as int]);
        if x[i] != y[i] {
            return x[i] < y[i];
        }
        assert(x@.skip(i as int).skip(1) =~= x@.skip(i + 1));
        assert(y@.skip(i as int).skip(1) =~= y@.skip(i + 1));
        i = i + 1;
    }
    i < y.len()
}

pub proof fn lemma_place(m: Seq<(Seq<char>, Json)>, k: Seq<char>, i: int)
    requires
        0 <= i <= m.len(),
    ensures
        i <= place(m, k, i) <= m.len(),
        forall|j: int| i <= j < place(m, k, i) ==> before(#[trigger] m[j].0, k),
        place(m, k, i) < m.len() ==> !before(m[place(m, k, i)].0, k),
    decreases m.len() - i,
{
    if i < m.len() && before(m[i].0, k) {
        lemma_place(m, k, i + 1);
    }
}

pub proof fn lemma_position(m: Seq<(Seq<char>, Json)>, k: Seq<char>, i: int)
    requires
        0 <= i <= m.len(),
    ensures
        i <= position(m, k, i) <= m.len(),
        forall|j: int| i <= j < position(m, k, i) ==> #[trigger] m[j].0 != k,
        position(m, k, i) < m.len() ==> m[position(m, k, i)].0 == k,
    decreases m.len() - i,
{
    if i < m.len() && m[i].0 != k {
        lemma_position(m, k, i + 1);
    }
}

/// Setting a member keeps the members in order, gives it the value that was set, and leaves the
/// other members as they were.
pub proof fn law_put(m: Seq<(Seq<char>, Json)>, k: Seq<char>, v: Json)
    requires
        in_order(m),
    ensures
        in_order(put(m, k, v)),
        entry(put(m, k, v), k) == Some(v),
        forall|q: Seq<char>| q != k ==> #[trigger] entry(put(m, k, v), q) == entry(m, q),
{
    let p = place(m, k, 0);
    let n = put(m, k, v);
    lemma_place(m, k, 0);
    assert forall|i: int, j: int| 0 <= i < j < n.len() implies before(
        #[trigger] n[i].0,
        #[trigger] n[j].0,
    ) by {
        if p < m.len() && m[p].0 == k {
            assert(n[i].0 == m[i].0 && n[j].0 == m[j].0);
        } else {
            let a = if i < p {
                i
            } else {
                i - 1
            };
            let b = if j < p {
                j
            } else {
                j - 1
            };
            if i != p {
                assert(n[i] == m[a]);
            }
            if j != p {
                assert(n[j] == m[b]);
            }
            if i == p {
                lemma_before_total(m[p].0, k);
                if p < b {
                    assert(before(m[p].0, m[b].0));
                    lemma_before_transitive(k, m[p].0, m[b].0);
                }
            }
        }
    }
    lemma_position(n, k, 0);
    let x = position(n, k, 0);
    assert(n[p] == (k, v));
    if x < p {
        assert(before(n[x].0, n[p].0));
        lemma_before_irreflexive(k);
    } else if p < x {
        assert(n[p].0 != k);
    }
    assert forall|q: Seq<char>| q != k implies #[trigger] entry(n, q) == entry(m, q) by {
        let y = position(n, q, 0);
        let z = position(m, q, 0);
        lemma_position(n, q, 0);
        lemma_position(m, q, 0);
        if p < m.len() && m[p].0 == k {
            assert(forall|i: int| 0 <= i < m.len() ==> (#[trigger] n[i]).0 == m[i].0);
            if y < z {
                assert(n[y].0 == m[y].0);
            } else if z < y {
                assert(n[z].0 == m[z].0);
            }
        } else {
            let w = if z < p {
                z
            } else {
                z + 1
            };
            if z < m.len() {
                assert(n[w] == m[z]);
            }
            if y < n.len() {
                assert(y != p);
                let c = if y < p {
                    y
                } else {
                    y - 1
                };
                assert(n[y] == m[c]);
                if c < z {
                } else if z < c {
                    assert(w < y);
                }
            }
        }
    }
}

/// Sets the member `k` to `v`.
pub fn insert(m: &mut Vec<(String, J)>, k: &str, v: J)
    ensures
        members(final(m)@) == put(members(old(m)@), k@, v.view()),
{
    let ghost old_m = members(m@);
    let mut i: usize = 0;
    while i < m.len() && comes_before(m[i].0.as_str(), k)
        invariant
            i <= m@.len(),
            members(m@) == old_m,
            place(old_m, k@, 0) == place(old_m, k@, i as int),
        decreases m@.len() - i,
    {
        assert(old_m[i as int].0 == m@[i as int].0@);
        i = i + 1;
    }
    if i < m.len() {
        assert(old_m[i as int].0 == m@[i as int].0@);
        if text::same(m[i].0.as_str(), k) {
            m.set(i, (k.to_string(), v));
            assert(members(m@) =~= put(old_m, k@, v.view()));
            return;
        }
    }
    m.insert(i, (k.to_string(), v));
    assert(members(m@) =~= put(old_m, k@, v.view()));
}

// ----------------------------------------------------------------- reading it

/// The text of a string value.
pub open spec fn str_of(v: Json) -> Option<Seq<char>> {
    match v {
        Json::Str(s) => Some(s),
        _ => None,
    }
}

/// The number that a value gives: a number itself, or the one that a string writes.
pub open spec fn num_of(v: Json) -> Option<u64> {
    match v {
        Json::Num(n) => Some(n),
        Json::Str(s) => numeral::number_text(s),
        _ => None,
    }
}

/// The integer that a value gives; zero where it gives none.
pub open spec fn int_of(v: Json) -> int {
    match v {
        Json::Bool(b) => if b {
            1
        } else {
            0
        },
        _ => match num_of(v) {
            Some(n) => num::to_int(n),
            None => 0,
        },
    }
}

/// Whether a value counts as true.
pub open spec fn bool_of(v: Json) -> bool {
    match v {
        Json::Bool(b) => b,
        Json::Num(n) => num::magnitude(n) != 0,
        Json::Str(s) => s == "true"@ || s == "1"@,
        _ => false,
    }
}

/// The elements of an array; none for any other value.
pub open spec fn items_of(v: Json) -> Seq<Json> {
    match v {
        Json::Arr(a) => a,
        _ => Seq::empty(),
    }
}

/// The string of the member `k`, or `d`.
pub open spec fn str_at(v: Json, k: Seq<char>, d: Seq<char>) -> Seq<char> {
    match field(v, k) {
        Some(x) => match str_of(x) {
            Some(s) => s,
            None => d,
        },
        None => d,
    }
}

/// The integer of the member `k`, or zero.
pub open spec fn int_at(v: Json, k: Seq<char>) -> int {
    match field(v, k) {
        Some(x) => int_of(x),
        None => 0,
    }
}

/// The truth of the member `k`, or false.
pub open spec fn bool_at(v: Json, k: Seq<char>) -> bool {
    field(v, k) matches Some(x) && bool_of(x)
}

/// The elements of the member `k`, or none.
pub open spec fn items_at(v: Json, k: Seq<char>) -> Seq<Json> {
    match field(v, k) {
        Some(x) => items_of(x),
        None => Seq::empty(),
    }
}

/// The members that result when the given ones are put in one after another.
pub open spec fn built(l: Seq<(Seq<char>, Json)>) -> Seq<(Seq<char>, Json)>
    decreases l.len(),
{
    if l.len() == 0 {
        Seq::empty()
    } else {
        put(built(l.drop_last()), l.last().0, l.last().1)
    }
}

/// The value that a list of members gives last to the name `k`.
pub open spec fn latest(l: Seq<(Seq<char>, Json)>, k: Seq<char>) -> Option<Json>
    decreases l.len(),
{
    if l.len() == 0 {
        None
    } else if l.last().0 == k {
        Some(l.last().1)
    } else {
        latest(l.drop_last(), k)
    }
}

/// Members put in one after another stand in order, and each name has the value that it was given
/// last.
pub proof fn law_built(l: Seq<(Seq<char>, Json)>)
    ensures
        in_order(built(l)),
        forall|k: Seq<char>| #[trigger] entry(built(l), k) == latest(l, k),
    decreases l.len(),
{
    if l.len() == 0 {
        assert forall|k: Seq<char>| #[trigger] entry(built(l), k) == latest(l, k) by {
            assert(position(built(l), k, 0) == 0);
        }
    } else {
        let h = l.drop_last();
        law_built(h);
        law_put(built(h), l.last().0, l.last().1);
        assert forall|k: Seq<char>| #[trigger] entry(built(l), k) == latest(l, k) by {
            assert(entry(built(h), k) == latest(h, k));
        }
    }
}

/// A name that no later member has keeps its value.
pub proof fn lemma_latest(l: Seq<(Seq<char>, Json)>, i: int)
    requires
        0 <= i < l.len(),
        forall|j: int| i < j < l.len() ==> (#[trigger] l[j]).0 != l[i].0,
    ensures
        latest(l, l[i].0) == Some(l[i].1),
    decreases l.len(),
{
    if i < l.len() - 1 {
        assert(l[l.len() - 1].0 != l[i].0);
        lemma_latest(l.drop_last(), i);
    }
}

/// A name that no member has gets no value.
pub proof fn lemma_latest_none(l: Seq<(Seq<char>, Json)>, k: Seq<char>)
    requires
        forall|j: int| 0 <= j < l.len() ==> (#[trigger] l[j]).0 != k,
    ensures
        latest(l, k) is None,
    decreases l.len(),
{
    if l.len() > 0 {
        assert(l[l.len() - 1].0 != k);
        lemma_latest_none(l.drop_last(), k);
    }
}

/// The member of an object that was built from a list in which no name stands twice.
pub proof fn lemma_built_field(l: Seq<(Seq<char>, Json)>, i: int)
    requires
        0 <= i < l.len(),
        forall|j: int| i < j < l.len() ==> (#[trigger] l[j]).0 != l[i].0,
    ensures
        field(Json::Obj(built(l)), l[i].0) == Some(l[i].1),
{
    law_built(l);
    lemma_latest(l, i);
    assert(entry(built(l), l[i].0) == latest(l, l[i].0));
}

/// An object that was built from a list has no member that the list does not name.
pub proof fn lemma_built_no_field(l: Seq<(Seq<char>, Json)>, k: Seq<char>)
    requires
        forall|j: int| 0 <= j < l.len() ==> (#[trigger] l[j]).0 != k,
    ensures
        field(Json::Obj(built(l)), k) is None,
{
    law_built(l);
    lemma_latest_none(l, k);
    assert(entry(built(l), k) == latest(l, k));
}

/// Each member that was put in is one of the list.
pub proof fn lemma_built_from(l: Seq<(Seq<char>, Json)>, i: int)
    requires
        0 <= i < built(l).len(),
    ensures
        l.contains(built(l)[i]),
    decreases l.len(),
{
    if l.len() > 0 {
        let h = l.drop_last();
        let m = built(h);
        let p = place(m, l.last().0, 0);
        lemma_place(m, l.last().0, 0);
        assert(l[l.len() - 1] == l.last());
        assert forall|q: int| 0 <= q < m.len() implies l.contains(#[trigger] m[q]) by {
            lemma_built_from(h, q);
            let j = choose|j: int| 0 <= j < h.len() && h[j] == m[q];
            assert(l[j] == m[q]);
        }
        if p < m.len() && m[p].0 == l.last().0 {
            if i != p {
                assert(built(l)[i] == m[i]);
            }
        } else if i < p {
            assert(built(l)[i] == m[i]);
        } else if i > p {
            assert(built(l)[i] == m[i - 1]);
        }
    }
}

/// Adds a member at the end of a list.
pub fn append(list: &mut Vec<(String, J)>, k: &str, v: J)
    ensures
        members(final(list)@) == members(old(list)@).push((k@, v.view())),
{
    let ghost was = members(list@);
    list.push((k.to_string(), v));
    assert(members(list@) =~= was.push((k@, v.view())));
}

/// The object of the given members, put in one after another.
pub fn object(list: Vec<(String, J)>) -> (r: J)
    ensures
        r.view() == Json::Obj(built(members(list@))),
{
    let ghost all = members(list@);
    let mut rest = list;
    let n = rest.len();
    let mut m: Vec<(String, J)> = Vec::new();
    let mut i: usize = 0;
    assert(members(m@) =~= Seq::<(Seq<char>, Json)>::empty());
    assert(all.skip(0) =~= all);
    while rest.len() > 0
        invariant
            i + rest@.len() == all.len(),
            all.len() == n,
            members(rest@) == all.skip(i as int),
            members(m@) == built(all.take(i as int)),
        decreases rest@.len(),
    {
        let ghost was = rest@;
        let (k, v) = rest.remove(0);
        insert(&mut m, k.as_str(), v);
        i = i + 1;
        proof {
            assert(all.skip(i - 1)[0] == members(was)[0]);
            assert(all.take(i as int).drop_last() =~= all.take(i - 1));
            assert(all.take(i as int).last() == (k@, v.view()));
            assert(members(rest@) =~= all.skip(i as int)) by {
                assert forall|j: int| 0 <= j < rest@.len() implies #[trigger] members(rest@)[j]
                    == all.skip(i as int)[j] by {
                    assert(members(was)[j + 1] == all.skip(i - 1)[j + 1]);
                }
            }
        }
    }
    assert(all.take(i as int) =~= all);
    proof {
        lemma_obj_view(m);
    }
    J::Obj(m)
}

/// What a list of references to values stands for.
pub open spec fn ref_items(a: Seq<&J>) -> Seq<Json> {
    Seq::new(a.len(), |i: int| a[i].view())
}

impl J {
    /// The member `key`, where the value is an object that has one.
    pub fn get(&self, key: &str) -> (r: Option<&J>)
        ensures
            match field(self.view(), key@) {
                Some(v) => r matches Some(j) && j.view() == v,
                None => r is None,
            },
    {
        match self {
            J::Obj(m) => {
                let ghost mm = members(m@);
                proof {
                    lemma_obj_view(*m);
                }
                let mut i: usize = 0;
                while i < m.len()
                    invariant
                        i <= m@.len(),
                        mm == members(m@),
                        self.view() == Json::Obj(mm),
                        position(mm, key@, 0) == position(mm, key@, i as int),
                    decreases m@.len() - i,
                {
                    assert(mm[i as int].0 == m@[i as int].0@);
                    if text::same(m[i].0.as_str(), key) {
                        return Some(&m[i].1);
                    }
                    i = i + 1;
                }
                None
            },
            _ => None,
        }
    }

    /// The text, where the value is a string.
    pub fn as_str(&self) -> (r: Option<&str>)
        ensures
            match str_of(self.view()) {
                Some(s) => r matches Some(t) && t@ == s,
                None => r is None,
            },
    {
        match self {
            J::Str(s) => Some(s.as_str()),
            _ => None,
        }
    }

    /// The number, where the value is one or is a string that writes one.
    pub fn as_f64(&self) -> (r: Option<Num>)
        ensures
            match num_of(self.view()) {
                Some(b) => r matches Some(n) && n.bits == b,
                None => r is None,
            },
    {
        match self {
            J::Num(n) => Some(*n),
            J::Str(s) => Num::read(s.as_str()),
            _ => None,
        }
    }

    /// The value as an integer; zero where it gives none.
    pub fn as_i64(&self) -> (r: i64)
        ensures
            r == int_of(self.view()),
    {
        match self {
            J::Num(n) => n.to_i64(),
            J::Str(s) => match Num::read(s.as_str()) {
                Some(n) => n.to_i64(),
                None => 0,
            },
            J::Bool(b) => {
                if *b {
                    1
                } else {
                    0
                }
            },
            _ => 0,
        }
    }

    /// Whether the value counts as true.
    pub fn as_bool(&self) -> (r: bool)
        ensures
            r == bool_of(self.view()),
    {
        match self {
            J::Bool(b) => *b,
            J::Num(n) => n.is_nonzero(),
            J::Str(s) => text::same(s.as_str(), "true") || text::same(s.as_str(), "1"),
            _ => false,
        }
    }

    /// The elements of an array; none for any other value.
    pub fn as_arr(&self) -> (r: Vec<&J>)
        ensures
            ref_items(r@) == items_of(self.view()),
    {
        let mut out: Vec<&J> = Vec::new();
        match self {
            J::Arr(a) => {
                proof {
                    lemma_arr_view(*a);
                }
                let mut i: usize = 0;
                while i < a.len()
                    invariant
                        i <= a@.len(),
                        out@.len() == i,
                        forall|k: int| 0 <= k < i ==> (#[trigger] out@[k]).view() == a@[k].view(),
                    decreases a@.len() - i,
                {
                    out.push(&a[i]);
                    i = i + 1;
                }
                assert(ref_items(out@) =~= items(a@));
                out
            },
            _ => {
                assert(ref_items(out@) =~= Seq::<Json>::empty());
                out
            },
        }
    }

    /// The string of the member `key`, or `default`.
    pub fn str_at(&self, key: &str, default: &str) -> (r: String)
        ensures
            r@ == str_at(self.view(), key@, default@),
    {
        match self.get(key) {
            Some(x) => match x.as_str() {
                Some(s) => s.to_string(),
                None => default.to_string(),
            },
            None => default.to_string(),
        }
    }

    /// The integer of the member `key`, or zero.
    pub fn int_at(&self, key: &str) -> (r: i64)
        ensures
            r == int_at(self.view(), key@),
    {
        match self.get(key) {
            Some(x) => x.as_i64(),
            None => 0,
        }
    }

    /// The truth of the member `key`, or false.
    pub fn bool_at(&self, key: &str) -> (r: bool)
        ensures
            r == bool_at(self.view(), key@),
    {
        match self.get(key) {
            Some(x) => x.as_bool(),
            None => false,
        }
    }

    /// The elements of the member `key`, or none.
    pub fn items_at(&self, key: &str) -> (r: Vec<&J>)
        ensures
            ref_items(r@) == items_at(self.view(), key@),
    {
        match self.get(key) {
            Some(x) => x.as_arr(),
            None => {
                let none: Vec<&J> = Vec::new();
                assert(ref_items(none@) =~= Seq::<Json>::empty());
                none
            },
        }
    }

    /// Whether the value is null.
    pub fn is_null(&self) -> (r: bool)
        ensures
            r == (self.view() is Null),
    {
        match self {
            J::Null => true,
            _ => false,
        }
    }

    /// A copy of the value.
    fn duplicate(&self) -> (r: J)
        ensures
            r.view() == self.view(),
        decreases self,
    {
        match self {
            J::Null => J::Null,
            J::Bool(b) => J::Bool(*b),
            J::Num(n) => J::Num(*n),
            J::Str(s) => J::Str(s.clone()),
            J::Arr(a) => {
                let mut out: Vec<J> = Vec::new();
                let mut i: usize = 0;
                while i < a.len()
                    invariant
                        i <= a@.len(),
                        out@.len() == i,
                        decreases_to!(self => a@),
                        forall|k: int| 0 <= k < i ==> (#[trigger] out@[k]).view() == a@[k].view(),
                    decreases a@.len() - i,
                {
                    out.push(a[i].duplicate());
                    i = i + 1;
                }
                proof {
                    lemma_arr_view(*a);
                    lemma_arr_view(out);
                    assert(items(out@) =~= items(a@));
                }
                J::Arr(out)
            },
            J::Obj(m) => {
                let mut out: Vec<(String, J)> = Vec::new();
                let mut i: usize = 0;
                while i < m.len()
                    invariant
                        i <= m@.len(),
                        out@.len() == i,
                        decreases_to!(self => m@),
                        forall|k: int|
                            0 <= k < i ==> (#[trigger] out@[k]).0@ == m@[k].0@ && out@[k].1.view()
                                == m@[k].1.view(),
                    decreases m@.len() - i,
                {
                    out.push((m[i].0.clone(), m[i].1.duplicate()));
                    i = i + 1;
                }
                proof {
                    lemma_obj_view(*m);
                    lemma_obj_view(out);
                    assert(members(out@) =~= members(m@));
                }
                J::Obj(out)
            },
        }
    }
}


// -------------------------------------------------------------------- writing

/// A character as it stands between the quotes of a string.
pub open spec fn escaped_char(c: char) -> Seq<char> {
    if c == '"' {
        seq!['\\', '"']
    } else if c == '\\' {
        seq!['\\', '\\']
    } else if c == '\n' {
        seq!['\\', 'n']
    } else if c == '\r' {
        seq!['\\', 'r']
    } else if c == '\t' {
        seq!['\\', 't']
    } else if (c as u32) < 0x20 {
        seq![
            '\\',
            'u',
            '0',
            '0',
            digits::digit_char((c as u32 / 16) as nat),
            digits::digit_char((c as u32 % 16) as nat),
        ]
    } else {
        seq![c]
    }
}

/// The first `n` characters of `s` as they stand between the quotes of a string.
pub open spec fn escaped(s: Seq<char>, n: int) -> Seq<char>
    decreases n,
{
    if n <= 0 {
        Seq::empty()
    } else {
        escaped(s, n - 1) + escaped_char(s[n - 1])
    }
}

/// `s` as a JSON string, quotes included.
pub open spec fn quoted(s: Seq<char>) -> Seq<char> {
    seq!['"'] + escaped(s, s.len() as int) + seq!['"']
}

/// What separates lines: nothing in the compact form, else a line break and the indentation.
pub open spec fn line(pad: Option<Seq<char>>) -> Seq<char> {
    match pad {
        None => Seq::empty(),
        Some(p) => seq!['\n'] + p,
    }
}

/// The indentation one level deeper.
pub open spec fn deeper(pad: Option<Seq<char>>) -> Option<Seq<char>> {
    match pad {
        None => None,
        Some(p) => Some(p + seq![' ', ' ']),
    }
}

/// What stands between a name and its value.
pub open spec fn colon(pad: Option<Seq<char>>) -> Seq<char> {
    match pad {
        None => seq![':'],
        Some(_) => seq![':', ' '],
    }
}

/// A value as text: on one line, or spread over lines that start with the indentation.
pub open spec fn render(v: Json, pad: Option<Seq<char>>) -> Seq<char>
    decreases v, 0nat,
{
    match v {
        Json::Null => "null"@,
        Json::Bool(b) => if b {
            "true"@
        } else {
            "false"@
        },
        Json::Num(n) => shortest::shown(n),
        Json::Str(s) => quoted(s),
        Json::Arr(a) => if a.len() == 0 {
            seq!['[', ']']
        } else {
            seq!['['] + line(deeper(pad)) + render_items(a, a.len(), deeper(pad)) + line(pad)
                + seq![']']
        },
        Json::Obj(m) => if m.len() == 0 {
            seq!['{', '}']
        } else {
            seq!['{'] + line(deeper(pad)) + render_members(m, m.len(), deeper(pad)) + line(pad)
                + seq!['}']
        },
    }
}

/// The first `n` elements of an array as text.
pub open spec fn render_items(a: Seq<Json>, n: nat, pad: Option<Seq<char>>) -> Seq<char>
    decreases a, n,
{
    if n == 0 || n > a.len() {
        Seq::empty()
    } else if n == 1 {
        render(a[0], pad)
    } else {
        render_items(a, (n - 1) as nat, pad) + seq![','] + line(pad) + render(a[n - 1], pad)
    }
}

/// The first `n` members of an object as text.
pub open spec fn render_members(m: Seq<(Seq<char>, Json)>, n: nat, pad: Option<Seq<char>>) -> Seq<
    char,
>
    decreases m, n,
{
    if n == 0 || n > m.len() {
        Seq::empty()
    } else if n == 1 {
        quoted(m[0].0) + colon(pad) + render(m[0].1, pad)
    } else {
        render_members(m, (n - 1) as nat, pad) + seq![','] + line(pad) + quoted(m[n - 1].0) + colon(
            pad,
        ) + render(m[n - 1].1, pad)
    }
}

/// Appends a character as it stands between the quotes of a string.
fn put_escaped(out: &mut String, c: char)
    ensures
        final(out)@ == old(out)@ + escaped_char(c),
{
    let u = c as u32;
    if c == '"' {
        out.push('\\');
        out.push('"');
    } else if c == '\\' {
        out.push('\\');
        out.push('\\');
    } else if c == '\n' {
        out.push('\\');
        out.push('n');
    } else if c == '\r' {
        out.push('\\');
        out.push('r');
    } else if c == '\t' {
        out.push('\\');
        out.push('t');
    } else if u < 0x20 {
        out.push('\\');
        out.push('u');
        out.push('0');
        out.push('0');
        out.push(digits::digit_text((u / 16) as u64));
        out.push(digits::digit_text((u % 16) as u64));
    } else {
        out.push(c);
    }
    assert(out@ =~= old(out)@ + escaped_char(c));
}

/// Appends `s` as a JSON string.
fn put_quoted(out: &mut String, s: &str)
    ensures
        final(out)@ == old(out)@ + quoted(s@),
{
    out.push('"');
    let ghost start = out@;
    assert(start + Seq::<char>::empty() =~= start);
    for c in it: s.chars()
        invariant
            start == old(out)@.push('"'),
            out@ == start + escaped(s@, it.index() as int),
            it.seq() == s@,
    {
        put_escaped(out, c);
        assert(out@ =~= start + escaped(s@, it.index() + 1));
    }
    out.push('"');
    assert(out@ =~= old(out)@ + quoted(s@));
}

/// `s` as a JSON string, quotes included.
pub fn escape_json(s: &str) -> (r: String)
    ensures
        r@ == quoted(s@),
{
    let mut out = String::new();
    put_quoted(&mut out, s);
    assert(out@ =~= quoted(s@));
    out
}

/// The characters of an optional indentation.
pub open spec fn pad_view(pad: Option<String>) -> Option<Seq<char>> {
    match pad {
        None => None,
        Some(p) => Some(p@),
    }
}

/// Appends what separates lines.
fn put_line(out: &mut String, pad: &Option<String>)
    ensures
        final(out)@ == old(out)@ + line(pad_view(*pad)),
{
    match pad {
        None => {
            assert(out@ =~= old(out)@ + Seq::<char>::empty());
        },
        Some(p) => {
            out.push('\n');
            text::put(out, p.as_str());
            assert(out@ =~= old(out)@ + (seq!['\n'] + p@));
        },
    }
}

/// Appends what stands between a name and its value.
fn put_colon(out: &mut String, pad: &Option<String>)
    ensures
        final(out)@ == old(out)@ + colon(pad_view(*pad)),
{
    out.push(':');
    if let Some(_) = pad {
        out.push(' ');
    }
    assert(out@ =~= old(out)@ + colon(pad_view(*pad)));
}

/// Appends a value as text.
fn put_value(out: &mut String, v: &J, pad: &Option<String>)
    ensures
        final(out)@ == old(out)@ + render(v.view(), pad_view(*pad)),
    decreases v,
{
    let ghost start = out@;
    match v {
        J::Null => text::put(out, "null"),
        J::Bool(b) => if *b {
            text::put(out, "true");
        } else {
            text::put(out, "false");
        },
        J::Num(n) => text::put(out, n.show().as_str()),
        J::Str(s) => put_quoted(out, s.as_str()),
        J::Arr(a) => {
            let ghost av = items(a@);
            proof {
                lemma_arr_view(*a);
            }
            out.push('[');
            if a.len() > 0 {
                let inner: Option<String> = match pad {
                    None => None,
                    Some(p) => {
                        let mut q = p.clone();
                        q.push(' ');
                        q.push(' ');
                        assert(q@ =~= p@ + seq![' ', ' ']);
                        Some(q)
                    },
                };
                let ghost dp = deeper(pad_view(*pad));
                assert(pad_view(inner) == dp);
                put_line(out, &inner);
                let ghost head = out@;
                assert(head =~= start + (seq!['['] + line(dp)));
                let mut i: usize = 0;
                assert(head + Seq::<char>::empty() =~= head);
                while i < a.len()
                    invariant
                        i <= a@.len(),
                        av == items(a@),
                        decreases_to!(v => a@),
                        pad_view(inner) == dp,
                        out@ == head + render_items(av, i as nat, dp),
                    decreases a@.len() - i,
                {
                    let ghost prev = out@;
                    if i > 0 {
                        out.push(',');
                        put_line(out, &inner);
                    }
                    put_value(out, &a[i], &inner);
                    assert(av[i as int] == a@[i as int].view());
                    i = i + 1;
                    assert(out@ =~= head + render_items(av, i as nat, dp));
                }
                put_line(out, pad);
            }
            out.push(']');
            assert(out@ =~= start + render(v.view(), pad_view(*pad)));
        },
        J::Obj(m) => {
            let ghost mv = members(m@);
            proof {
                lemma_obj_view(*m);
            }
            out.push('{');
            if m.len() > 0 {
                let inner: Option<String> = match pad {
                    None => None,
                    Some(p) => {
                        let mut q = p.clone();
                        q.push(' ');
                        q.push(' ');
                        assert(q@ =~= p@ + seq![' ', ' ']);
                        Some(q)
                    },
                };
                let ghost dp = deeper(pad_view(*pad));
                assert(pad_view(inner) == dp);
                put_line(out, &inner);
                let ghost head = out@;
                assert(head =~= start + (seq!['{'] + line(dp)));
                let mut i: usize = 0;
                assert(head + Seq::<char>::empty() =~= head);
                while i < m.len()
                    invariant
                        i <= m@.len(),
                        mv == members(m@),
                        decreases_to!(v => m@),
                        pad_view(inner) == dp,
                        out@ == head + render_members(mv, i as nat, dp),
                    decreases m@.len() - i,
                {
                    if i > 0 {
                        out.push(',');
                        put_line(out, &inner);
                    }
                    put_quoted(out, m[i].0.as_str());
                    put_colon(out, &inner);
                    put_value(out, &m[i].1, &inner);
                    assert(mv[i as int] == (m@[i as int].0@, m@[i as int].1.view()));
                    i = i + 1;
                    assert(out@ =~= head + render_members(mv, i as nat, dp));
                }
                put_line(out, pad);
            }
            out.push('}');
            assert(out@ =~= start + render(v.view(), pad_view(*pad)));
        },
    }
}

impl J {
    /// The value as JSON text on one line.
    pub fn to_string(&self) -> (r: String)
        ensures
            r@ == render(self.view(), None),
    {
        let mut out = String::new();
        put_value(&mut out, self, &None);
        assert(out@ =~= render(self.view(), None));
        out
    }

    /// The value as JSON text spread over lines, the first of them without indentation.
    pub fn to_lines(&self, pad: String) -> (r: String)
        ensures
            r@ == render(self.view(), Some(pad@)),
    {
        let mut out = String::new();
        put_value(&mut out, self, &Some(pad));
        assert(out@ =~= render(self.view(), Some(pad@)));
        out
    }
}

} // verus!
