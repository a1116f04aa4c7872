//! Maps and sets keyed by text, kept in the order of their keys.

use vstd::prelude::*;

use crate::text::{self, comes_before, copy, holds, same, Text};

verus! {

/// A map written out: its keys with their values, in the order of the keys.
pub type Rows<V> = Seq<(Text, V)>;

/// The keys stand in order, and none stands twice.
pub open spec fn sorted<V>(r: Rows<V>) -> bool {
    forall|i: int, j: int|
        #![trigger r[i], r[j]]
        0 <= i < j < r.len() ==> text::before(r[i].0, r[j].0)
}

/// The rows with `k` bound to `v`, whatever it was bound to before.
pub open spec fn put<V>(r: Rows<V>, k: Text, v: V) -> Rows<V>
    decreases r.len(),
{
    if r.len() == 0 {
        seq![(k, v)]
    } else if r[0].0 == k {
        seq![(k, v)] + r.drop_first()
    } else if text::before(r[0].0, k) {
        seq![r[0]] + put(r.drop_first(), k, v)
    } else {
        seq![(k, v)] + r
    }
}

/// What `k` is bound to.
pub open spec fn get<V>(r: Rows<V>, k: Text) -> Option<V>
    decreases r.len(),
{
    if r.len() == 0 {
        None
    } else if r[0].0 == k {
        Some(r[0].1)
    } else {
        get(r.drop_first(), k)
    }
}

/// The keys, in order.
pub open spec fn keys<V>(r: Rows<V>) -> Seq<Text> {
    r.map_values(|e: (Text, V)| e.0)
}

/// Finding a key where it stands first.
proof fn lemma_get_at<V>(r: Rows<V>, k: Text, i: int)
    requires
        0 <= i < r.len(),
        r[i].0 == k,
        forall|j: int| 0 <= j < i ==> (#[trigger] r[j]).0 != k,
    ensures
        get(r, k) == Some(r[i].1),
    decreases i,
{
    if i > 0 {
        assert(r[0].0 != k);
        assert forall|j: int| 0 <= j < i - 1 implies (#[trigger] r.drop_first()[j]).0 != k by {
            assert(r[j + 1].0 != k);
        }
        lemma_get_at(r.drop_first(), k, i - 1);
    }
}

/// A key is found exactly where some row has it.
pub proof fn lemma_get_none<V>(r: Rows<V>, k: Text)
    ensures
        get(r, k) is None <==> forall|j: int| 0 <= j < r.len() ==> (#[trigger] r[j]).0 != k,
    decreases r.len(),
{
    if r.len() > 0 {
        lemma_get_none(r.drop_first(), k);
        if get(r, k) is None {
            assert forall|j: int| 0 <= j < r.len() implies (#[trigger] r[j]).0 != k by {
                if j > 0 {
                    assert(r.drop_first()[j - 1].0 != k);
                }
            }
        } else if r[0].0 != k {
            let j = choose|j: int| 0 <= j < r.drop_first().len() && (#[trigger] r.drop_first()[j]).0 == k;
            assert(r[j + 1].0 == k);
        } else {
            assert(r[0].0 == k);
        }
    }
}

/// Rows in order that bind the same keys to the same values are the same rows.
pub proof fn law_same_rows<V>(r: Rows<V>, s: Rows<V>)
    requires
        sorted(r),
        sorted(s),
        forall|k: Text| #[trigger] get(r, k) == get(s, k),
    ensures
        r == s,
    decreases r.len(),
{
    if r.len() == 0 || s.len() == 0 {
        if s.len() > 0 {
            lemma_get_at(s, s[0].0, 0);
            assert(get(r, s[0].0) == get(s, s[0].0));
        }
        if r.len() > 0 {
            lemma_get_at(r, r[0].0, 0);
            assert(get(r, r[0].0) == get(s, r[0].0));
        }
        assert(r =~= s);
    } else {
        let a = r[0].0;
        let b = s[0].0;
        lemma_get_at(r, a, 0);
        lemma_get_at(s, b, 0);
        assert(get(r, a) == get(s, a));
        assert(get(r, b) == get(s, b));
        lemma_get_none(s, a);
        lemma_get_none(r, b);
        let i = choose|i: int| 0 <= i < s.len() && (#[trigger] s[i]).0 == a;
        let j = choose|j: int| 0 <= j < r.len() && (#[trigger] r[j]).0 == b;
        if i > 0 && j > 0 {
            assert(text::before(s[0].0, s[i].0));
            assert(text::before(r[0].0, r[j].0));
            text::lemma_before_transitive(a, b, a);
            text::lemma_before_irreflexive(a, a);
        }
        assert(a == b);
        let r1 = r.drop_first();
        let s1 = s.drop_first();
        lemma_tail_sorted(r);
        lemma_tail_sorted(s);
        assert forall|k: Text| #[trigger] get(r1, k) == get(s1, k) by {
            assert(get(r, k) == get(s, k));
        }
        law_same_rows(r1, s1);
        assert(r =~= seq![r[0]] + r1);
        assert(s =~= seq![s[0]] + s1);
    }
}

/// What follows the first of rows in order is in order, and the first key is not
/// among its keys.
proof fn lemma_tail_sorted<V>(r: Rows<V>)
    requires
        sorted(r),
        r.len() > 0,
    ensures
        sorted(r.drop_first()),
        get(r.drop_first(), r[0].0) is None,
{
    let rest = r.drop_first();
    assert forall|i: int, j: int|
        #![trigger rest[i], rest[j]]
        0 <= i < j < rest.len() implies text::before(rest[i].0, rest[j].0) by {
        assert(text::before(r[i + 1].0, r[j + 1].0));
    }
    lemma_get_none(rest, r[0].0);
    assert forall|j: int| 0 <= j < rest.len() implies (#[trigger] rest[j]).0 != r[0].0 by {
        assert(text::before(r[0].0, r[j + 1].0));
        text::lemma_before_irreflexive(r[0].0, r[j + 1].0);
    }
}

/// Binding one key: a read of it gives the new value, and every other read
/// what it gave before.
pub proof fn law_get_put<V>(r: Rows<V>, k: Text, v: V, q: Text)
    requires
        sorted(r),
    ensures
        get(put(r, k, v), q) == (if q == k { Some(v) } else { get(r, q) }),
    decreases r.len(),
{
    if r.len() > 0 {
        let rest = r.drop_first();
        assert forall|i: int, j: int| 0 <= i < j < rest.len() implies text::before(
            #[trigger] rest[i].0,
            #[trigger] rest[j].0,
        ) by {
            assert(text::before(r[i + 1].0, r[j + 1].0));
        }
        if r[0].0 == k {
            assert((seq![(k, v)] + rest).drop_first() =~= rest);
        } else if text::before(r[0].0, k) {
            law_get_put(rest, k, v, q);
            assert((seq![r[0]] + put(rest, k, v)).drop_first() =~= put(rest, k, v));
        } else {
            assert((seq![(k, v)] + r).drop_first() =~= r);
        }
    } else {
        assert(seq![(k, v)].drop_first() =~= r);
    }
}

/// Where a new key belongs, the rows before it and after it stay.
proof fn lemma_put_at<V>(r: Rows<V>, k: Text, v: V, i: int)
    requires
        0 <= i <= r.len(),
        forall|j: int| 0 <= j < i ==> text::before((#[trigger] r[j]).0, k),
        i < r.len() ==> !text::before(r[i].0, k),
    ensures
        put(r, k, v) == (if i < r.len() && r[i].0 == k {
            r.update(i, (k, v))
        } else {
            r.insert(i, (k, v))
        }),
    decreases i,
{
    if i == 0 {
        if r.len() > 0 && r[0].0 == k {
            assert(seq![(k, v)] + r.drop_first() =~= r.update(0, (k, v)));
        } else {
            assert(seq![(k, v)] + r =~= r.insert(0, (k, v)));
        }
    } else {
        let rest = r.drop_first();
        assert(text::before(r[0].0, k));
        text::lemma_before_irreflexive(k, k);
        assert forall|j: int| 0 <= j < i - 1 implies text::before(
            (#[trigger] rest[j]).0,
            k,
        ) by {
            assert(text::before(r[j + 1].0, k));
        }
        lemma_put_at(rest, k, v, i - 1);
        if i < r.len() && r[i].0 == k {
            assert(seq![r[0]] + rest.update(i - 1, (k, v)) =~= r.update(i, (k, v)));
        } else {
            assert(seq![r[0]] + rest.insert(i - 1, (k, v)) =~= r.insert(i, (k, v)));
        }
    }
}

/// Binding a key adds no row but its own.
pub proof fn lemma_put_rows<V>(r: Rows<V>, k: Text, v: V, e: (Text, V))
    requires
        put(r, k, v).contains(e),
    ensures
        e == (k, v) || r.contains(e),
    decreases r.len(),
{
    let s = put(r, k, v);
    let i = choose|i: int| 0 <= i < s.len() && s[i] == e;
    if r.len() > 0 && r[0].0 != k && text::before(r[0].0, k) {
        if i == 0 {
            assert(r[0] == e);
        } else {
            let rest = r.drop_first();
            assert(put(rest, k, v)[i - 1] == e);
            assert(put(rest, k, v).contains(e));
            lemma_put_rows(rest, k, v, e);
            if rest.contains(e) {
                let j = choose|j: int| 0 <= j < rest.len() && rest[j] == e;
                assert(r[j + 1] == e);
            }
        }
    } else if i > 0 {
        if r[0].0 == k {
            assert(r[i] == e);
        } else {
            assert(r[i - 1] == e);
        }
    }
}

/// Binding a key keeps the keys in order.
pub proof fn law_put_sorted<V>(r: Rows<V>, k: Text, v: V)
    requires
        sorted(r),
    ensures
        sorted(put(r, k, v)),
    decreases r.len(),
{
    let i = position(r, k);
    lemma_position(r, k);
    lemma_put_at(r, k, v, i);
    let s = put(r, k, v);
    assert forall|a: int, b: int| 0 <= a < b < s.len() implies text::before(
        (#[trigger] s[a]).0,
        (#[trigger] s[b]).0,
    ) by {
        lemma_order_around(r, k, i, a, b);
        if i < r.len() && r[i].0 == k {
            assert(s[a].0 == r[a].0 && s[b].0 == r[b].0);
        }
    }
}

/// How many of the first rows have a key before `k`.
spec fn position<V>(r: Rows<V>, k: Text) -> int
    decreases r.len(),
{
    if r.len() > 0 && text::before(r[0].0, k) {
        1 + position(r.drop_first(), k)
    } else {
        0
    }
}

proof fn lemma_position<V>(r: Rows<V>, k: Text)
    ensures
        0 <= position(r, k) <= r.len(),
        forall|j: int| 0 <= j < position(r, k) ==> text::before((#[trigger] r[j]).0, k),
        position(r, k) < r.len() ==> !text::before(r[position(r, k)].0, k),
    decreases r.len(),
{
    if r.len() > 0 && text::before(r[0].0, k) {
        let rest = r.drop_first();
        lemma_position(rest, k);
        assert forall|j: int| 0 <= j < position(r, k) implies text::before(
            (#[trigger] r[j]).0,
            k,
        ) by {
            if j > 0 {
                assert(text::before(rest[j - 1].0, k));
            }
        }
    }
}

/// The order of two rows once `k` has been put at `i`.
proof fn lemma_order_around<V>(r: Rows<V>, k: Text, i: int, a: int, b: int)
    requires
        sorted(r),
        0 <= i <= r.len(),
        forall|j: int| 0 <= j < i ==> text::before((#[trigger] r[j]).0, k),
        i < r.len() ==> !text::before(r[i].0, k),
        0 <= a < b <= r.len(),
    ensures
        b < r.len() ==> text::before(r[a].0, r[b].0),
        a < i && b < i ==> text::before(r[a].0, r[b].0),
        a < i ==> text::before(r[a].0, k),
        i < r.len() && r[i].0 != k && i < b ==> text::before(k, r[b - 1].0),
        i < a ==> text::before(r[a - 1].0, r[b - 1].0),
        a < i < b ==> text::before(r[a].0, r[b - 1].0),
{
    if b < r.len() {
        assert(text::before(r[a].0, r[b].0));
    }
    if i < r.len() && r[i].0 != k {
        text::lemma_before_total(k, r[i].0);
        if i < b && b - 1 > i {
            assert(text::before(r[i].0, r[b - 1].0));
            text::lemma_before_transitive(k, r[i].0, r[b - 1].0);
        }
    }
}

/// The rows whose keys are among these.
pub open spec fn kept<V>(r: Rows<V>, among: Seq<Text>) -> Rows<V>
    decreases r.len(),
{
    if r.len() == 0 {
        Seq::empty()
    } else {
        let some = kept(r.drop_last(), among);
        if among.contains(r.last().0) {
            some.push(r.last())
        } else {
            some
        }
    }
}

proof fn lemma_kept<V>(r: Rows<V>, among: Seq<Text>)
    requires
        sorted(r),
    ensures
        sorted(kept(r, among)),
        kept(r, among).len() <= r.len(),
        forall|i: int|
            0 <= i < kept(r, among).len() ==> r.contains(#[trigger] kept(r, among)[i]),
    decreases r.len(),
{
    if r.len() > 0 {
        let rest = r.drop_last();
        let some = kept(rest, among);
        lemma_kept(rest, among);
        let all = kept(r, among);
        assert forall|i: int| 0 <= i < all.len() implies r.contains(#[trigger] all[i]) by {
            if i < some.len() {
                let k = choose|k: int| 0 <= k < rest.len() && rest[k] == some[i];
                assert(rest.contains(some[i]));
                assert(r[k] == all[i]);
            } else {
                assert(r[r.len() - 1] == all[i]);
            }
        }
        assert forall|i: int, j: int|
            #![trigger all[i], all[j]]
            0 <= i < j < all.len() implies text::before(all[i].0, all[j].0) by {
            if j == some.len() {
                assert(rest.contains(some[i]));
                let k = choose|k: int| 0 <= k < rest.len() && rest[k] == some[i];
                assert(text::before(r[k].0, r[r.len() - 1].0));
            } else {
                assert(text::before(some[i].0, some[j].0));
            }
        }
    }
}

/// What is kept is bound as it was, and the rest is bound to nothing.
pub proof fn law_get_kept<V>(r: Rows<V>, among: Seq<Text>, k: Text)
    requires
        sorted(r),
    ensures
        get(kept(r, among), k) == (if among.contains(k) {
            get(r, k)
        } else {
            None
        }),
    decreases r.len(),
{
    if r.len() > 0 {
        let rest = r.drop_last();
        let last = r.last();
        law_get_kept(rest, among, k);
        lemma_get_last(rest, last, k);
        assert(rest.push(last) =~= r);
        lemma_kept(rest, among);
        lemma_get_last(kept(rest, among), last, k);
        if last.0 == k {
            assert forall|j: int| 0 <= j < rest.len() implies (#[trigger] rest[j]).0 != k by {
                assert(text::before(r[j].0, r[r.len() - 1].0));
                text::lemma_before_irreflexive(k, k);
            }
            lemma_get_none(rest, k);
        }
    }
}

proof fn lemma_get_last<V>(r: Rows<V>, last: (Text, V), k: Text)
    ensures
        get(r.push(last), k) == (match get(r, k) {
            Some(v) => Some(v),
            None => if last.0 == k {
                Some(last.1)
            } else {
                None
            },
        }),
    decreases r.len(),
{
    let all = r.push(last);
    if r.len() > 0 {
        assert(all.drop_first() =~= r.drop_first().push(last));
        lemma_get_last(r.drop_first(), last, k);
    } else {
        assert(all.drop_first() =~= Seq::empty());
        assert(get(all.drop_first(), k) is None);
    }
}

/// A map from text, its keys in order.
pub struct Table<V> {
    rows: Vec<(String, V)>,
}

impl<V: DeepView> View for Table<V> {
    type V = Rows<V::V>;

    closed spec fn view(&self) -> Rows<V::V> {
        self.rows.deep_view()
    }
}

impl<V: DeepView> Table<V> {
    /// The keys stand in order.
    pub open spec fn wf(&self) -> bool {
        sorted(self@)
    }

    /// The map that holds nothing.
    pub fn new() -> (r: Self)
        ensures
            r.wf(),
            r@ == Seq::<(Text, V::V)>::empty(),
    {
        let r = Table { rows: Vec::new() };
        assert(r@ =~= Seq::<(Text, V::V)>::empty());
        r
    }

    /// How many keys it holds.
    pub fn len(&self) -> (r: usize)
        ensures
            r == self@.len(),
    {
        self.rows.len()
    }

    /// The key at a place in the order.
    pub fn key(&self, i: usize) -> (r: &String)
        requires
            i < self@.len(),
        ensures
            r@ == self@[i as int].0,
    {
        &self.rows[i].0
    }

    /// The value at a place in the order.
    pub fn value(&self, i: usize) -> (r: &V)
        requires
            i < self@.len(),
        ensures
            r.deep_view() == self@[i as int].1,
    {
        &self.rows[i].1
    }

    /// Reads a key.
    pub fn get(&self, k: &str) -> (r: Option<&V>)
        ensures
            match r {
                Some(v) => get(self@, k@) == Some(v.deep_view()),
                None => get(self@, k@) is None,
            },
    {
        let mut i: usize = 0;
        while i < self.rows.len()
            invariant
                i <= self@.len(),
                self@ == self.rows.deep_view(),
                forall|j: int| 0 <= j < i ==> (#[trigger] self@[j]).0 != k@,
            decreases self.rows.len() - i,
        {
            if same(self.rows[i].0.as_str(), k) {
                proof {
                    assert(self@[i as int].0 == k@);
                    lemma_get_at(self@, k@, i as int);
                }
                return Some(&self.rows[i].1);
            }
            assert(self@[i as int].0 != k@);
            i = i + 1;
        }
        proof {
            lemma_get_none(self@, k@);
        }
        None
    }

    /// Binds a key, whatever it was bound to.
    pub fn put(&mut self, k: &str, v: V)
        requires
            old(self).wf(),
        ensures
            final(self).wf(),
            final(self)@ == put(old(self)@, k@, v.deep_view()),
    {
        let ghost was = self@;
        let ghost val = v.deep_view();
        let mut i: usize = 0;
        while i < self.rows.len() && comes_before(self.rows[i].0.as_str(), k)
            invariant
                self@ == was,
                was == self.rows.deep_view(),
                i <= was.len(),
                forall|j: int| 0 <= j < i ==> text::before((#[trigger] was[j]).0, k@),
            decreases self.rows.len() - i,
        {
            assert(text::before(was[i as int].0, k@));
            i = i + 1;
        }
        proof {
            assert(i < was.len() ==> was[i as int].0 == self.rows@[i as int].0@);
            lemma_put_at(was, k@, val, i as int);
            law_put_sorted(was, k@, val);
        }
        if i < self.rows.len() && same(self.rows[i].0.as_str(), k) {
            self.rows.set(i, (copy(k), v));
            assert(self@ =~= was.update(i as int, (k@, val)));
        } else {
            self.rows.insert(i, (copy(k), v));
            assert(self@ =~= was.insert(i as int, (k@, val)));
        }
    }

    /// Forgets the keys that are not among these.
    pub fn retain(&mut self, among: &Vec<String>)
        requires
            old(self).wf(),
        ensures
            final(self).wf(),
            final(self)@ == kept(old(self)@, among.deep_view()),
    {
        let ghost was = self@;
        let ghost names = among.deep_view();
        let n: usize = self.rows.len();
        let mut i: usize = 0;
        let mut seen: usize = 0;
        assert(kept(was.take(0), names) + was.skip(0) =~= was);
        while seen < n
            invariant
                names == among.deep_view(),
                i <= seen <= n == was.len(),
                i == kept(was.take(seen as int), names).len(),
                self@ == self.rows.deep_view(),
                self@ == kept(was.take(seen as int), names) + was.skip(seen as int),
            decreases n - seen,
        {
            let ghost some = kept(was.take(seen as int), names);
            assert(was.take(seen + 1).drop_last() =~= was.take(seen as int));
            assert(self@[i as int] == was[seen as int]);
            assert(self.rows@.len() == self.rows.deep_view().len());
            let ghost before = self@;
            if holds(among, self.rows[i].0.as_str()) {
                assert(self@ =~= some.push(was[seen as int]) + was.skip(seen + 1));
                i = i + 1;
            } else {
                self.rows.remove(i);
                assert(self.rows.deep_view() =~= before.remove(i as int));
                assert(self@ =~= some + was.skip(seen + 1));
            }
            seen = seen + 1;
        }
        proof {
            assert(was.take(seen as int) =~= was);
            assert(self@ =~= kept(was, names));
            lemma_kept(was, names);
        }
    }
}

/// A set of texts written out in order.
pub open spec fn with_text(s: Seq<Text>, k: Text) -> Seq<Text>
    decreases s.len(),
{
    if s.len() == 0 {
        seq![k]
    } else if s[0] == k {
        s
    } else if text::before(s[0], k) {
        seq![s[0]] + with_text(s.drop_first(), k)
    } else {
        seq![k] + s
    }
}

/// The texts of a list as a set: in order, each once.
pub open spec fn distinct(s: Seq<Text>) -> Seq<Text>
    decreases s.len(),
{
    if s.len() == 0 {
        Seq::empty()
    } else {
        with_text(distinct(s.drop_last()), s.last())
    }
}

proof fn lemma_add_at(s: Seq<Text>, k: Text, i: int)
    requires
        0 <= i <= s.len(),
        forall|j: int| 0 <= j < i ==> text::before(#[trigger] s[j], k),
        i < s.len() ==> !text::before(s[i], k),
    ensures
        with_text(s, k) == (if i < s.len() && s[i] == k {
            s
        } else {
            s.insert(i, k)
        }),
    decreases i,
{
    text::lemma_before_irreflexive(k, k);
    if i == 0 {
        assert(seq![k] + s =~= s.insert(0, k));
    } else {
        let rest = s.drop_first();
        assert(text::before(s[0], k));
        assert forall|j: int| 0 <= j < i - 1 implies text::before(
            #[trigger] rest[j],
            k,
        ) by {
            assert(text::before(s[j + 1], k));
        }
        lemma_add_at(rest, k, i - 1);
        if i < s.len() && s[i] == k {
            assert(seq![s[0]] + rest =~= s);
        } else {
            assert(seq![s[0]] + rest.insert(i - 1, k) =~= s.insert(i, k));
        }
    }
}

/// Adds a text to a set written out in order.
pub fn add_to(set: &mut Vec<String>, k: &str)
    ensures
        final(set).deep_view() == with_text(old(set).deep_view(), k@),
{
    let ghost was = set.deep_view();
    let mut i: usize = 0;
    while i < set.len() && comes_before(set[i].as_str(), k)
        invariant
            set.deep_view() == was,
            i <= was.len(),
            forall|j: int| 0 <= j < i ==> text::before(#[trigger] was[j], k@),
        decreases set.len() - i,
    {
        assert(text::before(was[i as int], k@));
        i = i + 1;
    }
    proof {
        assert(i < was.len() ==> was[i as int] == set@[i as int]@);
        lemma_add_at(was, k@, i as int);
    }
    if !(i < set.len() && same(set[i].as_str(), k)) {
        set.insert(i, copy(k));
        assert(set.deep_view() =~= was.insert(i as int, k@));
    }
}

/// The texts stand in order, and none stands twice.
pub open spec fn in_order(s: Seq<Text>) -> bool {
    forall|i: int, j: int|
        #![trigger s[i], s[j]]
        0 <= i < j < s.len() ==> text::before(s[i], s[j])
}

/// Adding a text to a set keeps it in order, and adds that text alone.
pub proof fn law_with_text(s: Seq<Text>, k: Text)
    requires
        in_order(s),
    ensures
        in_order(with_text(s, k)),
        forall|t: Text| #[trigger] with_text(s, k).contains(t) <==> (s.contains(t) || t == k),
    decreases s.len(),
{
    let r = with_text(s, k);
    if s.len() == 0 {
        assert forall|t: Text| #[trigger] r.contains(t) <==> t == k by {
            if t == k {
                assert(r[0] == k);
            }
        }
    } else if s[0] == k {
    } else if text::before(s[0], k) {
        let rest = s.drop_first();
        assert(in_order(rest)) by {
            assert forall|i: int, j: int|
                #![trigger rest[i], rest[j]]
                0 <= i < j < rest.len() implies text::before(rest[i], rest[j]) by {
                assert(text::before(s[i + 1], s[j + 1]));
            }
        }
        law_with_text(rest, k);
        let more = with_text(rest, k);
        assert forall|t: Text| #[trigger] r.contains(t) <==> (s.contains(t) || t == k) by {
            if r.contains(t) {
                let i = choose|i: int| 0 <= i < r.len() && r[i] == t;
                if i > 0 {
                    assert(more[i - 1] == t);
                    assert(more.contains(t));
                    if rest.contains(t) {
                        let j = choose|j: int| 0 <= j < rest.len() && rest[j] == t;
                        assert(s[j + 1] == t);
                    }
                } else {
                    assert(s[0] == t);
                }
            }
            if s.contains(t) || t == k {
                if t == s[0] {
                    assert(r[0] == t);
                } else {
                    if s.contains(t) {
                        let j = choose|j: int| 0 <= j < s.len() && s[j] == t;
                        assert(rest[j - 1] == t);
                        assert(rest.contains(t));
                    }
                    assert(more.contains(t));
                    let i = choose|i: int| 0 <= i < more.len() && more[i] == t;
                    assert(r[i + 1] == t);
                }
            }
        }
        assert forall|i: int, j: int|
            #![trigger r[i], r[j]]
            0 <= i < j < r.len() implies text::before(r[i], r[j]) by {
            if i > 0 {
                assert(text::before(more[i - 1], more[j - 1]));
            } else {
                assert(more.contains(more[j - 1]));
                if rest.contains(r[j]) {
                    let m = choose|m: int| 0 <= m < rest.len() && rest[m] == r[j];
                    assert(text::before(s[0], s[m + 1]));
                }
            }
        }
    } else {
        text::lemma_before_total(s[0], k);
        assert forall|t: Text| #[trigger] r.contains(t) <==> (s.contains(t) || t == k) by {
            if s.contains(t) {
                let j = choose|j: int| 0 <= j < s.len() && s[j] == t;
                assert(r[j + 1] == t);
            }
            if t == k {
                assert(r[0] == t);
            }
            if r.contains(t) {
                let i = choose|i: int| 0 <= i < r.len() && r[i] == t;
                if i > 0 {
                    assert(s[i - 1] == t);
                }
            }
        }
        assert forall|i: int, j: int|
            #![trigger r[i], r[j]]
            0 <= i < j < r.len() implies text::before(r[i], r[j]) by {
            if i > 0 {
                assert(text::before(s[i - 1], s[j - 1]));
            } else if j > 1 {
                assert(text::before(s[0], s[j - 1]));
                text::lemma_before_transitive(k, s[0], s[j - 1]);
            }
        }
    }
}

/// The set of a list holds the same texts as the list, in order and each once.
pub proof fn law_distinct(s: Seq<Text>)
    ensures
        in_order(distinct(s)),
        forall|t: Text| #[trigger] distinct(s).contains(t) <==> s.contains(t),
    decreases s.len(),
{
    if s.len() > 0 {
        law_distinct(s.drop_last());
        law_with_text(distinct(s.drop_last()), s.last());
        assert forall|t: Text| #[trigger] distinct(s).contains(t) <==> s.contains(t) by {
            let rest = s.drop_last();
            if s.contains(t) {
                let i = choose|i: int| 0 <= i < s.len() && s[i] == t;
                if i < rest.len() {
                    assert(rest[i] == t);
                    assert(rest.contains(t));
                }
            }
            if rest.contains(t) {
                let i = choose|i: int| 0 <= i < rest.len() && rest[i] == t;
                assert(s[i] == t);
            }
            if t == s.last() {
                assert(s[s.len() - 1] == t);
            }
        }
    }
}

} // verus!
