//! Texts in order: the lexicographic order of strings, and sets and maps that
//! keep their keys in it.
use crate::text::chars_of;
#[allow(unused_imports)]
use crate::text::texts;
use vstd::prelude::*;
use vstd::string::*;

verus! {

/// Whether `a` comes before `b`: they part at a first position, where `a` ends
/// or has the smaller character.
pub open spec fn text_less(a: Seq<char>, b: Seq<char>) -> bool
    decreases a.len(),
{
    if b.len() == 0 {
        false
    } else if a.len() == 0 {
        true
    } else if a[0] == b[0] {
        text_less(a.drop_first(), b.drop_first())
    } else {
        a[0] < b[0]
    }
}

/// Any two different texts are in order, one way only.
pub proof fn lemma_text_less_total(a: Seq<char>, b: Seq<char>)
    ensures
        a != b ==> text_less(a, b) || text_less(b, a),
        !(text_less(a, b) && text_less(b, a)),
        !text_less(a, a),
    decreases a.len(),
{
    if a.len() > 0 {
        lemma_text_less_total(a.drop_first(), a.drop_first());
    }
    if a.len() == 0 || b.len() == 0 {
        if a.len() == 0 && b.len() == 0 {
            assert(a =~= b);
        }
    } else if a[0] == b[0] {
        lemma_text_less_total(a.drop_first(), b.drop_first());
        if a.drop_first() == b.drop_first() {
            assert(a =~= seq![a[0]] + a.drop_first());
            assert(b =~= seq![b[0]] + b.drop_first());
            assert(a == b);
        }
    }
}

pub proof fn lemma_text_less_transitive(a: Seq<char>, b: Seq<char>, c: Seq<char>)
    requires
        text_less(a, b),
        text_less(b, c),
    ensures
        text_less(a, c),
    decreases a.len(),
{
    if a.len() > 0 && b.len() > 0 && c.len() > 0 && a[0] == b[0] && b[0] == c[0] {
        lemma_text_less_transitive(a.drop_first(), b.drop_first(), c.drop_first());
    }
}

/// How two texts stand to each other in the lexicographic order.
#[derive(Clone, Copy, Debug, PartialEq, Eq, Structural)]
pub enum Place {
    Before,
    Same,
    After,
}

/// How `a` stands to `b`.
pub open spec fn place_of(a: Seq<char>, b: Seq<char>) -> Place {
    if a == b {
        Place::Same
    } else if text_less(a, b) {
        Place::Before
    } else {
        Place::After
    }
}

/// How `a` stands to `b`.
pub fn place(a: &str, b: &str) -> (r: Place)
    ensures
        r == place_of(a@, b@),
{
    let x = chars_of(a);
    let y = chars_of(b);
    let mut i: usize = 0;
    assert(x@.skip(0) =~= x@ && y@.skip(0) =~= y@);
    while i < x.len() && i < y.len() && x[i] == y[i]
        invariant
            i <= x@.len(),
            i <= y@.len(),
            forall|j: int| 0 <= j < i ==> x@[j] == y@[j],
            text_less(x@.skip(i as int), y@.skip(i as int)) == text_less(x@, y@),
        decreases x@.len() - i,
    {
        assert(x@.skip(i as int).drop_first() =~= x@.skip(i as int + 1));
        assert(y@.skip(i as int).drop_first() =~= y@.skip(i as int + 1));
        i = i + 1;
    }
    if i >= x.len() && i >= y.len() {
        assert(x@ =~= y@);
        Place::Same
    } else if i >= y.len() {
        assert(x@.len() != y@.len());
        Place::After
    } else if i >= x.len() {
        assert(x@.len() != y@.len());
        Place::Before
    } else {
        assert(x@[i as int] != y@[i as int]);
        if x[i] < y[i] {
            Place::Before
        } else {
            Place::After
        }
    }
}

/// Whether the texts stand in strictly ascending order.
pub open spec fn ascending(s: Seq<Seq<char>>) -> bool {
    forall|i: int, j: int| 0 <= i < j < s.len() ==> text_less(#[trigger] s[i], #[trigger] s[j])
}

/// A set of texts, kept in ascending order.
#[derive(Debug)]
pub struct TextSet {
    pub items: Vec<String>,
}

impl View for TextSet {
    type V = Set<Seq<char>>;

    open spec fn view(&self) -> Set<Seq<char>> {
        Set::new(|t: Seq<char>| texts(self.items@).contains(t))
    }
}

impl TextSet {
    /// The items stand in strictly ascending order.
    pub open spec fn wf(self) -> bool {
        ascending(texts(self.items@))
    }

    /// The items in ascending order.
    pub open spec fn listed(self) -> Seq<Seq<char>> {
        texts(self.items@)
    }

    /// The empty set.
    pub fn new() -> (r: Self)
        ensures
            r.wf(),
            r@ == Set::<Seq<char>>::empty(),
            r.listed() == Seq::<Seq<char>>::empty(),
            r.items@.len() == 0,
    {
        let r = TextSet { items: Vec::new() };
        assert(r@ =~= Set::empty());
        assert(r.listed() =~= Seq::empty());
        r
    }

    /// The first position whose text is not before `t`.
    pub fn position(&self, t: &str) -> (k: usize)
        requires
            self.wf(),
        ensures
            k <= self.items@.len(),
            forall|i: int| 0 <= i < k ==> text_less(#[trigger] self.listed()[i], t@),
            forall|i: int|
                k <= i < self.items@.len() ==> !text_less(#[trigger] self.listed()[i], t@),
            self@.contains(t@) <==> k < self.items@.len() && self.listed()[k as int] == t@,
    {
        let mut lo: usize = 0;
        let mut hi: usize = self.items.len();
        while lo < hi
            invariant
                self.wf(),
                lo <= hi <= self.items@.len(),
                forall|i: int| 0 <= i < lo ==> text_less(#[trigger] self.listed()[i], t@),
                forall|i: int|
                    hi <= i < self.items@.len() ==> !text_less(#[trigger] self.listed()[i], t@),
            decreases hi - lo,
        {
            let mid: usize = lo + (hi - lo) / 2;
            let p = place(&self.items[mid], t);
            assert(self.items@[mid as int]@ == self.listed()[mid as int]);
            proof {
                lemma_text_less_total(self.listed()[mid as int], t@);
            }
            if p == Place::Before {
                proof {
                    assert forall|i: int| 0 <= i < mid + 1 implies text_less(
                        #[trigger] self.listed()[i],
                        t@,
                    ) by {
                        if i < mid {
                            lemma_text_less_transitive(
                                self.listed()[i],
                                self.listed()[mid as int],
                                t@,
                            );
                        }
                    }
                }
                lo = mid + 1;
            } else {
                proof {
                    assert forall|i: int| mid <= i < self.items@.len() implies !text_less(
                        #[trigger] self.listed()[i],
                        t@,
                    ) by {
                        if mid < i && text_less(self.listed()[i], t@) {
                            lemma_text_less_transitive(
                                self.listed()[mid as int],
                                self.listed()[i],
                                t@,
                            );
                        }
                    }
                }
                hi = mid;
            }
        }
        proof {
            if self@.contains(t@) {
                let j = choose|j: int| 0 <= j < self.listed().len() && self.listed()[j] == t@;
                lemma_text_less_total(t@, t@);
                assert(!(j < lo));
                if lo < j {
                    assert(text_less(self.listed()[lo as int], self.listed()[j]));
                }
            }
            if lo < self.items@.len() && self.listed()[lo as int] == t@ {
                assert(texts(self.items@).contains(t@));
            }
        }
        lo
    }

    /// Whether `t` is in the set.
    pub fn contains(&self, t: &str) -> (r: bool)
        requires
            self.wf(),
        ensures
            r == self@.contains(t@),
    {
        let k: usize = self.position(t);
        k < self.items.len() && place(&self.items[k], t) == Place::Same
    }

    /// Adds `t`. Tells whether it is new.
    pub fn insert(&mut self, t: String) -> (added: bool)
        requires
            old(self).wf(),
        ensures
            final(self).wf(),
            final(self)@ == old(self)@.insert(t@),
            added == !old(self)@.contains(t@),
            final(self).items@.len() == old(self).items@.len() + (if added {
                1int
            } else {
                0
            }),
    {
        let k: usize = self.position(&t);
        if k < self.items.len() && place(&self.items[k], &t) == Place::Same {
            assert(self@ =~= old(self)@.insert(t@));
            return false;
        }
        let ghost before = self.listed();
        self.items.insert(k, t);
        proof {
            lemma_inserted(before, k as int, t@);
            assert(self.listed() =~= before.insert(k as int, t@));
            assert(self@ =~= old(self)@.insert(t@));
        }
        true
    }

    /// Removes `t`. Tells whether it was there.
    pub fn remove(&mut self, t: &str) -> (removed: bool)
        requires
            old(self).wf(),
        ensures
            final(self).wf(),
            final(self)@ == old(self)@.remove(t@),
            removed == old(self)@.contains(t@),
            final(self).items@.len() == old(self).items@.len() - (if removed {
                1int
            } else {
                0
            }),
    {
        let k: usize = self.position(t);
        if k < self.items.len() && place(&self.items[k], t) == Place::Same {
            let ghost before = self.listed();
            self.items.remove(k);
            proof {
                lemma_removed(before, k as int);
                assert(self.listed() =~= before.remove(k as int));
                assert(self@ =~= old(self)@.remove(t@));
            }
            true
        } else {
            assert(self@ =~= old(self)@.remove(t@));
            false
        }
    }

    /// Adds the texts of `more`.
    pub fn add_all(&mut self, more: &TextSet)
        requires
            old(self).wf(),
        ensures
            final(self).wf(),
            final(self)@ == old(self)@.union(more@),
    {
        let ghost all = more.listed();
        let mut i: usize = 0;
        assert(self@ =~= old(self)@.union(all.take(0).to_set()));
        while i < more.items.len()
            invariant
                i <= more.items@.len(),
                all == more.listed(),
                self.wf(),
                self@ == old(self)@.union(all.take(i as int).to_set()),
            decreases more.items@.len() - i,
        {
            self.insert(more.items[i].clone());
            proof {
                assert(all[i as int] == more.items@[i as int]@);
                lemma_take_set(all, i as int);
                assert(self@ =~= old(self)@.union(all.take(i as int + 1).to_set()));
            }
            i = i + 1;
        }
        assert(all.take(i as int) =~= all);
        assert(more@ =~= all.to_set());
        assert(self@ =~= old(self)@.union(more@));
    }

    /// A copy of the set.
    pub fn copy(&self) -> (r: Self)
        ensures
            r.listed() == self.listed(),
            r@ == self@,
            self.wf() ==> r.wf(),
    {
        let r = TextSet { items: crate::text::copy_texts(&self.items) };
        assert(r@ =~= self@);
        r
    }
}

/// One element more in front makes one member more.
pub proof fn lemma_take_set(s: Seq<Seq<char>>, i: int)
    requires
        0 <= i < s.len(),
    ensures
        s.take(i + 1).to_set() == s.take(i).to_set().insert(s[i]),
{
    let a = s.take(i);
    let b = s.take(i + 1);
    assert forall|k: Seq<char>| #[trigger] b.to_set().contains(k) implies a.to_set().insert(
        s[i],
    ).contains(k) by {
        let j = choose|j: int| 0 <= j < b.len() && b[j] == k;
        if j < i {
            assert(a[j] == k);
        }
    }
    assert forall|k: Seq<char>| #[trigger] a.to_set().insert(s[i]).contains(
        k,
    ) implies b.to_set().contains(k) by {
        if k == s[i] {
            assert(b[i] == k);
        } else {
            let j = choose|j: int| 0 <= j < a.len() && a[j] == k;
            assert(b[j] == k);
        }
    }
    assert(b.to_set() =~= a.to_set().insert(s[i]));
}

/// A new text at its place leaves the texts in order.
pub proof fn lemma_inserted(s: Seq<Seq<char>>, k: int, t: Seq<char>)
    requires
        ascending(s),
        0 <= k <= s.len(),
        forall|i: int| 0 <= i < k ==> text_less(#[trigger] s[i], t),
        forall|i: int| k <= i < s.len() ==> !text_less(#[trigger] s[i], t),
        !(k < s.len() && s[k] == t),
    ensures
        ascending(s.insert(k, t)),
        forall|u: Seq<char>| s.insert(k, t).contains(u) <==> s.contains(u) || u == t,
{
    let n = s.insert(k, t);
    assert forall|i: int, j: int| 0 <= i < j < n.len() implies text_less(
        #[trigger] n[i],
        #[trigger] n[j],
    ) by {
        if i == k {
            let x = s[j - 1];
            assert(n[j] == x);
            if k < j - 1 {
                assert(text_less(s[k], x));
                lemma_text_less_total(s[k], t);
                lemma_text_less_transitive(t, s[k], x);
            } else {
                lemma_text_less_total(x, t);
            }
        } else if j == k {
            assert(n[i] == s[i]);
        } else {
            let a = if i < k {
                i
            } else {
                i - 1
            };
            let b = if j < k {
                j
            } else {
                j - 1
            };
            assert(n[i] == s[a] && n[j] == s[b]);
        }
    }
    assert forall|u: Seq<char>| n.contains(u) <==> s.contains(u) || u == t by {
        if s.contains(u) {
            let i = choose|i: int| 0 <= i < s.len() && s[i] == u;
            assert(n[if i < k {
                i
            } else {
                i + 1
            }] == u);
        }
        if u == t {
            assert(n[k] == u);
        }
        if n.contains(u) {
            let i = choose|i: int| 0 <= i < n.len() && n[i] == u;
            if i < k {
                assert(s[i] == u);
            } else if i > k {
                assert(s[i - 1] == u);
            }
        }
    }
}

/// Taking a text out leaves the others in order.
pub proof fn lemma_removed(s: Seq<Seq<char>>, k: int)
    requires
        ascending(s),
        0 <= k < s.len(),
    ensures
        ascending(s.remove(k)),
        forall|u: Seq<char>| s.remove(k).contains(u) <==> s.contains(u) && u != s[k],
{
    let n = s.remove(k);
    assert forall|i: int, j: int| 0 <= i < j < n.len() implies text_less(
        #[trigger] n[i],
        #[trigger] n[j],
    ) by {
        let a = if i < k {
            i
        } else {
            i + 1
        };
        let b = if j < k {
            j
        } else {
            j + 1
        };
        assert(n[i] == s[a] && n[j] == s[b]);
    }
    assert forall|u: Seq<char>| n.contains(u) <==> s.contains(u) && u != s[k] by {
        if s.contains(u) && u != s[k] {
            let i = choose|i: int| 0 <= i < s.len() && s[i] == u;
            assert(n[if i < k {
                i
            } else {
                i - 1
            }] == u);
        }
        if n.contains(u) {
            let i = choose|i: int| 0 <= i < n.len() && n[i] == u;
            let a = if i < k {
                i
            } else {
                i + 1
            };
            assert(s[a] == u);
            if a < k {
                assert(text_less(s[a], s[k]));
            } else {
                assert(text_less(s[k], s[a]));
            }
            lemma_text_less_total(u, u);
        }
    }
}

/// No text stands twice in an ascending list.
pub proof fn lemma_ascending_distinct(s: Seq<Seq<char>>)
    requires
        ascending(s),
    ensures
        s.no_duplicates(),
{
    assert forall|i: int, j: int| 0 <= i < s.len() && 0 <= j < s.len() && i != j implies s[i]
        != s[j] by {
        lemma_text_less_total(s[i], s[i]);
        if i < j {
            assert(text_less(s[i], s[j]));
        } else {
            assert(text_less(s[j], s[i]));
        }
    }
}

/// Two ascending lists of the same texts are the same list.
pub proof fn lemma_ascending_unique(a: Seq<Seq<char>>, b: Seq<Seq<char>>)
    requires
        ascending(a),
        ascending(b),
        forall|u: Seq<char>| a.contains(u) <==> b.contains(u),
    ensures
        a == b,
    decreases a.len(),
{
    if a.len() == 0 {
        if b.len() > 0 {
            assert(b.contains(b[0]));
        }
        assert(a =~= b);
    } else {
        assert(a.contains(a.last()));
        assert(b.len() > 0);
        let x = a.last();
        let y = b.last();
        assert(b.contains(y));
        if x != y {
            let i = choose|i: int| 0 <= i < b.len() && b[i] == x;
            let j = choose|j: int| 0 <= j < a.len() && a[j] == y;
            assert(text_less(b[i], b[b.len() - 1]));
            assert(text_less(a[j], a[a.len() - 1]));
            lemma_text_less_total(x, y);
        }
        lemma_removed(a, a.len() - 1);
        lemma_removed(b, b.len() - 1);
        assert(a.remove(a.len() - 1) =~= a.drop_last());
        assert(b.remove(b.len() - 1) =~= b.drop_last());
        assert forall|u: Seq<char>| a.drop_last().contains(u) <==> b.drop_last().contains(u) by {
            assert(a.drop_last().contains(u) <==> a.contains(u) && u != x);
            assert(b.drop_last().contains(u) <==> b.contains(u) && u != y);
        }
        lemma_ascending_unique(a.drop_last(), b.drop_last());
        assert(a =~= a.drop_last().push(x));
        assert(b =~= b.drop_last().push(y));
    }
}

/// A map from texts to positions in a list, with its keys in ascending order.
#[derive(Debug)]
pub struct TextIndex {
    pub keys: TextSet,
    pub places: Vec<usize>,
}

impl View for TextIndex {
    type V = Map<Seq<char>, int>;

    open spec fn view(&self) -> Map<Seq<char>, int> {
        Map::new(|t: Seq<char>| self.keys@.contains(t), |t: Seq<char>| self.place_of_key(t))
    }
}

impl TextIndex {
    /// The position kept for a key.
    pub open spec fn place_of_key(self, t: Seq<char>) -> int {
        self.places@[self.keys.listed().index_of(t)] as int
    }

    /// The keys are in order, and each has a position.
    pub open spec fn wf(self) -> bool {
        self.keys.wf() && self.keys.items@.len() == self.places@.len()
    }

    /// The map without keys.
    pub fn new() -> (r: Self)
        ensures
            r.wf(),
            r@ == Map::<Seq<char>, int>::empty(),
    {
        let r = TextIndex { keys: TextSet::new(), places: Vec::new() };
        assert(r.keys.listed().len() == r.keys.items@.len());
        assert(r@ =~= Map::empty());
        r
    }

    proof fn lemma_place_at(self, k: int)
        requires
            self.wf(),
            0 <= k < self.places@.len(),
        ensures
            self@.contains_key(self.keys.listed()[k]),
            self@[self.keys.listed()[k]] == self.places@[k],
    {
        let s = self.keys.listed();
        let t = s[k];
        assert(s.contains(t));
        let j = s.index_of(t);
        assert(0 <= j < s.len() && s[j] == t);
        lemma_text_less_total(t, t);
        if j < k {
            assert(text_less(s[j], s[k]));
        } else if k < j {
            assert(text_less(s[k], s[j]));
        }
    }

    /// The position kept for `t`.
    pub fn get(&self, t: &str) -> (r: Option<usize>)
        requires
            self.wf(),
        ensures
            match r {
                Some(p) => self@.contains_key(t@) && self@[t@] == p,
                None => !self@.contains_key(t@),
            },
    {
        let k: usize = self.keys.position(t);
        if k < self.keys.items.len() && place(&self.keys.items[k], t) == Place::Same {
            proof {
                self.lemma_place_at(k as int);
            }
            Some(self.places[k])
        } else {
            None
        }
    }

    /// Keeps `p` for `t`, in place of what was kept for it before.
    pub fn insert(&mut self, t: String, p: usize)
        requires
            old(self).wf(),
        ensures
            final(self).wf(),
            final(self)@ == old(self)@.insert(t@, p as int),
    {
        let k: usize = self.keys.position(&t);
        let ghost s = self.keys.listed();
        if k < self.keys.items.len() && place(&self.keys.items[k], &t) == Place::Same {
            self.places.set(k, p);
            proof {
                assert forall|u: Seq<char>| self@.contains_key(u) implies self@[u] == old(
                    self,
                )@.insert(t@, p as int)[u] by {
                    let j = s.index_of(u);
                    assert(0 <= j < s.len() && s[j] == u);
                    self.lemma_place_at(j);
                    old(self).lemma_place_at(j);
                    if u == t@ {
                        self.lemma_place_at(k as int);
                    }
                }
                assert(self@ =~= old(self)@.insert(t@, p as int));
            }
        } else {
            self.keys.items.insert(k, t);
            self.places.insert(k, p);
            proof {
                lemma_inserted(s, k as int, t@);
                assert(self.keys.listed() =~= s.insert(k as int, t@));
                assert forall|u: Seq<char>| self@.contains_key(u) implies self@[u] == old(
                    self,
                )@.insert(t@, p as int)[u] by {
                    let n = self.keys.listed();
                    let j = n.index_of(u);
                    assert(0 <= j < n.len() && n[j] == u);
                    self.lemma_place_at(j);
                    if j < k {
                        old(self).lemma_place_at(j);
                        assert(s[j] == u);
                    } else if j > k {
                        old(self).lemma_place_at(j - 1);
                        assert(s[j - 1] == u);
                    }
                    if u == t@ {
                        self.lemma_place_at(k as int);
                    }
                }
                assert forall|u: Seq<char>| self@.contains_key(u) <==> old(self)@.insert(
                    t@,
                    p as int,
                ).contains_key(u) by {
                    assert(self.keys@.contains(u) <==> s.insert(k as int, t@).contains(u));
                }
                assert(self@ =~= old(self)@.insert(t@, p as int));
            }
        }
    }
}

/// Texts are ordered as in a dictionary: the first character that differs
/// decides, and a text comes before what goes on behind it.
pub proof fn law_dictionary_order(front: Seq<char>, a: Seq<char>, b: Seq<char>)
    ensures
        a.len() > 0 && b.len() > 0 && a[0] < b[0] ==> text_less(front + a, front + b) && !text_less(
            front + b,
            front + a,
        ),
        b.len() > 0 ==> text_less(front, front + b) && !text_less(front + b, front),
        !text_less(front, front),
    decreases front.len(),
{
    if front.len() == 0 {
        assert(front + a =~= a && front + b =~= b);
    } else {
        let t = front.drop_first();
        assert((front + a).drop_first() =~= t + a);
        assert((front + b).drop_first() =~= t + b);
        law_dictionary_order(t, a, b);
    }
}

} // verus!
