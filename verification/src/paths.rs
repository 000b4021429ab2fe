//! Sets of paths, in the order of their keys.
use crate::local::FilePath;
#[allow(unused_imports)]
use crate::order::{
    ascending, lemma_inserted, lemma_take_set, lemma_text_less_total, lemma_text_less_transitive, text_less,
};
use crate::order::{place, Place};
use vstd::prelude::*;
use vstd::string::*;

verus! {

/// The keys of a list of paths.
pub open spec fn keys_of(v: Seq<FilePath>) -> Seq<Seq<char>> {
    Seq::new(v.len(), |i: int| v[i].key@)
}

/// Whether every path of a list is one of another list, or the path itself.
pub open spec fn from_either(items: Seq<FilePath>, before: Seq<FilePath>, path: FilePath) -> bool {
    forall|i: int|
        0 <= i < items.len() ==> before.contains(#[trigger] items[i]) || items[i] == path
}

/// Whether every path of a list is one of two other lists.
pub open spec fn from_lists(
    items: Seq<FilePath>,
    before: Seq<FilePath>,
    more: Seq<FilePath>,
) -> bool {
    forall|i: int|
        0 <= i < items.len() ==> before.contains(#[trigger] items[i]) || more.contains(items[i])
}

/// A set of paths, kept in ascending order. Of paths with the same key the one
/// that came first stays.
#[derive(Debug)]
pub struct PathSet {
    pub items: Vec<FilePath>,
}

impl View for PathSet {
    type V = Set<Seq<char>>;

    open spec fn view(&self) -> Set<Seq<char>> {
        Set::new(|t: Seq<char>| keys_of(self.items@).contains(t))
    }
}

impl PathSet {
    /// The keys stand in strictly ascending order.
    pub open spec fn wf(self) -> bool {
        ascending(keys_of(self.items@))
    }

    /// The empty set.
    pub fn new() -> (r: Self)
        ensures
            r.wf(),
            r@ == Set::<Seq<char>>::empty(),
            r.items@.len() == 0,
    {
        let r = PathSet { items: Vec::new() };
        assert(r@ =~= Set::empty());
        r
    }

    /// The first position whose key is not before `key`.
    fn position(&self, key: &str) -> (k: usize)
        requires
            self.wf(),
        ensures
            k <= self.items@.len(),
            forall|i: int| 0 <= i < k ==> text_less(#[trigger] keys_of(self.items@)[i], key@),
            forall|i: int|
                k <= i < self.items@.len() ==> !text_less(
                    #[trigger] keys_of(self.items@)[i],
                    key@,
                ),
            self@.contains(key@) <==> k < self.items@.len() && keys_of(self.items@)[k as int]
                == key@,
    {
        let ghost keys = keys_of(self.items@);
        let mut lo: usize = 0;
        let mut hi: usize = self.items.len();
        while lo < hi
            invariant
                self.wf(),
                keys == keys_of(self.items@),
                lo <= hi <= self.items@.len(),
                forall|i: int| 0 <= i < lo ==> text_less(#[trigger] keys[i], key@),
                forall|i: int| hi <= i < self.items@.len() ==> !text_less(#[trigger] keys[i], key@),
            decreases hi - lo,
        {
            let mid: usize = lo + (hi - lo) / 2;
            let p = place(&self.items[mid].key, key);
            proof {
                assert(self.items@[mid as int].key@ == keys[mid as int]);
                lemma_text_less_total(keys[mid as int], key@);
            }
            if p == Place::Before {
                proof {
                    assert forall|i: int| 0 <= i < mid + 1 implies text_less(
                        #[trigger] keys[i],
                        key@,
                    ) by {
                        if i < mid {
                            lemma_text_less_transitive(keys[i], keys[mid as int], key@);
                        }
                    }
                }
                lo = mid + 1;
            } else {
                proof {
                    assert forall|i: int| mid <= i < self.items@.len() implies !text_less(
                        #[trigger] keys[i],
                        key@,
                    ) by {
                        if mid < i && text_less(keys[i], key@) {
                            lemma_text_less_transitive(keys[mid as int], keys[i], key@);
                        }
                    }
                }
                hi = mid;
            }
        }
        proof {
            if self@.contains(key@) {
                let j = choose|j: int| 0 <= j < keys.len() && keys[j] == key@;
                lemma_text_less_total(key@, key@);
                if lo < j {
                    assert(text_less(keys[lo as int], keys[j]));
                }
            }
            if lo < self.items@.len() && keys[lo as int] == key@ {
                assert(keys.contains(key@));
            }
        }
        lo
    }

    /// Whether a path with the key `key` is in the set.
    pub fn contains(&self, key: &str) -> (r: bool)
        requires
            self.wf(),
        ensures
            r == self@.contains(key@),
    {
        let k: usize = self.position(key);
        k < self.items.len() && place(&self.items[k].key, key) == Place::Same
    }

    /// Adds a path.
    pub fn insert(&mut self, path: FilePath)
        requires
            old(self).wf(),
        ensures
            final(self).wf(),
            final(self)@ == old(self)@.insert(path.key@),
            from_either(final(self).items@, old(self).items@, path),
    {
        let k: usize = self.position(&path.key);
        if k < self.items.len() && place(&self.items[k].key, &path.key) == Place::Same {
            assert(self@ =~= old(self)@.insert(path.key@));
            return ;
        }
        let ghost before = keys_of(self.items@);
        self.items.insert(k, path);
        proof {
            lemma_inserted(before, k as int, path.key@);
            assert(keys_of(self.items@) =~= before.insert(k as int, path.key@));
            assert forall|i: int| 0 <= i < self.items@.len() implies old(self).items@.contains(
                #[trigger] self.items@[i],
            ) || self.items@[i] == path by {
                if i < k {
                    assert(self.items@[i] == old(self).items@[i]);
                } else if i > k {
                    assert(self.items@[i] == old(self).items@[i - 1]);
                }
            }
            assert(self@ =~= old(self)@.insert(path.key@));
        }
    }
}

impl PathSet {
    /// Adds the paths of a list.
    pub fn add_all(&mut self, more: &Vec<FilePath>)
        requires
            old(self).wf(),
        ensures
            final(self).wf(),
            final(self)@ == old(self)@.union(keys_of(more@).to_set()),
            from_lists(final(self).items@, old(self).items@, more@),
    {
        let ghost all = keys_of(more@);
        let mut i: usize = 0;
        assert(self@ =~= old(self)@.union(all.take(0).to_set()));
        while i < more.len()
            invariant
                i <= more@.len(),
                all == keys_of(more@),
                self.wf(),
                self@ == old(self)@.union(all.take(i as int).to_set()),
                from_lists(self.items@, old(self).items@, more@),
            decreases more@.len() - i,
        {
            let ghost before = self.items@;
            self.insert(more[i].clone());
            proof {
                assert forall|j: int| 0 <= j < self.items@.len() implies old(self).items@.contains(
                    #[trigger] self.items@[j],
                ) || more@.contains(self.items@[j]) by {
                    if before.contains(self.items@[j]) {
                        let k = choose|k: int| 0 <= k < before.len() && before[k] == self.items@[j];
                        assert(old(self).items@.contains(before[k]) || more@.contains(before[k]));
                    }
                }
                assert(all[i as int] == more@[i as int].key@);
                lemma_take_set(all, i as int);
                assert(self@ =~= old(self)@.union(all.take(i as int + 1).to_set()));
            }
            i = i + 1;
        }
        assert(all.take(i as int) =~= all);
    }
}

/// A copy of a list of paths.
pub fn copy_paths(v: &Vec<FilePath>) -> (r: Vec<FilePath>)
    ensures
        r@ == v@,
{
    let mut r: Vec<FilePath> = Vec::new();
    let mut i: usize = 0;
    while i < v.len()
        invariant
            i <= v@.len(),
            r@ == v@.take(i as int),
        decreases v@.len() - i,
    {
        r.push(v[i].clone());
        i = i + 1;
        assert(r@ =~= v@.take(i as int));
    }
    assert(v@.take(i as int) =~= v@);
    r
}

} // verus!
