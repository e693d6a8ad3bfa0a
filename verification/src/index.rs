//! The inverted postings structure shared by the word index and the trigram
//! index.
//!
//! A [`PostingsIndex`] maps a character string to a posting list of item
//! handles. The dictionary part is the trusted [`SlotMap`]; the posting
//! lists themselves are plain vectors of handles, fully visible to the
//! verifier.

use crate::fxmap::{slot_map_get, slot_map_insert, slot_map_new, slot_map_of, SlotMap};
use vstd::prelude::*;

verus! {

/// A strictly increasing sequence of handles (hence a duplicate-free set).
pub open spec fn strictly_inc(s: Seq<usize>) -> bool {
    forall|a: int, b: int| 0 <= a < b < s.len() ==> s[a] < s[b]
}

/// One inverted index: key -> slot -> posting list of item handles.
pub struct PostingsIndex {
    pub(crate) map: SlotMap,
    pub(crate) posts: Vec<Vec<usize>>,
}

impl PostingsIndex {
    /// Whether the index holds a posting list for this key.
    pub closed spec fn has_key(&self, w: Seq<char>) -> bool {
        slot_map_of(self.map).contains_key(w)
    }

    /// The posting list stored under a key (empty when the key is absent).
    pub closed spec fn posting(&self, w: Seq<char>) -> Seq<usize> {
        if self.has_key(w) {
            self.posts@[slot_map_of(self.map)[w] as int]@
        } else {
            Seq::empty()
        }
    }

    /// Every slot is in bounds and no two keys share a slot.
    pub closed spec fn slots_wf(&self) -> bool {
        &&& forall|w: Seq<char>|
            #[trigger] self.has_key(w) ==> (slot_map_of(self.map)[w] as int) < self.posts@.len()
        &&& forall|w1: Seq<char>, w2: Seq<char>|
            #![trigger slot_map_of(self.map)[w1], slot_map_of(self.map)[w2]]
            self.has_key(w1) && self.has_key(w2) && w1 != w2 ==> slot_map_of(self.map)[w1]
                != slot_map_of(self.map)[w2]
    }

    /// An empty index.
    pub fn new() -> (r: Self)
        ensures
            r.slots_wf(),
            forall|w: Seq<char>| !(#[trigger] r.has_key(w)),
            forall|w: Seq<char>| #[trigger] r.posting(w) == Seq::<usize>::empty(),
    {
        PostingsIndex { map: slot_map_new(), posts: Vec::new() }
    }

    /// The posting list under `k`, if the key is present.
    pub fn get<'a>(&'a self, k: &Vec<char>) -> (r: Option<&'a Vec<usize>>)
        requires
            self.slots_wf(),
        ensures
            match r {
                Some(v) => self.has_key(k@) && v@ == self.posting(k@),
                None => !self.has_key(k@),
            },
    {
        match slot_map_get(&self.map, k) {
            Some(s) => {
                proof {
                    assert(self.has_key(k@));
                }
                Some(&self.posts[s])
            },
            None => None,
        }
    }

    /// Appends handle `h` to the posting list under `k`, unless that list
    /// already ends with `h`; creates the list when the key is new.
    pub fn add(&mut self, k: &Vec<char>, h: usize)
        requires
            old(self).slots_wf(),
        ensures
            final(self).slots_wf(),
            final(self).has_key(k@),
            forall|w: Seq<char>|
                w != k@ ==> (#[trigger] final(self).has_key(w)) == old(self).has_key(w),
            forall|w: Seq<char>|
                w != k@ ==> (#[trigger] final(self).posting(w)) == old(self).posting(w),
            final(self).posting(k@) == if old(self).posting(k@).len() > 0 && old(self).posting(
                k@,
            ).last() == h {
                old(self).posting(k@)
            } else {
                old(self).posting(k@).push(h)
            },
    {
        match slot_map_get(&self.map, k) {
            Some(s) => {
                proof {
                    assert(old(self).has_key(k@));
                    assert forall|w: Seq<char>|
                        w != k@ && old(self).has_key(w) implies slot_map_of(old(self).map)[w]
                        != s by {
                        assert(slot_map_of(old(self).map)[w] != slot_map_of(old(self).map)[k@]);
                    }
                }
                let plen = self.posts[s].len();
                if plen == 0 || self.posts[s][plen - 1] != h {
                    self.posts[s].push(h);
                    proof {
                        assert(self.posting(k@) =~= old(self).posting(k@).push(h));
                    }
                } else {
                    proof {
                        assert(self.posting(k@) =~= old(self).posting(k@));
                    }
                }
                proof {
                    assert(self.posts@.len() == old(self).posts@.len());
                    assert(slot_map_of(self.map) == slot_map_of(old(self).map));
                    assert forall|w: Seq<char>|
                        #[trigger] self.has_key(w) implies (slot_map_of(self.map)[w] as int)
                        < self.posts@.len() by {
                        assert(old(self).has_key(w));
                    }
                    assert forall|w1: Seq<char>, w2: Seq<char>|
                        #![trigger slot_map_of(self.map)[w1], slot_map_of(self.map)[w2]]
                        self.has_key(w1) && self.has_key(w2) && w1 != w2 implies slot_map_of(
                        self.map,
                    )[w1] != slot_map_of(self.map)[w2] by {
                        assert(slot_map_of(old(self).map)[w1] != slot_map_of(old(self).map)[w2]);
                    }
                    assert(self.slots_wf());
                }
            },
            None => {
                let s = self.posts.len();
                let mut pv: Vec<usize> = Vec::new();
                pv.push(h);
                self.posts.push(pv);
                let key = copy_chars(k);
                slot_map_insert(&mut self.map, key, s);
                proof {
                    assert(slot_map_of(self.map) == slot_map_of(old(self).map).insert(k@, s));
                    assert(old(self).posting(k@) =~= Seq::<usize>::empty());
                    assert(self.posting(k@) =~= old(self).posting(k@).push(h));
                    assert forall|w: Seq<char>|
                        w != k@ && self.has_key(w) implies old(self).has_key(w) && slot_map_of(
                        self.map,
                    )[w] == slot_map_of(old(self).map)[w] by {}
                    assert forall|w: Seq<char>|
                        w != k@ && old(self).has_key(w) implies (#[trigger] self.posting(w))
                        == old(self).posting(w) by {
                        assert((slot_map_of(old(self).map)[w] as int) < old(self).posts@.len());
                    }
                    assert forall|w: Seq<char>|
                        #[trigger] self.has_key(w) implies (slot_map_of(self.map)[w] as int)
                        < self.posts@.len() by {
                        if w != k@ {
                            assert(old(self).has_key(w));
                        }
                    }
                    assert forall|w1: Seq<char>, w2: Seq<char>|
                        #![trigger slot_map_of(self.map)[w1], slot_map_of(self.map)[w2]]
                        self.has_key(w1) && self.has_key(w2) && w1 != w2 implies slot_map_of(
                        self.map,
                    )[w1] != slot_map_of(self.map)[w2] by {
                        if w1 == k@ {
                            assert(old(self).has_key(w2));
                            assert((slot_map_of(old(self).map)[w2] as int)
                                < old(self).posts@.len());
                        } else if w2 == k@ {
                            assert(old(self).has_key(w1));
                            assert((slot_map_of(old(self).map)[w1] as int)
                                < old(self).posts@.len());
                        } else {
                            assert(old(self).has_key(w1));
                            assert(old(self).has_key(w2));
                            assert(slot_map_of(old(self).map)[w1] != slot_map_of(
                                old(self).map,
                            )[w2]);
                        }
                    }
                    assert(self.slots_wf());
                }
            },
        }
    }
}

/// Membership in a pushed sequence.
pub proof fn lemma_push_contains(s: Seq<usize>, h: usize, x: usize)
    ensures
        s.push(h).contains(x) <==> (s.contains(x) || x == h),
{
    if s.contains(x) {
        let k = choose|k: int| 0 <= k < s.len() && s[k] == x;
        assert(s.push(h)[k] == x);
    }
    if x == h {
        assert(s.push(h)[s.len() as int] == x);
    }
    if s.push(h).contains(x) {
        let k = choose|k: int| 0 <= k < s.push(h).len() && s.push(h)[k] == x;
        if k < s.len() {
            assert(s[k] == x);
        }
    }
}

/// In a strictly increasing sequence bounded by `i`, the bound occurs
/// exactly when it is the last element.
pub proof fn lemma_sorted_last(s: Seq<usize>, i: usize)
    requires
        strictly_inc(s),
        forall|a: int| 0 <= a < s.len() ==> s[a] <= i,
    ensures
        s.contains(i) <==> (s.len() > 0 && s.last() == i),
{
    if s.contains(i) {
        let k = choose|k: int| 0 <= k < s.len() && s[k] == i;
        if k < s.len() - 1 {
            assert(s[k] < s[s.len() - 1]);
        }
    }
    if s.len() > 0 && s.last() == i {
        assert(s[s.len() - 1] == i);
    }
}

/// Copies a character vector.
pub fn copy_chars(k: &Vec<char>) -> (r: Vec<char>)
    ensures
        r@ == k@,
{
    let n: usize = k.len();
    let mut r: Vec<char> = Vec::new();
    let mut i: usize = 0;
    while i < n
        invariant
            n == k@.len(),
            i <= n,
            r@ =~= k@.subrange(0, i as int),
        decreases n - i,
    {
        r.push(k[i]);
        i = i + 1;
    }
    proof {
        assert(r@ =~= k@);
    }
    r
}

} // verus!
