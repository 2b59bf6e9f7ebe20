//! The warnings of the last round. A problem is logged when it appears and when
//! it goes away, not on every poll in between.
use vstd::prelude::*;

use crate::text::{comes_before, equal_text};
use crate::text::{precedes, precedes_total, precedes_transitive, texts};

verus! {

/// Texts in their strict order.
pub open spec fn ascending(list: Seq<Seq<char>>) -> bool {
    forall|i: int, j: int|
        0 <= i < j < list.len() ==> precedes(#[trigger] list[i], #[trigger] list[j])
}

/// A set of warnings.
pub struct Warnings {
    list: Vec<String>,
}

impl View for Warnings {
    type V = Set<Seq<char>>;

    closed spec fn view(&self) -> Set<Seq<char>> {
        texts(self.list@).to_set()
    }
}

/// What changed from one round to the next, each in the order of texts.
pub struct Changes {
    pub appeared: Vec<String>,
    pub resolved: Vec<String>,
}

/// The list is the set's texts in their order.
pub open spec fn lists(list: Seq<Seq<char>>, set: Set<Seq<char>>) -> bool {
    &&& ascending(list)
    &&& forall|t: Seq<char>| #[trigger] list.contains(t) <==> set.contains(t)
}

impl Warnings {
    #[verifier::type_invariant]
    spec fn in_order(self) -> bool {
        ascending(texts(self.list@))
    }

    /// No warnings.
    pub fn new() -> (r: Warnings)
        ensures
            r@ == Set::<Seq<char>>::empty(),
    {
        let r = Warnings { list: Vec::new() };
        assert(r@ =~= Set::<Seq<char>>::empty());
        r
    }

    /// Whether the warning is in the set.
    pub fn contains(&self, text: &str) -> (r: bool)
        ensures
            r == self@.contains(text@),
    {
        let ghost all = texts(self.list@);
        let mut i: usize = 0;
        while i < self.list.len()
            invariant
                i <= self.list@.len(),
                all == texts(self.list@),
                forall|j: int| 0 <= j < i ==> #[trigger] all[j] != text@,
            decreases self.list@.len() - i,
        {
            assert(all[i as int] == self.list@[i as int]@);
            if equal_text(self.list[i].as_str(), text) {
                assert(all.contains(text@));
                return true;
            }
            i = i + 1;
        }
        assert(!all.contains(text@));
        false
    }

    /// Puts a warning into the set.
    pub fn insert(&mut self, text: String)
        ensures
            final(self)@ == old(self)@.insert(text@),
    {
        proof {
            use_type_invariant(&*self);
        }
        let ghost before = texts(self.list@);
        let mut list: Vec<String> = Vec::new();
        std::mem::swap(&mut list, &mut self.list);
        let mut p: usize = 0;
        while p < list.len() && comes_before(list[p].as_str(), text.as_str())
            invariant
                texts(list@) == before,
                p <= list@.len(),
                forall|j: int| 0 <= j < p ==> precedes(#[trigger] before[j], text@),
            decreases list@.len() - p,
        {
            assert(before[p as int] == list@[p as int]@);
            p = p + 1;
        }
        let ghost new = text@;
        let present = p < list.len() && equal_text(list[p].as_str(), text.as_str());
        if present {
            assert(before[p as int] == new);
            assert(before.to_set().insert(new) =~= before.to_set());
        } else {
            assert(p < list@.len() ==> before[p as int] == list@[p as int]@);
            list.insert(p, text);
            let ghost after = texts(list@);
            assert(after =~= before.insert(p as int, new));
            proof {
                assert forall|j: int| p <= j < before.len() implies precedes(
                    new,
                    #[trigger] before[j],
                ) by {
                    precedes_total(new, before[p as int]);
                    if p < j {
                        precedes_transitive(new, before[p as int], before[j]);
                    }
                }
                assert forall|a: int, b: int| 0 <= a < b < after.len() implies precedes(
                    #[trigger] after[a],
                    #[trigger] after[b],
                ) by {
                    let a0 = if a > p {
                        a - 1
                    } else {
                        a
                    };
                    let b0 = if b > p {
                        b - 1
                    } else {
                        b
                    };
                    if a != p {
                        assert(after[a] == before[a0]);
                    }
                    if b != p {
                        assert(after[b] == before[b0]);
                    }
                }
                assert forall|t: Seq<char>| #[trigger]
                    after.to_set().contains(t) <==> before.to_set().insert(new).contains(t) by {
                    if after.contains(t) {
                        let k = choose|k: int| 0 <= k < after.len() && after[k] == t;
                        if k != p {
                            let k0 = if k > p {
                                k - 1
                            } else {
                                k
                            };
                            assert(before[k0] == t);
                        }
                    }
                    if t == new {
                        assert(after[p as int] == t);
                    }
                    if before.contains(t) {
                        let k = choose|k: int| 0 <= k < before.len() && before[k] == t;
                        if k < p {
                            assert(after[k] == t);
                        } else {
                            assert(after[k + 1] == t);
                        }
                    }
                }
                assert(after.to_set() =~= before.to_set().insert(new));
            }
        }
        self.list = list;
    }

    /// The warnings of this set that are not in the other, in the order of texts.
    pub fn difference(&self, other: &Warnings) -> (r: Vec<String>)
        ensures
            lists(texts(r@), self@.difference(other@)),
    {
        proof {
            use_type_invariant(self);
        }
        let ghost all = texts(self.list@);
        let mut out: Vec<String> = Vec::new();
        let mut i: usize = 0;
        while i < self.list.len()
            invariant
                i <= self.list@.len(),
                all == texts(self.list@),
                self@ == all.to_set(),
                ascending(all),
                ascending(texts(out@)),
                forall|k: int, j: int|
                    0 <= k < out@.len() && i <= j < all.len() ==> precedes(
                        #[trigger] texts(out@)[k],
                        #[trigger] all[j],
                    ),
                forall|k: int|
                    0 <= k < out@.len() ==> all.contains(#[trigger] texts(out@)[k])
                        && !other@.contains(texts(out@)[k]),
                forall|j: int|
                    0 <= j < i && !other@.contains(#[trigger] all[j]) ==> texts(out@).contains(
                        all[j],
                    ),
            decreases self.list@.len() - i,
        {
            let ghost before = texts(out@);
            assert(all[i as int] == self.list@[i as int]@);
            if !other.contains(self.list[i].as_str()) {
                out.push(self.list[i].clone());
                let ghost after = texts(out@);
                assert(after =~= before.push(all[i as int]));
                assert forall|j: int|
                    0 <= j < i + 1 && !other@.contains(#[trigger] all[j]) implies after.contains(
                    all[j],
                ) by {
                    if j == i {
                        assert(after[before.len() as int] == all[j]);
                    } else {
                        let k = choose|k: int| 0 <= k < before.len() && before[k] == all[j];
                        assert(after[k] == all[j]);
                    }
                }
            }
            i = i + 1;
        }
        proof {
            let found = texts(out@);
            assert forall|t: Seq<char>| #[trigger]
                found.contains(t) <==> self@.difference(other@).contains(t) by {
                if found.contains(t) {
                    let k = choose|k: int| 0 <= k < found.len() && found[k] == t;
                    assert(all.contains(found[k]));
                }
                if self@.difference(other@).contains(t) {
                    let j = choose|j: int| 0 <= j < all.len() && all[j] == t;
                    assert(!other@.contains(all[j]));
                }
            }
        }
        out
    }

    /// Takes the warnings of the next round, and says what changed: what appeared
    /// and what was resolved.
    pub fn report(&mut self, warnings: Vec<String>) -> (r: Changes)
        ensures
            final(self)@ == texts(warnings@).to_set(),
            lists(texts(r.appeared@), texts(warnings@).to_set().difference(old(self)@)),
            lists(texts(r.resolved@), old(self)@.difference(texts(warnings@).to_set())),
    {
        let ghost given = texts(warnings@);
        let ghost rows = warnings@;
        let mut now = Warnings::new();
        assert(given.take(0).to_set() =~= Set::<Seq<char>>::empty());
        for warning in it: warnings
            invariant
                it.seq() == rows,
                given == texts(rows),
                now@ == given.take(it.index()).to_set(),
        {
            let ghost i = it.index();
            let ghost said = warning@;
            let ghost before = given.take(i);
            assert(given.take(i + 1) == before.push(said));
            now.insert(warning);
            proof {
                assert forall|t: Seq<char>| #[trigger]
                    before.push(said).to_set().contains(t) <==> before.to_set().insert(
                        said,
                    ).contains(t) by {
                    if before.contains(t) {
                        let k = choose|k: int| 0 <= k < before.len() && before[k] == t;
                        assert(before.push(said)[k] == t);
                    }
                    assert(before.push(said)[before.len() as int] == said);
                }
                assert(before.push(said).to_set() =~= before.to_set().insert(said));
            }
        }
        assert(given.take(given.len() as int) == given);
        let appeared = now.difference(self);
        let resolved = self.difference(&now);
        *self = now;
        Changes { appeared, resolved }
    }
}

} // verus!
