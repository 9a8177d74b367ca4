//! A deduplicated collection of domain names, viewed as a mathematical
//! set of character sequences. Entries keep the order in which they
//! were first inserted.
use vstd::prelude::*;

verus! {

broadcast use vstd::seq_lib::group_seq_properties;

pub struct DomainSet {
    entries: Vec<String>,
}

impl View for DomainSet {
    type V = Set<Seq<char>>;

    /// The mathematical set of domains held.
    closed spec fn view(&self) -> Set<Seq<char>> {
        self.entries.deep_view().to_set()
    }
}

impl DomainSet {
    /// No two stored entries spell the same domain.
    pub closed spec fn inv(&self) -> bool {
        self.entries.deep_view().no_duplicates()
    }

    pub fn new() -> (r: DomainSet)
        ensures
            r@ == Set::<Seq<char>>::empty(),
            r.inv(),
    {
        let r = DomainSet { entries: Vec::new() };
        proof {
            assert(r.entries.deep_view() =~= Seq::<Seq<char>>::empty());
            assert(r@ =~= Set::<Seq<char>>::empty());
        }
        r
    }

    pub fn len(&self) -> (r: usize)
        requires
            self.inv(),
        ensures
            r == self@.len(),
    {
        proof {
            self.entries.deep_view().unique_seq_to_set();
        }
        self.entries.len()
    }

    pub fn is_empty(&self) -> (r: bool)
        ensures
            r == (self@ == Set::<Seq<char>>::empty()),
    {
        if self.entries.len() == 0 {
            proof {
                assert(self@ =~= Set::<Seq<char>>::empty());
            }
            true
        } else {
            proof {
                assert(self@.contains(self.entries.deep_view()[0]));
            }
            false
        }
    }

    pub fn contains(&self, d: &String) -> (r: bool)
        ensures
            r == self@.contains(d@),
    {
        let n = self.entries.len();
        let mut k: usize = 0;
        while k < n
            invariant
                k <= n,
                n == self.entries.len(),
                forall|m: int| 0 <= m < k ==> self.entries.deep_view()[m] != d@,
            decreases n - k,
        {
            let hit = self.entries[k].eq(d);
            proof {
                assert(self.entries.deep_view()[k as int] == self.entries@[k as int]@);
            }
            if hit {
                return true;
            }
            k = k + 1;
        }
        proof {
            assert(!self.entries.deep_view().contains(d@));
        }
        false
    }

    pub fn insert(&mut self, d: String)
        requires
            old(self).inv(),
        ensures
            final(self).inv(),
            final(self)@ == old(self)@.insert(d@),
    {
        if !self.contains(&d) {
            let ghost before = self.entries.deep_view();
            self.entries.push(d);
            proof {
                assert(self.entries.deep_view() =~= before.push(d@));
                assert(self@ =~= old(self)@.insert(d@));
            }
        } else {
            proof {
                assert(self@ =~= old(self)@.insert(d@));
            }
        }
    }

    /// Inserts every domain of `other` into `self`.
    pub fn add_all(&mut self, other: &DomainSet)
        requires
            old(self).inv(),
        ensures
            final(self).inv(),
            final(self)@ == old(self)@.union(other@),
    {
        let n = other.entries.len();
        let mut k: usize = 0;
        while k < n
            invariant
                k <= n,
                n == other.entries.len(),
                self.inv(),
                self@ == old(self)@.union(
                    other.entries.deep_view().subrange(0, k as int).to_set(),
                ),
            decreases n - k,
        {
            let ghost prefix = other.entries.deep_view().subrange(0, k as int);
            self.insert(other.entries[k].clone());
            proof {
                assert(other.entries.deep_view().subrange(0, k + 1 as int) =~= prefix.push(
                    other.entries.deep_view()[k as int],
                ));
                assert(prefix.push(other.entries.deep_view()[k as int]).to_set() =~= prefix.to_set().insert(
                    other.entries.deep_view()[k as int],
                ));
                assert(self@ =~= old(self)@.union(
                    other.entries.deep_view().subrange(0, k + 1 as int).to_set(),
                ));
            }
            k = k + 1;
        }
        proof {
            assert(other.entries.deep_view().subrange(0, n as int) =~= other.entries.deep_view());
        }
    }

    /// Whether every domain of `self` also belongs to `other`.
    pub fn is_subset(&self, other: &DomainSet) -> (r: bool)
        ensures
            r == self@.subset_of(other@),
    {
        let n = self.entries.len();
        let mut k: usize = 0;
        while k < n
            invariant
                k <= n,
                n == self.entries.len(),
                forall|m: int| 0 <= m < k ==> other@.contains(self.entries.deep_view()[m]),
            decreases n - k,
        {
            if !other.contains(&self.entries[k]) {
                proof {
                    assert(self@.contains(self.entries.deep_view()[k as int]));
                }
                return false;
            }
            k = k + 1;
        }
        proof {
            assert forall|d: Seq<char>| self@.contains(d) implies other@.contains(d) by {
                let m = choose|m: int|
                    0 <= m < self.entries.deep_view().len() && self.entries.deep_view()[m] == d;
            }
        }
        true
    }

    /// The domains of `self` that `other` lacks, in their stored order.
    pub fn difference(&self, other: &DomainSet) -> (r: DomainSet)
        requires
            self.inv(),
        ensures
            r.inv(),
            r@ == self@.difference(other@),
    {
        let n = self.entries.len();
        let mut out = DomainSet::new();
        let mut k: usize = 0;
        while k < n
            invariant
                k <= n,
                n == self.entries.len(),
                self.inv(),
                out.inv(),
                out@ == self.entries.deep_view().subrange(0, k as int).to_set().difference(
                    other@,
                ),
            decreases n - k,
        {
            let ghost prefix = self.entries.deep_view().subrange(0, k as int);
            let ghost d = self.entries.deep_view()[k as int];
            if !other.contains(&self.entries[k]) {
                out.insert(self.entries[k].clone());
            }
            proof {
                assert(self.entries.deep_view().subrange(0, k + 1 as int) =~= prefix.push(d));
                assert(prefix.push(d).to_set() =~= prefix.to_set().insert(d));
                assert(out@ =~= self.entries.deep_view().subrange(0, k + 1 as int).to_set().difference(
                    other@,
                ));
            }
            k = k + 1;
        }
        proof {
            assert(self.entries.deep_view().subrange(0, n as int) =~= self.entries.deep_view());
        }
        out
    }

    /// The stored entries, free of duplicates; their set of views is
    /// the set this value stands for.
    pub fn into_vec(self) -> (r: Vec<String>)
        requires
            self.inv(),
        ensures
            r.deep_view().to_set() == self@,
            r.deep_view().no_duplicates(),
    {
        self.entries
    }

    /// The stored entries, free of duplicates; their set of views is
    /// the set this value stands for.
    pub fn as_vec(&self) -> (r: &Vec<String>)
        requires
            self.inv(),
        ensures
            r.deep_view().to_set() == self@,
            r.deep_view().no_duplicates(),
    {
        &self.entries
    }
}

} // verus!
