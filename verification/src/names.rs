//! Name tables keyed by identifier text: SSA environments (name → node id,
//! a later binding shadowing an earlier one) and plain name sets.
use vstd::prelude::*;
use crate::text::eq;

verus! {

pub open spec fn entries_view(e: Seq<(Vec<char>, u32)>) -> Seq<(Seq<char>, u32)> {
    e.map_values(|p: (Vec<char>, u32)| (p.0@, p.1))
}

/// The binding of `k`: the most recent entry with that name.
pub open spec fn lookup(e: Seq<(Seq<char>, u32)>, k: Seq<char>) -> Option<u32>
    decreases e.len(),
{
    if e.len() == 0 {
        None
    } else if e.last().0 == k {
        Some(e.last().1)
    } else {
        lookup(e.drop_last(), k)
    }
}

pub proof fn lemma_lookup_in(e: Seq<(Seq<char>, u32)>, k: Seq<char>)
    ensures
        lookup(e, k) matches Some(v) ==> exists|i: int| 0 <= i < e.len() && e[i].1 == v,
    decreases e.len(),
{
    if e.len() > 0 && e.last().0 != k {
        lemma_lookup_in(e.drop_last(), k);
        if let Some(v) = lookup(e.drop_last(), k) {
            let i = choose|i: int| 0 <= i < e.drop_last().len() && e.drop_last()[i].1 == v;
            assert(e[i].1 == v);
        }
    }
}

/// An SSA environment: name → node id.
pub struct Env {
    pub entries: Vec<(Vec<char>, u32)>,
}

impl Env {
    pub open spec fn view(&self) -> Seq<(Seq<char>, u32)> {
        entries_view(self.entries@)
    }

    /// Every bound id is below `n` (names an existing node).
    pub open spec fn below(&self, n: nat) -> bool {
        forall|i: int| 0 <= i < self.entries@.len() ==> (#[trigger] self.entries@[i]).1 < n
    }

    pub fn new() -> (r: Env)
        ensures
            r.view() == Seq::<(Seq<char>, u32)>::empty(),
            r.below(0),
    {
        Env { entries: Vec::new() }
    }

    pub fn insert(&mut self, k: Vec<char>, v: u32)
        ensures
            final(self).view() == old(self).view().push((k@, v)),
            forall|n: nat| old(self).below(n) && v < n ==> final(self).below(n),
    {
        let ghost prev = self.view();
        self.entries.push((k, v));
        assert(self.view() =~= prev.push((k@, v)));
    }

    pub fn get(&self, k: &[char]) -> (r: Option<u32>)
        ensures
            r == lookup(self.view(), k@),
            r matches Some(v) ==> forall|n: nat| self.below(n) ==> v < n,
    {
        let mut i = self.entries.len();
        assert(self.view().take(i as int) =~= self.view());
        while i > 0
            invariant
                i <= self.entries@.len(),
                lookup(self.view(), k@) == lookup(self.view().take(i as int), k@),
            decreases i,
        {
            let ghost t = self.view().take(i as int);
            assert(t.drop_last() =~= self.view().take(i - 1));
            if eq(&self.entries[i - 1].0, k) {
                assert forall|n: nat| self.below(n) implies self.entries@[i - 1].1 < n by {
                    assert(self.entries@[i - 1].1 < n);
                }
                return Some(self.entries[i - 1].1);
            }
            i -= 1;
        }
        None
    }
}

/// A set of names.
pub struct NameSet {
    pub items: Vec<Vec<char>>,
}

impl NameSet {
    pub open spec fn view(&self) -> Seq<Seq<char>> {
        self.items@.map_values(|v: Vec<char>| v@)
    }

    pub open spec fn has(&self, k: Seq<char>) -> bool {
        self.view().contains(k)
    }

    pub fn new() -> (r: NameSet)
        ensures
            r.view() == Seq::<Seq<char>>::empty(),
    {
        NameSet { items: Vec::new() }
    }

    pub fn insert(&mut self, k: Vec<char>)
        ensures
            final(self).view() == old(self).view().push(k@),
            forall|x: Seq<char>| #[trigger] final(self).has(x) <==> old(self).has(x) || x == k@,
    {
        let ghost prev = self.view();
        let ghost kv = k@;
        self.items.push(k);
        assert(self.view() =~= prev.push(kv));
        assert forall|x: Seq<char>| #[trigger] self.has(x) <==> prev.contains(x) || x == kv by {
            if prev.contains(x) {
                let j = choose|j: int| 0 <= j < prev.len() && prev[j] == x;
                assert(self.view()[j] == x);
            }
            if x == kv {
                assert(self.view()[prev.len() as int] == x);
            }
            if self.has(x) {
                let j = choose|j: int| 0 <= j < self.view().len() && self.view()[j] == x;
                if j < prev.len() {
                    assert(prev[j] == x);
                }
            }
        }
    }

    pub fn contains(&self, k: &[char]) -> (r: bool)
        ensures
            r == self.has(k@),
    {
        let mut i: usize = 0;
        while i < self.items.len()
            invariant
                i <= self.items@.len(),
                forall|j: int| 0 <= j < i ==> self.view()[j] != k@,
            decreases self.items@.len() - i,
        {
            if eq(&self.items[i], k) {
                assert(self.view()[i as int] == k@);
                return true;
            }
            i += 1;
        }
        false
    }
}

} // verus!
