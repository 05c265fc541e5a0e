//! The variable map a render reads: names to values, last write wins.
use vstd::prelude::*;

verus! {

/// The value bound to `k` by a list of bindings in which later ones win.
pub open spec fn lookup(s: Seq<(Seq<char>, Seq<char>)>, k: Seq<char>) -> Option<Seq<char>>
    decreases s.len(),
{
    if s.len() == 0 {
        None
    } else if s.last().0 == k {
        Some(s.last().1)
    } else {
        lookup(s.drop_last(), k)
    }
}

/// The map that a list of bindings denotes.
pub open spec fn bindings_map(s: Seq<(Seq<char>, Seq<char>)>) -> Map<Seq<char>, Seq<char>> {
    Map::new(|k: Seq<char>| lookup(s, k) is Some, |k: Seq<char>| lookup(s, k)->0)
}

pub open spec fn pair_view(p: (String, String)) -> (Seq<char>, Seq<char>) {
    (p.0@, p.1@)
}

/// Variable names mapped to their values.
pub struct VarMap {
    entries: Vec<(String, String)>,
}

impl View for VarMap {
    type V = Map<Seq<char>, Seq<char>>;

    closed spec fn view(&self) -> Map<Seq<char>, Seq<char>> {
        bindings_map(self.entries@.map_values(|p: (String, String)| pair_view(p)))
    }
}

impl VarMap {
    /// An empty map.
    pub fn new() -> (r: VarMap)
        ensures
            r@ == Map::<Seq<char>, Seq<char>>::empty(),
    {
        let r = VarMap { entries: Vec::new() };
        assert(r@ =~= Map::<Seq<char>, Seq<char>>::empty());
        r
    }

    /// Binds `name` to `value`, replacing any earlier binding of `name`.
    pub fn insert(&mut self, name: String, value: String)
        ensures
            final(self)@ == old(self)@.insert(name@, value@),
    {
        let ghost before = self.entries@.map_values(|p: (String, String)| pair_view(p));
        self.entries.push((name, value));
        let ghost after = self.entries@.map_values(|p: (String, String)| pair_view(p));
        assert(after.drop_last() =~= before);
        assert(self@ =~= old(self)@.insert(name@, value@));
    }

    /// Removes every binding.
    pub fn clear(&mut self)
        ensures
            final(self)@ == Map::<Seq<char>, Seq<char>>::empty(),
    {
        self.entries = Vec::new();
        assert(self@ =~= Map::<Seq<char>, Seq<char>>::empty());
    }

    /// The value bound to `name`, if any.
    pub fn get(&self, name: &str) -> (r: Option<&String>)
        ensures
            r is Some <==> self@.contains_key(name@),
            r is Some ==> r->0@ == self@[name@],
    {
        let ghost s = self.entries@.map_values(|p: (String, String)| pair_view(p));
        let key = name.to_owned();
        let mut k: usize = self.entries.len();
        assert(s.subrange(0, k as int) =~= s);
        while k > 0
            invariant
                k <= self.entries@.len(),
                s == self.entries@.map_values(|p: (String, String)| pair_view(p)),
                key@ == name@,
                lookup(s, name@) == lookup(s.subrange(0, k as int), name@),
            decreases k,
        {
            assert(s.subrange(0, k as int).drop_last() =~= s.subrange(0, k - 1));
            if self.entries[k - 1].0 == key {
                return Some(&self.entries[k - 1].1);
            }
            k = k - 1;
        }
        None
    }
}

impl VarMap {
    /// Binds every name of `other` to its value there, replacing earlier
    /// bindings.
    pub fn extend_from(&mut self, other: &VarMap)
        ensures
            final(self)@ == old(self)@.union_prefer_right(other@),
    {
        let ghost o = other.entries@.map_values(|p: (String, String)| pair_view(p));
        let mut k: usize = 0;
        assert(old(self)@ =~= old(self)@.union_prefer_right(bindings_map(o.subrange(0, 0))));
        while k < other.entries.len()
            invariant
                k <= other.entries@.len(),
                o == other.entries@.map_values(|p: (String, String)| pair_view(p)),
                self@ == old(self)@.union_prefer_right(bindings_map(o.subrange(0, k as int))),
            decreases other.entries@.len() - k,
        {
            let name = other.entries[k].0.clone();
            let value = other.entries[k].1.clone();
            self.insert(name, value);
            assert(o.subrange(0, k + 1).drop_last() =~= o.subrange(0, k as int));
            assert(o[k as int] == (name@, value@));
            assert(self@ =~= old(self)@.union_prefer_right(bindings_map(o.subrange(0, k + 1))));
            k = k + 1;
        }
        assert(o.subrange(0, o.len() as int) =~= o);
    }
}

/// A binding added at the end wins over earlier ones.
pub proof fn lemma_bindings_push(
    b: Seq<(Seq<char>, Seq<char>)>,
    p: (Seq<char>, Seq<char>),
    base: Map<Seq<char>, Seq<char>>,
)
    ensures
        bindings_map(b.push(p)) == bindings_map(b).insert(p.0, p.1),
        base.union_prefer_right(bindings_map(b.push(p))) == base.union_prefer_right(
            bindings_map(b),
        ).insert(p.0, p.1),
{
    assert(b.push(p).drop_last() =~= b);
    assert(bindings_map(b.push(p)) =~= bindings_map(b).insert(p.0, p.1));
    assert(base.union_prefer_right(bindings_map(b.push(p))) =~= base.union_prefer_right(
        bindings_map(b),
    ).insert(p.0, p.1));
}

} // verus!
