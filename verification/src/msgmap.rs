use vstd::prelude::*;

verus! {

/// An inbox or outbox of one round: named payloads, kept as a list of
/// entries in insertion order.  A later entry for a name shadows an
/// earlier one, and taking a value consumes its entry.
pub struct MsgMap<T> {
    entries: Vec<(String, T)>,
}

/// The payload an entry list holds for `n`: that of the latest entry
/// named `n`, if any.
pub open spec fn lookup<T>(s: Seq<(String, T)>, n: Seq<char>) -> Option<T>
    decreases s.len(),
{
    if s.len() == 0 {
        None
    } else if s.last().0@ == n {
        Some(s.last().1)
    } else {
        lookup(s.drop_last(), n)
    }
}

/// The position of the latest entry named `n`, or -1 when there is none.
pub open spec fn last_match_idx<T>(s: Seq<(String, T)>, n: Seq<char>) -> int
    decreases s.len(),
{
    if s.len() == 0 {
        -1
    } else if s.last().0@ == n {
        s.len() - 1
    } else {
        last_match_idx(s.drop_last(), n)
    }
}

/// A lookup misses exactly when no entry matches, and a hit points at an
/// entry inside the list.
pub proof fn lemma_lookup_match<T>(s: Seq<(String, T)>, n: Seq<char>)
    ensures
        (lookup(s, n) is None) <==> last_match_idx(s, n) == -1,
        (lookup(s, n) is Some) ==> 0 <= last_match_idx(s, n) < s.len(),
    decreases s.len(),
{
    if s.len() > 0 {
        lemma_lookup_match(s.drop_last(), n);
    }
}

impl<T> View for MsgMap<T> {
    type V = Seq<(String, T)>;

    closed spec fn view(&self) -> Seq<(String, T)> {
        self.entries@
    }
}

impl<T> MsgMap<T> {
    /// An empty message map.
    pub fn new() -> (m: MsgMap<T>)
        ensures
            m@ == Seq::<(String, T)>::empty(),
    {
        MsgMap { entries: Vec::new() }
    }

    /// How many entries the map holds.
    pub fn len(&self) -> (n: usize)
        ensures
            n == self@.len(),
    {
        self.entries.len()
    }

    /// Records `value` under `key`, shadowing any earlier entry for it.
    pub fn insert(&mut self, key: String, value: T)
        ensures
            final(self)@ == old(self)@.push((key, value)),
    {
        self.entries.push((key, value));
    }

    /// The payload currently held for `key`, if any.
    pub fn get(&self, key: &String) -> (r: Option<&T>)
        ensures
            match r {
                Some(v) => lookup(self@, key@) == Some(*v),
                None => lookup(self@, key@) is None,
            },
    {
        let mut i: usize = self.entries.len();
        proof {
            assert(self@.take(self@.len() as int) =~= self@);
        }
        while i > 0
            invariant
                i <= self@.len(),
                lookup(self@, key@) == lookup(self@.take(i as int), key@),
            decreases i,
        {
            proof {
                assert(self@.take(i as int).last() == self@[i - 1]);
                assert(self@.take(i as int).drop_last() =~= self@.take(i - 1));
            }
            if self.entries[i - 1].0 == *key {
                return Some(&self.entries[i - 1].1);
            }
            i = i - 1;
        }
        None
    }

    /// Removes and returns the payload currently held for `key`, leaving
    /// other entries, shadowed ones included, in place.
    pub fn take(&mut self, key: &String) -> (r: Option<T>)
        ensures
            match r {
                Some(v) => {
                    &&& lookup(old(self)@, key@) == Some(v)
                    &&& final(self)@ == old(self)@.remove(last_match_idx(old(self)@, key@))
                },
                None => {
                    &&& lookup(old(self)@, key@) is None
                    &&& final(self)@ == old(self)@
                },
            },
    {
        let mut i: usize = self.entries.len();
        proof {
            assert(self@.take(self@.len() as int) =~= self@);
        }
        while i > 0
            invariant
                i <= self@.len(),
                self@ == old(self)@,
                lookup(self@, key@) == lookup(self@.take(i as int), key@),
                last_match_idx(self@, key@) == last_match_idx(self@.take(i as int), key@),
            decreases i,
        {
            proof {
                assert(self@.take(i as int).last() == self@[i - 1]);
                assert(self@.take(i as int).drop_last() =~= self@.take(i - 1));
            }
            if self.entries[i - 1].0 == *key {
                let entry = self.entries.remove(i - 1);
                return Some(entry.1);
            }
            i = i - 1;
        }
        proof {
            assert(self@.take(0) =~= Seq::<(String, T)>::empty());
        }
        None
    }
}

} // verus!
