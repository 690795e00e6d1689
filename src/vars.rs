use vstd::prelude::*;

verus! {

/// The map that a list of pairs stands for, a later pair winning over an earlier one.
pub open spec fn pairs_map(s: Seq<(Seq<char>, Seq<char>)>) -> Map<Seq<char>, Seq<char>>
    decreases s.len(),
{
    if s.len() == 0 {
        Map::empty()
    } else {
        pairs_map(s.drop_last()).insert(s.last().0, s.last().1)
    }
}

pub open spec fn keys_distinct(s: Seq<(Seq<char>, Seq<char>)>) -> bool {
    forall|i: int, j: int| 0 <= i < j < s.len() ==> s[i].0 != s[j].0
}

/// The list of pairs after `(k, v)` is put in: the value of an existing key is
/// replaced in place, a new key is appended.
pub open spec fn put(s: Seq<(Seq<char>, Seq<char>)>, k: Seq<char>, v: Seq<char>) -> Seq<
    (Seq<char>, Seq<char>),
> {
    if exists|i: int| 0 <= i < s.len() && s[i].0 == k {
        let i = choose|i: int| 0 <= i < s.len() && s[i].0 == k;
        s.update(i, (k, v))
    } else {
        s.push((k, v))
    }
}

/// The list of pairs after every pair of `t` is put into `s`, in order.
pub open spec fn put_all(s: Seq<(Seq<char>, Seq<char>)>, t: Seq<(Seq<char>, Seq<char>)>) -> Seq<
    (Seq<char>, Seq<char>),
>
    decreases t.len(),
{
    if t.len() == 0 {
        s
    } else {
        put(put_all(s, t.drop_last()), t.last().0, t.last().1)
    }
}

pub proof fn lemma_pairs_map_contains(s: Seq<(Seq<char>, Seq<char>)>, k: Seq<char>)
    requires
        keys_distinct(s),
    ensures
        pairs_map(s).contains_key(k) <==> exists|i: int| 0 <= i < s.len() && s[i].0 == k,
        forall|i: int| 0 <= i < s.len() && s[i].0 == k ==> pairs_map(s)[k] == s[i].1,
    decreases s.len(),
{
    if s.len() > 0 {
        let p = s.drop_last();
        assert(keys_distinct(p));
        lemma_pairs_map_contains(p, k);
        if exists|i: int| 0 <= i < s.len() && s[i].0 == k {
            let i = choose|i: int| 0 <= i < s.len() && s[i].0 == k;
            if i < s.len() - 1 {
                assert(p[i].0 == k);
            }
        }
        assert forall|i: int| 0 <= i < p.len() && p[i].0 == k implies exists|j: int|
            0 <= j < s.len() && s[j].0 == k by {
            assert(s[i].0 == k);
        }
    }
}

proof fn lemma_update_map(s: Seq<(Seq<char>, Seq<char>)>, i: int, k: Seq<char>, v: Seq<char>)
    requires
        keys_distinct(s),
        0 <= i < s.len(),
        s[i].0 == k,
    ensures
        pairs_map(s.update(i, (k, v))) == pairs_map(s).insert(k, v),
    decreases s.len(),
{
    let r = s.update(i, (k, v));
    if i == s.len() - 1 {
        assert(r.drop_last() =~= s.drop_last());
        assert(pairs_map(r) =~= pairs_map(s).insert(k, v));
    } else {
        assert(r.drop_last() =~= s.drop_last().update(i, (k, v)));
        lemma_update_map(s.drop_last(), i, k, v);
        assert(s.last().0 != k);
        assert(pairs_map(r) =~= pairs_map(s).insert(k, v));
    }
}

pub proof fn lemma_put(s: Seq<(Seq<char>, Seq<char>)>, k: Seq<char>, v: Seq<char>)
    requires
        keys_distinct(s),
    ensures
        keys_distinct(put(s, k, v)),
        pairs_map(put(s, k, v)) == pairs_map(s).insert(k, v),
{
    let r = put(s, k, v);
    if exists|i: int| 0 <= i < s.len() && s[i].0 == k {
        let i = choose|i: int| 0 <= i < s.len() && s[i].0 == k;
        assert(keys_distinct(r));
        lemma_update_map(s, i, k, v);
    } else {
        assert(r.drop_last() =~= s);
    }
}

pub proof fn lemma_put_all(s: Seq<(Seq<char>, Seq<char>)>, t: Seq<(Seq<char>, Seq<char>)>)
    requires
        keys_distinct(s),
    ensures
        keys_distinct(put_all(s, t)),
        pairs_map(put_all(s, t)) == pairs_map(s).union_prefer_right(pairs_map(t)),
    decreases t.len(),
{
    if t.len() == 0 {
        assert(pairs_map(s).union_prefer_right(pairs_map(t)) =~= pairs_map(s));
    } else {
        lemma_put_all(s, t.drop_last());
        lemma_put(put_all(s, t.drop_last()), t.last().0, t.last().1);
        assert(pairs_map(put_all(s, t)) =~= pairs_map(s).union_prefer_right(pairs_map(t)));
    }
}

/// A map from string keys to string values, each key held once.
pub struct VarMap {
    entries: Vec<(String, String)>,
}

impl VarMap {
    /// The pairs in the order in which their keys first came in.
    pub closed spec fn pairs(&self) -> Seq<(Seq<char>, Seq<char>)> {
        Seq::new(self.entries@.len(), |i: int| (self.entries@[i].0@, self.entries@[i].1@))
    }

    pub open spec fn view(&self) -> Map<Seq<char>, Seq<char>> {
        pairs_map(self.pairs())
    }

    /// Each key is held once.
    pub open spec fn wf(&self) -> bool {
        keys_distinct(self.pairs())
    }

    pub fn new() -> (r: Self)
        ensures
            r.wf(),
            r.pairs() == Seq::<(Seq<char>, Seq<char>)>::empty(),
            r@ == Map::<Seq<char>, Seq<char>>::empty(),
    {
        let r = VarMap { entries: Vec::new() };
        assert(r.pairs() =~= Seq::<(Seq<char>, Seq<char>)>::empty());
        r
    }

    pub fn len(&self) -> (r: usize)
        ensures
            r == self.pairs().len(),
    {
        self.entries.len()
    }

    pub fn key_at(&self, i: usize) -> (r: &String)
        requires
            i < self.pairs().len(),
        ensures
            r@ == self.pairs()[i as int].0,
    {
        &self.entries[i].0
    }

    pub fn value_at(&self, i: usize) -> (r: &String)
        requires
            i < self.pairs().len(),
        ensures
            r@ == self.pairs()[i as int].1,
    {
        &self.entries[i].1
    }

    /// The position of `key`, if it is held.
    pub fn find(&self, key: &str) -> (r: Option<usize>)
        ensures
            r is None ==> forall|i: int| 0 <= i < self.pairs().len() ==> self.pairs()[i].0 != key@,
            r matches Some(i) ==> i < self.pairs().len() && self.pairs()[i as int].0 == key@,
    {
        let mut i: usize = 0;
        while i < self.entries.len()
            invariant
                i <= self.entries.len(),
                forall|j: int| 0 <= j < i ==> self.pairs()[j].0 != key@,
            decreases self.entries.len() - i,
        {
            if crate::text::str_eq(self.entries[i].0.as_str(), key) {
                return Some(i);
            }
            i = i + 1;
        }
        None
    }

    pub fn get(&self, key: &str) -> (r: Option<&String>)
        requires
            self.wf(),
        ensures
            r is None ==> !self@.contains_key(key@),
            r matches Some(v) ==> self@.contains_key(key@) && self@[key@] == v@,
    {
        proof {
            lemma_pairs_map_contains(self.pairs(), key@);
        }
        match self.find(key) {
            Some(i) => Some(&self.entries[i].1),
            None => None,
        }
    }

    /// Sets `key` to `value`, replacing the value it had.
    pub fn insert(&mut self, key: String, value: String)
        requires
            old(self).wf(),
        ensures
            final(self).wf(),
            final(self).pairs() == put(old(self).pairs(), key@, value@),
            final(self)@ == old(self)@.insert(key@, value@),
    {
        proof {
            lemma_put(self.pairs(), key@, value@);
        }
        let ghost p = self.pairs();
        match self.find(key.as_str()) {
            Some(i) => {
                let ghost j = choose|j: int| 0 <= j < p.len() && p[j].0 == key@;
                assert(j == i);
                self.entries.set(i, (key, value));
                assert(self.pairs() =~= put(p, key@, value@));
            },
            None => {
                self.entries.push((key, value));
                assert(self.pairs() =~= put(p, key@, value@));
            },
        }
    }

    /// Puts every pair of `other` in, `other` winning on a shared key.
    pub fn extend(&mut self, other: &VarMap)
        requires
            old(self).wf(),
            other.wf(),
        ensures
            final(self).wf(),
            final(self).pairs() == put_all(old(self).pairs(), other.pairs()),
            final(self)@ == old(self)@.union_prefer_right(other@),
    {
        proof {
            lemma_put_all(self.pairs(), other.pairs());
        }
        let ghost start = self.pairs();
        let mut i: usize = 0;
        while i < other.len()
            invariant
                i <= other.pairs().len(),
                self.wf(),
                other.wf(),
                self.pairs() == put_all(start, other.pairs().subrange(0, i as int)),
            decreases other.pairs().len() - i,
        {
            let k = other.key_at(i).clone();
            let v = other.value_at(i).clone();
            self.insert(k, v);
            assert(other.pairs().subrange(0, i + 1).drop_last() =~= other.pairs().subrange(
                0,
                i as int,
            ));
            i = i + 1;
        }
        assert(other.pairs().subrange(0, i as int) =~= other.pairs());
    }

    /// A copy with the same pairs in the same order.
    pub fn duplicate(&self) -> (r: VarMap)
        requires
            self.wf(),
        ensures
            r.wf(),
            r.pairs() == self.pairs(),
    {
        let mut entries: Vec<(String, String)> = Vec::new();
        let mut i: usize = 0;
        while i < self.entries.len()
            invariant
                i <= self.entries.len(),
                entries@.len() == i,
                forall|j: int|
                    0 <= j < i ==> entries@[j].0@ == self.entries@[j].0@ && entries@[j].1@
                        == self.entries@[j].1@,
            decreases self.entries.len() - i,
        {
            let k = self.entries[i].0.clone();
            let v = self.entries[i].1.clone();
            entries.push((k, v));
            i = i + 1;
        }
        let r = VarMap { entries };
        assert(r.pairs() =~= self.pairs());
        r
    }
}

} // verus!
