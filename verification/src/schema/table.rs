//! Tables keyed by message identifier: the table of parsed messages that a
//! caller keeps between calls of `parse`, and the table of message texts that
//! are still to be parsed.
use std::sync::Arc;
use vstd::prelude::*;
use crate::schema::{Msg, MsgId, MsgV};

verus! {

/// A message identifier as a plain value: (package, name).
pub type IdV = (Seq<char>, Seq<char>);

/// The map an association list stands for; a later pair wins over an earlier one.
pub open spec fn assoc<V>(s: Seq<(IdV, V)>) -> Map<IdV, V>
    decreases s.len(),
{
    if s.len() == 0 {
        Map::empty()
    } else {
        assoc(s.drop_last()).insert(s.last().0, s.last().1)
    }
}

/// No key occurs twice.
pub open spec fn keys_distinct<V>(s: Seq<(IdV, V)>) -> bool {
    forall|i: int, j: int| 0 <= i < j < s.len() ==> s[i].0 != s[j].0
}

pub proof fn lemma_assoc_absent<V>(s: Seq<(IdV, V)>, k: IdV)
    requires
        forall|i: int| 0 <= i < s.len() ==> s[i].0 != k,
    ensures
        !assoc(s).contains_key(k),
    decreases s.len(),
{
    if s.len() > 0 {
        lemma_assoc_absent(s.drop_last(), k);
    }
}

pub proof fn lemma_assoc_len<V>(s: Seq<(IdV, V)>)
    requires
        keys_distinct(s),
    ensures
        assoc(s).dom().finite(),
        assoc(s).dom().len() == s.len(),
    decreases s.len(),
{
    if s.len() > 0 {
        let t = s.drop_last();
        assert(keys_distinct(t));
        lemma_assoc_len(t);
        lemma_assoc_absent(t, s.last().0);
    }
}

pub proof fn lemma_assoc_index<V>(s: Seq<(IdV, V)>, i: int)
    requires
        keys_distinct(s),
        0 <= i < s.len(),
    ensures
        assoc(s).contains_key(s[i].0),
        assoc(s)[s[i].0] == s[i].1,
    decreases s.len(),
{
    if i < s.len() - 1 {
        let t = s.drop_last();
        assert(keys_distinct(t));
        lemma_assoc_index(t, i);
    }
}

pub proof fn lemma_assoc_update<V>(s: Seq<(IdV, V)>, i: int, v: V)
    requires
        keys_distinct(s),
        0 <= i < s.len(),
    ensures
        assoc(s.update(i, (s[i].0, v))) == assoc(s).insert(s[i].0, v),
        keys_distinct(s.update(i, (s[i].0, v))),
    decreases s.len(),
{
    let u = s.update(i, (s[i].0, v));
    if i == s.len() - 1 {
        assert(u.drop_last() =~= s.drop_last());
        assert(assoc(u) =~= assoc(s).insert(s[i].0, v));
    } else {
        let t = s.drop_last();
        assert(keys_distinct(t));
        lemma_assoc_update(t, i, v);
        assert(u.drop_last() =~= t.update(i, (s[i].0, v)));
        assert(assoc(u) =~= assoc(s).insert(s[i].0, v));
    }
}

pub proof fn lemma_assoc_remove<V>(s: Seq<(IdV, V)>, i: int)
    requires
        keys_distinct(s),
        0 <= i < s.len(),
    ensures
        assoc(s.remove(i)) == assoc(s).remove(s[i].0),
        keys_distinct(s.remove(i)),
    decreases s.len(),
{
    let r = s.remove(i);
    let t = s.drop_last();
    assert(keys_distinct(t));
    if i == s.len() - 1 {
        assert(r =~= t);
        lemma_assoc_absent(t, s[i].0);
        assert(assoc(r) =~= assoc(s).remove(s[i].0));
    } else {
        lemma_assoc_remove(t, i);
        assert(r.drop_last() =~= t.remove(i));
        assert(r.last() == s.last());
        assert(assoc(r) =~= assoc(s).remove(s[i].0));
    }
}

/// An association list from message identifiers to values, with no identifier twice.
pub struct IdMap<V> {
    entries: Vec<(MsgId, V)>,
}

impl<V: View> IdMap<V> {
    pub closed spec fn pairs(&self) -> Seq<(IdV, V::V)> {
        self.entries@.map_values(|e: (MsgId, V)| (e.0@, e.1@))
    }

    pub closed spec fn wf(&self) -> bool {
        keys_distinct(self.pairs())
    }

    pub closed spec fn view(&self) -> Map<IdV, V::V> {
        assoc(self.pairs())
    }

    pub fn new() -> (m: Self)
        ensures
            m.wf(),
            m.view() == Map::<IdV, V::V>::empty(),
    {
        let m = IdMap { entries: Vec::new() };
        assert(m.pairs() =~= Seq::<(IdV, V::V)>::empty());
        m
    }

    pub fn len(&self) -> (n: usize)
        requires
            self.wf(),
        ensures
            self.view().dom().finite(),
            n == self.view().dom().len(),
            n == self.size(),
    {
        proof {
            lemma_assoc_len(self.pairs());
        }
        self.entries.len()
    }

    /// The position of `id`, if it is a key.
    fn find(&self, id: &MsgId) -> (r: Option<usize>)
        requires
            self.wf(),
        ensures
            r is None <==> !self.view().contains_key(id@),
            r matches Some(i) ==> i < self.entries@.len() && self.pairs()[i as int].0 == id@,
    {
        let n = self.entries.len();
        let mut i: usize = 0;
        while i < n
            invariant
                n == self.entries@.len(),
                0 <= i <= n,
                self.wf(),
                forall|j: int| 0 <= j < i ==> self.pairs()[j].0 != id@,
            decreases n - i,
        {
            if self.entries[i].0.same(id) {
                proof {
                    lemma_assoc_index(self.pairs(), i as int);
                }
                return Some(i);
            }
            i = i + 1;
        }
        proof {
            lemma_assoc_absent(self.pairs(), id@);
        }
        None
    }

    pub fn contains_key(&self, id: &MsgId) -> (b: bool)
        requires
            self.wf(),
        ensures
            b == self.view().contains_key(id@),
    {
        self.find(id).is_some()
    }

    pub fn get(&self, id: &MsgId) -> (r: Option<&V>)
        requires
            self.wf(),
        ensures
            r is None <==> !self.view().contains_key(id@),
            r matches Some(v) ==> v@ == self.view()[id@],
    {
        match self.find(id) {
            Some(i) => {
                proof {
                    lemma_assoc_index(self.pairs(), i as int);
                }
                Some(&self.entries[i].1)
            },
            None => None,
        }
    }

    /// Maps `id` to `v`, replacing what it mapped to before.
    pub fn insert(&mut self, id: MsgId, v: V)
        requires
            old(self).wf(),
        ensures
            final(self).wf(),
            final(self).view() == old(self).view().insert(id@, v@),
    {
        match self.find(&id) {
            Some(i) => {
                let ghost old_pairs = self.pairs();
                let ghost idv = id@;
                let ghost vv = v@;
                self.entries.set(i, (id, v));
                proof {
                    assert(self.pairs() =~= old_pairs.update(i as int, (old_pairs[i as int].0, vv)));
                    lemma_assoc_update(old_pairs, i as int, vv);
                }
            },
            None => {
                let ghost old_pairs = self.pairs();
                let ghost idv = id@;
                let ghost vv = v@;
                self.entries.push((id, v));
                proof {
                    assert(self.pairs() =~= old_pairs.push((idv, vv)));
                    assert(self.pairs().drop_last() =~= old_pairs);
                    assert forall|a: int, b: int| 0 <= a < b < self.pairs().len() implies
                        self.pairs()[a].0 != self.pairs()[b].0 by {
                        if b == old_pairs.len() {
                            if old_pairs[a].0 == idv {
                                lemma_assoc_index(old_pairs, a);
                            }
                        }
                    }
                }
            },
        }
    }

    /// Removes `id` and returns what it mapped to.
    pub fn remove(&mut self, id: &MsgId) -> (r: Option<V>)
        requires
            old(self).wf(),
        ensures
            final(self).wf(),
            final(self).view() == old(self).view().remove(id@),
            r is None <==> !old(self).view().contains_key(id@),
            r matches Some(v) ==> v@ == old(self).view()[id@],
            final(self).size() <= old(self).size(),
            r is Some ==> final(self).size() < old(self).size(),
    {
        match self.find(id) {
            Some(i) => {
                let ghost old_pairs = self.pairs();
                proof {
                    lemma_assoc_index(old_pairs, i as int);
                    lemma_assoc_remove(old_pairs, i as int);
                }
                let (_, v) = self.entries.remove(i);
                proof {
                    assert(self.pairs() =~= old_pairs.remove(i as int));
                }
                Some(v)
            },
            None => {
                proof {
                    assert(old(self).view().remove(id@) =~= old(self).view());
                }
                None
            },
        }
    }

    pub closed spec fn size(&self) -> nat {
        self.entries@.len()
    }

    pub proof fn lemma_size(&self)
        requires
            self.wf(),
        ensures
            self.view().dom().finite(),
            self.view().dom().len() == self.size(),
    {
        lemma_assoc_len(self.pairs());
    }
}

/// `Arc::clone`: the clone points to the same allocation, so it holds the same message.
#[verifier::external_body]
pub fn arc_clone(a: &Arc<Msg>) -> (r: Arc<Msg>)
    ensures
        r == *a,
{
    Arc::clone(a)
}

/// The messages parsed so far, by identifier. A caller keeps one table across
/// calls of `parse` so that a message is parsed once.
pub struct MessageTable {
    map: IdMap<Arc<Msg>>,
}

impl View for MessageTable {
    type V = Map<IdV, MsgV>;

    closed spec fn view(&self) -> Map<IdV, MsgV> {
        self.map.view()
    }
}

impl Default for MessageTable {
    fn default() -> (t: MessageTable)
        ensures
            t@ == Map::<IdV, MsgV>::empty(),
    {
        MessageTable::new()
    }
}

impl MessageTable {
    #[verifier::type_invariant]
    spec fn inv(self) -> bool {
        self.map.wf()
    }

    pub fn new() -> (t: MessageTable)
        ensures
            t@ == Map::<IdV, MsgV>::empty(),
    {
        MessageTable { map: IdMap::new() }
    }

    /// The number of messages in the table.
    pub fn len(&self) -> (n: usize)
        ensures
            self@.dom().finite(),
            n == self@.dom().len(),
    {
        proof {
            use_type_invariant(self);
        }
        self.map.len()
    }

    pub fn contains_key(&self, id: &MsgId) -> (b: bool)
        ensures
            b == self@.contains_key(id@),
    {
        proof {
            use_type_invariant(self);
        }
        self.map.contains_key(id)
    }

    pub fn get(&self, id: &MsgId) -> (r: Option<Arc<Msg>>)
        ensures
            r is None <==> !self@.contains_key(id@),
            r matches Some(m) ==> m@ == self@[id@],
    {
        proof {
            use_type_invariant(self);
        }
        match self.map.get(id) {
            Some(m) => Some(arc_clone(m)),
            None => None,
        }
    }

    /// Maps `id` to `msg`, replacing what it mapped to before.
    pub fn insert(&mut self, id: MsgId, msg: Arc<Msg>)
        ensures
            final(self)@ == old(self)@.insert(id@, msg@),
    {
        proof {
            use_type_invariant(&*self);
        }
        let mut map = IdMap::new();
        std::mem::swap(&mut map, &mut self.map);
        map.insert(id, msg);
        self.map = map;
    }
}

} // verus!
