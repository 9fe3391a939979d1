//! The result of a successful parse: a mapping from argument names to their
//! resolved string values.

use vstd::prelude::*;
use crate::text::str_eq;

verus! {

/// The character-sequence pairs of a list of string entries.
spec fn entry_views(s: Seq<(String, String)>) -> Seq<(Seq<char>, Seq<char>)> {
    s.map_values(|p: (String, String)| (p.0@, p.1@))
}

/// The mapping that a list of key-value pairs denotes; a later pair wins over
/// an earlier one with the same key.
spec fn seq_to_map(s: Seq<(Seq<char>, Seq<char>)>) -> Map<Seq<char>, Seq<char>>
    decreases s.len(),
{
    if s.len() == 0 {
        Map::empty()
    } else {
        seq_to_map(s.drop_last()).insert(s.last().0, s.last().1)
    }
}

/// A key is in the denoted mapping exactly when some pair holds it.
proof fn lemma_seq_to_map_contains(s: Seq<(Seq<char>, Seq<char>)>)
    ensures
        forall|k: Seq<char>|
            seq_to_map(s).contains_key(k) <==> exists|i: int|
                0 <= i < s.len() && (#[trigger] s[i]).0 == k,
    decreases s.len(),
{
    if s.len() > 0 {
        let d = s.drop_last();
        lemma_seq_to_map_contains(d);
        assert(seq_to_map(s) == seq_to_map(d).insert(s.last().0, s.last().1));
        assert forall|k: Seq<char>| seq_to_map(s).contains_key(k) implies exists|i: int|
            0 <= i < s.len() && (#[trigger] s[i]).0 == k by {
            if k == s.last().0 {
                assert((s[s.len() - 1]).0 == k);
            } else {
                assert(seq_to_map(d).contains_key(k));
                let i = choose|i: int| 0 <= i < d.len() && (#[trigger] d[i]).0 == k;
                assert(d[i] == s[i]);
                assert((s[i]).0 == k);
            }
        }
        assert forall|k: Seq<char>|
            (exists|i: int| 0 <= i < s.len() && (#[trigger] s[i]).0 == k) implies seq_to_map(
            s,
        ).contains_key(k) by {
            let i = choose|i: int| 0 <= i < s.len() && (#[trigger] s[i]).0 == k;
            if i < s.len() - 1 {
                assert((d[i]).0 == k);
            }
        }
    }
}

/// The value bound to a key is the one of the key's last pair.
proof fn lemma_seq_to_map_value(s: Seq<(Seq<char>, Seq<char>)>, i: int)
    requires
        0 <= i < s.len(),
        forall|j: int| i < j < s.len() ==> (#[trigger] s[j]).0 != s[i].0,
    ensures
        seq_to_map(s).contains_key(s[i].0),
        seq_to_map(s)[s[i].0] == s[i].1,
    decreases s.len(),
{
    if i < s.len() - 1 {
        let d = s.drop_last();
        assert(forall|j: int| i < j < d.len() ==> (#[trigger] d[j]).0 != d[i].0);
        lemma_seq_to_map_value(d, i);
        assert((s[s.len() - 1]).0 != s[i].0);
    }
}

/// A successful parse result: each resolved argument name bound to its string
/// value. Viewed as a [`Map`] from name to value.
pub struct Bindings {
    entries: Vec<(String, String)>,
}

impl View for Bindings {
    type V = Map<Seq<char>, Seq<char>>;

    closed spec fn view(&self) -> Map<Seq<char>, Seq<char>> {
        seq_to_map(entry_views(self.entries@))
    }
}

impl Bindings {
    /// An empty mapping.
    pub fn new() -> (r: Bindings)
        ensures
            r@ == Map::<Seq<char>, Seq<char>>::empty(),
    {
        let r = Bindings { entries: Vec::new() };
        proof {
            assert(entry_views(r.entries@) =~= Seq::<(Seq<char>, Seq<char>)>::empty());
        }
        r
    }

    /// Binds `value` under `key`, replacing any earlier binding of `key`.
    pub fn insert(&mut self, key: String, value: String)
        ensures
            final(self)@ == old(self)@.insert(key@, value@),
    {
        let ghost s0 = entry_views(self.entries@);
        let ghost k = key@;
        let ghost v = value@;
        self.entries.push((key, value));
        proof {
            let s1 = entry_views(self.entries@);
            assert(s1 =~= s0.push((k, v)));
            assert(s1.drop_last() =~= s0);
            assert(s1.last() == (k, v));
            assert(self@ == old(self)@.insert(k, v));
        }
    }

    /// Looks up the value bound to `key`.
    pub fn get(&self, key: &str) -> (r: Option<&String>)
        ensures
            (match r {
                Some(v) => self@.contains_key(key@) && v@ == self@[key@],
                None => !self@.contains_key(key@),
            }),
    {
        proof {
            lemma_seq_to_map_contains(entry_views(self.entries@));
        }
        let ghost s = entry_views(self.entries@);
        let mut i: usize = self.entries.len();
        while i > 0
            invariant
                i <= self.entries.len(),
                forall|j: int| i <= j < s.len() ==> (#[trigger] s[j]).0 != key@,
                s == entry_views(self.entries@),
                forall|k: Seq<char>|
                    self@.contains_key(k) <==> exists|m: int|
                        0 <= m < s.len() && (#[trigger] s[m]).0 == k,
            decreases i,
        {
            i -= 1;
            if str_eq(self.entries[i].0.as_str(), key) {
                proof {
                    assert(s[i as int].0 == key@);
                    lemma_seq_to_map_value(s, i as int);
                    assert(s[i as int].1 == self.entries@[i as int].1@);
                }
                return Some(&self.entries[i].1);
            }
        }
        None
    }

    /// Whether `key` is bound to some value.
    pub fn contains_key(&self, key: &str) -> (r: bool)
        ensures
            r == self@.contains_key(key@),
    {
        self.get(key).is_some()
    }
}

} // verus!
