//! A mapping from keys to escape codes, held as two parallel vectors with
//! unique keys.
use vstd::prelude::*;

verus! {

/// The mapping denoted by parallel key and code sequences, entry by entry.
pub open spec fn entries_map(keys: Seq<Seq<char>>, codes: Seq<Seq<char>>) -> Map<
    Seq<char>,
    Seq<char>,
>
    decreases keys.len(),
{
    if keys.len() == 0 || codes.len() == 0 {
        Map::empty()
    } else {
        entries_map(keys.drop_last(), codes.drop_last()).insert(keys.last(), codes.last())
    }
}

proof fn lemma_entries_lookup(keys: Seq<Seq<char>>, codes: Seq<Seq<char>>, k: Seq<char>)
    requires
        keys.len() == codes.len(),
        keys.no_duplicates(),
    ensures
        entries_map(keys, codes).dom().finite(),
        entries_map(keys, codes).dom().len() == keys.len(),
        entries_map(keys, codes).dom().contains(k) <==> keys.contains(k),
        forall|j: int|
            0 <= j < keys.len() && #[trigger] keys[j] == k ==> entries_map(keys, codes)[k]
                == codes[j],
    decreases keys.len(),
{
    if keys.len() > 0 {
        let kd = keys.drop_last();
        let cd = codes.drop_last();
        assert(kd.no_duplicates());
        lemma_entries_lookup(kd, cd, k);
        lemma_entries_lookup(kd, cd, keys.last());
        assert(!kd.contains(keys.last())) by {
            if kd.contains(keys.last()) {
                let j = choose|j: int| 0 <= j < kd.len() && kd[j] == keys.last();
                assert(keys[j] == keys[keys.len() - 1]);
            }
        }
        assert forall|j: int| 0 <= j < keys.len() && #[trigger] keys[j] == k implies entries_map(
            keys,
            codes,
        )[k] == codes[j] by {
            if j < keys.len() - 1 {
                assert(kd[j] == k);
                assert(k != keys.last());
            }
        }
        if keys.contains(k) && k != keys.last() {
            let j = choose|j: int| 0 <= j < keys.len() && keys[j] == k;
            assert(kd[j] == k);
        }
        if kd.contains(k) {
            let j = choose|j: int| 0 <= j < kd.len() && kd[j] == k;
            assert(keys[j] == k);
        }
    }
}

proof fn lemma_entries_update(keys: Seq<Seq<char>>, codes: Seq<Seq<char>>, j: int, v: Seq<char>)
    requires
        keys.len() == codes.len(),
        keys.no_duplicates(),
        0 <= j < keys.len(),
    ensures
        entries_map(keys, codes.update(j, v)) == entries_map(keys, codes).insert(keys[j], v),
    decreases keys.len(),
{
    let n = keys.len() - 1;
    let kd = keys.drop_last();
    let cd = codes.drop_last();
    if j == n {
        assert(codes.update(j, v).drop_last() =~= cd);
        lemma_entries_lookup(kd, cd, keys[j]);
        assert(!kd.contains(keys[j])) by {
            if kd.contains(keys[j]) {
                let i = choose|i: int| 0 <= i < kd.len() && kd[i] == keys[j];
                assert(keys[i] == keys[j]);
            }
        }
        assert(entries_map(keys, codes.update(j, v)) =~= entries_map(keys, codes).insert(
            keys[j],
            v,
        ));
    } else {
        assert(codes.update(j, v).drop_last() =~= cd.update(j, v));
        assert(kd.no_duplicates());
        lemma_entries_update(kd, cd, j, v);
        assert(keys[j] != keys[n]);
        assert(entries_map(keys, codes.update(j, v)) =~= entries_map(keys, codes).insert(
            keys[j],
            v,
        ));
    }
}

impl View for EncodingTable {
    type V = Map<Seq<char>, Seq<char>>;

    /// The mapping that the table holds.
    closed spec fn view(&self) -> Map<Seq<char>, Seq<char>> {
        entries_map(self.key_seq(), self.code_seq())
    }
}

/// A mapping from keys to escape codes, with unique keys.
pub struct EncodingTable {
    keys: Vec<String>,
    codes: Vec<String>,
}

impl EncodingTable {
    /// The keys, as character sequences, in the order they were first inserted.
    pub closed spec fn key_seq(&self) -> Seq<Seq<char>> {
        self.keys@.map_values(|k: String| k@)
    }

    /// The codes, as character sequences, parallel to `key_seq`.
    pub closed spec fn code_seq(&self) -> Seq<Seq<char>> {
        self.codes@.map_values(|c: String| c@)
    }

    /// Keys and codes line up, and no key occurs twice.
    pub closed spec fn well_formed(&self) -> bool {
        &&& self.keys.len() == self.codes.len()
        &&& self.key_seq().no_duplicates()
    }


    /// An empty table.
    pub fn new() -> (t: EncodingTable)
        ensures
            t.well_formed(),
            t@ == Map::<Seq<char>, Seq<char>>::empty(),
    {
        let t = EncodingTable { keys: Vec::new(), codes: Vec::new() };
        assert(t.key_seq() =~= Seq::<Seq<char>>::empty());
        t
    }

    /// The number of keys in the table.
    pub fn len(&self) -> (n: usize)
        requires
            self.well_formed(),
        ensures
            n == self@.dom().len(),
    {
        proof {
            lemma_entries_lookup(self.key_seq(), self.code_seq(), Seq::empty());
        }
        self.keys.len()
    }

    fn position(&self, key: &String) -> (r: Option<usize>)
        requires
            self.well_formed(),
        ensures
            r is None ==> !self.key_seq().contains(key@),
            r is Some ==> r->0 < self.keys.len() && self.key_seq()[r->0 as int] == key@,
    {
        let mut j: usize = 0;
        while j < self.keys.len()
            invariant
                j <= self.keys.len(),
                forall|i: int| 0 <= i < j ==> self.key_seq()[i] != key@,
            decreases self.keys.len() - j,
        {
            if self.keys[j] == *key {
                return Some(j);
            }
            j += 1;
        }
        None
    }

    /// The code stored for `key`, if any.
    pub fn get(&self, key: &String) -> (r: Option<String>)
        requires
            self.well_formed(),
        ensures
            r is Some <==> self@.dom().contains(key@),
            r is Some ==> r->0@ == self@[key@],
    {
        proof {
            lemma_entries_lookup(self.key_seq(), self.code_seq(), key@);
        }
        match self.position(key) {
            Some(j) => Some(self.codes[j].clone()),
            None => None,
        }
    }

    /// The key and code pairs of the table, one per key.
    pub fn entries(&self) -> (r: Vec<(String, String)>)
        requires
            self.well_formed(),
        ensures
            r.len() == self@.dom().len(),
            r@.map_values(|p: (String, String)| p.0@).no_duplicates(),
            forall|i: int|
                0 <= i < r.len() ==> self@.dom().contains((#[trigger] r@[i]).0@) && self@[r@[i].0@]
                    == r@[i].1@,
    {
        let mut r: Vec<(String, String)> = Vec::new();
        let mut j: usize = 0;
        proof {
            lemma_entries_lookup(self.key_seq(), self.code_seq(), Seq::empty());
        }
        while j < self.keys.len()
            invariant
                self.well_formed(),
                j <= self.keys.len(),
                r.len() == j,
                forall|i: int|
                    0 <= i < j ==> (#[trigger] r@[i]).0@ == self.key_seq()[i] && r@[i].1@
                        == self.code_seq()[i],
            decreases self.keys.len() - j,
        {
            r.push((self.keys[j].clone(), self.codes[j].clone()));
            j += 1;
        }
        proof {
            assert(r@.map_values(|p: (String, String)| p.0@) =~= self.key_seq());
            assert forall|i: int| 0 <= i < r.len() implies self@.dom().contains(
                (#[trigger] r@[i]).0@,
            ) && self@[r@[i].0@] == r@[i].1@ by {
                lemma_entries_lookup(self.key_seq(), self.code_seq(), r@[i].0@);
            }
        }
        r
    }

    /// Maps `key` to `code`, replacing any earlier code for `key`.
    pub fn insert(&mut self, key: String, code: String)
        requires
            old(self).well_formed(),
        ensures
            final(self).well_formed(),
            final(self)@ == old(self)@.insert(key@, code@),
    {
        match self.position(&key) {
            Some(j) => {
                self.codes.set(j, code);
                proof {
                    assert(self.code_seq() =~= old(self).code_seq().update(j as int, code@));
                    lemma_entries_update(old(self).key_seq(), old(self).code_seq(), j as int, code@);
                }
            },
            None => {
                self.keys.push(key);
                self.codes.push(code);
                proof {
                    assert(self.key_seq() =~= old(self).key_seq().push(key@));
                    assert(self.code_seq() =~= old(self).code_seq().push(code@));
                    assert(self.key_seq().drop_last() =~= old(self).key_seq());
                    assert(self.code_seq().drop_last() =~= old(self).code_seq());
                }
            },
        }
    }
}

} // verus!
