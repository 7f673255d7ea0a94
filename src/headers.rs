//! The header container: an ordered map from a key to a non-empty list of
//! values, used for request headers, query parameters and response headers.

use vstd::prelude::*;
use crate::text::{join_from, join_with, views};

verus! {

/// The abstract content of a container: its entries in order.
pub type Entries = Seq<(Seq<char>, Seq<Seq<char>>)>;

pub open spec fn keys_unique(m: Entries) -> bool {
    forall|i: int, j: int| 0 <= i < j < m.len() ==> m[i].0 != m[j].0
}

pub open spec fn values_nonempty(m: Entries) -> bool {
    forall|i: int| 0 <= i < m.len() ==> (#[trigger] m[i]).1.len() > 0
}

/// Each key stands once, with at least one value.
pub open spec fn entries_wf(m: Entries) -> bool {
    keys_unique(m) && values_nonempty(m)
}

/// Where `k` stands in `m`, or -1.
pub open spec fn key_index(m: Entries, k: Seq<char>) -> int
    decreases m.len(),
{
    if m.len() == 0 {
        -1
    } else if m.last().0 == k {
        m.len() - 1
    } else {
        key_index(m.drop_last(), k)
    }
}

/// The values under `k`.
pub open spec fn lookup(m: Entries, k: Seq<char>) -> Option<Seq<Seq<char>>> {
    let i = key_index(m, k);
    if i >= 0 {
        Some(m[i].1)
    } else {
        None
    }
}

/// `m` with the values of `k` replaced by `vs`, or `k` removed where `vs`
/// is empty; a new key goes last.
pub open spec fn set_values(m: Entries, k: Seq<char>, vs: Seq<Seq<char>>) -> Entries {
    let i = key_index(m, k);
    if vs.len() == 0 {
        if i >= 0 {
            m.remove(i)
        } else {
            m
        }
    } else if i >= 0 {
        m.update(i, (k, vs))
    } else {
        m.push((k, vs))
    }
}

/// `m` with `vs` added after the values of `k`; a new key goes last.
pub open spec fn append_values(m: Entries, k: Seq<char>, vs: Seq<Seq<char>>) -> Entries {
    let i = key_index(m, k);
    if vs.len() == 0 {
        m
    } else if i >= 0 {
        m.update(i, (k, m[i].1 + vs))
    } else {
        m.push((k, vs))
    }
}

/// `key_index` finds `k` where it stands, and with unique keys exactly there.
pub proof fn lemma_key_index(m: Entries, k: Seq<char>)
    ensures
        -1 <= key_index(m, k) < m.len(),
        key_index(m, k) >= 0 ==> m[key_index(m, k)].0 == k,
        key_index(m, k) == -1 <==> forall|j: int| 0 <= j < m.len() ==> m[j].0 != k,
        keys_unique(m) ==> forall|j: int| 0 <= j < m.len() && m[j].0 == k ==> key_index(m, k) == j,
    decreases m.len(),
{
    if m.len() > 0 {
        let p = m.drop_last();
        lemma_key_index(p, k);
        assert forall|j: int| 0 <= j < p.len() implies p[j] == m[j] by {}
        if keys_unique(m) {
            assert(keys_unique(p));
        }
        if m.last().0 != k {
            assert(key_index(m, k) == key_index(p, k));
            if key_index(m, k) == -1 {
                assert forall|j: int| 0 <= j < m.len() implies m[j].0 != k by {
                    if j < p.len() {
                        assert(p[j].0 != k);
                    }
                }
            }
        }
    }
}

/// Setting or adding values keeps keys unique and value lists non-empty.
pub proof fn lemma_set_values_wf(m: Entries, k: Seq<char>, vs: Seq<Seq<char>>)
    requires
        entries_wf(m),
    ensures
        entries_wf(set_values(m, k, vs)),
        entries_wf(append_values(m, k, vs)),
{
    lemma_key_index(m, k);
    let i = key_index(m, k);
    if vs.len() == 0 && i >= 0 {
        let r = m.remove(i);
        assert forall|a: int, b: int| 0 <= a < b < r.len() implies r[a].0 != r[b].0 by {
            let a2 = if a < i { a } else { a + 1 };
            let b2 = if b < i { b } else { b + 1 };
            assert(m[a2].0 != m[b2].0);
        }
        assert forall|a: int| 0 <= a < r.len() implies (#[trigger] r[a]).1.len() > 0 by {
            let a2 = if a < i { a } else { a + 1 };
            assert(m[a2].1.len() > 0);
        }
    }
}

/// Looking up a key after adding values: `k` holds its old values and
/// then `vs`, every other key what it held.
pub proof fn lemma_lookup_append(m: Entries, k: Seq<char>, vs: Seq<Seq<char>>, key: Seq<char>)
    requires
        entries_wf(m),
        vs.len() > 0,
    ensures
        lookup(append_values(m, k, vs), key) == if key == k {
            Some(
                match lookup(m, k) {
                    Some(old) => old + vs,
                    None => vs,
                },
            )
        } else {
            lookup(m, key)
        },
{
    let r = append_values(m, k, vs);
    lemma_set_values_wf(m, k, vs);
    lemma_key_index(m, k);
    lemma_key_index(m, key);
    lemma_key_index(r, key);
    let i = key_index(m, k);
    if i >= 0 {
        if key == k {
            assert(r[i].0 == k);
        } else {
            let j = key_index(m, key);
            if j >= 0 {
                assert(r[j].0 == key);
            } else {
                assert forall|t: int| 0 <= t < r.len() implies r[t].0 != key by {
                    assert(m[t].0 != key);
                }
            }
        }
    } else {
        assert(r.drop_last() =~= m);
    }
}

/// Looking up a key after setting the values of `k`: every other key
/// holds what it held.
pub proof fn lemma_lookup_set(m: Entries, k: Seq<char>, vs: Seq<Seq<char>>, key: Seq<char>)
    requires
        entries_wf(m),
        key != k,
    ensures
        lookup(set_values(m, k, vs), key) == lookup(m, key),
{
    let r = set_values(m, k, vs);
    lemma_set_values_wf(m, k, vs);
    lemma_key_index(m, k);
    lemma_key_index(m, key);
    lemma_key_index(r, key);
    let i = key_index(m, k);
    let j = key_index(m, key);
    if vs.len() == 0 && i >= 0 {
        if j >= 0 {
            let j2 = if j < i { j } else { j - 1 };
            assert(r[j2] == m[j]);
        } else {
            assert forall|t: int| 0 <= t < r.len() implies r[t].0 != key by {
                let t2 = if t < i { t } else { t + 1 };
                assert(r[t] == m[t2]);
            }
        }
    } else if vs.len() > 0 && i < 0 {
        assert(r.drop_last() =~= m);
    } else if vs.len() > 0 {
        if j >= 0 {
            assert(r[j] == m[j]);
        } else {
            assert forall|t: int| 0 <= t < r.len() implies r[t].0 != key by {
                if t != i {
                    assert(r[t] == m[t]);
                }
            }
        }
    }
}

/// The wire form of `m`: one `key: v1,v2\r\n` line per entry, in order.
pub open spec fn lines_text(m: Entries) -> Seq<char>
    decreases m.len(),
{
    if m.len() == 0 {
        Seq::<char>::empty()
    } else {
        lines_text(m.drop_last()) + m.last().0 + seq![':', ' '] + join_with(m.last().1, ',')
            + seq!['\r', '\n']
    }
}

/// An ordered map from a key to its values. Lookup is by exact key.
#[derive(Debug)]
pub struct HeaderMap {
    pub(crate) entries: Vec<(String, Vec<String>)>,
}

impl View for HeaderMap {
    type V = Entries;

    closed spec fn view(&self) -> Entries {
        self.entries@.map_values(|e: (String, Vec<String>)| (e.0@, views(e.1@)))
    }
}

impl HeaderMap {
    pub open spec fn wf(&self) -> bool {
        entries_wf(self@)
    }

    /// An empty container.
    pub fn new() -> (r: HeaderMap)
        ensures
            r@ == Seq::<(Seq<char>, Seq<Seq<char>>)>::empty(),
            r.wf(),
    {
        let r = HeaderMap { entries: Vec::new() };
        assert(r@ =~= Seq::<(Seq<char>, Seq<Seq<char>>)>::empty());
        r
    }

    /// The number of keys.
    pub fn len(&self) -> (r: usize)
        ensures
            r == self@.len(),
    {
        self.entries.len()
    }

    /// The position of key `k`.
    fn find(&self, k: &str) -> (r: Option<usize>)
        requires
            self.wf(),
        ensures
            r matches Some(i) ==> key_index(self@, k@) == i,
            r is None ==> key_index(self@, k@) == -1,
            r matches Some(i) ==> i < self@.len(),
    {
        let key = k.to_owned();
        let mut i: usize = 0;
        while i < self.entries.len()
            invariant
                i <= self@.len(),
                key@ == k@,
                self.wf(),
                forall|j: int| 0 <= j < i ==> self@[j].0 != k@,
            decreases self@.len() - i,
        {
            assert(self@[i as int].0 == self.entries@[i as int].0@);
            if self.entries[i].0 == key {
                proof {
                    lemma_key_index(self@, k@);
                }
                return Some(i);
            }
            i = i + 1;
        }
        proof {
            lemma_key_index(self@, k@);
        }
        None
    }

    /// The values under `k`, where it stands.
    pub fn get(&self, k: &str) -> (r: Option<&Vec<String>>)
        requires
            self.wf(),
        ensures
            r matches Some(v) ==> lookup(self@, k@) == Some(views(v@)),
            r is None ==> lookup(self@, k@) is None,
    {
        match self.find(k) {
            Some(i) => Some(&self.entries[i].1),
            None => None,
        }
    }

    /// The first value under `k`, where it stands.
    pub fn get_first(&self, k: &str) -> (r: Option<&String>)
        requires
            self.wf(),
        ensures
            r matches Some(v) ==> lookup(self@, k@) matches Some(vs) && v@ == vs[0],
            r is None ==> lookup(self@, k@) is None,
    {
        match self.find(k) {
            Some(i) => {
                proof {
                    lemma_key_index(self@, k@);
                }
                Some(&self.entries[i].1[0])
            },
            None => None,
        }
    }

    /// Sets the values of `k` to `vs`, replacing what it held; an empty `vs`
    /// removes `k`.
    pub fn insert(&mut self, k: String, vs: Vec<String>)
        requires
            old(self).wf(),
        ensures
            final(self)@ == set_values(old(self)@, k@, views(vs@)),
            final(self).wf(),
    {
        proof {
            lemma_set_values_wf(self@, k@, views(vs@));
            lemma_key_index(self@, k@);
        }
        let ghost m = self@;
        match self.find(k.as_str()) {
            Some(i) => {
                if vs.len() == 0 {
                    self.entries.remove(i);
                    assert(self@ =~= m.remove(i as int));
                } else {
                    self.entries.set(i, (k, vs));
                    assert(self@ =~= m.update(i as int, (k@, views(vs@))));
                }
            },
            None => {
                if vs.len() > 0 {
                    self.entries.push((k, vs));
                    assert(self@ =~= m.push((k@, views(vs@))));
                }
            },
        }
    }

    /// Adds `vs` after the values of `k`.
    pub fn append_all(&mut self, k: String, vs: Vec<String>)
        requires
            old(self).wf(),
        ensures
            final(self)@ == append_values(old(self)@, k@, views(vs@)),
            final(self).wf(),
    {
        proof {
            lemma_set_values_wf(self@, k@, views(vs@));
            lemma_key_index(self@, k@);
        }
        let ghost m = self@;
        if vs.len() == 0 {
            return;
        }
        match self.find(k.as_str()) {
            Some(i) => {
                let (key, mut vals) = self.entries.remove(i);
                let mut more = vs;
                let ghost added = views(more@);
                let ghost had = views(vals@);
                vals.append(&mut more);
                assert(views(vals@) =~= had + added);
                self.entries.insert(i, (key, vals));
                assert(self@ =~= m.update(i as int, (k@, m[i as int].1 + added)));
            },
            None => {
                self.entries.push((k, vs));
                assert(self@ =~= m.push((k@, views(vs@))));
            },
        }
    }

    /// Adds the value `v` after the values of `k`.
    pub fn append(&mut self, k: String, v: String)
        requires
            old(self).wf(),
        ensures
            final(self)@ == append_values(old(self)@, k@, seq![v@]),
            final(self).wf(),
    {
        let mut vs: Vec<String> = Vec::new();
        vs.push(v);
        assert(views(vs@) =~= seq![v@]);
        self.append_all(k, vs);
    }

    /// The wire form of the entries, one line each.
    pub fn to_lines(&self) -> (r: String)
        ensures
            r@ == lines_text(self@),
    {
        let mut r = String::new();
        let mut i: usize = 0;
        while i < self.entries.len()
            invariant
                i <= self@.len(),
                r@ == lines_text(self@.take(i as int)),
            decreases self@.len() - i,
        {
            assert(self@.take(i + 1).drop_last() =~= self@.take(i as int));
            r.append(self.entries[i].0.as_str());
            r.append(": ");
            proof {
                reveal_strlit(",");
            }
            let vals = join_from(&self.entries[i].1, 0, ",");
            r.append(vals.as_str());
            r.append("\r\n");
            proof {
                reveal_strlit(": ");
                reveal_strlit(",");
                reveal_strlit("\r\n");
                let e = self.entries@[i as int];
                assert(views(e.1@).subrange(0, e.1@.len() as int) =~= views(e.1@));
                assert(self@[i as int] == (e.0@, views(e.1@)));
                assert(r@ =~= lines_text(self@.take(i as int)) + e.0@ + seq![':', ' ']
                    + join_with(views(e.1@), ',') + seq!['\r', '\n']);
            }
            i = i + 1;
        }
        assert(self@.take(i as int) =~= self@);
        r
    }
}

} // verus!
