use vstd::prelude::*;

verus! {

/// Strict lexicographic order on byte strings: the order the storage
/// engine keeps its keys in.  A proper prefix sorts before its extensions.
pub open spec fn lex_lt(a: Seq<u8>, b: Seq<u8>) -> bool
    decreases a.len(),
{
    if b.len() == 0 {
        false
    } else if a.len() == 0 {
        true
    } else if a[0] < b[0] {
        true
    } else if a[0] > b[0] {
        false
    } else {
        lex_lt(a.drop_first(), b.drop_first())
    }
}

pub proof fn lemma_lex_lt_irrefl(a: Seq<u8>)
    ensures
        !lex_lt(a, a),
    decreases a.len(),
{
    if a.len() > 0 {
        lemma_lex_lt_irrefl(a.drop_first());
    }
}

pub proof fn lemma_lex_lt_asym(a: Seq<u8>, b: Seq<u8>)
    ensures
        !(lex_lt(a, b) && lex_lt(b, a)),
    decreases a.len(),
{
    if a.len() > 0 && b.len() > 0 && a[0] == b[0] {
        lemma_lex_lt_asym(a.drop_first(), b.drop_first());
    }
}

pub proof fn lemma_lex_lt_trans(a: Seq<u8>, b: Seq<u8>, c: Seq<u8>)
    requires
        lex_lt(a, b),
        lex_lt(b, c),
    ensures
        lex_lt(a, c),
    decreases a.len(),
{
    if a.len() > 0 && b.len() > 0 && c.len() > 0 && a[0] == b[0] && b[0] == c[0] {
        lemma_lex_lt_trans(a.drop_first(), b.drop_first(), c.drop_first());
    }
}

/// With the first `i` bytes equal, the order is decided by the rest.
pub proof fn lemma_lex_lt_skip(a: Seq<u8>, b: Seq<u8>, i: int)
    requires
        0 <= i <= a.len(),
        i <= b.len(),
        forall|j: int| 0 <= j < i ==> a[j] == b[j],
    ensures
        lex_lt(a, b) == lex_lt(a.skip(i), b.skip(i)),
    decreases i,
{
    if i > 0 {
        lemma_lex_lt_skip(a.drop_first(), b.drop_first(), i - 1);
        assert(a.drop_first().skip(i - 1) =~= a.skip(i));
        assert(b.drop_first().skip(i - 1) =~= b.skip(i));
    } else {
        assert(a.skip(0) =~= a);
        assert(b.skip(0) =~= b);
    }
}

/// Outcome of a three-way byte-string comparison.
pub enum ByteOrd {
    Less,
    Equal,
    Greater,
}

/// Three-way comparison of two byte strings in lexicographic order.
pub fn bytes_cmp(a: &Vec<u8>, b: &Vec<u8>) -> (r: ByteOrd)
    ensures
        (r is Less) == lex_lt(a@, b@),
        (r is Equal) == (a@ == b@),
        (r is Greater) == lex_lt(b@, a@),
{
    let mut i: usize = 0;
    while i < a.len() && i < b.len()
        invariant
            i <= a@.len(),
            i <= b@.len(),
            forall|j: int| 0 <= j < i ==> a@[j] == b@[j],
        decreases a@.len() - i,
    {
        let x = a[i];
        let y = b[i];
        if x < y {
            proof {
                lemma_lex_lt_skip(a@, b@, i as int);
                assert(lex_lt(a@.skip(i as int), b@.skip(i as int)));
                lemma_lex_lt_irrefl(a@);
                lemma_lex_lt_asym(a@, b@);
            }
            return ByteOrd::Less;
        }
        if x > y {
            proof {
                lemma_lex_lt_skip(b@, a@, i as int);
                assert(lex_lt(b@.skip(i as int), a@.skip(i as int)));
                lemma_lex_lt_irrefl(b@);
                lemma_lex_lt_asym(a@, b@);
            }
            return ByteOrd::Greater;
        }
        i += 1;
    }
    if a.len() == b.len() {
        proof {
            assert(a@ =~= b@);
            lemma_lex_lt_irrefl(a@);
        }
        ByteOrd::Equal
    } else if a.len() < b.len() {
        proof {
            lemma_lex_lt_skip(a@, b@, i as int);
            assert(a@.skip(i as int).len() == 0);
            assert(lex_lt(a@.skip(i as int), b@.skip(i as int)));
            lemma_lex_lt_irrefl(a@);
            lemma_lex_lt_asym(a@, b@);
        }
        ByteOrd::Less
    } else {
        proof {
            lemma_lex_lt_skip(b@, a@, i as int);
            assert(b@.skip(i as int).len() == 0);
            assert(lex_lt(b@.skip(i as int), a@.skip(i as int)));
            lemma_lex_lt_irrefl(b@);
            lemma_lex_lt_asym(a@, b@);
        }
        ByteOrd::Greater
    }
}

/// The storage engine's record table: an association list of byte keys
/// to byte values, kept strictly sorted in lexicographic key order.
pub struct ByteMap {
    pub entries: Vec<(Vec<u8>, Vec<u8>)>,
}

impl ByteMap {
    /// Well-formed: keys strictly ascending, hence unique.
    pub open spec fn wf(self) -> bool {
        forall|i: int, j: int|
            0 <= i < j < self.entries@.len() ==> lex_lt(
                self.entries@[i].0@,
                self.entries@[j].0@,
            )
    }

    pub open spec fn contains(self, k: Seq<u8>) -> bool {
        exists|i: int| 0 <= i < self.entries@.len() && self.entries@[i].0@ == k
    }

    pub open spec fn index_of(self, k: Seq<u8>) -> int {
        choose|i: int| 0 <= i < self.entries@.len() && self.entries@[i].0@ == k
    }

    /// The mathematical contents: a map from byte keys to byte values.
    pub open spec fn as_map(self) -> Map<Seq<u8>, Seq<u8>> {
        Map::new(
            |k: Seq<u8>| self.contains(k),
            |k: Seq<u8>| self.entries@[self.index_of(k)].1@,
        )
    }

    /// Under `wf`, each key occurs at exactly one index.
    pub proof fn lemma_index_of_is(self, i: int)
        requires
            self.wf(),
            0 <= i < self.entries@.len(),
        ensures
            self.contains(self.entries@[i].0@),
            self.index_of(self.entries@[i].0@) == i,
            self.as_map().contains_key(self.entries@[i].0@),
            self.as_map()[self.entries@[i].0@] == self.entries@[i].1@,
    {
        let k = self.entries@[i].0@;
        assert(self.contains(k));
        let j = self.index_of(k);
        assert(0 <= j < self.entries@.len() && self.entries@[j].0@ == k);
        if j < i {
            assert(lex_lt(k, k));
            lemma_lex_lt_irrefl(k);
        } else if j > i {
            assert(lex_lt(k, k));
            lemma_lex_lt_irrefl(k);
        }
    }

    pub fn new() -> (r: Self)
        ensures
            r.wf(),
            r.as_map() == Map::<Seq<u8>, Seq<u8>>::empty(),
            r.entries@.len() == 0,
    {
        let r = ByteMap { entries: Vec::new() };
        proof {
            assert(r.as_map() =~= Map::<Seq<u8>, Seq<u8>>::empty());
        }
        r
    }

    /// Point lookup.
    pub fn get(&self, key: &Vec<u8>) -> (r: Option<&Vec<u8>>)
        requires
            self.wf(),
        ensures
            match r {
                Some(v) => self.as_map().contains_key(key@) && v@ == self.as_map()[key@],
                None => !self.as_map().contains_key(key@),
            },
    {
        let n: usize = self.entries.len();
        let mut i: usize = 0;
        while i < n
            invariant
                i <= n,
                n == self.entries@.len(),
                self.wf(),
                forall|j: int| 0 <= j < i ==> self.entries@[j].0@ != key@,
            decreases n - i,
        {
            let c = bytes_cmp(&self.entries[i].0, key);
            match c {
                ByteOrd::Equal => {
                    proof {
                        self.lemma_index_of_is(i as int);
                    }
                    return Some(&self.entries[i].1);
                },
                _ => {
                    proof {
                        lemma_lex_lt_irrefl(key@);
                    }
                    i += 1;
                },
            }
        }
        None
    }

    /// Insert or overwrite: afterwards the contents are exactly the old
    /// contents with `key` bound to `value`.
    pub fn put(&mut self, key: Vec<u8>, value: Vec<u8>)
        requires
            old(self).wf(),
        ensures
            final(self).wf(),
            final(self).as_map() == old(self).as_map().insert(key@, value@),
    {
        let n: usize = self.entries.len();
        let mut pos: usize = 0;
        while pos < n
            invariant_except_break
                pos <= n,
                n == self.entries@.len(),
                *self == *old(self),
                forall|j: int| 0 <= j < pos ==> lex_lt(self.entries@[j].0@, key@),
            ensures
                pos <= n,
                n == self.entries@.len(),
                *self == *old(self),
                forall|j: int| 0 <= j < pos ==> lex_lt(self.entries@[j].0@, key@),
                pos < n ==> !lex_lt(self.entries@[pos as int].0@, key@),
            decreases n - pos,
        {
            let c = bytes_cmp(&self.entries[pos].0, &key);
            match c {
                ByteOrd::Less => {
                    pos += 1;
                },
                _ => {
                    break;
                },
            }
        }
        let ghost olds = *self;
        if pos < n {
            let c = bytes_cmp(&self.entries[pos].0, &key);
            match c {
                ByteOrd::Equal => {
                    self.entries.remove(pos);
                    self.entries.insert(pos, (key, value));
                    proof {
                        let es = olds.entries@;
                        let fs = self.entries@;
                        assert(fs =~= es.update(pos as int, (key, value)));
                        assert forall|i: int, j: int|
                            0 <= i < j < fs.len() implies lex_lt(fs[i].0@, fs[j].0@) by {
                            assert(fs[i].0@ == es[i].0@);
                            assert(fs[j].0@ == es[j].0@);
                        }
                        assert forall|k: Seq<u8>|
                            self.as_map().contains_key(k)
                                == olds.as_map().insert(key@, value@).contains_key(k) by {
                            if self.contains(k) {
                                let i = choose|i: int|
                                    0 <= i < fs.len() && fs[i].0@ == k;
                                assert(es[i].0@ == k);
                                assert(olds.contains(k));
                            }
                            if olds.contains(k) {
                                let i = choose|i: int|
                                    0 <= i < es.len() && es[i].0@ == k;
                                assert(fs[i].0@ == k);
                                assert(self.contains(k));
                            }
                        }
                        assert forall|k: Seq<u8>| self.as_map().contains_key(k)
                            implies self.as_map()[k] == olds.as_map().insert(key@, value@)[k] by {
                            let i = choose|i: int| 0 <= i < fs.len() && fs[i].0@ == k;
                            self.lemma_index_of_is(i);
                            if k == key@ {
                                if i != pos as int {
                                    assert(es[i].0@ == key@);
                                    assert(es[pos as int].0@ == key@);
                                    olds.lemma_index_of_is(i);
                                    olds.lemma_index_of_is(pos as int);
                                    assert(false);
                                }
                                assert(self.as_map()[k] == value@);
                            } else {
                                assert(i != pos as int);
                                assert(es[i].0@ == k);
                                olds.lemma_index_of_is(i);
                            }
                        }
                        assert(self.as_map() =~= olds.as_map().insert(key@, value@));
                    }
                    return ;
                },
                _ => {
                    proof {
                        assert(lex_lt(key@, olds.entries@[pos as int].0@));
                    }
                },
            }
        }
        // key is absent: insert it at `pos`, keeping the order strict.
        proof {
            assert forall|i: int| 0 <= i < olds.entries@.len()
                implies olds.entries@[i].0@ != key@ by {
                if i < pos as int {
                    lemma_lex_lt_irrefl(key@);
                    assert(lex_lt(olds.entries@[i].0@, key@));
                } else {
                    if pos < n {
                        if i > pos as int {
                            lemma_lex_lt_trans(
                                key@,
                                olds.entries@[pos as int].0@,
                                olds.entries@[i].0@,
                            );
                        }
                        lemma_lex_lt_irrefl(key@);
                        assert(lex_lt(key@, olds.entries@[i].0@));
                    }
                }
            }
        }
        self.entries.insert(pos, (key, value));
        proof {
            let es = olds.entries@;
            let fs = self.entries@;
            assert(fs =~= es.insert(pos as int, (key, value)));
            assert(fs.len() == es.len() + 1);
            assert forall|i: int| 0 <= i < fs.len() implies (
                if i < pos as int {
                    fs[i] == es[i]
                } else if i == pos as int {
                    fs[i].0@ == key@ && fs[i].1@ == value@
                } else {
                    fs[i] == es[i - 1]
                }
            ) by {}
            assert forall|i: int, j: int|
                0 <= i < j < fs.len() implies lex_lt(fs[i].0@, fs[j].0@) by {
                if j < pos as int {
                } else if j == pos as int {
                    assert(lex_lt(es[i].0@, key@));
                } else if i == pos as int {
                    if j - 1 > pos as int {
                        lemma_lex_lt_trans(key@, es[pos as int].0@, es[j - 1].0@);
                    }
                } else if i < pos as int {
                    if j - 1 == i {
                        lemma_lex_lt_trans(es[i].0@, key@, fs[j].0@);
                    }
                }
            }
            assert(self.wf());
            assert forall|k: Seq<u8>|
                self.as_map().contains_key(k)
                    == olds.as_map().insert(key@, value@).contains_key(k) by {
                if k == key@ {
                    assert(fs[pos as int].0@ == key@);
                    assert(self.contains(k));
                }
                if self.contains(k) {
                    let i = choose|i: int| 0 <= i < fs.len() && fs[i].0@ == k;
                    if i < pos as int {
                        assert(es[i].0@ == k);
                    } else if i > pos as int {
                        assert(es[i - 1].0@ == k);
                    }
                }
                if olds.contains(k) {
                    let i = choose|i: int| 0 <= i < es.len() && es[i].0@ == k;
                    if i < pos as int {
                        assert(fs[i].0@ == k);
                    } else {
                        assert(fs[i + 1].0@ == k);
                    }
                    assert(self.contains(k));
                }
            }
            assert forall|k: Seq<u8>| self.as_map().contains_key(k)
                implies self.as_map()[k] == olds.as_map().insert(key@, value@)[k] by {
                let i = choose|i: int| 0 <= i < fs.len() && fs[i].0@ == k;
                self.lemma_index_of_is(i);
                if k == key@ {
                    if i != pos as int {
                        if i < pos as int {
                            assert(lex_lt(es[i].0@, key@));
                        } else {
                            assert(es[i - 1].0@ == key@);
                        }
                        lemma_lex_lt_irrefl(key@);
                        assert(false);
                    }
                    assert(self.as_map()[k] == value@);
                } else {
                    assert(i != pos as int);
                    if i < pos as int {
                        assert(es[i].0@ == k);
                        olds.lemma_index_of_is(i);
                    } else {
                        assert(es[i - 1].0@ == k);
                        olds.lemma_index_of_is(i - 1);
                    }
                }
            }
            assert(self.as_map() =~= olds.as_map().insert(key@, value@));
        }
    }
}

} // verus!
