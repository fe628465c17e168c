use vstd::prelude::*;

use crate::bytes::{compare_bytes, lemma_lex_irreflexive, lemma_lex_transitive, lex_lt};

verus! {

pub open spec fn key_views(v: Seq<Vec<u8>>) -> Seq<Seq<u8>> {
    v.map_values(|k: Vec<u8>| k@)
}

pub open spec fn opt_bytes(o: Option<Vec<u8>>) -> Option<Seq<u8>> {
    match o {
        Some(v) => Some(v@),
        None => None,
    }
}

/// Keys in strictly ascending byte order (so no key appears twice).
pub open spec fn sorted_keys(k: Seq<Seq<u8>>) -> bool {
    forall|i: int, j: int| 0 <= i < j < k.len() ==> lex_lt(#[trigger] k[i], #[trigger] k[j])
}

pub proof fn lemma_sorted_at(k: Seq<Seq<u8>>, i: int, j: int)
    requires
        sorted_keys(k),
        0 <= i < j < k.len(),
    ensures
        lex_lt(k[i], k[j]),
{
}

/// `pos` is where a seek for `t` lands: every key before it is smaller than
/// `t`, and no key from it on is.
pub open spec fn is_lower_bound(k: Seq<Seq<u8>>, t: Seq<u8>, pos: int) -> bool {
    &&& 0 <= pos <= k.len()
    &&& forall|i: int| 0 <= i < pos ==> lex_lt(#[trigger] k[i], t)
    &&& forall|i: int| pos <= i < k.len() ==> !lex_lt(#[trigger] k[i], t)
}

/// Only one position is a lower bound for a given key.
pub proof fn lemma_lower_bound_unique(k: Seq<Seq<u8>>, t: Seq<u8>, p: int, q: int)
    requires
        is_lower_bound(k, t, p),
        is_lower_bound(k, t, q),
    ensures
        p == q,
{
    if p < q {
        assert(lex_lt(k[p], t));
    } else if q < p {
        assert(lex_lt(k[q], t));
    }
}

fn lower_bound(keys: &Vec<Vec<u8>>, target: &[u8]) -> (pos: usize)
    requires
        sorted_keys(key_views(keys@)),
    ensures
        is_lower_bound(key_views(keys@), target@, pos as int),
{
    let ghost k = key_views(keys@);
    let mut lo: usize = 0;
    let mut hi: usize = keys.len();
    while lo < hi
        invariant
            k == key_views(keys@),
            sorted_keys(k),
            lo <= hi <= keys@.len(),
            forall|i: int| 0 <= i < lo ==> lex_lt(#[trigger] k[i], target@),
            forall|i: int| hi <= i < k.len() ==> !lex_lt(#[trigger] k[i], target@),
        decreases hi - lo,
    {
        let mid = lo + (hi - lo) / 2;
        assert(k[mid as int] == keys@[mid as int]@);
        if matches!(compare_bytes(keys[mid].as_slice(), target), std::cmp::Ordering::Less) {
            assert forall|i: int| 0 <= i < mid + 1 implies lex_lt(#[trigger] k[i], target@) by {
                if i < mid {
                    lemma_lex_transitive(k[i], k[mid as int], target@);
                }
            }
            lo = mid + 1;
        } else {
            assert forall|i: int| mid <= i < k.len() implies !lex_lt(#[trigger] k[i], target@) by {
                if i > mid && lex_lt(k[i], target@) {
                    lemma_lex_transitive(k[mid as int], k[i], target@);
                }
            }
            hi = mid;
        }
    }
    lo
}

/// An ordered in-memory key-value store: keys unique and ascending, each
/// with its value.
pub struct KvStore {
    keys: Vec<Vec<u8>>,
    values: Vec<Vec<u8>>,
}

impl KvStore {
    pub closed spec fn key_seq(&self) -> Seq<Seq<u8>> {
        key_views(self.keys@)
    }

    pub closed spec fn value_seq(&self) -> Seq<Seq<u8>> {
        key_views(self.values@)
    }

    pub closed spec fn wf(&self) -> bool {
        &&& self.keys@.len() == self.values@.len()
        &&& sorted_keys(self.key_seq())
    }

    /// The value stored under `k`, if any.
    pub closed spec fn lookup(&self, k: Seq<u8>) -> Option<Seq<u8>> {
        if exists|i: int| 0 <= i < self.key_seq().len() && self.key_seq()[i] == k {
            let i = choose|i: int| 0 <= i < self.key_seq().len() && self.key_seq()[i] == k;
            Some(self.value_seq()[i])
        } else {
            None
        }
    }

    proof fn lemma_lookup_at(&self, i: int)
        requires
            self.wf(),
            0 <= i < self.key_seq().len(),
        ensures
            self.lookup(self.key_seq()[i]) == Some(self.value_seq()[i]),
    {
        let ks = self.key_seq();
        let k = ks[i];
        assert(0 <= i < ks.len() && ks[i] == k);
        let j = choose|j: int| 0 <= j < ks.len() && ks[j] == k;
        lemma_lex_irreflexive(k);
        if j < i {
            assert(lex_lt(ks[j], ks[i]));
        } else if i < j {
            assert(lex_lt(ks[i], ks[j]));
        }
    }

    pub fn new() -> (r: KvStore)
        ensures
            r.wf(),
            forall|k: Seq<u8>| r.lookup(k) is None,
    {
        KvStore { keys: Vec::new(), values: Vec::new() }
    }

    /// Stores `value` under `key`, replacing any value there.
    pub fn insert(&mut self, key: Vec<u8>, value: Vec<u8>)
        requires
            old(self).wf(),
        ensures
            final(self).wf(),
            final(self).lookup(key@) == Some(value@),
            forall|k: Seq<u8>| k != key@ ==> final(self).lookup(k) == old(self).lookup(k),
    {
        let ghost ok = self.key_seq();
        let ghost ov = self.value_seq();
        let pos = lower_bound(&self.keys, key.as_slice());
        let ghost kv = key@;
        let ghost vv = value@;
        if pos < self.keys.len() && matches!(
            compare_bytes(self.keys[pos].as_slice(), key.as_slice()),
            std::cmp::Ordering::Equal
        ) {
            self.values.set(pos, value);
            assert(self.key_seq() == ok);
            assert(self.value_seq() =~= ov.update(pos as int, vv));
            proof {
                self.lemma_lookup_at(pos as int);
                assert forall|k: Seq<u8>| k != kv implies self.lookup(k) == old(self).lookup(k) by {
                    if exists|i: int| 0 <= i < ok.len() && ok[i] == k {
                        let i = choose|i: int| 0 <= i < ok.len() && ok[i] == k;
                        self.lemma_lookup_at(i);
                        old(self).lemma_lookup_at(i);
                    }
                }
            }
        } else {
            self.keys.insert(pos, key);
            self.values.insert(pos, value);
            let ghost nk = self.key_seq();
            assert(pos < ok.len() ==> lex_lt(kv, ok[pos as int])) by {
                if pos < ok.len() {
                    assert(ok[pos as int] != kv);
                    crate::bytes::lemma_lex_total(ok[pos as int], kv);
                }
            }
            assert(nk =~= ok.insert(pos as int, kv));
            assert(self.value_seq() =~= ov.insert(pos as int, vv));
            assert forall|i: int, j: int| 0 <= i < j < nk.len() implies lex_lt(
                #[trigger] nk[i],
                #[trigger] nk[j],
            ) by {
                if j == pos {
                    assert(lex_lt(ok[i], kv));
                } else if i == pos {
                    if j - 1 > pos {
                        assert(lex_lt(ok[pos as int], ok[j - 1]));
                        lemma_lex_transitive(kv, ok[pos as int], ok[j - 1]);
                    }
                } else if i > pos {
                    assert(lex_lt(ok[i - 1], ok[j - 1]));
                } else if j > pos {
                    assert(lex_lt(ok[i], ok[j - 1]));
                }
            }
            proof {
                self.lemma_lookup_at(pos as int);
                assert forall|k: Seq<u8>| k != kv implies self.lookup(k) == old(self).lookup(k) by {
                    if exists|i: int| 0 <= i < ok.len() && ok[i] == k {
                        let i = choose|i: int| 0 <= i < ok.len() && ok[i] == k;
                        old(self).lemma_lookup_at(i);
                        if i < pos {
                            self.lemma_lookup_at(i);
                        } else {
                            self.lemma_lookup_at(i + 1);
                        }
                    } else if exists|i: int| 0 <= i < nk.len() && nk[i] == k {
                        let i = choose|i: int| 0 <= i < nk.len() && nk[i] == k;
                        if i < pos {
                            assert(ok[i] == k);
                        } else if i > pos {
                            assert(ok[i - 1] == k);
                        }
                    }
                }
            }
        }
    }

    /// The value stored under `key`, if any.
    pub fn get(&self, key: &[u8]) -> (r: Option<Vec<u8>>)
        requires
            self.wf(),
        ensures
            opt_bytes(r) == self.lookup(key@),
    {
        let pos = lower_bound(&self.keys, key);
        if pos < self.keys.len() && matches!(
            compare_bytes(self.keys[pos].as_slice(), key),
            std::cmp::Ordering::Equal
        ) {
            proof {
                self.lemma_lookup_at(pos as int);
            }
            Some(vstd::slice::slice_to_vec(self.values[pos].as_slice()))
        } else {
            proof {
                if exists|i: int| 0 <= i < self.key_seq().len() && self.key_seq()[i] == key@ {
                    let i = choose|i: int|
                        0 <= i < self.key_seq().len() && self.key_seq()[i] == key@;
                    lemma_lex_irreflexive(key@);
                    if i > pos {
                        assert(lex_lt(self.key_seq()[pos as int], self.key_seq()[i]));
                        crate::bytes::lemma_lex_total(self.key_seq()[pos as int], key@);
                    }
                }
            }
            None
        }
    }

    /// A cursor over a snapshot of the keys stored now, at the first key.
    pub fn open_cursor(&self) -> (c: KvCursor)
        requires
            self.wf(),
        ensures
            c.wf(),
            c.key_seq() == self.key_seq(),
            c.position() == 0,
    {
        let mut keys: Vec<Vec<u8>> = Vec::new();
        let mut i: usize = 0;
        while i < self.keys.len()
            invariant
                i <= self.keys@.len(),
                key_views(keys@) == self.key_seq().subrange(0, i as int),
            decreases self.keys@.len() - i,
        {
            let copy = vstd::slice::slice_to_vec(self.keys[i].as_slice());
            assert(copy@ == self.key_seq()[i as int]);
            let ghost prev = keys@;
            keys.push(copy);
            assert(keys@ == prev.push(copy));
            assert(key_views(keys@) =~= key_views(prev).push(copy@));
            assert(key_views(keys@) =~= self.key_seq().subrange(0, i + 1));
            i = i + 1;
        }
        assert(self.key_seq().subrange(0, i as int) =~= self.key_seq());
        KvCursor { keys, pos: 0 }
    }
}

/// A position in a snapshot of a store's keys. The position may be past the
/// last key: the cursor is then done.
pub struct KvCursor {
    keys: Vec<Vec<u8>>,
    pos: usize,
}

impl KvCursor {
    pub closed spec fn key_seq(&self) -> Seq<Seq<u8>> {
        key_views(self.keys@)
    }

    pub closed spec fn position(&self) -> int {
        self.pos as int
    }

    pub closed spec fn wf(&self) -> bool {
        &&& sorted_keys(self.key_seq())
        &&& self.pos <= self.keys@.len()
    }

    pub proof fn lemma_sorted(&self)
        requires
            self.wf(),
        ensures
            sorted_keys(self.key_seq()),
            0 <= self.position() <= self.key_seq().len(),
    {
    }

    /// The key at the position, or `None` once the cursor is done.
    pub open spec fn current(&self) -> Option<Seq<u8>> {
        if self.position() < self.key_seq().len() {
            Some(self.key_seq()[self.position()])
        } else {
            None
        }
    }

    /// Moves to the first key not below `key`.
    pub fn seek(&mut self, key: &[u8])
        requires
            old(self).wf(),
        ensures
            final(self).wf(),
            final(self).key_seq() == old(self).key_seq(),
            is_lower_bound(final(self).key_seq(), key@, final(self).position()),
    {
        self.pos = lower_bound(&self.keys, key);
    }

    /// Moves one key on; a done cursor stays where it is.
    pub fn next(&mut self)
        requires
            old(self).wf(),
        ensures
            final(self).wf(),
            final(self).key_seq() == old(self).key_seq(),
            final(self).position() == if old(self).position() < old(self).key_seq().len() {
                old(self).position() + 1
            } else {
                old(self).position()
            },
    {
        if self.pos < self.keys.len() {
            self.pos = self.pos + 1;
        }
    }

    pub fn done(&self) -> (r: bool)
        requires
            self.wf(),
        ensures
            r == (self.position() >= self.key_seq().len()),
    {
        self.pos >= self.keys.len()
    }

    /// A copy of the key at the position.
    pub fn key(&self) -> (r: Option<Vec<u8>>)
        requires
            self.wf(),
        ensures
            opt_bytes(r) == self.current(),
    {
        if self.pos < self.keys.len() {
            Some(vstd::slice::slice_to_vec(self.keys[self.pos].as_slice()))
        } else {
            None
        }
    }

    /// The value that `db` holds now under the key at the position. It is
    /// `None` when the cursor is done or the key has left `db`.
    pub fn value(&self, db: &KvStore) -> (r: Option<Vec<u8>>)
        requires
            self.wf(),
            db.wf(),
        ensures
            opt_bytes(r) == match self.current() {
                Some(k) => db.lookup(k),
                None => None,
            },
    {
        if self.pos < self.keys.len() {
            db.get(self.keys[self.pos].as_slice())
        } else {
            None
        }
    }
}

} // verus!
