use vstd::prelude::*;

use crate::bytes::{
    compare_bytes, is_prefix_with, lemma_lex_transitive, lemma_past_prefix_range,
    lemma_prefixed_not_below, lex_lt, starts_with,
};
use crate::error::DbErr;
use crate::key::{encode_key, stacked_key_bytes, valid_key, KeyModel, KeyValue};
use crate::kv::{is_lower_bound, lemma_lower_bound_unique, opt_bytes, KvCursor, KvStore};

verus! {

/// Declares `bson::Document` so that `update_current` can take one. Nothing
/// of its contents is relied on: the value is only carried.
#[verifier::external_type_specification]
#[verifier::external_body]
pub struct ExDocument(bson::Document);

/// A cursor over the entries whose keys start with the encoding of one
/// prefix value (a collection's keys).
///
/// `current_key` caches the key at the underlying cursor's position; every
/// call that moves the underlying cursor refreshes it.
pub struct Cursor {
    prefix: KeyValue,
    prefix_bytes: Vec<u8>,
    kv_cursor: KvCursor,
    current_key: Option<Vec<u8>>,
}

impl Cursor {
    pub closed spec fn prefix_model(&self) -> KeyModel {
        self.prefix@
    }

    /// The encoding of the prefix value: every key in range starts with it.
    pub closed spec fn prefix_key(&self) -> Seq<u8> {
        self.prefix_bytes@
    }

    pub closed spec fn kv(&self) -> KvCursor {
        self.kv_cursor
    }

    /// The cached key: `None` before the first positioning call.
    pub closed spec fn cached(&self) -> Option<Seq<u8>> {
        opt_bytes(self.current_key)
    }

    pub closed spec fn wf(&self) -> bool {
        &&& self.kv_cursor.wf()
        &&& valid_key(self.prefix@)
        &&& self.prefix_bytes@ == encode_key(self.prefix@)
        &&& self.current_key is Some ==> self.synced()
    }

    pub open spec fn key_seq(&self) -> Seq<Seq<u8>> {
        self.kv().key_seq()
    }

    pub open spec fn position(&self) -> int {
        self.kv().position()
    }

    /// The cache agrees with the underlying cursor.
    pub open spec fn synced(&self) -> bool {
        self.cached() == self.kv().current()
    }

    /// The cursor has been positioned and stands at or after the start of
    /// the prefix's range.
    pub open spec fn anchored(&self) -> bool {
        &&& self.synced()
        &&& self.cached() matches Some(k) ==> !lex_lt(k, self.prefix_key())
    }

    pub open spec fn spec_has_next(&self) -> bool {
        &&& self.position() < self.key_seq().len()
        &&& self.cached() matches Some(k) ==> starts_with(k, self.prefix_key())
    }

    /// What `reset` leaves: the same keys, positioned at the first key not
    /// below the prefix's encoding, cache refreshed.
    pub open spec fn reset_post(before: Cursor, after: Cursor) -> bool {
        &&& after.wf()
        &&& after.prefix_model() == before.prefix_model()
        &&& after.prefix_key() == before.prefix_key()
        &&& after.key_seq() == before.key_seq()
        &&& is_lower_bound(after.key_seq(), after.prefix_key(), after.position())
        &&& after.synced()
    }

    /// The key that `reset_by_pkey(pkey)` looks for.
    pub open spec fn pkey_target(&self, pkey: KeyModel) -> Seq<u8> {
        self.prefix_key() + encode_key(pkey)
    }

    /// Binds `prefix` to `kv_cursor`. Fails when the prefix value has no key
    /// encoding.
    pub fn new(prefix: KeyValue, kv_cursor: KvCursor) -> (r: Result<Cursor, DbErr>)
        requires
            kv_cursor.wf(),
        ensures
            r is Ok <==> valid_key(prefix@),
            r is Err ==> r == Err::<Cursor, DbErr>(DbErr::NotAValidKeyType),
            r matches Ok(c) ==> {
                &&& c.wf()
                &&& c.prefix_model() == prefix@
                &&& c.prefix_key() == encode_key(prefix@)
                &&& c.kv() == kv_cursor
                &&& c.cached() is None
            },
    {
        let mut prefix_bytes: Vec<u8> = Vec::new();
        match stacked_key_bytes(&mut prefix_bytes, &prefix) {
            Ok(()) => {},
            Err(e) => {
                return Err(e);
            },
        }
        assert(prefix_bytes@ =~= encode_key(prefix@));
        Ok(Cursor { prefix, prefix_bytes, kv_cursor, current_key: None })
    }

    /// Moves to the first key not below the prefix's encoding.
    pub fn reset(&mut self) -> (r: Result<(), DbErr>)
        requires
            old(self).wf(),
        ensures
            r is Ok,
            Cursor::reset_post(*old(self), *final(self)),
            final(self).anchored(),
            forall|i: int|
                0 <= i < final(self).position() ==> !starts_with(
                    #[trigger] final(self).key_seq()[i],
                    final(self).prefix_key(),
                ),
    {
        self.kv_cursor.seek(self.prefix_bytes.as_slice());
        self.current_key = self.kv_cursor.key();
        assert forall|i: int| 0 <= i < self.position() implies !starts_with(
            #[trigger] self.key_seq()[i],
            self.prefix_key(),
        ) by {
            if starts_with(self.key_seq()[i], self.prefix_key()) {
                lemma_prefixed_not_below(self.key_seq()[i], self.prefix_key());
            }
        }
        Ok(())
    }

    /// Seeks the key of `pkey` within the prefix and tells whether a key
    /// equal to it is there. On a miss the cursor stays where the key would
    /// be inserted.
    pub fn reset_by_pkey(&mut self, pkey: &KeyValue) -> (r: Result<bool, DbErr>)
        requires
            old(self).wf(),
        ensures
            r is Ok <==> valid_key(pkey@),
            r is Err ==> r == Err::<bool, DbErr>(DbErr::NotAValidKeyType) && *final(self)
                == *old(self),
            r matches Ok(found) ==> {
                &&& final(self).wf()
                &&& final(self).prefix_model() == old(self).prefix_model()
                &&& final(self).prefix_key() == old(self).prefix_key()
                &&& final(self).key_seq() == old(self).key_seq()
                &&& final(self).synced()
                &&& final(self).anchored()
                &&& is_lower_bound(
                    final(self).key_seq(),
                    old(self).pkey_target(pkey@),
                    final(self).position(),
                )
                &&& found == final(self).key_seq().contains(old(self).pkey_target(pkey@))
            },
    {
        let mut key_buffer = vstd::slice::slice_to_vec(self.prefix_bytes.as_slice());
        match stacked_key_bytes(&mut key_buffer, pkey) {
            Ok(()) => {},
            Err(e) => {
                return Err(e);
            },
        }
        let ghost target = self.pkey_target(pkey@);
        assert(key_buffer@ == target);
        self.kv_cursor.seek(key_buffer.as_slice());
        self.current_key = self.kv_cursor.key();
        let ghost ks = self.key_seq();
        let ghost pk = self.prefix_key();
        proof {
            self.kv_cursor.lemma_sorted();
            if self.position() < ks.len() {
                let k = ks[self.position()];
                assert(!lex_lt(k, target));
                assert(target.subrange(0, pk.len() as int) =~= pk);
                lemma_prefixed_not_below(target, pk);
                if lex_lt(k, pk) {
                    crate::bytes::lemma_lex_total(target, pk);
                    lemma_lex_transitive(k, pk, target);
                }
            }
        }
        match &self.current_key {
            Some(found) => {
                let eq = matches!(
                    compare_bytes(found.as_slice(), key_buffer.as_slice()),
                    std::cmp::Ordering::Equal
                );
                proof {
                    if !eq && ks.contains(target) {
                        let i = choose|i: int| 0 <= i < ks.len() && ks[i] == target;
                        crate::bytes::lemma_lex_irreflexive(target);
                        if i > self.position() {
                            crate::kv::lemma_sorted_at(ks, self.position(), i);
                            crate::bytes::lemma_lex_total(ks[self.position()], target);
                        }
                    }
                    if eq {
                        assert(ks[self.position()] == target);
                    }
                }
                Ok(eq)
            },
            None => {
                proof {
                    if ks.contains(target) {
                        let i = choose|i: int| 0 <= i < ks.len() && ks[i] == target;
                        crate::bytes::lemma_lex_irreflexive(target);
                    }
                }
                Ok(false)
            },
        }
    }

    /// The value under the cached key, or `None` when nothing is cached or
    /// the cached key lies outside the prefix's range.
    pub fn peek_data(&self, db: &KvStore) -> (r: Result<Option<Vec<u8>>, DbErr>)
        requires
            self.wf(),
            db.wf(),
        ensures
            r matches Ok(v) && opt_bytes(v) == match self.cached() {
                Some(k) => if starts_with(k, self.prefix_key()) {
                    db.lookup(k)
                } else {
                    None
                },
                None => None,
            },
    {
        match &self.current_key {
            Some(current_key) => {
                if !is_prefix_with(current_key.as_slice(), self.prefix_bytes.as_slice()) {
                    return Ok(None);
                }
                Ok(self.kv_cursor.value(db))
            },
            None => Ok(None),
        }
    }

    /// In-place update of the document under the cursor is not supported:
    /// this always fails and changes nothing.
    pub fn update_current(&mut self, _doc: &bson::Document) -> (r: Result<(), DbErr>)
        ensures
            r == Err::<(), DbErr>(DbErr::Unsupported),
            *final(self) == *old(self),
    {
        Err(DbErr::Unsupported)
    }

    /// Whether there is an entry to visit: the underlying cursor is not done
    /// and the cached key, if any, starts with the prefix's encoding.
    pub fn has_next(&self) -> (r: bool)
        requires
            self.wf(),
        ensures
            r == self.spec_has_next(),
    {
        if self.kv_cursor.done() {
            return false;
        }
        match &self.current_key {
            Some(current_key) => is_prefix_with(current_key.as_slice(), self.prefix_bytes.as_slice()),
            None => true,
        }
    }

    /// Moves one key on and refreshes the cache. Once the cursor has left
    /// the prefix's range after a reset, it stays out of it.
    pub fn next(&mut self) -> (r: Result<(), DbErr>)
        requires
            old(self).wf(),
        ensures
            r is Ok,
            final(self).wf(),
            final(self).synced(),
            final(self).prefix_model() == old(self).prefix_model(),
            final(self).prefix_key() == old(self).prefix_key(),
            final(self).key_seq() == old(self).key_seq(),
            final(self).position() == if old(self).position() < old(self).key_seq().len() {
                old(self).position() + 1
            } else {
                old(self).position()
            },
            old(self).anchored() ==> final(self).anchored(),
            old(self).anchored() && !old(self).spec_has_next() ==> !final(self).spec_has_next(),
    {
        let ghost before = *self;
        self.kv_cursor.next();
        self.current_key = self.kv_cursor.key();
        proof {
            let ks = self.key_seq();
            let pk = self.prefix_key();
            let p0 = before.position();
            self.kv_cursor.lemma_sorted();
            before.kv_cursor.lemma_sorted();
            if before.anchored() && p0 < ks.len() && self.position() < ks.len() {
                crate::kv::lemma_sorted_at(ks, p0, p0 + 1);
                if lex_lt(ks[p0 + 1], pk) {
                    lemma_lex_transitive(ks[p0], ks[p0 + 1], pk);
                }
                if !before.spec_has_next() {
                    if starts_with(ks[p0 + 1], pk) {
                        lemma_past_prefix_range(pk, ks[p0], ks[p0 + 1]);
                        crate::bytes::lemma_lex_asymmetric(ks[p0], ks[p0 + 1]);
                    }
                }
            }
        }
        Ok(())
    }
}

/// Prefix containment: once positioned by `reset` or `reset_by_pkey`, a
/// cursor reports a next entry only while its key starts with the prefix's
/// encoding; when it reports none, no key from its position on starts with
/// it, so no entry of the range is left unvisited.
pub proof fn lemma_prefix_containment(c: Cursor)
    requires
        c.wf(),
        c.anchored(),
    ensures
        c.spec_has_next() ==> (c.cached() matches Some(k) && starts_with(k, c.prefix_key())),
        !c.spec_has_next() ==> forall|i: int|
            c.position() <= i < c.key_seq().len() ==> !starts_with(
                #[trigger] c.key_seq()[i],
                c.prefix_key(),
            ),
{
    c.kv().lemma_sorted();
    let ks = c.key_seq();
    let pk = c.prefix_key();
    let p = c.position();
    if !c.spec_has_next() && p < ks.len() {
        assert forall|i: int| p <= i < ks.len() implies !starts_with(#[trigger] ks[i], pk) by {
            if i > p && starts_with(ks[i], pk) {
                lemma_past_prefix_range(pk, ks[p], ks[i]);
                crate::kv::lemma_sorted_at(ks, p, i);
                crate::bytes::lemma_lex_asymmetric(ks[p], ks[i]);
            }
        }
    }
}

/// Resetting twice in a row leaves the cursor where the first reset put it.
pub proof fn lemma_reset_idempotent(c0: Cursor, c1: Cursor, c2: Cursor)
    requires
        Cursor::reset_post(c0, c1),
        Cursor::reset_post(c1, c2),
    ensures
        c2.position() == c1.position(),
        c2.cached() == c1.cached(),
{
    lemma_lower_bound_unique(c1.key_seq(), c1.prefix_key(), c1.position(), c2.position());
}

} // verus!
