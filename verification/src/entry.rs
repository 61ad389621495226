use vstd::prelude::*;
use core::marker::PhantomData;
use crate::codec::StoreValue;
use crate::error::StoreError;
use crate::key_impl::StoreKey;
use crate::store::Store;

verus! {

/// A one-probe view of a single key's presence in a store: either the key
/// was absent (`Vacant`) or present (`Occupied`) when the store was probed.
/// The terminal operations write through the store handle they are given,
/// which should be the store that produced the entry.
pub enum Entry<K: StoreKey, V: StoreValue> {
    Occupied(OccupiedEntry<K, V>),
    Vacant(VacantEntry<K, V>),
}

pub struct VacantEntry<K: StoreKey, V: StoreValue> {
    key: K,
    marker: PhantomData<V>,
}

pub struct OccupiedEntry<K: StoreKey, V: StoreValue> {
    key: K,
    marker: PhantomData<V>,
}

impl<K: StoreKey, V: StoreValue> Entry<K, V> {
    pub open spec fn is_vacant(self) -> bool {
        self matches Entry::Vacant(_)
    }

    pub open spec fn is_occupied(self) -> bool {
        self matches Entry::Occupied(_)
    }

    /// The byte form of the key this entry is bound to.
    pub closed spec fn key_bytes(self) -> Seq<u8> {
        match self {
            Entry::Occupied(o) => o.key.key_bytes(),
            Entry::Vacant(v) => v.key.key_bytes(),
        }
    }

    pub fn new_vacant(key: K) -> (r: Self)
        ensures
            r.is_vacant(),
            r.key_bytes() == key.key_bytes(),
    {
        Entry::Vacant(VacantEntry { key, marker: PhantomData })
    }

    pub fn new_occupied(key: K) -> (r: Self)
        ensures
            r.is_occupied(),
            r.key_bytes() == key.key_bytes(),
    {
        Entry::Occupied(OccupiedEntry { key, marker: PhantomData })
    }

    /// If the entry is vacant, write `default` under the bound key; if it
    /// is occupied, write nothing.  Consumes the entry either way.
    pub fn or_insert(self, store: &mut Store<K, V>, default: V) -> (r: Result<(), StoreError>)
        requires
            old(store).wf(),
        ensures
            final(store).wf(),
            self.is_occupied() ==> r is Ok && final(store)@ == old(store)@,
            self.is_vacant() ==> (default.enc_ok() ==> r is Ok),
            self.is_vacant() ==> (r is Ok ==> final(store)@ == old(store)@.insert(
                self.key_bytes(),
                default.enc(),
            )),
            self.is_vacant() ==> (r matches Err(e) ==> final(store)@ == old(store)@
                && !default.enc_ok() && e is SerDeError),
    {
        match self {
            Entry::Vacant(vacant) => vacant.insert(store, default),
            Entry::Occupied(_) => Ok(()),
        }
    }

    /// Like `or_insert`, but the value is computed only when the entry is
    /// vacant; the closure is never invoked on an occupied entry.
    pub fn or_insert_with<F: FnOnce() -> V>(self, store: &mut Store<K, V>, f: F) -> (r: Result<
        (),
        StoreError,
    >)
        requires
            old(store).wf(),
            self.is_vacant() ==> call_requires(f, ()),
        ensures
            final(store).wf(),
            self.is_occupied() ==> r is Ok && final(store)@ == old(store)@,
            self.is_vacant() ==> (exists|v: V|
                {
                    &&& #[trigger] call_ensures(f, (), v)
                    &&& (v.enc_ok() ==> r is Ok)
                    &&& (r is Ok ==> final(store)@ == old(store)@.insert(
                        self.key_bytes(),
                        v.enc(),
                    ))
                    &&& (r matches Err(e) ==> final(store)@ == old(store)@ && !v.enc_ok()
                        && e is SerDeError)
                }),
    {
        match self {
            Entry::Vacant(vacant) => vacant.insert_with(store, f),
            Entry::Occupied(_) => Ok(()),
        }
    }

    /// If the entry is occupied, re-read the current value, apply `f` to
    /// it, and write the result back under the bound key; a key that has
    /// vanished since the probe is skipped silently.  A vacant entry is
    /// returned unchanged, so an `or_insert` can still follow.
    pub fn and_modify<F: FnOnce(V) -> V>(self, store: &mut Store<K, V>, f: F) -> (r: Result<
        Entry<K, V>,
        StoreError,
    >)
        requires
            old(store).wf(),
            forall|w: V|
                (self.is_occupied() && old(store)@.contains_key(self.key_bytes()) && w.enc()
                    == old(store)@[self.key_bytes()].take(w.enc().len() as int)) ==> call_requires(
                    f,
                    (w,),
                ),
        ensures
            final(store).wf(),
            !(self.is_occupied() && old(store)@.contains_key(self.key_bytes())) ==> (r matches Ok(
                e,
            ) && e == self && final(store)@ == old(store)@),
            (self.is_occupied() && old(store)@.contains_key(self.key_bytes()) && !V::dec_ok(
                old(store)@[self.key_bytes()],
            )) ==> (r matches Err(e) && e is SerDeError && final(store)@ == old(store)@),
            (self.is_occupied() && old(store)@.contains_key(self.key_bytes()) && V::dec_ok(
                old(store)@[self.key_bytes()],
            )) ==> (exists|w: V, x: V|
                {
                    &&& w.enc() == old(store)@[self.key_bytes()].take(w.enc().len() as int)
                    &&& (forall|v: V|
                        (v.enc_ok() && v.enc() == old(store)@[self.key_bytes()]) ==> w.vw()
                            == v.vw())
                    &&& #[trigger] call_ensures(f, (w,), x)
                    &&& (x.enc_ok() ==> r is Ok)
                    &&& (r is Ok ==> final(store)@ == old(store)@.insert(
                        self.key_bytes(),
                        x.enc(),
                    ))
                    &&& (r matches Err(e) ==> final(store)@ == old(store)@ && !x.enc_ok()
                        && e is SerDeError)
                }),
            r matches Ok(e) ==> e == self,
    {
        match self {
            Entry::Occupied(occupied) => {
                match occupied.and_modify(store, f) {
                    Ok(()) => Ok(Entry::Occupied(occupied)),
                    Err(e) => Err(e),
                }
            },
            Entry::Vacant(vacant) => Ok(Entry::Vacant(vacant)),
        }
    }
}

impl<K: StoreKey, V: StoreValue> VacantEntry<K, V> {
    fn insert(self, store: &mut Store<K, V>, value: V) -> (r: Result<(), StoreError>)
        requires
            old(store).wf(),
        ensures
            final(store).wf(),
            value.enc_ok() ==> r is Ok,
            r is Ok ==> final(store)@ == old(store)@.insert(self.key.key_bytes(), value.enc()),
            r matches Err(e) ==> final(store)@ == old(store)@ && !value.enc_ok()
                && e is SerDeError,
    {
        let kb = self.key.to_bytes();
        store.insert_raw(kb, value)
    }

    fn insert_with<F: FnOnce() -> V>(self, store: &mut Store<K, V>, f: F) -> (r: Result<
        (),
        StoreError,
    >)
        requires
            old(store).wf(),
            call_requires(f, ()),
        ensures
            final(store).wf(),
            exists|v: V|
                {
                    &&& #[trigger] call_ensures(f, (), v)
                    &&& (v.enc_ok() ==> r is Ok)
                    &&& (r is Ok ==> final(store)@ == old(store)@.insert(
                        self.key.key_bytes(),
                        v.enc(),
                    ))
                    &&& (r matches Err(e) ==> final(store)@ == old(store)@ && !v.enc_ok()
                        && e is SerDeError)
                },
    {
        let value = f();
        let kb = self.key.to_bytes();
        store.insert_raw(kb, value)
    }
}

impl<K: StoreKey, V: StoreValue> OccupiedEntry<K, V> {
    fn and_modify<F: FnOnce(V) -> V>(&self, store: &mut Store<K, V>, f: F) -> (r: Result<
        (),
        StoreError,
    >)
        requires
            old(store).wf(),
            forall|w: V|
                (old(store)@.contains_key(self.key.key_bytes()) && w.enc()
                    == old(store)@[self.key.key_bytes()].take(w.enc().len() as int))
                    ==> call_requires(f, (w,)),
        ensures
            final(store).wf(),
            !old(store)@.contains_key(self.key.key_bytes()) ==> r is Ok && final(store)@
                == old(store)@,
            (old(store)@.contains_key(self.key.key_bytes()) && !V::dec_ok(
                old(store)@[self.key.key_bytes()],
            )) ==> (r matches Err(e) && e is SerDeError && final(store)@ == old(store)@),
            (old(store)@.contains_key(self.key.key_bytes()) && V::dec_ok(
                old(store)@[self.key.key_bytes()],
            )) ==> (exists|w: V, x: V|
                {
                    &&& w.enc() == old(store)@[self.key.key_bytes()].take(w.enc().len() as int)
                    &&& (forall|v: V|
                        (v.enc_ok() && v.enc() == old(store)@[self.key.key_bytes()]) ==> w.vw()
                            == v.vw())
                    &&& #[trigger] call_ensures(f, (w,), x)
                    &&& (x.enc_ok() ==> r is Ok)
                    &&& (r is Ok ==> final(store)@ == old(store)@.insert(
                        self.key.key_bytes(),
                        x.enc(),
                    ))
                    &&& (r matches Err(e) ==> final(store)@ == old(store)@ && !x.enc_ok()
                        && e is SerDeError)
                }),
    {
        let got = store.get(&self.key);
        match got {
            Ok(Some(val)) => {
                let newval = f(val);
                let kb = self.key.to_bytes();
                store.insert_raw(kb, newval)
            },
            Ok(None) => Ok(()),
            Err(e) => Err(e),
        }
    }
}

} // verus!
