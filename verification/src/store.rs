use vstd::prelude::*;
use core::marker::PhantomData;
use crate::byte_map::{lex_lt, ByteMap};
use crate::codec::StoreValue;
use crate::error::StoreError;
use crate::key_impl::StoreKey;
use crate::entry::Entry;

verus! {

/// `tempdir::TempDir`, carried opaquely: the backing directory of an
/// ephemeral store, removed when the value is dropped.
#[verifier::external_type_specification]
#[verifier::external_body]
pub struct ExTempDir(tempdir::TempDir);

/// Relies on `tempdir::TempDir::new`: on success it creates a fresh, empty
/// directory named with the prefix, which is removed when the returned
/// value is dropped.  Nothing about the outcome can be promised: it
/// depends on the filesystem.
#[verifier::external_body]
fn make_temp_dir(prefix: &str) -> Result<tempdir::TempDir, std::io::Error> {
    tempdir::TempDir::new(prefix)
}

/// A typed key-value store: byte-level records sorted by key, written and
/// read through the key's byte form and the value's codec.
pub struct Store<K: StoreKey, V: StoreValue> {
    map: ByteMap,
    tmp: Option<tempdir::TempDir>,
    marker: PhantomData<(K, V)>,
}

/// Records that survive a scan: those whose value bytes decode.
pub open spec fn spec_scan<V: StoreValue>(es: Seq<(Seq<u8>, Seq<u8>)>) -> Seq<(Seq<u8>, Seq<u8>)> {
    es.filter(|e: (Seq<u8>, Seq<u8>)| V::dec_ok(e.1))
}

impl<K: StoreKey, V: StoreValue> View for Store<K, V> {
    type V = Map<Seq<u8>, Seq<u8>>;

    /// The contents of the store: a map from key bytes to value bytes.
    closed spec fn view(&self) -> Map<Seq<u8>, Seq<u8>> {
        self.map.as_map()
    }
}

impl<K: StoreKey, V: StoreValue> Store<K, V> {
    /// Whether some key of type `K` has this byte form.
    pub open spec fn key_ok(kb: Seq<u8>) -> bool {
        exists|k: K| k.key_bytes() == kb
    }

    /// Well-formed: the records are strictly sorted by key bytes, and
    /// every stored key byte string is the byte form of some key.
    pub closed spec fn wf(self) -> bool {
        &&& self.map.wf()
        &&& forall|kb: Seq<u8>| #[trigger]
            self.map.as_map().contains_key(kb) ==> Self::key_ok(kb)
    }

    /// The stored records, as pairs of key bytes and value bytes, in
    /// ascending key order.
    pub closed spec fn spec_entries(self) -> Seq<(Seq<u8>, Seq<u8>)> {
        Seq::new(
            self.map.entries@.len(),
            |i: int| (self.map.entries@[i].0@, self.map.entries@[i].1@),
        )
    }

    /// Law: the records of `spec_entries` are exactly the contents of the
    /// store, listed in strictly ascending key order.
    pub proof fn lemma_entries_view(self)
        requires
            self.wf(),
        ensures
            forall|i: int, j: int|
                0 <= i < j < self.spec_entries().len() ==> lex_lt(
                    #[trigger] self.spec_entries()[i].0,
                    #[trigger] self.spec_entries()[j].0,
                ),
            forall|i: int|
                0 <= i < self.spec_entries().len() ==> self@.contains_key(
                    (#[trigger] self.spec_entries()[i]).0,
                ) && self@[self.spec_entries()[i].0] == self.spec_entries()[i].1,
            forall|kb: Seq<u8>|
                #[trigger] self@.contains_key(kb) ==> exists|i: int|
                    0 <= i < self.spec_entries().len() && (#[trigger] self.spec_entries()[i]).0
                        == kb,
    {
        assert forall|i: int|
            0 <= i < self.spec_entries().len() implies self@.contains_key(
            (#[trigger] self.spec_entries()[i]).0,
        ) && self@[self.spec_entries()[i].0] == self.spec_entries()[i].1 by {
            self.map.lemma_index_of_is(i);
        }
        assert forall|kb: Seq<u8>| #[trigger]
            self@.contains_key(kb) implies exists|i: int|
            0 <= i < self.spec_entries().len() && (#[trigger] self.spec_entries()[i]).0 == kb by {
            let i = choose|i: int|
                0 <= i < self.map.entries@.len() && self.map.entries@[i].0@ == kb;
            assert(self.spec_entries()[i].0 == kb);
        }
    }

    /// Opens a store.  The engine keeps this handle's records in memory,
    /// so a newly opened store holds no records.
    #[allow(unused_variables)]
    pub fn new(path: &str) -> (r: Result<Store<K, V>, StoreError>)
        ensures
            r is Ok,
            r matches Ok(s) ==> s.wf() && s@ == Map::<Seq<u8>, Seq<u8>>::empty(),
    {
        Ok(Store { map: ByteMap::new(), tmp: None, marker: PhantomData })
    }

    /// Creates a store backed by a fresh temporary directory named with
    /// `prefix`; the directory lives as long as the store handle and is
    /// removed when the handle is dropped.
    pub fn tmp_store(prefix: &str) -> (r: Result<Store<K, V>, StoreError>)
        ensures
            r matches Ok(s) ==> s.wf() && s@ == Map::<Seq<u8>, Seq<u8>>::empty(),
            r matches Err(e) ==> e is FileSystemError,
    {
        match make_temp_dir(prefix) {
            Ok(dir) => Ok(Store { map: ByteMap::new(), tmp: Some(dir), marker: PhantomData }),
            Err(e) => Err(StoreError::FileSystemError(e)),
        }
    }

    /// Write a record under already-encoded key bytes.
    pub(crate) fn insert_raw(&mut self, kb: Vec<u8>, value: V) -> (r: Result<(), StoreError>)
        requires
            old(self).wf(),
            Self::key_ok(kb@),
        ensures
            final(self).wf(),
            value.enc_ok() ==> r is Ok,
            r is Ok ==> final(self)@ == old(self)@.insert(kb@, value.enc()),
            r matches Err(e) ==> final(self)@ == old(self)@ && !value.enc_ok()
                && e is SerDeError,
    {
        match value.encode() {
            Ok(vb) => {
                self.map.put(kb, vb);
                Ok(())
            },
            Err(e) => Err(e),
        }
    }

    /// Encode `value` and write it under `key`, overwriting any record the
    /// key already had.
    pub fn insert(&mut self, key: K, value: V) -> (r: Result<(), StoreError>)
        requires
            old(self).wf(),
        ensures
            final(self).wf(),
            value.enc_ok() ==> r is Ok,
            r is Ok ==> final(self)@ == old(self)@.insert(key.key_bytes(), value.enc()),
            r matches Err(e) ==> final(self)@ == old(self)@ && !value.enc_ok()
                && e is SerDeError,
    {
        let kb = key.to_bytes();
        self.insert_raw(kb, value)
    }

    /// Read the record under `key`: `Ok(None)` when the key is absent,
    /// the decoded value when it is present and its bytes decode, and a
    /// codec error when they do not.
    pub fn get(&self, key: &K) -> (r: Result<Option<V>, StoreError>)
        requires
            self.wf(),
        ensures
            !self@.contains_key(key.key_bytes()) ==> (r matches Ok(o) && o is None),
            self@.contains_key(key.key_bytes()) ==> ((r is Ok) == V::dec_ok(
                self@[key.key_bytes()],
            )),
            (self@.contains_key(key.key_bytes()) && V::dec_ok(self@[key.key_bytes()])) ==> (
            r matches Ok(Some(_))),
            r matches Ok(Some(v)) ==> self@.contains_key(key.key_bytes()) && v.enc()
                == self@[key.key_bytes()].take(v.enc().len() as int),
            self@.contains_key(key.key_bytes()) ==> (forall|v: V|
                (v.enc_ok() && v.enc() == self@[key.key_bytes()]) ==> (r matches Ok(Some(w))
                    && w.vw() == v.vw())),
            r matches Err(e) ==> e is SerDeError,
    {
        let kb = key.to_bytes();
        match self.map.get(&kb) {
            Some(vb) => {
                match V::decode(vb.as_slice()) {
                    Ok(v) => Ok(Some(v)),
                    Err(e) => Err(e),
                }
            },
            None => Ok(None),
        }
    }

    /// Probe once for `key`: an `Occupied` entry when a record is present
    /// (and its value decodes), a `Vacant` entry when the key is absent.
    pub fn entry(&mut self, key: K) -> (r: Result<Entry<K, V>, StoreError>)
        requires
            old(self).wf(),
        ensures
            *final(self) == *old(self),
            r matches Ok(e) ==> e.key_bytes() == key.key_bytes(),
            !old(self)@.contains_key(key.key_bytes()) ==> (r matches Ok(e) && e.is_vacant()),
            (old(self)@.contains_key(key.key_bytes()) && V::dec_ok(
                old(self)@[key.key_bytes()],
            )) ==> (r matches Ok(e) && e.is_occupied()),
            (old(self)@.contains_key(key.key_bytes()) && !V::dec_ok(
                old(self)@[key.key_bytes()],
            )) ==> (r matches Err(e) && e is SerDeError),
    {
        let got = self.get(&key);
        match got {
            Ok(Some(_)) => Ok(Entry::new_occupied(key)),
            Ok(None) => Ok(Entry::new_vacant(key)),
            Err(e) => Err(e),
        }
    }

    /// The keys of every record, in ascending byte order.  For the
    /// provided key types byte order is the keys' own order: see
    /// `lemma_long_key_order` and `lemma_string_key_order`.
    pub fn iter_keys(&self) -> (r: Vec<K>)
        requires
            self.wf(),
        ensures
            r@.len() == self.spec_entries().len(),
            forall|i: int|
                0 <= i < r@.len() ==> (#[trigger] r@[i]).key_bytes() == self.spec_entries()[i].0,
            forall|i: int, j: int|
                0 <= i < j < r@.len() ==> lex_lt(r@[i].key_bytes(), r@[j].key_bytes()),
            forall|i: int|
                0 <= i < r@.len() ==> self@.contains_key((#[trigger] r@[i]).key_bytes()),
            forall|kb: Seq<u8>|
                #[trigger] self@.contains_key(kb) ==> exists|i: int|
                    0 <= i < r@.len() && (#[trigger] r@[i]).key_bytes() == kb,
    {
        let n: usize = self.map.entries.len();
        let mut out: Vec<K> = Vec::new();
        let mut i: usize = 0;
        while i < n
            invariant
                i <= n,
                n == self.map.entries@.len(),
                self.wf(),
                out@.len() == i,
                forall|j: int|
                    0 <= j < i ==> (#[trigger] out@[j]).key_bytes() == self.spec_entries()[j].0,
            decreases n - i,
        {
            let e = &self.map.entries[i];
            proof {
                assert(self.map.contains(e.0@));
                assert(self.map.as_map().contains_key(e.0@));
                assert(Self::key_ok(e.0@));
            }
            match K::from_bytes(e.0.as_slice()) {
                Some(k) => {
                    out.push(k);
                },
                None => {
                    proof {
                        let k0 = choose|k: K| k.key_bytes() == e.0@;
                        assert(false);
                    }
                },
            }
            i += 1;
        }
        proof {
            self.lemma_entries_view();
            assert forall|kb: Seq<u8>| #[trigger] self@.contains_key(kb) implies exists|i: int|
                0 <= i < out@.len() && (#[trigger] out@[i]).key_bytes() == kb by {
                let i0 = choose|i: int|
                    0 <= i < self.spec_entries().len() && (#[trigger] self.spec_entries()[i]).0
                        == kb;
                assert(out@[i0].key_bytes() == kb);
            }
        }
        out
    }

    /// Every record whose value decodes, as key-value pairs in ascending
    /// key order; a record whose value bytes do not decode is dropped
    /// silently.
    pub fn iter(&self) -> (r: Vec<(K, V)>)
        requires
            self.wf(),
        ensures
            r@.len() == spec_scan::<V>(self.spec_entries()).len(),
            forall|i: int|
                0 <= i < r@.len() ==> (#[trigger] r@[i]).0.key_bytes() == spec_scan::<V>(
                    self.spec_entries(),
                )[i].0,
            forall|i: int|
                0 <= i < r@.len() ==> (#[trigger] r@[i]).1.enc() == spec_scan::<V>(
                    self.spec_entries(),
                )[i].1.take(r@[i].1.enc().len() as int),
            forall|i: int|
                0 <= i < r@.len() ==> (forall|v: V|
                    (v.enc_ok() && v.enc() == spec_scan::<V>(self.spec_entries())[i].1) ==> (
                    #[trigger] r@[i]).1.vw() == v.vw()),
    {
        let ghost es = self.spec_entries();
        let n: usize = self.map.entries.len();
        let mut out: Vec<(K, V)> = Vec::new();
        let mut i: usize = 0;
        while i < n
            invariant
                i <= n,
                n == self.map.entries@.len(),
                self.wf(),
                es == self.spec_entries(),
                out@.len() == spec_scan::<V>(es.take(i as int)).len(),
                forall|j: int|
                    0 <= j < out@.len() ==> (#[trigger] out@[j]).0.key_bytes() == spec_scan::<V>(
                        es.take(i as int),
                    )[j].0,
                forall|j: int|
                    0 <= j < out@.len() ==> (#[trigger] out@[j]).1.enc() == spec_scan::<V>(
                        es.take(i as int),
                    )[j].1.take(out@[j].1.enc().len() as int),
                forall|j: int|
                    0 <= j < out@.len() ==> (forall|v: V|
                        (v.enc_ok() && v.enc() == spec_scan::<V>(es.take(i as int))[j].1) ==> (
                        #[trigger] out@[j]).1.vw() == v.vw()),
            decreases n - i,
        {
            let e = &self.map.entries[i];
            proof {
                assert(es[i as int] == (e.0@, e.1@));
                lemma_scan_step::<V>(es, i as int);
            }
            match V::decode(e.1.as_slice()) {
                Ok(v) => {
                    proof {
                        assert(self.map.contains(e.0@));
                        assert(self.map.as_map().contains_key(e.0@));
                        assert(Self::key_ok(e.0@));
                    }
                    match K::from_bytes(e.0.as_slice()) {
                        Some(k) => {
                            out.push((k, v));
                        },
                        None => {
                            proof {
                                let k0 = choose|k: K| k.key_bytes() == e.0@;
                                assert(false);
                            }
                        },
                    }
                },
                Err(_) => {},
            }
            i += 1;
        }
        proof {
            assert(es.take(n as int) =~= es);
        }
        out
    }

    /// The value of every record whose value decodes, in ascending key
    /// order; a record whose value bytes do not decode is dropped
    /// silently.
    pub fn iter_values(&self) -> (r: Vec<V>)
        requires
            self.wf(),
        ensures
            r@.len() == spec_scan::<V>(self.spec_entries()).len(),
            forall|i: int|
                0 <= i < r@.len() ==> (#[trigger] r@[i]).enc() == spec_scan::<V>(
                    self.spec_entries(),
                )[i].1.take(r@[i].enc().len() as int),
            forall|i: int|
                0 <= i < r@.len() ==> (forall|v: V|
                    (v.enc_ok() && v.enc() == spec_scan::<V>(self.spec_entries())[i].1) ==> (
                    #[trigger] r@[i]).vw() == v.vw()),
    {
        let ghost es = self.spec_entries();
        let n: usize = self.map.entries.len();
        let mut out: Vec<V> = Vec::new();
        let mut i: usize = 0;
        while i < n
            invariant
                i <= n,
                n == self.map.entries@.len(),
                self.wf(),
                es == self.spec_entries(),
                out@.len() == spec_scan::<V>(es.take(i as int)).len(),
                forall|j: int|
                    0 <= j < out@.len() ==> (#[trigger] out@[j]).enc() == spec_scan::<V>(
                        es.take(i as int),
                    )[j].1.take(out@[j].enc().len() as int),
                forall|j: int|
                    0 <= j < out@.len() ==> (forall|v: V|
                        (v.enc_ok() && v.enc() == spec_scan::<V>(es.take(i as int))[j].1) ==> (
                        #[trigger] out@[j]).vw() == v.vw()),
            decreases n - i,
        {
            let e = &self.map.entries[i];
            proof {
                assert(es[i as int] == (e.0@, e.1@));
                lemma_scan_step::<V>(es, i as int);
            }
            match V::decode(e.1.as_slice()) {
                Ok(v) => {
                    out.push(v);
                },
                Err(_) => {},
            }
            i += 1;
        }
        proof {
            assert(es.take(n as int) =~= es);
        }
        out
    }
}

/// One step of a scan: extending the records by one keeps the survivors
/// and appends the new record exactly when its value decodes.
proof fn lemma_scan_step<V: StoreValue>(es: Seq<(Seq<u8>, Seq<u8>)>, i: int)
    requires
        0 <= i < es.len(),
    ensures
        V::dec_ok(es[i].1) ==> spec_scan::<V>(es.take(i + 1)) == spec_scan::<V>(es.take(i)).push(
            es[i],
        ),
        !V::dec_ok(es[i].1) ==> spec_scan::<V>(es.take(i + 1)) == spec_scan::<V>(es.take(i)),
{
    reveal_with_fuel(Seq::filter, 2);
    assert(es.take(i + 1).drop_last() =~= es.take(i));
    assert(es.take(i + 1).last() == es[i]);
    assert(es.take(i + 1).len() == i + 1);
}

/// Law: when every stored record's value decodes, a full scan keeps every
/// record, so `iter` and `iter_values` return as many items as the store
/// has keys.
pub proof fn lemma_iteration_complete<V: StoreValue>(es: Seq<(Seq<u8>, Seq<u8>)>)
    requires
        forall|i: int| 0 <= i < es.len() ==> V::dec_ok((#[trigger] es[i]).1),
    ensures
        spec_scan::<V>(es) == es,
    decreases es.len(),
{
    reveal_with_fuel(Seq::filter, 2);
    if es.len() == 0 {
        assert(spec_scan::<V>(es) =~= es);
    } else {
        assert forall|i: int| 0 <= i < es.drop_last().len() implies V::dec_ok(
            (#[trigger] es.drop_last()[i]).1,
        ) by {
            assert(es.drop_last()[i] == es[i]);
        }
        lemma_iteration_complete::<V>(es.drop_last());
        assert(V::dec_ok(es.last().1));
        assert(spec_scan::<V>(es) == spec_scan::<V>(es.drop_last()).push(es.last()));
        assert(es.drop_last().push(es.last()) =~= es);
    }
}

} // verus!
