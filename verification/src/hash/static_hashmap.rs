use vstd::prelude::*;

use crate::hash::mod_hash::{be_bytes_value, mod_hash};

verus! {

/// A key that can present itself as a big-endian byte string; the map hashes
/// and compares keys through these bytes.
pub trait ToBytes {
    /// The byte string that stands for this key.
    spec fn bytes_spec(&self) -> Seq<u8>;

    /// Returns the byte string standing for this key.
    fn to_bytes(&self) -> (r: Vec<u8>)
        ensures
            r@ == self.bytes_spec(),
    ;
}

impl ToBytes for i32 {
    /// The four bytes of the number, most significant first.
    open spec fn bytes_spec(&self) -> Seq<u8> {
        seq![
            ((*self as u32) / 0x1000000) as u8,
            (((*self as u32) / 0x10000) % 0x100) as u8,
            (((*self as u32) / 0x100) % 0x100) as u8,
            ((*self as u32) % 0x100) as u8,
        ]
    }

    fn to_bytes(&self) -> (r: Vec<u8>) {
        let u = #[verifier::truncate] (*self as u32);
        let mut r: Vec<u8> = Vec::new();
        r.push((u / 0x1000000) as u8);
        r.push(((u / 0x10000) % 0x100) as u8);
        r.push(((u / 0x100) % 0x100) as u8);
        r.push((u % 0x100) as u8);
        proof {
            assert(r@ =~= self.bytes_spec());
        }
        r
    }
}

/// The bucket a byte string lands in, for a table of `size` buckets.
pub open spec fn bucket_index(kb: Seq<u8>, size: int) -> int {
    be_bytes_value(kb) % size
}

/// A hash map with a number of buckets fixed at creation; each bucket chains
/// its entries in a vector, and a key occurs at most once.
pub struct StaticHashMap<K: ToBytes, V> {
    size: u32,
    heads: Vec<Option<Vec<(K, V)>>>,
}

impl<K: ToBytes, V> StaticHashMap<K, V> {
    /// The entries of one bucket.
    pub closed spec fn bucket_seq(self, idx: int) -> Seq<(K, V)> {
        match self.heads@[idx] {
            Option::None => Seq::empty(),
            Option::Some(v) => v@,
        }
    }

    /// The number of buckets.
    pub closed spec fn spec_size(self) -> int {
        self.size as int
    }

    /// Buckets exist, every entry sits in the bucket its key bytes hash to,
    /// and no two entries of a bucket have the same key bytes.
    pub closed spec fn well_formed(self) -> bool {
        &&& 1 <= self.size <= 0x0100_0000
        &&& self.heads@.len() == self.size
        &&& forall|idx: int, j: int|
            0 <= idx < self.size && 0 <= j < self.bucket_seq(idx).len() ==> bucket_index(
                (#[trigger] self.bucket_seq(idx)[j]).0.bytes_spec(),
                self.size as int,
            ) == idx
        &&& forall|idx: int, j1: int, j2: int|
            0 <= idx < self.size && 0 <= j1 < j2 < self.bucket_seq(idx).len()
                ==> (#[trigger] self.bucket_seq(idx)[j1]).0.bytes_spec() != (
            #[trigger] self.bucket_seq(idx)[j2]).0.bytes_spec()
    }

    /// The mapping from key bytes to values that the buckets hold.
    pub closed spec fn kv_map(self) -> Map<Seq<u8>, V> {
        Map::new(
            |kb: Seq<u8>|
                exists|j: int|
                    0 <= j < self.bucket_seq(bucket_index(kb, self.size as int)).len() && (
                    #[trigger] self.bucket_seq(bucket_index(kb, self.size as int))[j]).0.bytes_spec()
                        == kb,
            |kb: Seq<u8>|
                {
                    let b = self.bucket_seq(bucket_index(kb, self.size as int));
                    b[choose|j: int| 0 <= j < b.len() && (#[trigger] b[j]).0.bytes_spec() == kb].1
                },
        )
    }

    /// Creates a map with the given number of empty buckets; the bucket count
    /// must be positive and small enough for the hash arithmetic.
    pub fn new(size: u32) -> (r: Self)
        requires
            1 <= size <= 0x0100_0000,
        ensures
            r.well_formed(),
            r.kv_map() == Map::<Seq<u8>, V>::empty(),
    {
        let mut heads: Vec<Option<Vec<(K, V)>>> = Vec::new();
        let mut i: u32 = 0;
        while i < size
            invariant
                i <= size,
                heads@.len() == i,
                forall|idx: int| 0 <= idx < i ==> heads@[idx] is None,
            decreases size - i,
        {
            heads.push(None);
            i += 1;
        }
        let r = StaticHashMap { size, heads };
        proof {
            assert(r.kv_map() =~= Map::<Seq<u8>, V>::empty());
        }
        r
    }

    /// The bucket this key belongs to.
    pub fn hash(&self, key: &K) -> (r: usize)
        requires
            self.well_formed(),
        ensures
            r == bucket_index(key.bytes_spec(), self.spec_size()),
            r < self.spec_size(),
    {
        let bytes = key.to_bytes();
        proof {
            vstd::arithmetic::div_mod::lemma_mod_bound(
                be_bytes_value(key.bytes_spec()),
                self.size as int,
            );
        }
        mod_hash(bytes, self.size) as usize
    }

    /// Stores a value under a key, replacing the value of an entry whose key
    /// has the same bytes.
    pub fn put(&mut self, key: K, value: V)
        requires
            old(self).well_formed(),
        ensures
            final(self).well_formed(),
            final(self).kv_map() == old(self).kv_map().insert(key.bytes_spec(), value),
            final(self).spec_size() == old(self).spec_size(),
    {
        let ghost kb = key.bytes_spec();
        let hash = self.hash(&key);
        let ghost h = hash as int;
        let key_bytes = key.to_bytes();
        let bucket_opt = self.heads.remove(hash);
        let mut bucket: Vec<(K, V)> = match bucket_opt {
            None => Vec::new(),
            Some(vec) => vec,
        };
        proof {
            assert(old(self).bucket_seq(h) == bucket@);
        }
        let ghost b0 = bucket@;
        // drop an existing entry with the same key bytes
        let n = bucket.len();
        let mut i: usize = 0;
        let mut found = n;
        while i < n
            invariant
                i <= n,
                n == bucket@.len(),
                found == n || (found < i && bucket@[found as int].0.bytes_spec() == kb),
                found == n ==> forall|j: int|
                    0 <= j < i ==> (#[trigger] bucket@[j]).0.bytes_spec() != kb,
                key_bytes@ == kb,
            decreases n - i,
        {
            let pair_bytes = bucket[i].0.to_bytes();
            if found == n && bytes_eq(&pair_bytes, &key_bytes) {
                found = i;
            }
            i += 1;
        }
        if found < bucket.len() {
            bucket.remove(found);
        }
        let ghost b1 = bucket@;
        bucket.push((key, value));
        self.heads.insert(hash, Some(bucket));
        proof {
            assert(self.heads@ =~= old(self).heads@.update(h, self.heads@[h]));
            assert(self.bucket_seq(h) == b1.push((key, value)));
            assert(forall|idx: int|
                0 <= idx < self.size && idx != h ==> self.bucket_seq(idx) == old(self).bucket_seq(
                    idx,
                ));
            // the surviving part of the touched bucket
            assert(forall|j: int|
                0 <= j < b1.len() ==> #[trigger] b1[j] == b0[if found < b0.len() && j >= found {
                    j + 1
                } else {
                    j
                }]);
            assert(forall|j: int| 0 <= j < b1.len() ==> (#[trigger] b1[j]).0.bytes_spec() != kb);
            assert(self.well_formed());
            assert forall|kb2: Seq<u8>| true implies #[trigger] self.kv_map().contains_key(kb2)
                == old(self).kv_map().insert(kb, value).contains_key(kb2) && (
            self.kv_map().contains_key(kb2) ==> self.kv_map()[kb2] == old(self).kv_map().insert(
                kb,
                value,
            )[kb2]) by {
                let idx2 = bucket_index(kb2, self.size as int);
                if kb2 == kb {
                    let bnew = self.bucket_seq(h);
                    assert(bnew[bnew.len() - 1].0.bytes_spec() == kb);
                    assert(self.kv_map().contains_key(kb));
                    let j = choose|j: int|
                        0 <= j < bnew.len() && (#[trigger] bnew[j]).0.bytes_spec() == kb;
                    assert(j == bnew.len() - 1);
                    assert(self.kv_map()[kb] == value);
                } else {
                    if idx2 != h {
                        assert(self.bucket_seq(idx2) == old(self).bucket_seq(idx2));
                    } else {
                        let bnew = self.bucket_seq(h);
                        if old(self).kv_map().contains_key(kb2) {
                            let j = choose|j: int|
                                0 <= j < b0.len() && (#[trigger] b0[j]).0.bytes_spec() == kb2;
                            if found < b0.len() && j >= found {
                                if j == found {
                                    assert(b0[j].0.bytes_spec() == kb);
                                    assert(false);
                                }
                                assert(bnew[j - 1] == b0[j]);
                            } else {
                                assert(bnew[j] == b0[j]);
                            }
                            assert(self.kv_map().contains_key(kb2));
                            let jn = choose|j2: int|
                                0 <= j2 < bnew.len() && (#[trigger] bnew[j2]).0.bytes_spec() == kb2;
                            let jo = choose|j2: int|
                                0 <= j2 < b0.len() && (#[trigger] b0[j2]).0.bytes_spec() == kb2;
                            // uniqueness in both buckets pins both indices to
                            // the same surviving entry
                            assert(bnew[jn].1 == b0[jo].1) by {
                                if jn < bnew.len() - 1 {
                                    let back = if found < b0.len() && jn >= found {
                                        jn + 1
                                    } else {
                                        jn
                                    };
                                    assert(b0[back] == b1[jn]);
                                    assert(b0[back].0.bytes_spec() == kb2);
                                    assert(back == jo);
                                } else {
                                    assert(bnew[jn].0.bytes_spec() == kb);
                                    assert(false);
                                }
                            }
                        } else {
                            if self.kv_map().contains_key(kb2) {
                                let jn = choose|j2: int|
                                    0 <= j2 < bnew.len() && (#[trigger] bnew[j2]).0.bytes_spec()
                                        == kb2;
                                assert(jn < bnew.len() - 1);
                                let back = if found < b0.len() && jn >= found {
                                    jn + 1
                                } else {
                                    jn
                                };
                                assert(b0[back] == b1[jn]);
                                assert(old(self).kv_map().contains_key(kb2));
                                assert(false);
                            }
                        }
                    }
                }
            }
            assert(self.kv_map() =~= old(self).kv_map().insert(kb, value));
        }
    }

    /// Looks up the value stored under a key with the same bytes, if any.
    pub fn get(&mut self, key: K) -> (r: Option<&V>)
        requires
            old(self).well_formed(),
        ensures
            *final(self) == *old(self),
            r matches Some(v) ==> old(self).kv_map().contains_key(key.bytes_spec()),
            r matches Some(v) ==> *v == old(self).kv_map()[key.bytes_spec()],
            r is None ==> !old(self).kv_map().contains_key(key.bytes_spec()),
    {
        let ghost kb = key.bytes_spec();
        let hash = self.hash(&key);
        let ghost h = hash as int;
        let key_bytes = key.to_bytes();
        match &self.heads[hash] {
            None => {
                proof {
                    assert(self.bucket_seq(h) =~= Seq::<(K, V)>::empty());
                }
                None
            },
            Some(vec) => {
                let n = vec.len();
                let mut i: usize = 0;
                while i < n
                    invariant
                        *self == *old(self),
                        kb == key.bytes_spec(),
                        i <= n,
                        n == vec@.len(),
                        vec@ == self.bucket_seq(h),
                        h == bucket_index(kb, self.spec_size()),
                        self.well_formed(),
                        key_bytes@ == kb,
                        0 <= h < self.spec_size(),
                        forall|j: int|
                            0 <= j < i ==> (#[trigger] vec@[j]).0.bytes_spec() != kb,
                    decreases n - i,
                {
                    let pair_bytes = vec[i].0.to_bytes();
                    if bytes_eq(&pair_bytes, &key_bytes) {
                        proof {
                            assert(self.kv_map().contains_key(kb));
                            let j = choose|j: int|
                                0 <= j < vec@.len() && (#[trigger] vec@[j]).0.bytes_spec() == kb;
                            assert(j == i);
                        }
                        return Some(&vec[i].1);
                    }
                    i += 1;
                }
                proof {
                    if self.kv_map().contains_key(kb) {
                        let j = choose|j: int|
                            0 <= j < vec@.len() && (#[trigger] vec@[j]).0.bytes_spec() == kb;
                        assert(false);
                    }
                }
                None
            },
        }
    }
}

/// Compares two byte vectors for equal contents.
fn bytes_eq(a: &Vec<u8>, b: &Vec<u8>) -> (r: bool)
    ensures
        r == (a@ == b@),
{
    if a.len() != b.len() {
        return false;
    }
    let n = a.len();
    let mut i: usize = 0;
    while i < n
        invariant
            i <= n,
            n == a@.len(),
            n == b@.len(),
            forall|j: int| 0 <= j < i ==> a@[j] == b@[j],
        decreases n - i,
    {
        if a[i] != b[i] {
            return false;
        }
        i += 1;
    }
    proof {
        assert(a@ =~= b@);
    }
    true
}

} // verus!
