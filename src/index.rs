//! The in-memory index: from each bound key to the place of its latest `Put`.
use vstd::prelude::*;
use vstd::utf8::encode_utf8;
use vstd::string::StringSliceAdditionalSpecFns;

verus! {

/// Where the encoded bytes of one command lie: the generation (log file), the
/// byte offset in it and the number of bytes.
#[derive(Clone, Copy, Debug, PartialEq, Eq, Structural)]
pub struct CommandPos {
    pub gen: u64,
    pub pos: u64,
    pub len: u64,
}

/// How many buckets the index spreads its keys over.
pub const BUCKETS: usize = 1024;

/// The modulus of the key hash; small enough that no step overflows a `u64`.
pub const HASH_MODULUS: u64 = 1000003;

/// Polynomial hash of a byte string.
pub open spec fn byte_hash(s: Seq<u8>) -> nat
    decreases s.len(),
{
    if s.len() == 0 {
        0
    } else {
        (byte_hash(s.drop_last()) * 31 + s.last() as nat) % (HASH_MODULUS as nat)
    }
}

/// The bucket that holds a key: by the hash of its UTF-8 bytes.
pub open spec fn bucket_of(k: Seq<char>) -> int {
    (byte_hash(encode_utf8(k)) % (BUCKETS as nat)) as int
}

/// The bucket of a key, computed.
fn key_bucket(key: &String) -> (b: usize)
    ensures
        b == bucket_of(key@),
        b < BUCKETS,
{
    let bytes = key.as_str().as_bytes();
    let n = bytes.len();
    let mut h: u64 = 0;
    let mut i: usize = 0;
    while i < n
        invariant
            n == bytes@.len(),
            bytes@ == encode_utf8(key@),
            i <= n,
            h == byte_hash(bytes@.take(i as int)),
            h < HASH_MODULUS,
        decreases n - i,
    {
        assert(bytes@.take(i as int + 1).drop_last() =~= bytes@.take(i as int));
        h = (h * 31 + bytes[i] as u64) % HASH_MODULUS;
        i = i + 1;
    }
    assert(bytes@.take(n as int) =~= bytes@);
    (h % (BUCKETS as u64)) as usize
}

/// One binding held by the index.
struct Entry {
    key: String,
    pos: CommandPos,
}

/// A map from keys to the position of their latest `Put`.
pub struct KeyIndex {
    buckets: Vec<Vec<Entry>>,
    model: Ghost<Map<Seq<char>, CommandPos>>,
}

/// Every binding is listed once in the result, and nothing else is.
pub open spec fn lists_exactly(r: Seq<(String, CommandPos)>, m: Map<Seq<char>, CommandPos>) -> bool {
    &&& forall|i: int| 0 <= i < r.len() ==> #[trigger] m.contains_key(r[i].0@) && m[r[i].0@] == r[i].1
    &&& forall|i: int, j: int| 0 <= i < j < r.len() ==> #[trigger] r[i].0@ != #[trigger] r[j].0@
    &&& forall|k: Seq<char>| #[trigger] m.contains_key(k) ==> exists|i: int| 0 <= i < r.len() && #[trigger] r[i].0@ == k
}

impl View for KeyIndex {
    type V = Map<Seq<char>, CommandPos>;

    closed spec fn view(&self) -> Map<Seq<char>, CommandPos> {
        self.model@
    }
}

impl KeyIndex {
    /// The index is well formed: each key sits once, in its own bucket, and the
    /// buckets hold exactly the bindings of the model.
    pub closed spec fn wf(&self) -> bool {
        &&& self.buckets@.len() == BUCKETS
        &&& forall|b: int, i: int|
            0 <= b < BUCKETS && 0 <= i < self.buckets@[b]@.len() ==> {
                let e = #[trigger] self.buckets@[b]@[i];
                &&& bucket_of(e.key@) == b
                &&& self.model@.contains_key(e.key@)
                &&& self.model@[e.key@] == e.pos
            }
        &&& forall|b: int, i: int, j: int|
            0 <= b < BUCKETS && 0 <= i < self.buckets@[b]@.len() && 0 <= j < self.buckets@[b]@.len()
                && i != j ==> #[trigger] self.buckets@[b]@[i].key@ != #[trigger] self.buckets@[b]@[j].key@
        &&& forall|k: Seq<char>| #[trigger]
            self.model@.contains_key(k) ==> exists|i: int|
                0 <= i < self.buckets@[bucket_of(k)]@.len() && #[trigger] self.buckets@[bucket_of(
                    k,
                )]@[i].key@ == k
    }

    /// An empty index.
    pub fn new() -> (r: KeyIndex)
        ensures
            r.wf(),
            r@ == Map::<Seq<char>, CommandPos>::empty(),
    {
        let mut buckets: Vec<Vec<Entry>> = Vec::new();
        let mut b: usize = 0;
        while b < BUCKETS
            invariant
                b <= BUCKETS,
                buckets@.len() == b,
                forall|j: int| 0 <= j < b ==> (#[trigger] buckets@[j])@.len() == 0,
            decreases BUCKETS - b,
        {
            buckets.push(Vec::new());
            b = b + 1;
        }
        KeyIndex { buckets, model: Ghost(Map::empty()) }
    }

    /// The place of `key` within bucket `b`, if it is there.
    fn find(&self, b: usize, key: &String) -> (r: Option<usize>)
        requires
            self.wf(),
            b < BUCKETS,
        ensures
            match r {
                Some(i) => i < self.buckets@[b as int]@.len() && self.buckets@[b as int]@[i as int].key@
                    == key@,
                None => forall|i: int|
                    0 <= i < self.buckets@[b as int]@.len() ==> #[trigger] self.buckets@[b as int]@[i].key@
                        != key@,
            },
    {
        let bucket = &self.buckets[b];
        let mut i: usize = 0;
        while i < bucket.len()
            invariant
                *bucket == self.buckets@[b as int],
                i <= bucket@.len(),
                forall|j: int| 0 <= j < i ==> #[trigger] bucket@[j].key@ != key@,
            decreases bucket@.len() - i,
        {
            if bucket[i].key == *key {
                return Some(i);
            }
            i = i + 1;
        }
        None
    }

    /// The position bound to `key`, if any.
    pub fn get(&self, key: &String) -> (r: Option<CommandPos>)
        requires
            self.wf(),
        ensures
            r == (if self@.contains_key(key@) {
                Some(self@[key@])
            } else {
                None::<CommandPos>
            }),
    {
        let b = key_bucket(key);
        match self.find(b, key) {
            Some(i) => Some(self.buckets[b][i].pos),
            None => None,
        }
    }

    /// Binds `key` to `pos` and returns the position it was bound to before.
    pub fn insert(&mut self, key: String, pos: CommandPos) -> (r: Option<CommandPos>)
        requires
            old(self).wf(),
        ensures
            final(self).wf(),
            final(self)@ == old(self)@.insert(key@, pos),
            r == (if old(self)@.contains_key(key@) {
                Some(old(self)@[key@])
            } else {
                None::<CommandPos>
            }),
    {
        let b = key_bucket(&key);
        let found = self.find(b, &key);
        let ghost k = key@;
        let ghost old_model = self.model@;
        let ghost old_buckets = self.buckets@;
        let mut bucket: Vec<Entry> = Vec::new();
        self.buckets.set_and_swap(b, &mut bucket);
        let r = match found {
            Some(i) => {
                let prev = bucket[i].pos;
                bucket.set(i, Entry { key, pos });
                Some(prev)
            },
            None => {
                bucket.push(Entry { key, pos });
                None
            },
        };
        self.buckets.set(b, bucket);
        self.model = Ghost(old_model.insert(k, pos));
        proof {
            assert(self.buckets@.len() == BUCKETS);
            assert forall|c: int, i: int|
                0 <= c < BUCKETS && 0 <= i < self.buckets@[c]@.len() implies {
                    let e = #[trigger] self.buckets@[c]@[i];
                    &&& bucket_of(e.key@) == c
                    &&& self.model@.contains_key(e.key@)
                    &&& self.model@[e.key@] == e.pos
                } by {
                if c != b {
                    assert(self.buckets@[c] == old_buckets[c]);
                    let e = old_buckets[c]@[i];
                    assert(e.key@ != k);
                }
                else if i < old_buckets[c]@.len() {
                    let e = old_buckets[c]@[i];
                    if e.key@ != k {
                        assert(self.buckets@[c]@[i] == e);
                    }
                }
            }
            assert forall|c: int, i: int, j: int|
                0 <= c < BUCKETS && 0 <= i < self.buckets@[c]@.len() && 0 <= j
                    < self.buckets@[c]@.len() && i != j implies #[trigger] self.buckets@[c]@[i].key@
                    != #[trigger] self.buckets@[c]@[j].key@ by {
                if c != b {
                    assert(self.buckets@[c] == old_buckets[c]);
                } else {
                }
            }
            assert forall|q: Seq<char>| #[trigger] self.model@.contains_key(q) implies exists|i: int|
                0 <= i < self.buckets@[bucket_of(q)]@.len() && #[trigger] self.buckets@[bucket_of(
                    q,
                )]@[i].key@ == q by {
                if q == k {
                    match found {
                        Some(i) => {
                            assert(self.buckets@[bucket_of(q)]@[i as int].key@ == q);
                        },
                        None => {
                            let last = self.buckets@[b as int]@.len() - 1;
                            assert(self.buckets@[bucket_of(q)]@[last].key@ == q);
                        },
                    }
                } else {
                    let i = choose|i: int|
                        0 <= i < old_buckets[bucket_of(q)]@.len() && #[trigger] old_buckets[bucket_of(
                            q,
                        )]@[i].key@ == q;
                    assert(self.buckets@[bucket_of(q)]@[i].key@ == q);
                }
            }
        }
        r
    }

    /// Removes the binding of `key` and returns the position it had.
    pub fn remove(&mut self, key: &String) -> (r: Option<CommandPos>)
        requires
            old(self).wf(),
        ensures
            final(self).wf(),
            final(self)@ == old(self)@.remove(key@),
            r == (if old(self)@.contains_key(key@) {
                Some(old(self)@[key@])
            } else {
                None::<CommandPos>
            }),
    {
        let b = key_bucket(key);
        match self.find(b, key) {
            None => {
                proof {
                    if self.model@.contains_key(key@) {
                        let i = choose|i: int|
                            0 <= i < self.buckets@[bucket_of(key@)]@.len()
                                && #[trigger] self.buckets@[bucket_of(key@)]@[i].key@ == key@;
                    }
                    assert(self.model@.remove(key@) =~= self.model@);
                }
                None
            },
            Some(i) => {
                let ghost k = key@;
                let ghost old_model = self.model@;
                let ghost old_buckets = self.buckets@;
                let mut bucket: Vec<Entry> = Vec::new();
                self.buckets.set_and_swap(b, &mut bucket);
                let removed = bucket.remove(i);
                self.buckets.set(b, bucket);
                self.model = Ghost(old_model.remove(k));
                proof {
                    assert forall|c: int, j: int|
                        0 <= c < BUCKETS && 0 <= j < self.buckets@[c]@.len() implies {
                            let e = #[trigger] self.buckets@[c]@[j];
                            &&& bucket_of(e.key@) == c
                            &&& self.model@.contains_key(e.key@)
                            &&& self.model@[e.key@] == e.pos
                        } by {
                        if c != b {
                            assert(self.buckets@[c] == old_buckets[c]);
                            assert(old_buckets[c]@[j].key@ != k);
                        } else if j < i {
                            assert(self.buckets@[c]@[j] == old_buckets[c]@[j]);
                            assert(old_buckets[c]@[i as int].key@ == k);
                        } else {
                            assert(self.buckets@[c]@[j] == old_buckets[c]@[j + 1]);
                            assert(old_buckets[c]@[i as int].key@ == k);
                        }
                    }
                    assert forall|c: int, x: int, y: int|
                        0 <= c < BUCKETS && 0 <= x < self.buckets@[c]@.len() && 0 <= y
                            < self.buckets@[c]@.len() && x != y implies #[trigger] self.buckets@[c]@[x].key@
                            != #[trigger] self.buckets@[c]@[y].key@ by {
                        if c != b {
                            assert(self.buckets@[c] == old_buckets[c]);
                        } else {
                            let ox = if x < i { x } else { x + 1 };
                            let oy = if y < i { y } else { y + 1 };
                            assert(self.buckets@[c]@[x] == old_buckets[c]@[ox]);
                            assert(self.buckets@[c]@[y] == old_buckets[c]@[oy]);
                        }
                    }
                    assert forall|q: Seq<char>| #[trigger] self.model@.contains_key(q) implies exists|j: int|
                        0 <= j < self.buckets@[bucket_of(q)]@.len() && #[trigger] self.buckets@[bucket_of(
                            q,
                        )]@[j].key@ == q by {
                        let j = choose|j: int|
                            0 <= j < old_buckets[bucket_of(q)]@.len() && #[trigger] old_buckets[bucket_of(
                                q,
                            )]@[j].key@ == q;
                        if bucket_of(q) == b {
                            assert(j != i);
                            if j < i {
                                assert(self.buckets@[bucket_of(q)]@[j].key@ == q);
                            } else {
                                assert(self.buckets@[bucket_of(q)]@[j - 1].key@ == q);
                            }
                        } else {
                            assert(self.buckets@[bucket_of(q)]@[j].key@ == q);
                        }
                    }
                }
                Some(removed.pos)
            },
        }
    }

    /// Every binding of the index, each once, in no particular order.
    pub fn entries(&self) -> (r: Vec<(String, CommandPos)>)
        requires
            self.wf(),
        ensures
            lists_exactly(r@, self@),
    {
        let mut r: Vec<(String, CommandPos)> = Vec::new();
        let mut b: usize = 0;
        while b < BUCKETS
            invariant
                self.wf(),
                b <= BUCKETS,
                forall|i: int| 0 <= i < r@.len() ==> self@.contains_key(#[trigger] r@[i].0@),
                forall|i: int| 0 <= i < r@.len() ==> self@[#[trigger] r@[i].0@] == r@[i].1,
                forall|i: int| 0 <= i < r@.len() ==> bucket_of(#[trigger] r@[i].0@) < b,
                forall|i: int, j: int| 0 <= i < j < r@.len() ==> #[trigger] r@[i].0@ != #[trigger] r@[j].0@,
                forall|k: Seq<char>| #[trigger] self@.contains_key(k) && bucket_of(k) < b ==> exists|i: int|
                    0 <= i < r@.len() && #[trigger] r@[i].0@ == k,
            decreases BUCKETS - b,
        {
            let bucket = &self.buckets[b];
            let start = r.len();
            let ghost prefix = r@;
            let mut i: usize = 0;
            while i < bucket.len()
                invariant
                    self.wf(),
                    b < BUCKETS,
                    *bucket == self.buckets@[b as int],
                    i <= bucket@.len(),
                    start == prefix.len(),
                    r@.len() == start + i,
                    forall|j: int| 0 <= j < start ==> r@[j] == #[trigger] prefix[j],
                    forall|j: int| 0 <= j < start ==> bucket_of(#[trigger] prefix[j].0@) < b,
                    forall|j: int| 0 <= j < i ==> #[trigger] r@[start + j] == (bucket@[j].key, bucket@[j].pos),
                    forall|j: int| 0 <= j < r@.len() ==> self@.contains_key(#[trigger] r@[j].0@),
                    forall|j: int| 0 <= j < r@.len() ==> self@[#[trigger] r@[j].0@] == r@[j].1,
                    forall|j: int| 0 <= j < r@.len() ==> bucket_of(#[trigger] r@[j].0@) <= b,
                    forall|x: int, y: int| 0 <= x < y < r@.len() ==> #[trigger] r@[x].0@ != #[trigger] r@[y].0@,
                    forall|k: Seq<char>| #[trigger] self@.contains_key(k) && bucket_of(k) < b ==> exists|j: int|
                        0 <= j < start && #[trigger] prefix[j].0@ == k,
                decreases bucket@.len() - i,
            {
                let e = &bucket[i];
                proof {
                    assert(self.buckets@[b as int]@[i as int] == *e);
                    assert forall|j: int| 0 <= j < r@.len() implies #[trigger] r@[j].0@ != e.key@ by {
                        if j >= start {
                            let jj = j - start;
                            assert(r@[start + jj] == (bucket@[jj].key, bucket@[jj].pos));
                            assert(self.buckets@[b as int]@[jj].key@ != self.buckets@[b as int]@[i as int].key@);
                        } else {
                            assert(r@[j] == prefix[j]);
                        }
                    }
                }
                r.push((e.key.clone(), e.pos));
                proof {
                    assert(r@[start + i as int] == (bucket@[i as int].key, bucket@[i as int].pos));
                }
                i = i + 1;
            }
            proof {
                assert(forall|j: int| 0 <= j < r@.len() ==> bucket_of(#[trigger] r@[j].0@) < b + 1);
                assert forall|k: Seq<char>| #[trigger] self@.contains_key(k) && bucket_of(k) < b + 1 implies exists|j: int|
                    0 <= j < r@.len() && #[trigger] r@[j].0@ == k by {
                    if bucket_of(k) == b {
                        let x = choose|x: int|
                            0 <= x < self.buckets@[bucket_of(k)]@.len() && #[trigger] self.buckets@[bucket_of(
                                k,
                            )]@[x].key@ == k;
                        assert(r@[start + x] == (bucket@[x].key, bucket@[x].pos));
                        assert(r@[start + x].0@ == k);
                    } else {
                        let x = choose|x: int| 0 <= x < start && #[trigger] prefix[x].0@ == k;
                        assert(r@[x] == prefix[x]);
                        assert(r@[x].0@ == k);
                    }
                }
            }
            b = b + 1;
        }
        proof {
            assert forall|k: Seq<char>| #[trigger] self@.contains_key(k) implies exists|i: int|
                0 <= i < r@.len() && #[trigger] r@[i].0@ == k by {
                assert(bucket_of(k) < BUCKETS);
            }
        }
        r
    }
}

} // verus!
