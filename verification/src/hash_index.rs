//! An ordered set of store path hashes with constant-time lookup of the
//! position of a hash.
//!
//! The hashes are kept in insertion order; a hash map from a 64-bit digest of
//! the first characters to the positions that share it finds a hash without
//! walking the whole set. The map is keyed by a number because what is known
//! of a hash map holds for keys whose hashing is known to be lawful, which
//! is given for the integers and cannot be shown for a type of one's own.

use std::collections::HashMap;
use vstd::prelude::*;

use crate::database::model::StorePathHash;
use crate::text::{ascii_chars, is_ascii_bytes};

verus! {

/// The digest under which a hash of at least eight bytes is filed.
pub open spec fn bucket_key(b: Seq<u8>) -> u64 {
    (b[0] as u64 + b[1] as u64 * 0x100 + b[2] as u64 * 0x1_0000 + b[3] as u64 * 0x100_0000 + b[4] as u64
        * 0x1_0000_0000 + b[5] as u64 * 0x100_0000_0000 + b[6] as u64 * 0x1_0000_0000_0000 + b[7] as u64
        * 0x100_0000_0000_0000) as u64
}

fn digest(b: &[u8]) -> (k: u64)
    requires
        b@.len() >= 8,
    ensures
        k == bucket_key(b@),
{
    b[0] as u64 + b[1] as u64 * 0x100 + b[2] as u64 * 0x1_0000 + b[3] as u64 * 0x100_0000 + b[4] as u64
        * 0x1_0000_0000 + b[5] as u64 * 0x100_0000_0000 + b[6] as u64 * 0x1_0000_0000_0000 + b[7] as u64
        * 0x100_0000_0000_0000
}

/// Whether `a` and `b` hold the same bytes.
fn same_bytes(a: &[u8], b: &[u8]) -> (r: bool)
    ensures
        r == (a@ == b@),
{
    if a.len() != b.len() {
        return false;
    }
    let mut i: usize = 0;
    while i < a.len()
        invariant
            i <= a@.len() == b@.len(),
            forall|k: int| 0 <= k < i ==> a@[k] == b@[k],
        decreases a.len() - i,
    {
        if a[i] != b[i] {
            return false;
        }
        i += 1;
    }
    assert(a@ =~= b@);
    true
}

/// The bytes of the characters of an ASCII text.
pub open spec fn ascii_bytes(s: Seq<char>) -> Seq<u8> {
    Seq::new(s.len(), |i: int| s[i] as u8)
}

/// An ordered set of store path hashes.
pub struct HashIndex {
    keys: Vec<StorePathHash>,
    buckets: HashMap<u64, Vec<usize>>,
}

impl View for HashIndex {
    type V = Seq<Seq<char>>;

    closed spec fn view(&self) -> Seq<Seq<char>> {
        Seq::new(self.keys@.len(), |i: int| self.keys@[i]@)
    }
}

/// No text stands twice in `keys`.
pub open spec fn no_duplicates(keys: Seq<Seq<char>>) -> bool {
    forall|i: int, j: int| 0 <= i < j < keys.len() ==> keys[i] != keys[j]
}

/// The position of `h` in `keys`, if it stands there.
pub open spec fn position(keys: Seq<Seq<char>>, h: Seq<char>) -> Option<int> {
    if exists|i: int| 0 <= i < keys.len() && keys[i] == h {
        Some(choose|i: int| 0 <= i < keys.len() && keys[i] == h)
    } else {
        None
    }
}

/// Where no text stands twice, the position of a text is the one place that
/// holds it.
pub proof fn lemma_position(keys: Seq<Seq<char>>, h: Seq<char>, i: int)
    requires
        no_duplicates(keys),
        0 <= i < keys.len(),
        keys[i] == h,
    ensures
        position(keys, h) == Some(i),
{
    let j = choose|j: int| 0 <= j < keys.len() && keys[j] == h;
    if j < i {
        assert(keys[j] != keys[i]);
    } else if i < j {
        assert(keys[i] != keys[j]);
    }
}

/// A text that stands nowhere has no position.
pub proof fn lemma_position_none(keys: Seq<Seq<char>>, h: Seq<char>)
    ensures
        position(keys, h) is None <==> !keys.contains(h),
        position(keys, h) matches Some(i) ==> 0 <= i < keys.len() && keys[i] == h,
{
}

/// A text that stands in a list keeps its position when the list grows; a
/// new text stands at the end.
pub proof fn lemma_position_push(keys: Seq<Seq<char>>, h: Seq<char>, x: Seq<char>)
    requires
        no_duplicates(keys),
        !keys.contains(h),
    ensures
        no_duplicates(keys.push(h)),
        position(keys.push(h), h) == Some(keys.len() as int),
        keys.contains(x) ==> position(keys.push(h), x) == position(keys, x),
        x != h && !keys.contains(x) ==> position(keys.push(h), x) is None,
{
    let more = keys.push(h);
    assert forall|i: int, j: int| 0 <= i < j < more.len() implies more[i] != more[j] by {
        if j == keys.len() {
            assert(keys[i] == more[i]);
        }
    }
    lemma_position(more, h, keys.len() as int);
    if keys.contains(x) {
        let i = choose|i: int| 0 <= i < keys.len() && keys[i] == x;
        lemma_position(keys, x, i);
        assert(more[i] == x);
        lemma_position(more, x, i);
    }
    if x != h && !keys.contains(x) {
        lemma_position_none(more, x);
        if more.contains(x) {
            let i = choose|i: int| 0 <= i < more.len() && more[i] == x;
            assert(keys[i] == x);
        }
    }
}

impl HashIndex {
    /// The bytes of the key at position `i`.
    spec fn key_bytes(&self, i: int) -> Seq<u8> {
        ascii_bytes(self.keys@[i]@)
    }

    /// The digest of the key at position `i`.
    spec fn key_digest(&self, i: int) -> u64 {
        bucket_key(self.key_bytes(i))
    }

    /// Position `i` is filed under the digest of its key.
    spec fn filed(&self, i: int) -> bool {
        &&& self.buckets@.contains_key(self.key_digest(i))
        &&& exists|j: int|
            0 <= j < self.buckets@[self.key_digest(i)]@.len()
                && #[trigger] self.buckets@[self.key_digest(i)]@[j] == i
    }

    /// Entry `j` of bucket `k` is a position whose key has the digest `k`.
    spec fn slot_ok(&self, k: u64, j: int) -> bool {
        &&& self.buckets@[k]@[j] < self.keys@.len()
        &&& self.key_digest(self.buckets@[k]@[j] as int) == k
    }

    /// The key at position `i` is the text of a hash.
    spec fn key_ok(&self, i: int) -> bool {
        &&& self.keys@[i]@.len() == 32
        &&& vstd::utf8::is_ascii_chars(self.keys@[i]@)
    }

    /// The invariant of the representation: every hash is a hash, no hash
    /// stands twice, and the buckets file each position under its digest.
    pub closed spec fn wf(&self) -> bool {
        &&& forall|i: int| 0 <= i < self.keys@.len() ==> #[trigger] self.key_ok(i)
        &&& no_duplicates(self@)
        &&& forall|i: int| 0 <= i < self.keys@.len() ==> #[trigger] self.filed(i)
        &&& forall|k: u64, j: int|
            self.buckets@.contains_key(k) && 0 <= j < self.buckets@[k]@.len()
                ==> #[trigger] self.slot_ok(k, j)
    }

    /// In a well-formed set no hash stands twice.
    pub proof fn lemma_no_duplicates(&self)
        requires
            self.wf(),
        ensures
            no_duplicates(self@),
    {
    }

    /// In a well-formed set every hash is ASCII text.
    pub proof fn lemma_ascii_keys(&self)
        requires
            self.wf(),
        ensures
            forall|i: int|
                0 <= i < self@.len() ==> vstd::utf8::is_ascii_chars(#[trigger] self@[i]),
    {
        assert forall|i: int| 0 <= i < self@.len() implies vstd::utf8::is_ascii_chars(
            #[trigger] self@[i],
        ) by {
            assert(self.key_ok(i));
        }
    }

    /// The empty set.
    pub fn new() -> (r: HashIndex)
        ensures
            r.wf(),
            r@ == Seq::<Seq<char>>::empty(),
    {
        let r = HashIndex { keys: Vec::new(), buckets: HashMap::new() };
        assert(r@ =~= Seq::<Seq<char>>::empty());
        r
    }

    /// The number of hashes.
    pub fn len(&self) -> (n: usize)
        ensures
            n == self@.len(),
    {
        self.keys.len()
    }

    /// The hash at position `i`.
    pub fn get(&self, i: usize) -> (h: StorePathHash)
        requires
            i < self@.len(),
        ensures
            h@ == self@[i as int],
    {
        self.keys[i]
    }

    /// The bytes of the key at position `p`.
    fn bytes_at(&self, p: usize) -> (r: &[u8])
        requires
            p < self.keys@.len(),
        ensures
            r@ == self.key_bytes(p as int),
            r@.len() == 32,
    {
        let r = self.keys[p].as_bytes();
        proof {
            lemma_ascii_bytes_of_chars(r@);
        }
        r
    }

    /// The position of the hash with the bytes `b`, if the set holds it.
    pub fn position_of_bytes(&self, b: &[u8]) -> (r: Option<usize>)
        requires
            self.wf(),
        ensures
            match r {
                Some(i) => i < self@.len() && ascii_bytes(self@[i as int]) == b@,
                None => forall|i: int| 0 <= i < self@.len() ==> ascii_bytes(self@[i]) != b@,
            },
    {
        broadcast use vstd::std_specs::hash::group_hash_axioms;

        if b.len() != 32 {
            assert forall|i: int| 0 <= i < self@.len() implies ascii_bytes(self@[i]) != b@ by {
                assert(self.key_ok(i));
            }
            return None;
        }
        let key = digest(b);
        let bucket = match self.buckets.get(&key) {
            Some(bucket) => bucket,
            None => {
                assert forall|i: int| 0 <= i < self@.len() implies ascii_bytes(self@[i])
                    != b@ by {
                    assert(self.filed(i));
                }
                return None;
            },
        };
        let mut j: usize = 0;
        while j < bucket.len()
            invariant
                self.wf(),
                j <= bucket@.len(),
                self.buckets@.contains_key(key),
                self.buckets@[key] == *bucket,
                key == bucket_key(b@),
                forall|k: int| 0 <= k < j ==> self.key_bytes(#[trigger] bucket@[k] as int) != b@,
            decreases bucket.len() - j,
        {
            let p = bucket[j];
            assert(self.slot_ok(key, j as int));
            if same_bytes(self.bytes_at(p), b) {
                return Some(p);
            }
            j += 1;
        }
        assert forall|i: int| 0 <= i < self@.len() implies ascii_bytes(self@[i]) != b@ by {
            if self.key_bytes(i) == b@ {
                assert(self.filed(i));
                let k = choose|k: int| 0 <= k < bucket@.len() && #[trigger] bucket@[k] == i;
                assert(self.key_bytes(bucket@[k] as int) != b@);
            }
        }
        None
    }

    /// The position of `h`, if the set holds it.
    pub fn position(&self, h: &StorePathHash) -> (r: Option<usize>)
        requires
            self.wf(),
        ensures
            match r {
                Some(i) => i < self@.len() && self@[i as int] == h@ && position(self@, h@)
                    == Some(i as int),
                None => !self@.contains(h@) && position(self@, h@) is None,
            },
    {
        let b = h.as_bytes();
        proof {
            lemma_ascii_bytes_of_chars(b@);
        }
        let r = self.position_of_bytes(b);
        proof {
            match r {
                Some(i) => {
                    assert(self.key_ok(i as int));
                    lemma_ascii_bytes_injective(self@[i as int], h@);
                    lemma_position(self@, h@, i as int);
                },
                None => {
                    if self@.contains(h@) {
                        let i = choose|i: int| 0 <= i < self@.len() && self@[i] == h@;
                        assert(ascii_bytes(self@[i]) != b@);
                    }
                },
            }
        }
        r
    }

    /// Whether the set holds `h`.
    pub fn contains(&self, h: &StorePathHash) -> (r: bool)
        requires
            self.wf(),
        ensures
            r == self@.contains(h@),
    {
        match self.position(h) {
            Some(i) => {
                assert(self@[i as int] == h@);
                true
            },
            None => false,
        }
    }

    /// Adds `h`, which the set does not hold yet, at the end.
    pub fn push(&mut self, h: StorePathHash)
        requires
            old(self).wf(),
            !old(self)@.contains(h@),
        ensures
            final(self).wf(),
            final(self)@ == old(self)@.push(h@),
    {
        broadcast use vstd::std_specs::hash::group_hash_axioms;

        let b = h.as_bytes();
        proof {
            lemma_ascii_bytes_of_chars(b@);
        }
        let key = digest(b);
        let position = self.keys.len();
        let mut bucket = match self.buckets.remove(&key) {
            Some(bucket) => bucket,
            None => Vec::new(),
        };
        let ghost before = bucket@;
        bucket.push(position);
        self.keys.push(h);
        self.buckets.insert(key, bucket);
        proof {
            assert(self@ =~= old(self)@.push(h@));
            assert(self.key_bytes(position as int) == b@);
            assert forall|i: int| 0 <= i < self.keys@.len() implies #[trigger] self.key_ok(i) by {
                if i < position {
                    assert(old(self).key_ok(i));
                }
            }
            assert forall|i: int| 0 <= i < self.keys@.len() implies #[trigger] self.filed(i) by {
                if i < position {
                    assert(old(self).filed(i));
                    assert(self.keys@[i] == old(self).keys@[i]);
                    assert(self.key_digest(i) == old(self).key_digest(i));
                    let k = self.key_digest(i);
                    let bk = old(self).buckets@[k]@;
                    let j = choose|j: int| 0 <= j < bk.len() && #[trigger] bk[j] == i;
                    assert(0 <= j < bk.len() && bk[j] == i);
                    if k == key {
                        assert(before == bk);
                        assert(self.buckets@[k]@ == before.push(position));
                        assert(self.buckets@[k]@[j] == i);
                    } else {
                        assert(self.buckets@.contains_key(k));
                        assert(self.buckets@[k] == old(self).buckets@[k]);
                        assert(self.buckets@[k]@[j] == i);
                    }
                } else {
                    assert(i == position);
                    assert(self.key_digest(i) == key);
                    assert(self.buckets@.contains_key(key));
                    assert(self.buckets@[key]@ == before.push(position));
                    assert(self.buckets@[key]@[before.len() as int] == position);
                }
            }
            assert forall|k: u64, j: int|
                self.buckets@.contains_key(k) && 0 <= j < self.buckets@[k]@.len()
                    implies #[trigger] self.slot_ok(k, j) by {
                if k == key {
                    if j < before.len() {
                        assert(old(self).buckets@.contains_key(k));
                        assert(old(self).slot_ok(k, j));
                        let p = old(self).buckets@[k]@[j];
                        assert(self.key_digest(p as int) == old(self).key_digest(p as int));
                    }
                } else {
                    assert(old(self).buckets@.contains_key(k));
                    assert(old(self).slot_ok(k, j));
                    let p = old(self).buckets@[k]@[j];
                    assert(self.key_digest(p as int) == old(self).key_digest(p as int));
                }
            }
            assert forall|i: int, j: int| 0 <= i < j < self@.len() implies self@[i]
                != self@[j] by {
                assert(old(self)@[i] == self@[i]);
                if j == position {
                    assert(old(self)@.contains(self@[i]));
                } else {
                    assert(old(self)@[j] == self@[j]);
                }
            }
        }
    }
}

/// The bytes of the characters that ASCII bytes stand for are those bytes.
pub proof fn lemma_ascii_bytes_of_chars(b: Seq<u8>)
    requires
        is_ascii_bytes(b),
    ensures
        ascii_bytes(ascii_chars(b)) == b,
{
    assert(ascii_bytes(ascii_chars(b)) =~= b);
}

/// ASCII texts with the same bytes are the same text.
pub proof fn lemma_ascii_bytes_injective(a: Seq<char>, b: Seq<char>)
    requires
        vstd::utf8::is_ascii_chars(a),
        ascii_bytes(a) == ascii_bytes(b),
        vstd::utf8::is_ascii_chars(b),
    ensures
        a == b,
{
    assert(a.len() == ascii_bytes(a).len());
    assert(b.len() == ascii_bytes(b).len());
    assert forall|i: int| 0 <= i < a.len() implies a[i] == b[i] by {
        assert(ascii_bytes(a)[i] == a[i] as u8);
        assert(ascii_bytes(b)[i] == b[i] as u8);
    }
    assert(a =~= b);
}

} // verus!
