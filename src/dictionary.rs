//! The set of upper-case words that a decryption is scored against.
use vstd::prelude::*;
use vstd::slice::slice_to_vec;
use vstd::string::StringSliceAdditionalSpecFns;
use vstd::utf8::encode_utf8;
use crate::alpha::{alphas_of, Alpha};

verus! {

/// What `str::to_uppercase` makes of a text.
pub uninterp spec fn upper_of(s: Seq<char>) -> Seq<char>;

/// Relies on `str::to_uppercase`: the upper-case form of a text depends on
/// its characters alone.
#[verifier::external_body]
fn uppercase(s: &str) -> (r: String)
    ensures
        r@ == upper_of(s@),
{
    s.to_uppercase()
}

/// The UTF-8 bytes of the upper-case form of `word`: the form in which a
/// dictionary holds it.
pub open spec fn word_bytes(word: Seq<char>) -> Seq<u8> {
    encode_utf8(upper_of(word))
}

/// Whether two byte sequences are equal.
fn same_bytes(a: &[u8], b: &[u8]) -> (r: bool)
    ensures
        r == (a@ == b@),
{
    if a.len() != b.len() {
        return false;
    }
    let mut i: usize = 0;
    while i < a.len()
        invariant
            a@.len() == b@.len(),
            i <= a@.len(),
            forall|j: int| 0 <= j < i ==> a@[j] == b@[j],
        decreases a@.len() - i,
    {
        if a[i] != b[i] {
            return false;
        }
        i = i + 1;
    }
    assert(a@ =~= b@);
    true
}

/// The bucket of a word: 0 for the empty word, else one more than its
/// first byte.
pub open spec fn bucket_of(w: Seq<u8>) -> int {
    if w.len() == 0 {
        0
    } else {
        w[0] + 1
    }
}

/// The number of buckets: one for the empty word and one per first byte.
pub const BUCKETS: usize = 257;

fn bucket_index(w: &[u8]) -> (r: usize)
    ensures
        r == bucket_of(w@),
        r < BUCKETS,
{
    if w.len() == 0 {
        0
    } else {
        w[0] as usize + 1
    }
}

/// A set of words, each held as the bytes of its upper-case form, in
/// buckets by first byte so that a lookup scans one bucket only.
pub struct Dictionary {
    buckets: Vec<Vec<Vec<u8>>>,
}

impl View for Dictionary {
    type V = Set<Seq<u8>>;

    closed spec fn view(&self) -> Set<Seq<u8>> {
        Set::new(
            |w: Seq<u8>|
                exists|i: int, j: int|
                    0 <= i < self.buckets@.len() && 0 <= j < self.buckets@[i]@.len()
                        && #[trigger] self.buckets@[i]@[j]@ == w,
        )
    }
}

impl Dictionary {
    /// Each word lies in its own bucket.
    #[verifier::type_invariant]
    spec fn well_formed(self) -> bool {
        &&& self.buckets@.len() == BUCKETS
        &&& forall|i: int, j: int|
            0 <= i < self.buckets@.len() && 0 <= j < self.buckets@[i]@.len() ==> bucket_of(
                #[trigger] self.buckets@[i]@[j]@,
            ) == i
    }

    /// An empty dictionary.
    pub fn new() -> (r: Self)
        ensures
            r@ == Set::<Seq<u8>>::empty(),
    {
        let mut buckets: Vec<Vec<Vec<u8>>> = Vec::new();
        let mut i: usize = 0;
        while i < BUCKETS
            invariant
                i <= BUCKETS,
                buckets@.len() == i,
                forall|k: int| 0 <= k < i ==> (#[trigger] buckets@[k])@.len() == 0,
            decreases BUCKETS - i,
        {
            buckets.push(Vec::new());
            i = i + 1;
        }
        let r = Dictionary { buckets };
        assert(r@ =~= Set::<Seq<u8>>::empty());
        r
    }

    /// Adds the upper-case form of `word`.
    pub fn insert(&mut self, word: &str)
        ensures
            final(self)@ == old(self)@.insert(word_bytes(word@)),
    {
        proof {
            use_type_invariant(&*self);
        }
        let upper = uppercase(word);
        let bytes = slice_to_vec(upper.as_str().as_bytes());
        let b = bucket_index(bytes.as_slice());
        let ghost old_buckets = self.buckets@;
        let mut taken = Dictionary::new();
        std::mem::swap(self, &mut taken);
        let Dictionary { mut buckets } = taken;
        buckets[b].push(bytes);
        *self = Dictionary { buckets };
        let ghost nb = self.buckets@;
        assert(nb[b as int]@ == old_buckets[b as int]@.push(bytes));
        assert forall|i: int, j: int|
            0 <= i < nb.len() && 0 <= j < nb[i]@.len() implies #[trigger] nb[i]@[j]@
            == old_buckets[i]@[j]@ || (i == b && j == old_buckets[i]@.len() && nb[i]@[j]@
            == word_bytes(word@)) by {}
        assert forall|w: Seq<u8>| #[trigger] self@.contains(w) == old(self)@.insert(word_bytes(word@)).contains(w) by {
            if old(self)@.contains(w) {
                let (i, j) = choose|i: int, j: int|
                    0 <= i < old_buckets.len() && 0 <= j < old_buckets[i]@.len()
                        && #[trigger] old_buckets[i]@[j]@ == w;
                assert(nb[i]@[j]@ == w);
            }
            if w == word_bytes(word@) {
                assert(nb[b as int]@[old_buckets[b as int]@.len() as int]@ == w);
            }
            if self@.contains(w) {
                let (i, j) = choose|i: int, j: int|
                    0 <= i < nb.len() && 0 <= j < nb[i]@.len() && #[trigger] nb[i]@[j]@ == w;
                if !(i == b && j == old_buckets[i]@.len()) {
                    assert(old_buckets[i]@[j]@ == w);
                }
            }
        }
        assert(self@ =~= old(self)@.insert(word_bytes(word@)));
    }

    /// Whether the dictionary holds the word whose bytes are `word`.
    pub fn contains(&self, word: &[u8]) -> (r: bool)
        ensures
            r == self@.contains(word@),
    {
        proof {
            use_type_invariant(self);
        }
        let b = bucket_index(word);
        let bucket = &self.buckets[b];
        let mut i: usize = 0;
        while i < bucket.len()
            invariant
                i <= bucket@.len(),
                *bucket == self.buckets@[b as int],
                b == bucket_of(word@),
                b < self.buckets@.len(),
                forall|j: int| 0 <= j < i ==> #[trigger] bucket@[j]@ != word@,
            decreases bucket@.len() - i,
        {
            if same_bytes(bucket[i].as_slice(), word) {
                assert(self.buckets@[b as int]@[i as int]@ == word@);
                return true;
            }
            i = i + 1;
        }
        proof {
            if self@.contains(word@) {
                let (k, j) = choose|k: int, j: int|
                    0 <= k < self.buckets@.len() && 0 <= j < self.buckets@[k]@.len()
                        && #[trigger] self.buckets@[k]@[j]@ == word@;
                assert(k == b);
                assert(bucket@[j]@ != word@);
            }
        }
        false
    }
}

/// The key that a line of a word list stands for: the symbols of its
/// upper-case form.
pub fn key_from_word(word: &str) -> (r: Vec<Alpha>)
    ensures
        r@ == alphas_of(word_bytes(word@)),
{
    let upper = uppercase(word);
    Alpha::from_str(upper.as_str())
}

} // verus!
