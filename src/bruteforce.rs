//! The brute-force candidate source: every key of a given length made of
//! distinct letters, produced one at a time by itertools' permutations.
use vstd::prelude::*;
use itertools::structs::Permutations;
use itertools::Itertools;
use std::ops::Range;
use crate::alpha::{alphas_of, Alpha};
use crate::dictionary::Dictionary;
use crate::search::{
    key_view, lemma_found_stays, lemma_search_resumes, search_from, search_result, search_run,
    KeySearch,
};
use vstd::string::StringSliceAdditionalSpecFns;

verus! {

#[verifier::external_type_specification]
#[verifier::external_body]
#[verifier::reject_recursive_types(I)]
pub struct ExPermutations<I: Iterator>(Permutations<I>);

/// The items, as bytes, that a permutation iterator over letter bytes has
/// yet to yield before its first `None`.
pub uninterp spec fn permutations_left(p: Permutations<Range<u8>>) -> Seq<Seq<u8>>;

/// The items that itertools' `permutations` yields of the letters `A` to
/// `Z` taken `k` at a time, in the order it yields them.
pub uninterp spec fn letter_permutations(k: usize) -> Seq<Seq<u8>>;

/// Relies on `Itertools::permutations` over the byte range `A`..=`Z`: the
/// iterator yields `letter_permutations(k)`, each item `k` of the range's
/// bytes.
#[verifier::external_body]
fn letter_permutation_iter(k: usize) -> (r: Permutations<Range<u8>>)
    ensures
        permutations_left(r) == letter_permutations(k),
        forall|i: int|
            0 <= i < permutations_left(r).len() ==> (#[trigger] permutations_left(r)[i]).len() == k
                && forall|j: int| 0 <= j < k ==> 65 <= #[trigger] permutations_left(r)[i][j] <= 90,
{
    (65u8..91u8).permutations(k)
}

/// Relies on `Iterator::next` of itertools' `Permutations`: it yields the
/// first item left, or `None` when none is.
#[verifier::external_body]
fn next_permutation(p: &mut Permutations<Range<u8>>) -> (r: Option<Vec<u8>>)
    ensures
        permutations_left(*old(p)).len() == 0 ==> r is None,
        permutations_left(*old(p)).len() > 0 ==> (r matches Some(k) && k@ == permutations_left(
            *old(p),
        )[0]),
        permutations_left(*old(p)).len() > 0 ==> permutations_left(*final(p)) == permutations_left(
            *old(p),
        ).drop_first(),
{
    p.next()
}

/// The keys that byte sequences stand for.
pub open spec fn keys_of(items: Seq<Seq<u8>>) -> Seq<Seq<Alpha>> {
    items.map_values(|k: Seq<u8>| alphas_of(k))
}

/// Every key of one length made of distinct letters, one at a time.
pub struct LetterKeys {
    perms: Permutations<Range<u8>>,
    exhausted: bool,
}

impl View for LetterKeys {
    type V = Seq<Seq<Alpha>>;

    /// The keys not yet produced.
    closed spec fn view(&self) -> Seq<Seq<Alpha>> {
        if self.exhausted {
            Seq::empty()
        } else {
            keys_of(permutations_left(self.perms))
        }
    }
}

fn letter_key(bytes: Vec<u8>) -> (r: Vec<Alpha>)
    ensures
        r@ == alphas_of(bytes@),
{
    let mut r: Vec<Alpha> = Vec::new();
    let mut i: usize = 0;
    while i < bytes.len()
        invariant
            i <= bytes@.len(),
            r@ == alphas_of(bytes@.take(i as int)),
        decreases bytes@.len() - i,
    {
        r.push(Alpha::from_ascii(bytes[i]));
        i = i + 1;
        assert(alphas_of(bytes@.take(i as int)) =~= r@);
    }
    assert(bytes@.take(i as int) =~= bytes@);
    r
}

impl LetterKeys {
    /// The keys of `max_length` distinct letters, in the order of
    /// `letter_permutations`.
    pub fn new(max_length: usize) -> (r: Self)
        ensures
            r@ == keys_of(letter_permutations(max_length)),
            forall|i: int|
                0 <= i < r@.len() ==> (#[trigger] r@[i]).len() == max_length && forall|j: int|
                    0 <= j < max_length ==> #[trigger] r@[i][j].is_letter(),
    {
        let r = LetterKeys { perms: letter_permutation_iter(max_length), exhausted: false };
        assert forall|i: int| 0 <= i < r@.len() implies (#[trigger] r@[i]).len() == max_length
            && forall|j: int| 0 <= j < max_length ==> r@[i][j].is_letter() by {
            assert(r@[i] == alphas_of(permutations_left(r.perms)[i]));
        }
        r
    }

    /// The next key, or `None` once every key has been produced.
    pub fn next_key(&mut self) -> (r: Option<Vec<Alpha>>)
        ensures
            old(self)@.len() == 0 ==> r is None && final(self)@.len() == 0,
            old(self)@.len() > 0 ==> key_view(r) == Some(old(self)@[0]) && final(self)@ == old(
                self,
            )@.drop_first(),
    {
        if self.exhausted {
            return None;
        }
        match next_permutation(&mut self.perms) {
            Some(bytes) => {
                let ghost before = permutations_left(old(self).perms);
                assert(keys_of(before.drop_first()) =~= keys_of(before).drop_first());
                Some(letter_key(bytes))
            },
            None => {
                self.exhausted = true;
                None
            },
        }
    }
}

/// Feeds the search at most `budget` further keys, stopping early at an
/// exact match or when no key is left. Returns whether the search is over,
/// and how many keys it took. A caller that reports progress calls it again
/// while the search is not over.
pub fn search_letter_keys(
    cipher: &[Alpha],
    keys: &mut LetterKeys,
    search: &mut KeySearch,
    dictionary: &Dictionary,
    budget: usize,
) -> (r: (bool, usize))
    requires
        cipher@.len() < usize::MAX,
    ensures
        r.1 <= budget,
        r.1 <= old(keys)@.len(),
        final(keys)@ == old(keys)@.skip(r.1 as int),
        final(search)@ == search_from(old(search)@, cipher@, old(keys)@.take(r.1 as int), dictionary@),
        !r.0 ==> r.1 == budget && final(search)@.0 is None,
        r.0 ==> final(search)@.0 is Some || final(keys)@.len() == 0,
{
    let ghost keys0 = keys@;
    let ghost search0 = search@;
    let mut j: usize = 0;
    assert(keys0.take(0) =~= Seq::<Seq<Alpha>>::empty());
    assert(keys0.skip(0) =~= keys0);
    if search.is_done() {
        return (true, 0);
    }
    while j < budget
        invariant
            cipher@.len() < usize::MAX,
            keys0 == old(keys)@,
            search0 == old(search)@,
            j <= budget,
            j <= keys0.len(),
            keys@ == keys0.skip(j as int),
            search@ == search_from(search0, cipher@, keys0.take(j as int), dictionary@),
            search@.0 is None,
        decreases budget - j,
    {
        match keys.next_key() {
            None => {
                assert(keys@ =~= keys0.skip(j as int));
                return (true, j);
            },
            Some(key) => {
                assert(keys0.take(j + 1).drop_last() =~= keys0.take(j as int));
                assert(keys0.skip(j as int).drop_first() =~= keys0.skip(j + 1));
                assert(keys0.take(j + 1).last() == key@);
                let found = search.consider(cipher, key.as_slice(), dictionary);
                j = j + 1;
                if found {
                    return (true, j);
                }
            },
        }
    }
    (false, j)
}

/// The key, among every key of `max_length` distinct letters taken in the
/// order of `letter_permutations`, that the search settles on.
pub fn find_vigenere_key_bruteforce(cipher_text: &str, max_length: usize, dictionary: &Dictionary) -> (r:
    Option<Vec<Alpha>>)
    requires
        cipher_text.spec_bytes().len() < usize::MAX,
    ensures
        key_view(r) == search_result(
            alphas_of(cipher_text.spec_bytes()),
            keys_of(letter_permutations(max_length)),
            dictionary@,
        ),
{
    let cipher = Alpha::from_str(cipher_text);
    let mut keys = LetterKeys::new(max_length);
    let mut search = KeySearch::new();
    let ghost all = keys@;
    let ghost mut c: int = 0;
    assert(all.take(0) =~= Seq::<Seq<Alpha>>::empty());
    assert(all.skip(0) =~= all);
    loop
        invariant
            cipher@ == alphas_of(cipher_text.spec_bytes()),
            cipher@.len() < usize::MAX,
            all == keys_of(letter_permutations(max_length)),
            0 <= c <= all.len(),
            keys@ == all.skip(c),
            search@ == search_run(cipher@, all.take(c), dictionary@),
        ensures
            search_run(cipher@, all, dictionary@) == search@,
        decreases all.len() - c,
    {
        let ghost before = search@;
        let ghost left = keys@;
        let (done, taken) = search_letter_keys(cipher.as_slice(), &mut keys, &mut search, dictionary, 1000);
        let ghost j = taken as int;
        proof {
            lemma_search_resumes(cipher@, all.take(c), left.take(j), dictionary@);
            assert(all.take(c) + left.take(j) =~= all.take(c + j));
            assert(left.skip(j) =~= all.skip(c + j));
            c = c + j;
        }
        if done {
            proof {
                if search@.0 is Some {
                    lemma_found_stays(cipher@, all, dictionary@, c);
                } else {
                    assert(all.take(c) =~= all);
                }
                assert(search_run(cipher@, all, dictionary@) == search@);
            }
            break;
        }
    }
    search.finish().key()
}

} // verus!
