//! The key search: every candidate key decrypts the cipher text, the result
//! is scored against a dictionary, and the first exact match, else the best
//! near match, is the answer.
use vstd::prelude::*;
use vstd::slice::slice_to_vec;
use crate::alpha::{alphas_of, bytes_of, Alpha, SPACE};
use crate::dictionary::Dictionary;
use crate::vigenere::{vigenere, vigenere_spec};
use vstd::string::StringSliceAdditionalSpecFns;

verus! {

/// The pieces of `t` between the bytes `sep`; two adjacent `sep` bytes, or
/// one at either end, give an empty piece.
pub open spec fn split_bytes(t: Seq<u8>, sep: u8) -> Seq<Seq<u8>>
    decreases t.len(),
{
    if t.len() == 0 {
        seq![Seq::<u8>::empty()]
    } else {
        let w = split_bytes(t.drop_last(), sep);
        if t.last() == sep {
            w.push(Seq::<u8>::empty())
        } else {
            w.update(w.len() - 1, w.last().push(t.last()))
        }
    }
}

/// The words of `t`, split at every space.
pub open spec fn split_words(t: Seq<u8>) -> Seq<Seq<u8>> {
    split_bytes(t, SPACE)
}

/// How many of `words` the dictionary holds, each occurrence counted.
pub open spec fn count_valid(words: Seq<Seq<u8>>, dict: Set<Seq<u8>>) -> nat
    decreases words.len(),
{
    if words.len() == 0 {
        0
    } else {
        count_valid(words.drop_last(), dict) + if dict.contains(words.last()) {
            1nat
        } else {
            0nat
        }
    }
}

/// The score of a decrypted text: its number of words, and how many of
/// them the dictionary holds.
pub open spec fn text_score(text: Seq<Alpha>, dict: Set<Seq<u8>>) -> (nat, nat) {
    let words = split_words(bytes_of(text));
    (words.len(), count_valid(words, dict))
}

/// The score of a candidate key: that of the cipher text decrypted with it.
pub open spec fn key_score(cipher: Seq<Alpha>, key: Seq<Alpha>, dict: Set<Seq<u8>>) -> (nat, nat) {
    text_score(vigenere_spec(key, cipher, false), dict)
}

/// Whether the dictionary holds every word that `key` decrypts to.
pub open spec fn is_exact(cipher: Seq<Alpha>, key: Seq<Alpha>, dict: Set<Seq<u8>>) -> bool {
    key.len() > 0 && key_score(cipher, key, dict).1 == key_score(cipher, key, dict).0
}

/// Whether the dictionary holds more than half of the words that `key`
/// decrypts to.
pub open spec fn is_near(cipher: Seq<Alpha>, key: Seq<Alpha>, dict: Set<Seq<u8>>) -> bool {
    key.len() > 0 && key_score(cipher, key, dict).1 > key_score(cipher, key, dict).0 / 2
}

/// Where a search stands: the exact match found, if any, and else the best
/// near match so far with its number of valid words.
pub type SearchState = (Option<Seq<Alpha>>, Option<(Seq<Alpha>, nat)>);

/// The search after one more candidate. Once an exact match is found
/// nothing changes; an empty key is passed over; a near match replaces the
/// best so far only when it has strictly more valid words.
pub open spec fn search_step(
    state: SearchState,
    cipher: Seq<Alpha>,
    key: Seq<Alpha>,
    dict: Set<Seq<u8>>,
) -> SearchState {
    if state.0 is Some || key.len() == 0 {
        state
    } else if is_exact(cipher, key, dict) {
        (Some(key), state.1)
    } else if is_near(cipher, key, dict) && (state.1 is None || key_score(cipher, key, dict).1
        > state.1.unwrap().1) {
        (None, Some((key, key_score(cipher, key, dict).1)))
    } else {
        state
    }
}

/// The search after the candidates `keys`, in order.
pub open spec fn search_run(cipher: Seq<Alpha>, keys: Seq<Seq<Alpha>>, dict: Set<Seq<u8>>) -> SearchState
    decreases keys.len(),
{
    if keys.len() == 0 {
        (None, None)
    } else {
        search_step(search_run(cipher, keys.drop_last(), dict), cipher, keys.last(), dict)
    }
}

/// The search from `state` on, after the further candidates `keys`.
pub open spec fn search_from(
    state: SearchState,
    cipher: Seq<Alpha>,
    keys: Seq<Seq<Alpha>>,
    dict: Set<Seq<u8>>,
) -> SearchState
    decreases keys.len(),
{
    if keys.len() == 0 {
        state
    } else {
        search_step(search_from(state, cipher, keys.drop_last(), dict), cipher, keys.last(), dict)
    }
}

/// Going on from where the candidates `a` left the search is searching
/// over `a` followed by `b`.
pub proof fn lemma_search_resumes(
    cipher: Seq<Alpha>,
    a: Seq<Seq<Alpha>>,
    b: Seq<Seq<Alpha>>,
    dict: Set<Seq<u8>>,
)
    ensures
        search_from(search_run(cipher, a, dict), cipher, b, dict) == search_run(cipher, a + b, dict),
    decreases b.len(),
{
    if b.len() == 0 {
        assert(a + b =~= a);
    } else {
        lemma_search_resumes(cipher, a, b.drop_last(), dict);
        assert((a + b).drop_last() =~= a + b.drop_last());
    }
}

/// The key a search settles on: the exact match, else the best near match.
pub open spec fn state_result(state: SearchState) -> Option<Seq<Alpha>> {
    if state.0 is Some {
        state.0
    } else if state.1 is Some {
        Some(state.1.unwrap().0)
    } else {
        None
    }
}

/// The key that the candidates `keys` give.
pub open spec fn search_result(cipher: Seq<Alpha>, keys: Seq<Seq<Alpha>>, dict: Set<Seq<u8>>) -> Option<Seq<Alpha>> {
    state_result(search_run(cipher, keys, dict))
}

/// The symbols of an optional key.
pub open spec fn key_view(k: Option<Vec<Alpha>>) -> Option<Seq<Alpha>> {
    match k {
        Some(v) => Some(v@),
        None => None,
    }
}

/// The symbols of each key of a list.
pub open spec fn keys_view(keys: Seq<Vec<Alpha>>) -> Seq<Seq<Alpha>> {
    keys.map_values(|k: Vec<Alpha>| k@)
}

/// Splitting always gives at least one piece.
pub proof fn lemma_split_bytes_nonempty(t: Seq<u8>, sep: u8)
    ensures
        split_bytes(t, sep).len() >= 1,
    decreases t.len(),
{
    if t.len() > 0 {
        lemma_split_bytes_nonempty(t.drop_last(), sep);
    }
}

proof fn lemma_count_valid_bound(words: Seq<Seq<u8>>, dict: Set<Seq<u8>>)
    ensures
        count_valid(words, dict) <= words.len(),
    decreases words.len(),
{
    if words.len() > 0 {
        lemma_count_valid_bound(words.drop_last(), dict);
    }
}

/// The number of words of a decrypted text and how many of them the
/// dictionary holds.
pub fn score(text: &[Alpha], dictionary: &Dictionary) -> (r: (usize, usize))
    requires
        text@.len() < usize::MAX,
    ensures
        (r.0 as nat, r.1 as nat) == text_score(text@, dictionary@),
{
    let ghost b = bytes_of(text@);
    let mut word: Vec<u8> = Vec::new();
    let mut total: usize = 1;
    let mut valid: usize = 0;
    let mut p: usize = 0;
    proof {
        assert(b.take(0) =~= Seq::<u8>::empty());
    }
    while p < text.len()
        invariant
            b == bytes_of(text@),
            text@.len() < usize::MAX,
            p <= text@.len(),
            split_words(b.take(p as int)).len() >= 1,
            total as nat == split_words(b.take(p as int)).len(),
            total <= p + 1,
            valid as nat == count_valid(split_words(b.take(p as int)).drop_last(), dictionary@),
            valid < total,
            word@ == split_words(b.take(p as int)).last(),
        decreases text@.len() - p,
    {
        let ghost before = split_words(b.take(p as int));
        let c = text[p].0;
        assert(b.take(p + 1).drop_last() =~= b.take(p as int));
        if c == SPACE {
            if dictionary.contains(word.as_slice()) {
                valid = valid + 1;
            }
            total = total + 1;
            word = Vec::new();
            assert(split_words(b.take(p + 1)).drop_last() =~= before);
        } else {
            word.push(c);
            assert(split_words(b.take(p + 1)).drop_last() =~= before.drop_last());
        }
        p = p + 1;
        proof {
            lemma_count_valid_bound(split_words(b.take(p as int)).drop_last(), dictionary@);
        }
    }
    assert(b.take(p as int) =~= b);
    if dictionary.contains(word.as_slice()) {
        valid = valid + 1;
    }
    (total, valid)
}

/// A search fed one candidate key at a time.
pub struct KeySearch {
    found: Option<Vec<Alpha>>,
    closest: Option<(Vec<Alpha>, usize)>,
}

/// How a search ended: with an exact match, with the best near match, or
/// with no match at all.
pub enum SearchOutcome {
    Exact(Vec<Alpha>),
    Near(Vec<Alpha>),
    NoMatch,
}

impl View for KeySearch {
    type V = SearchState;

    closed spec fn view(&self) -> SearchState {
        (
            key_view(self.found),
            match self.closest {
                Some((k, n)) => Some((k@, n as nat)),
                None => None,
            },
        )
    }
}

impl KeySearch {
    /// A search that has seen no candidate.
    pub fn new() -> (r: Self)
        ensures
            r@ == (None::<Seq<Alpha>>, None::<(Seq<Alpha>, nat)>),
    {
        KeySearch { found: None, closest: None }
    }

    /// Whether an exact match has been found.
    pub fn is_done(&self) -> (r: bool)
        ensures
            r == self@.0 is Some,
    {
        self.found.is_some()
    }

    /// Scores one more candidate against the cipher text; returns whether
    /// the search now holds an exact match.
    pub fn consider(&mut self, cipher: &[Alpha], key: &[Alpha], dictionary: &Dictionary) -> (r: bool)
        requires
            cipher@.len() < usize::MAX,
        ensures
            final(self)@ == search_step(old(self)@, cipher@, key@, dictionary@),
            r == final(self)@.0 is Some,
    {
        if self.found.is_some() || key.len() == 0 {
            return self.found.is_some();
        }
        let mut text = slice_to_vec(cipher);
        vigenere(key, text.as_mut_slice(), false);
        let (total_words, valid_words) = score(text.as_slice(), dictionary);
        if valid_words == total_words {
            self.found = Some(slice_to_vec(key));
            return true;
        }
        if valid_words > total_words / 2 {
            let better = match &self.closest {
                Some((_, best)) => valid_words > *best,
                None => true,
            };
            if better {
                self.closest = Some((slice_to_vec(key), valid_words));
            }
        }
        false
    }

    /// How the search ended.
    pub fn finish(self) -> (r: SearchOutcome)
        ensures
            match r {
                SearchOutcome::Exact(k) => self@.0 == Some(k@),
                SearchOutcome::Near(k) => self@.0 is None && state_result(self@) == Some(k@),
                SearchOutcome::NoMatch => state_result(self@) is None,
            },
    {
        match self.found {
            Some(k) => SearchOutcome::Exact(k),
            None => match self.closest {
                Some((k, _)) => SearchOutcome::Near(k),
                None => SearchOutcome::NoMatch,
            },
        }
    }
}

impl SearchOutcome {
    /// The key of an exact or near match.
    pub fn key(self) -> (r: Option<Vec<Alpha>>)
        ensures
            match self {
                SearchOutcome::Exact(k) => r == Some(k),
                SearchOutcome::Near(k) => r == Some(k),
                SearchOutcome::NoMatch => r is None,
            },
    {
        match self {
            SearchOutcome::Exact(k) => Some(k),
            SearchOutcome::Near(k) => Some(k),
            SearchOutcome::NoMatch => None,
        }
    }
}

/// The key, among `keys` taken in order, whose decryption of `cipher_text`
/// the dictionary holds entirely, or else the one with the most valid words
/// among those with more than half; the search stops at the first exact
/// match.
pub fn find_vigenere_key(cipher_text: &str, keys: &Vec<Vec<Alpha>>, dictionary: &Dictionary) -> (r: Option<Vec<Alpha>>)
    requires
        cipher_text.spec_bytes().len() < usize::MAX,
    ensures
        key_view(r) == search_result(alphas_of(cipher_text.spec_bytes()), keys_view(keys@), dictionary@),
{
    let cipher = Alpha::from_str(cipher_text);
    let mut search = KeySearch::new();
    let mut n: usize = 0;
    while n < keys.len()
        invariant
            n <= keys@.len(),
            cipher_text.spec_bytes().len() < usize::MAX,
            cipher@ == alphas_of(cipher_text.spec_bytes()),
            search@ == search_run(cipher@, keys_view(keys@).take(n as int), dictionary@),
        decreases keys@.len() - n,
    {
        assert(keys_view(keys@).take(n + 1).drop_last() =~= keys_view(keys@).take(n as int));
        if search.consider(cipher.as_slice(), keys[n].as_slice(), dictionary) {
            proof {
                lemma_found_stays(cipher@, keys_view(keys@), dictionary@, n + 1);
                assert(keys_view(keys@).take(keys@.len() as int) =~= keys_view(keys@));
            }
            n = keys.len();
        } else {
            n = n + 1;
        }
    }
    assert(keys_view(keys@).take(n as int) =~= keys_view(keys@));
    let r = search.finish().key();
    r
}

/// Once a prefix of the candidates holds an exact match, the candidates
/// after it change nothing.
pub proof fn lemma_found_stays(cipher: Seq<Alpha>, keys: Seq<Seq<Alpha>>, dict: Set<Seq<u8>>, m: int)
    requires
        0 <= m <= keys.len(),
        search_run(cipher, keys.take(m), dict).0 is Some,
    ensures
        search_run(cipher, keys, dict) == search_run(cipher, keys.take(m), dict),
    decreases keys.len() - m,
{
    if m < keys.len() {
        assert(keys.take(m + 1).drop_last() =~= keys.take(m));
        lemma_found_stays(cipher, keys, dict, m + 1);
    } else {
        assert(keys.take(m) =~= keys);
    }
}

/// Before the first exact match a search holds none.
proof fn lemma_no_exact_match(cipher: Seq<Alpha>, keys: Seq<Seq<Alpha>>, dict: Set<Seq<u8>>)
    requires
        forall|m: int| 0 <= m < keys.len() ==> !is_exact(cipher, #[trigger] keys[m], dict),
    ensures
        search_run(cipher, keys, dict).0 is None,
    decreases keys.len(),
{
    if keys.len() > 0 {
        let front = keys.drop_last();
        assert forall|m: int| 0 <= m < front.len() implies !is_exact(cipher, #[trigger] front[m], dict) by {
            assert(front[m] == keys[m]);
        }
        lemma_no_exact_match(cipher, front, dict);
        assert(!is_exact(cipher, keys[keys.len() - 1], dict));
    }
}

/// When the candidate at `n` is the first exact match, the search returns
/// it, and the candidates after it play no part.
pub proof fn lemma_exact_match_ends_search(
    cipher: Seq<Alpha>,
    keys: Seq<Seq<Alpha>>,
    dict: Set<Seq<u8>>,
    n: int,
)
    requires
        0 <= n < keys.len(),
        is_exact(cipher, keys[n], dict),
        forall|m: int| 0 <= m < n ==> !is_exact(cipher, #[trigger] keys[m], dict),
    ensures
        search_result(cipher, keys, dict) == Some(keys[n]),
        search_run(cipher, keys, dict) == search_run(cipher, keys.take(n + 1), dict),
{
    let front = keys.take(n);
    assert forall|m: int| 0 <= m < front.len() implies !is_exact(cipher, #[trigger] front[m], dict) by {
        assert(front[m] == keys[m]);
    }
    lemma_no_exact_match(cipher, front, dict);
    assert(keys.take(n + 1).drop_last() =~= front);
    lemma_found_stays(cipher, keys, dict, n + 1);
}

/// Of two candidates that are near matches with the same score, the search
/// keeps the one that comes first.
pub proof fn lemma_near_match_tie_keeps_first(
    cipher: Seq<Alpha>,
    first: Seq<Alpha>,
    second: Seq<Alpha>,
    dict: Set<Seq<u8>>,
)
    requires
        is_near(cipher, first, dict),
        !is_exact(cipher, first, dict),
        !is_exact(cipher, second, dict),
        key_score(cipher, first, dict) == key_score(cipher, second, dict),
    ensures
        search_result(cipher, seq![first, second], dict) == Some(first),
{
    let keys = seq![first, second];
    assert(keys.drop_last() =~= seq![first]);
    assert(seq![first].drop_last() =~= Seq::<Seq<Alpha>>::empty());
    reveal_with_fuel(search_run, 3);
}

proof fn lemma_count_valid_empty(words: Seq<Seq<u8>>)
    ensures
        count_valid(words, Set::empty()) == 0,
    decreases words.len(),
{
    if words.len() > 0 {
        lemma_count_valid_empty(words.drop_last());
    }
}

/// With an empty dictionary no candidate is an exact or a near match, so a
/// search over any candidates finds no key.
pub proof fn lemma_empty_dictionary_no_match(cipher: Seq<Alpha>, keys: Seq<Seq<Alpha>>)
    ensures
        search_run(cipher, keys, Set::empty()) == (None::<Seq<Alpha>>, None::<(Seq<Alpha>, nat)>),
        search_result(cipher, keys, Set::empty()) is None,
    decreases keys.len(),
{
    if keys.len() > 0 {
        lemma_empty_dictionary_no_match(cipher, keys.drop_last());
        let words = split_words(bytes_of(vigenere_spec(keys.last(), cipher, false)));
        lemma_split_bytes_nonempty(bytes_of(vigenere_spec(keys.last(), cipher, false)), SPACE);
        lemma_count_valid_empty(words);
    }
}

} // verus!
