//! The Vigenère transform: each letter of a text is combined with the next
//! symbol of a repeating key, while separators pass through and leave the
//! key where it is.
use vstd::prelude::*;
use crate::alpha::Alpha;

verus! {

/// How many letters `text` holds.
pub open spec fn count_letters(text: Seq<Alpha>) -> nat
    decreases text.len(),
{
    if text.len() == 0 {
        0
    } else {
        count_letters(text.drop_last()) + if text.last().is_letter() {
            1nat
        } else {
            0nat
        }
    }
}

/// One letter combined with one key symbol: addition to encrypt,
/// subtraction to decrypt.
pub open spec fn combine(c: Alpha, k: Alpha, encrypt: bool) -> Alpha {
    if encrypt {
        c.plus(k)
    } else {
        c.minus(k)
    }
}

/// The text after the transform: the letter at position `p` is combined
/// with the key symbol at the number of letters before `p`, modulo the key's
/// length; every separator stays as it was.
pub open spec fn vigenere_spec(key: Seq<Alpha>, text: Seq<Alpha>, encrypt: bool) -> Seq<Alpha> {
    Seq::new(
        text.len(),
        |p: int|
            if text[p].is_letter() {
                combine(text[p], key[count_letters(text.take(p)) as int % key.len() as int], encrypt)
            } else {
                text[p]
            },
    )
}

/// Whether every symbol of the key is a letter.
pub open spec fn is_letter_key(key: Seq<Alpha>) -> bool {
    forall|j: int| 0 <= j < key.len() ==> #[trigger] key[j].is_letter()
}

/// Encrypts (`encrypt`) or decrypts `text` in place with the repeating `key`.
pub fn vigenere(key: &[Alpha], text: &mut [Alpha], encrypt: bool)
    requires
        key@.len() > 0,
    ensures
        final(text)@ == vigenere_spec(key@, old(text)@, encrypt),
{
    let ghost orig = text@;
    let mut i: usize = 0;
    let mut p: usize = 0;
    while p < text.len()
        invariant
            key@.len() > 0,
            text@.len() == orig.len(),
            p <= orig.len(),
            i <= p,
            i == count_letters(orig.take(p as int)),
            forall|q: int| 0 <= q < p ==> text@[q] == #[trigger] vigenere_spec(key@, orig, encrypt)[q],
            forall|q: int| p <= q < orig.len() ==> text@[q] == orig[q],
        decreases orig.len() - p,
    {
        let c = text[p];
        assert(orig.take(p + 1).drop_last() =~= orig.take(p as int));
        if c.to_num().is_some() {
            let key_c = key[i % key.len()];
            if encrypt {
                text[p] = c.add(key_c);
            } else {
                text[p] = c.sub(key_c);
            }
            i = i + 1;
        }
        p = p + 1;
    }
    assert(text@ =~= vigenere_spec(key@, orig, encrypt));
}

/// Ring addition and subtraction of two letters give a letter, and each
/// undoes the other.
pub proof fn lemma_ring_closure(a: Alpha, b: Alpha)
    requires
        a.is_letter(),
        b.is_letter(),
    ensures
        a.plus(b).is_letter(),
        a.minus(b).is_letter(),
        a.plus(b).minus(b) == a,
        a.minus(b).plus(b) == a,
{
}

/// Counting letters distributes over concatenation.
pub proof fn lemma_count_letters_concat(a: Seq<Alpha>, b: Seq<Alpha>)
    ensures
        count_letters(a + b) == count_letters(a) + count_letters(b),
    decreases b.len(),
{
    if b.len() == 0 {
        assert(a + b =~= a);
    } else {
        lemma_count_letters_concat(a, b.drop_last());
        assert((a + b).drop_last() =~= a + b.drop_last());
    }
}

/// Two texts with letters at the same positions hold as many letters.
proof fn lemma_count_letters_same_shape(a: Seq<Alpha>, b: Seq<Alpha>)
    requires
        a.len() == b.len(),
        forall|p: int| 0 <= p < a.len() ==> #[trigger] a[p].is_letter() == b[p].is_letter(),
    ensures
        count_letters(a) == count_letters(b),
    decreases a.len(),
{
    if a.len() > 0 {
        lemma_count_letters_same_shape(a.drop_last(), b.drop_last());
    }
}

/// Decrypting with a key of letters undoes encrypting with it, separators
/// included.
pub proof fn lemma_round_trip(key: Seq<Alpha>, text: Seq<Alpha>)
    requires
        key.len() > 0,
        is_letter_key(key),
    ensures
        vigenere_spec(key, vigenere_spec(key, text, true), false) == text,
{
    let e = vigenere_spec(key, text, true);
    assert forall|p: int| 0 <= p < text.len() implies #[trigger] e[p].is_letter() == text[p].is_letter() by {
        if text[p].is_letter() {
            let j = count_letters(text.take(p)) as int % key.len() as int;
            lemma_ring_closure(text[p], key[j]);
        }
    }
    assert forall|p: int| 0 <= p < text.len() implies #[trigger] vigenere_spec(key, e, false)[p] == text[p] by {
        lemma_count_letters_same_shape(e.take(p), text.take(p));
        if text[p].is_letter() {
            let j = count_letters(text.take(p)) as int % key.len() as int;
            lemma_ring_closure(text[p], key[j]);
        }
    }
    assert(vigenere_spec(key, e, false) =~= text);
}

/// A separator inserted anywhere in a text comes out unchanged at its
/// position, and the key symbols used for every letter stay the same.
pub proof fn lemma_separator_transparency(
    key: Seq<Alpha>,
    text: Seq<Alpha>,
    i: int,
    sep: Alpha,
    encrypt: bool,
)
    requires
        key.len() > 0,
        0 <= i <= text.len(),
        !sep.is_letter(),
    ensures
        vigenere_spec(key, text.insert(i, sep), encrypt) == vigenere_spec(key, text, encrypt).insert(
            i,
            sep,
        ),
{
    let t = text.insert(i, sep);
    let lhs = vigenere_spec(key, t, encrypt);
    let rhs = vigenere_spec(key, text, encrypt).insert(i, sep);
    assert forall|p: int| 0 <= p < t.len() implies #[trigger] lhs[p] == rhs[p] by {
        if p < i {
            assert(t.take(p) =~= text.take(p));
            assert(t[p] == text[p]);
            assert(rhs[p] == vigenere_spec(key, text, encrypt)[p]);
        } else if p > i {
            assert(t.take(p) =~= text.take(i) + seq![sep] + text.subrange(i, p - 1));
            assert(text.take(p - 1) =~= text.take(i) + text.subrange(i, p - 1));
            lemma_count_letters_concat(text.take(i), seq![sep]);
            lemma_count_letters_concat(text.take(i) + seq![sep], text.subrange(i, p - 1));
            lemma_count_letters_concat(text.take(i), text.subrange(i, p - 1));
            assert(seq![sep].drop_last() =~= Seq::<Alpha>::empty());
            reveal_with_fuel(count_letters, 2);
            assert(count_letters(seq![sep]) == 0);
            assert(count_letters(t.take(p)) == count_letters(text.take(p - 1)));
            assert(t[p] == text[p - 1]);
            assert(rhs[p] == vigenere_spec(key, text, encrypt)[p - 1]);
        } else {
            assert(t[p] == sep);
            assert(rhs[p] == sep);
        }
    }
    assert(lhs =~= rhs);
}

} // verus!
