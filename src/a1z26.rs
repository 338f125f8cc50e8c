//! The A1Z26 code: each letter written as its position in the alphabet,
//! the letters of a word joined by `-` and the words by spaces.
use vstd::prelude::*;
use vstd::string::StringSliceAdditionalSpecFns;
use crate::alpha::{bytes_of, lemma_ascii_utf8, Alpha, SPACE};
use crate::search::split_bytes;

verus! {

/// The byte that joins the numbers of one word.
pub const DASH: u8 = 45;

/// Whether `b` is an ASCII decimal digit.
pub open spec fn is_digit(b: u8) -> bool {
    48 <= b && b <= 57
}

/// The value of a sequence of decimal digits, most significant first.
pub open spec fn digits_value(d: Seq<u8>) -> int
    decreases d.len(),
{
    if d.len() == 0 {
        0
    } else {
        digits_value(d.drop_last()) * 10 + (d.last() - 48)
    }
}

/// Whether `p` starts with a `+` or `-` sign.
pub open spec fn has_sign(p: Seq<u8>) -> bool {
    p.len() > 0 && (p[0] == 43 || p[0] == 45)
}

/// The digits of a numeral, after its sign if it has one.
pub open spec fn unsigned_part(p: Seq<u8>) -> Seq<u8> {
    if has_sign(p) {
        p.drop_first()
    } else {
        p
    }
}

/// Whether `p` is a decimal numeral: an optional sign, then one or more
/// digits.
pub open spec fn is_numeral(p: Seq<u8>) -> bool {
    unsigned_part(p).len() > 0 && forall|i: int|
        0 <= i < unsigned_part(p).len() ==> is_digit(#[trigger] unsigned_part(p)[i])
}

/// The value of a decimal numeral.
pub open spec fn numeral_value(p: Seq<u8>) -> int {
    if p.len() > 0 && p[0] == 45 {
        -digits_value(unsigned_part(p))
    } else {
        digits_value(unsigned_part(p))
    }
}

/// Whether `p` is a numeral of an `i32` from which 1 can be taken.
pub open spec fn is_position(p: Seq<u8>) -> bool {
    is_numeral(p) && i32::MIN < numeral_value(p) <= i32::MAX
}

/// The letter of a word's numeral: the letter at that position of the
/// alphabet, counted from 1, or a space when there is none.
pub open spec fn position_letter(p: Seq<u8>) -> char {
    Alpha::of_num(numeral_value(p) - 1).0 as char
}

/// The letters of one word of the code.
pub open spec fn decode_word_spec(w: Seq<u8>) -> Seq<char> {
    split_bytes(w, DASH).map_values(|p: Seq<u8>| position_letter(p))
}

/// The non-empty words of a list, in order.
pub open spec fn nonempty_words(ws: Seq<Seq<u8>>) -> Seq<Seq<u8>>
    decreases ws.len(),
{
    if ws.len() == 0 {
        Seq::empty()
    } else if ws.last().len() > 0 {
        nonempty_words(ws.drop_last()).push(ws.last())
    } else {
        nonempty_words(ws.drop_last())
    }
}

/// The decoded words of a line: one for each non-empty word between
/// spaces.
pub open spec fn a1z26_spec(line: Seq<u8>) -> Seq<Seq<char>> {
    nonempty_words(split_bytes(line, SPACE)).map_values(|w: Seq<u8>| decode_word_spec(w))
}

/// Whether each piece between dashes of each non-empty word of a line is a
/// position numeral.
pub open spec fn a1z26_valid(line: Seq<u8>) -> bool {
    forall|i: int, j: int|
        0 <= i < split_bytes(line, SPACE).len() && split_bytes(line, SPACE)[i].len() > 0 && 0 <= j
            < split_bytes(split_bytes(line, SPACE)[i], DASH).len() ==> is_position(
            #[trigger] split_bytes(split_bytes(line, SPACE)[i], DASH)[j],
        )
}

/// The byte sequences of a list of byte vectors.
pub open spec fn byte_views(v: Seq<Vec<u8>>) -> Seq<Seq<u8>> {
    v.map_values(|x: Vec<u8>| x@)
}

/// The pieces of `t` between the bytes `sep`.
fn split_at_byte(t: &[u8], sep: u8) -> (r: Vec<Vec<u8>>)
    ensures
        byte_views(r@) == split_bytes(t@, sep),
{
    let mut pieces: Vec<Vec<u8>> = Vec::new();
    let mut cur: Vec<u8> = Vec::new();
    let mut p: usize = 0;
    assert(t@.take(0) =~= Seq::<u8>::empty());
    assert(byte_views(pieces@).push(cur@) =~= split_bytes(t@.take(0), sep));
    while p < t.len()
        invariant
            p <= t@.len(),
            byte_views(pieces@).push(cur@) == split_bytes(t@.take(p as int), sep),
        decreases t@.len() - p,
    {
        let ghost before = split_bytes(t@.take(p as int), sep);
        assert(t@.take(p + 1).drop_last() =~= t@.take(p as int));
        let b = t[p];
        if b == sep {
            pieces.push(cur);
            cur = Vec::new();
            assert(byte_views(pieces@) =~= before);
        } else {
            cur.push(b);
            assert(byte_views(pieces@).push(cur@) =~= before.update(
                before.len() - 1,
                before.last().push(b),
            ));
        }
        p = p + 1;
    }
    assert(t@.take(p as int) =~= t@);
    pieces.push(cur);
    assert(byte_views(pieces@) =~= split_bytes(t@, sep));
    pieces
}

proof fn lemma_digits_value_prefix(d: Seq<u8>, k: int)
    requires
        0 <= k <= d.len(),
        forall|i: int| 0 <= i < d.len() ==> is_digit(#[trigger] d[i]),
    ensures
        0 <= digits_value(d.take(k)) <= digits_value(d),
    decreases d.len(),
{
    if k == d.len() {
        assert(d.take(k) =~= d);
        if d.len() > 0 {
            lemma_digits_value_prefix(d.drop_last(), k - 1);
        }
    } else {
        lemma_digits_value_prefix(d.drop_last(), k);
        assert(d.drop_last().take(k) =~= d.take(k));
        lemma_digits_value_prefix(d.drop_last(), d.len() - 1);
        assert(d.drop_last().take(d.len() - 1) =~= d.drop_last());
    }
}

/// The value of a position numeral.
fn parse_position(p: &[u8]) -> (r: i32)
    requires
        is_position(p@),
    ensures
        r as int == numeral_value(p@),
{
    let ghost d = unsigned_part(p@);
    let negative = p[0] == 45;
    let start: usize = if p[0] == 43 || p[0] == 45 {
        1
    } else {
        0
    };
    proof {
        lemma_digits_value_prefix(d, d.len() as int);
    }
    let mut v: i64 = 0;
    let mut i: usize = 0;
    assert(d.take(0) =~= Seq::<u8>::empty());
    let d_len: usize = p.len() - start;
    while i < d_len
        invariant
            d_len as int == d.len(),
            is_position(p@),
            d == unsigned_part(p@),
            start as int + d.len() == p@.len(),
            forall|k: int| 0 <= k < d.len() ==> d[k] == p@[start + k],
            i <= d.len(),
            start + i <= p@.len(),
            v as int == digits_value(d.take(i as int)),
            digits_value(d) <= 2147483648,
        decreases d.len() - i,
    {
        proof {
            lemma_digits_value_prefix(d, i as int);
        }
        assert(d.take(i + 1).drop_last() =~= d.take(i as int));
        let b = p[start + i];
        assert(b == d[i as int]);
        assert(is_digit(unsigned_part(p@)[i as int]));
        v = v * 10 + (b - 48) as i64;
        i = i + 1;
    }
    assert(d.take(i as int) =~= d);
    if negative {
        (-v) as i32
    } else {
        v as i32
    }
}

/// The letters of one word of the code.
fn decode_word(w: &[u8]) -> (r: String)
    requires
        forall|j: int|
            0 <= j < split_bytes(w@, DASH).len() ==> is_position(#[trigger] split_bytes(w@, DASH)[j]),
    ensures
        r@ == decode_word_spec(w@),
{
    let pieces = split_at_byte(w, DASH);
    let ghost ps = split_bytes(w@, DASH);
    let mut letters: Vec<Alpha> = Vec::new();
    let mut i: usize = 0;
    while i < pieces.len()
        invariant
            byte_views(pieces@) == ps,
            ps == split_bytes(w@, DASH),
            forall|j: int| 0 <= j < ps.len() ==> is_position(#[trigger] ps[j]),
            i <= pieces@.len(),
            letters@.len() == i,
            forall|j: int|
                0 <= j < i ==> #[trigger] letters@[j] == Alpha::of_num(numeral_value(ps[j]) - 1),
        decreases pieces@.len() - i,
    {
        assert(pieces@[i as int]@ == ps[i as int]);
        let n = parse_position(pieces[i].as_slice());
        letters.push(Alpha::from_num(n - 1));
        i = i + 1;
    }
    let ghost bytes = bytes_of(letters@);
    proof {
        assert forall|k: int| 0 <= k < bytes.len() implies #[trigger] bytes[k] < 128 by {
            assert(letters@[k] == Alpha::of_num(numeral_value(ps[k]) - 1));
        }
        lemma_ascii_utf8(bytes);
        assert(bytes.map_values(|b: u8| b as char) =~= decode_word_spec(w@));
    }
    Alpha::to_str(letters.as_slice())
}

/// The words of a line of the A1Z26 code: every number between dashes
/// becomes the letter at that position of the alphabet, and a number
/// outside `1..=26` a space; empty words between spaces are left out.
pub fn a1z26_decode(line: &str) -> (r: Vec<String>)
    requires
        a1z26_valid(line.spec_bytes()),
    ensures
        r@.map_values(|s: String| s@) == a1z26_spec(line.spec_bytes()),
{
    let words = split_at_byte(line.as_bytes(), SPACE);
    let ghost ws = split_bytes(line.spec_bytes(), SPACE);
    let mut r: Vec<String> = Vec::new();
    let mut i: usize = 0;
    assert(ws.take(0) =~= Seq::<Seq<u8>>::empty());
    assert(r@.map_values(|s: String| s@) =~= nonempty_words(ws.take(0)).map_values(
        |w: Seq<u8>| decode_word_spec(w),
    ));
    while i < words.len()
        invariant
            byte_views(words@) == ws,
            ws == split_bytes(line.spec_bytes(), SPACE),
            a1z26_valid(line.spec_bytes()),
            i <= words@.len(),
            r@.map_values(|s: String| s@) == nonempty_words(ws.take(i as int)).map_values(
                |w: Seq<u8>| decode_word_spec(w),
            ),
        decreases words@.len() - i,
    {
        let ghost before = r@.map_values(|s: String| s@);
        assert(ws.take(i + 1).drop_last() =~= ws.take(i as int));
        assert(words@[i as int]@ == ws[i as int]);
        if words[i].len() > 0 {
            let word = decode_word(words[i].as_slice());
            r.push(word);
            assert(r@.map_values(|s: String| s@) =~= before.push(decode_word_spec(ws[i as int])));
        } else {
            assert(r@.map_values(|s: String| s@) =~= before);
        }
        i = i + 1;
    }
    assert(ws.take(i as int) =~= ws);
    r
}

} // verus!
