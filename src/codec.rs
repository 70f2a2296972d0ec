use vstd::prelude::*;
use vstd::set_lib::{lemma_int_range, lemma_map_size, lemma_subset_equality, set_int_range};

verus! {

/// Number of letters in the machine's alphabet.
pub const CHARSET_SIZE: u8 = 26;

/// Code point of `'A'`, the letter numbered 0.
pub const BASE_CHAR: u8 = 65;

/// An upper-case letter `A`..=`Z`.
pub open spec fn is_letter(c: char) -> bool {
    65 <= (c as u32) && (c as u32) <= 90
}

/// The number 0..=25 of an upper-case letter.
pub open spec fn letter_index(c: char) -> int {
    (c as u32) - 65
}

/// The upper-case letter numbered `n` (0..=25).
pub open spec fn letter_of(n: u8) -> char {
    ((n + 65) as u8) as char
}

/// `letter_of` names the letter of each number 0..=25.
pub proof fn lemma_letter_of(n: u8)
    requires
        n < 26,
    ensures
        is_letter(letter_of(n)),
        letter_index(letter_of(n)) == n,
{
}

/// A table of 26 entries that maps 0..=25 one-to-one onto 0..=25.
pub open spec fn is_permutation(p: Seq<u8>) -> bool {
    &&& p.len() == 26
    &&& forall|i: int| 0 <= i < 26 ==> #[trigger] p[i] < 26
    &&& forall|i: int, j: int| 0 <= i < 26 && 0 <= j < 26 && i != j ==> #[trigger] p[i] != #[trigger] p[j]
}

/// `q` undoes `p` and `p` undoes `q`.
pub open spec fn is_inverse(p: Seq<u8>, q: Seq<u8>) -> bool {
    &&& p.len() == 26
    &&& q.len() == 26
    &&& forall|i: int| 0 <= i < 26 ==> #[trigger] p[i] < 26 && q[p[i] as int] == i
    &&& forall|i: int| 0 <= i < 26 ==> #[trigger] q[i] < 26 && p[q[i] as int] == i
}

/// Every value 0..=25 occurs in a permutation table.
pub proof fn lemma_permutation_onto(p: Seq<u8>, j: int)
    requires
        is_permutation(p),
        0 <= j < 26,
    ensures
        exists|i: int| 0 <= i < 26 && #[trigger] p[i] == j,
{
    let x = set_int_range(0, 26);
    let f = |i: int| p[i] as int;
    let y = x.map(f);
    lemma_int_range(0, 26);
    assert(vstd::relations::injective_on(f, x)) by {
        assert forall|a: int, b: int| x.contains(a) && x.contains(b) && #[trigger] f(a) == #[trigger] f(b) implies a == b by {
            if a != b {
                assert(p[a] != p[b]);
            }
        }
    }
    lemma_map_size(x, y, f);
    assert(y.subset_of(x)) by {
        assert forall|v: int| y.contains(v) implies x.contains(v) by {
            let i = choose|i: int| x.contains(i) && f(i) == v;
            assert(p[i] < 26);
        }
    }
    lemma_subset_equality(y, x);
    assert(x.contains(j));
    assert(y.contains(j));
    let i = choose|i: int| x.contains(i) && f(i) == j;
    assert(p[i] == j);
}

/// Inverting a permutation twice gives the permutation back.
pub proof fn lemma_inverse_of_inverse(p: Seq<u8>, q: Seq<u8>, r: Seq<u8>)
    requires
        is_permutation(p),
        is_inverse(p, q),
        is_inverse(q, r),
    ensures
        r == p,
{
    assert forall|i: int| 0 <= i < 26 implies r[i] == p[i] by {
        let j = p[i] as int;
        assert(q[j] == i);
        assert(r[q[j] as int] == j);
    }
    assert(r =~= p);
}

/// Decoding the number of a letter gives the letter back: the only letter
/// with that number is the letter itself.
pub proof fn lemma_letter_round_trip(c: char, d: char)
    requires
        is_letter(c),
        is_letter(d),
        letter_index(d) == letter_index(c),
    ensures
        d == c,
{
    assert(d as u32 == c as u32);
}

/// The number of an upper-case letter.
pub fn c2n(character: char) -> (r: u8)
    requires
        is_letter(character),
    ensures
        r == letter_index(character),
{
    ((character as u32) - (BASE_CHAR as u32)) as u8
}

/// The upper-case letter of a number 0..=25.
pub fn n2c(number: u8) -> (r: char)
    requires
        number < 26,
    ensures
        is_letter(r),
        letter_index(r) == number,
        r == letter_of(number),
{
    (number + BASE_CHAR) as char
}

/// Relies on `str::chars` and `Iterator::collect`: the characters of `s` in order.
#[verifier::external_body]
pub(crate) fn chars_of(s: &str) -> (r: Vec<char>)
    ensures
        r@ == s@,
{
    s.chars().collect()
}

/// The numbers of the first 26 letters of `string`.
pub fn c2narray_arr26(string: &str) -> (r: [u8; 26])
    requires
        string@.len() == 26,
        forall|i: int| 0 <= i < 26 ==> is_letter(#[trigger] string@[i]),
    ensures
        forall|i: int| 0 <= i < 26 ==> #[trigger] r@[i] == letter_index(string@[i]),
{
    let chars = chars_of(string);
    let mut output: [u8; 26] = [0u8; 26];
    let mut i: usize = 0;
    while i < 26
        invariant
            chars@ == string@,
            string@.len() == 26,
            forall|k: int| 0 <= k < 26 ==> is_letter(#[trigger] string@[k]),
            i <= 26,
            forall|k: int| 0 <= k < i ==> #[trigger] output@[k] == letter_index(string@[k]),
        decreases 26 - i,
    {
        let c = chars[i];
        output[i] = c2n(c);
        i = i + 1;
    }
    output
}

/// The inverse of a permutation table: `inv[arr[i]] == i`.
pub fn inv_mapping_arr26(arr: [u8; 26]) -> (inv: [u8; 26])
    requires
        is_permutation(arr@),
    ensures
        is_inverse(arr@, inv@),
        is_permutation(inv@),
{
    let mut inv: [u8; 26] = [0u8; 26];
    let mut i: usize = 0;
    while i < 26
        invariant
            is_permutation(arr@),
            i <= 26,
            inv@.len() == 26,
            forall|k: int| 0 <= k < i ==> #[trigger] inv@[arr@[k] as int] == k,
        decreases 26 - i,
    {
        inv[arr[i] as usize] = i as u8;
        i = i + 1;
    }
    proof {
        assert forall|j: int| 0 <= j < 26 implies #[trigger] inv@[j] < 26 && arr@[inv@[j] as int] == j by {
            lemma_permutation_onto(arr@, j);
            let k = choose|k: int| 0 <= k < 26 && #[trigger] arr@[k] == j;
            assert(inv@[arr@[k] as int] == k);
        }
        assert forall|a: int, b: int| 0 <= a < 26 && 0 <= b < 26 && a != b implies #[trigger] inv@[a] != #[trigger] inv@[b] by {
            assert(arr@[inv@[a] as int] == a);
            assert(arr@[inv@[b] as int] == b);
        }
    }
    inv
}

} // verus!
