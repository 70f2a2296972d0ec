use vstd::prelude::*;

verus! {

/// How many times the number `v` occurs in `text`.
pub open spec fn count_of(text: Seq<u8>, v: int) -> int
    decreases text.len(),
{
    if text.len() == 0 {
        0
    } else {
        count_of(text.drop_last(), v) + if text.last() == v { 1int } else { 0int }
    }
}

/// The sum of `count * (count - 1)` over the letter numbers below `k`.
pub open spec fn coincidences(text: Seq<u8>, k: int) -> int
    decreases k,
{
    if k <= 0 {
        0
    } else {
        coincidences(text, k - 1) + count_of(text, k - 1) * (count_of(text, k - 1) - 1)
    }
}

/// The sum of the counts of the letter numbers below `k`.
pub open spec fn count_sum(text: Seq<u8>, k: int) -> int
    decreases k,
{
    if k <= 0 {
        0
    } else {
        count_sum(text, k - 1) + count_of(text, k - 1)
    }
}

/// Every entry is a letter number.
pub open spec fn all_letters(text: Seq<u8>) -> bool {
    forall|i: int| 0 <= i < text.len() ==> #[trigger] text[i] < 26
}

/// The index of coincidence scaled by 1000 and rounded half up:
/// `round(1000 * coincidences / (n * (n - 1) / 26))`.
pub open spec fn ioc_spec(text: Seq<u8>) -> int {
    let n = text.len() as int;
    let d = n * (n - 1);
    (52000 * coincidences(text, 26) + d) / (2 * d)
}

proof fn lemma_count_push(text: Seq<u8>, x: u8, v: int)
    ensures
        count_of(text.push(x), v) == count_of(text, v) + if x == v { 1int } else { 0int },
{
    assert(text.push(x).drop_last() =~= text);
}

proof fn lemma_count_bounds(text: Seq<u8>, v: int)
    ensures
        0 <= count_of(text, v) <= text.len(),
    decreases text.len(),
{
    if text.len() > 0 {
        lemma_count_bounds(text.drop_last(), v);
    }
}

proof fn lemma_count_sum_push(text: Seq<u8>, x: u8, k: int)
    requires
        0 <= k,
    ensures
        count_sum(text.push(x), k) == count_sum(text, k) + if x < k { 1int } else { 0int },
    decreases k,
{
    if k > 0 {
        lemma_count_sum_push(text, x, k - 1);
        lemma_count_push(text, x, k - 1);
    }
}

proof fn lemma_count_sum_empty(text: Seq<u8>, k: int)
    requires
        text.len() == 0,
        0 <= k,
    ensures
        count_sum(text, k) == 0,
    decreases k,
{
    if k > 0 {
        lemma_count_sum_empty(text, k - 1);
    }
}

/// The counts of the 26 letter numbers add up to the length of a text of letters.
proof fn lemma_count_sum_len(text: Seq<u8>)
    requires
        all_letters(text),
    ensures
        count_sum(text, 26) == text.len(),
    decreases text.len(),
{
    if text.len() == 0 {
        lemma_count_sum_empty(text, 26);
    } else {
        let init = text.drop_last();
        assert(all_letters(init)) by {
            assert forall|i: int| 0 <= i < init.len() implies #[trigger] init[i] < 26 by {
                assert(init[i] == text[i]);
            }
        }
        lemma_count_sum_len(init);
        let x = text[text.len() - 1];
        assert(x < 26);
        assert(init.push(x) =~= text);
        lemma_count_sum_push(init, x, 26);
        assert(count_sum(init.push(x), 26) == count_sum(init, 26) + 1);
    }
}

proof fn lemma_coincidences_bound(text: Seq<u8>, k: int)
    requires
        0 <= k,
    ensures
        0 <= coincidences(text, k) <= count_sum(text, k) * (text.len() - 1),
        0 <= count_sum(text, k),
    decreases k,
{
    if k > 0 {
        lemma_coincidences_bound(text, k - 1);
        lemma_count_bounds(text, k - 1);
        let c = count_of(text, k - 1);
        let n = text.len() as int;
        assert(c * (c - 1) <= c * (n - 1)) by (nonlinear_arith)
            requires
                0 <= c <= n,
        ;
        assert(0 <= c * (c - 1)) by (nonlinear_arith)
            requires
                0 <= c,
        ;
        assert(count_sum(text, k) * (n - 1) == count_sum(text, k - 1) * (n - 1) + c * (n - 1))
            by (nonlinear_arith)
            requires
                count_sum(text, k) == count_sum(text, k - 1) + c,
        ;
    }
}

/// No text of letters has more coincidences than pairs of positions.
pub proof fn lemma_coincidences_at_most_pairs(text: Seq<u8>)
    requires
        all_letters(text),
    ensures
        0 <= coincidences(text, 26) <= text.len() * (text.len() - 1),
{
    lemma_count_sum_len(text);
    lemma_coincidences_bound(text, 26);
}

/// The score of a text of two or more letters lies between 0 and 26000,
/// and a text of one letter repeated reaches 26000.
pub proof fn lemma_ioc_range(text: Seq<u8>)
    requires
        all_letters(text),
        text.len() >= 2,
    ensures
        0 <= ioc_spec(text) <= 26000,
        (forall|i: int| 0 <= i < text.len() ==> #[trigger] text[i] == text[0]) ==> ioc_spec(text)
            == 26000,
{
    lemma_coincidences_at_most_pairs(text);
    let n = text.len() as int;
    let d = n * (n - 1);
    let c = coincidences(text, 26);
    assert(d >= 2) by (nonlinear_arith)
        requires
            n >= 2,
            d == n * (n - 1),
    ;
    assert((52000 * c + d) / (2 * d) <= 26000) by (nonlinear_arith)
        requires
            0 <= c <= d,
            d >= 2,
    ;
    assert(0 <= (52000 * c + d) / (2 * d)) by (nonlinear_arith)
        requires
            0 <= c,
            d >= 2,
    ;
    if forall|i: int| 0 <= i < text.len() ==> #[trigger] text[i] == text[0] {
        lemma_single_letter(text, text[0], 26);
        assert(c == d);
        assert((52000 * d + d) / (2 * d) == 26000) by (nonlinear_arith)
            requires
                d >= 2,
        ;
    }
}

proof fn lemma_count_constant(text: Seq<u8>, x: u8, v: int)
    requires
        forall|i: int| 0 <= i < text.len() ==> #[trigger] text[i] == x,
    ensures
        count_of(text, v) == if x == v { text.len() as int } else { 0int },
    decreases text.len(),
{
    if text.len() > 0 {
        let init = text.drop_last();
        assert forall|i: int| 0 <= i < init.len() implies #[trigger] init[i] == x by {
            assert(init[i] == text[i]);
        }
        lemma_count_constant(init, x, v);
        assert(text[text.len() - 1] == x);
    }
}

proof fn lemma_single_letter(text: Seq<u8>, x: u8, k: int)
    requires
        forall|i: int| 0 <= i < text.len() ==> #[trigger] text[i] == x,
        x < 26,
        0 <= k <= 26,
    ensures
        coincidences(text, k) == if x < k { text.len() * (text.len() - 1) } else { 0int },
    decreases k,
{
    if k > 0 {
        lemma_single_letter(text, x, k - 1);
        lemma_count_constant(text, x, k - 1);
    }
}

/// A text in which each of the 26 letters occurs exactly `m` times has
/// `26 * m * (m - 1)` coincidences; with each letter once the score is 0.
pub proof fn lemma_ioc_uniform(text: Seq<u8>, m: int)
    requires
        forall|v: int| 0 <= v < 26 ==> #[trigger] count_of(text, v) == m,
        text.len() >= 2,
    ensures
        coincidences(text, 26) == 26 * m * (m - 1),
        m == 1 ==> ioc_spec(text) == 0,
{
    lemma_uniform_sum(text, m, 26);
    if m == 1 {
        let n = text.len() as int;
        let d = n * (n - 1);
        assert(d >= 2) by (nonlinear_arith)
            requires
                n >= 2,
                d == n * (n - 1),
        ;
        assert(26 * m * (m - 1) == 0) by (nonlinear_arith)
            requires
                m == 1,
        ;
        assert(coincidences(text, 26) == 0);
        assert((52000 * 0 + d) / (2 * d) == 0) by (nonlinear_arith)
            requires
                d >= 2,
        ;
    }
}

proof fn lemma_uniform_sum(text: Seq<u8>, m: int, k: int)
    requires
        forall|v: int| 0 <= v < 26 ==> #[trigger] count_of(text, v) == m,
        0 <= k <= 26,
    ensures
        coincidences(text, k) == k * m * (m - 1),
    decreases k,
{
    if k > 0 {
        lemma_uniform_sum(text, m, k - 1);
        assert(count_of(text, k - 1) == m);
        let c = count_of(text, k - 1);
        assert(c * (c - 1) == m * (m - 1));
        assert(coincidences(text, k) == coincidences(text, k - 1) + c * (c - 1));
        assert(k * m * (m - 1) == (k - 1) * m * (m - 1) + m * (m - 1)) by (nonlinear_arith);
    } else {
        assert(k * m * (m - 1) == 0) by (nonlinear_arith)
            requires
                k == 0,
        ;
    }
}

/// The index-of-coincidence score of a text of letter numbers, or `None`
/// for a text of fewer than two letters, where it is undefined.
pub fn ioc_of_letters(text: &Vec<u8>) -> (r: Option<i32>)
    requires
        all_letters(text@),
        text@.len() <= u32::MAX,
    ensures
        text@.len() <= 1 ==> r is None,
        text@.len() >= 2 ==> r == Some(ioc_spec(text@) as i32) && 0 <= ioc_spec(text@) <= 26000,
{
    let n: usize = text.len();
    if n <= 1 {
        return None;
    }
    let mut hist: [u64; 26] = [0u64; 26];
    let mut i: usize = 0;
    while i < n
        invariant
            n == text@.len(),
            n <= u32::MAX,
            all_letters(text@),
            i <= n,
            forall|v: int| 0 <= v < 26 ==> #[trigger] hist@[v] == count_of(text@.take(i as int), v),
        decreases n - i,
    {
        let c = text[i];
        proof {
            assert(text@.take(i + 1) =~= text@.take(i as int).push(c));
            assert forall|v: int| 0 <= v < 26 implies #[trigger] count_of(text@.take(i + 1), v)
                == count_of(text@.take(i as int), v) + if c == v { 1int } else { 0int } by {
                lemma_count_push(text@.take(i as int), c, v);
            }
            lemma_count_bounds(text@.take(i as int), c as int);
            assert(hist@[c as int] == count_of(text@.take(i as int), c as int));
            assert(text@.take(i as int).len() == i);
        }
        hist[c as usize] = hist[c as usize] + 1;
        i = i + 1;
    }
    proof {
        assert(text@.take(n as int) =~= text@);
    }
    let mut numerator: u128 = 0;
    let mut v: usize = 0;
    while v < 26
        invariant
            n == text@.len(),
            n <= u32::MAX,
            v <= 26,
            forall|k: int| 0 <= k < 26 ==> #[trigger] hist@[k] == count_of(text@, k),
            numerator == coincidences(text@, v as int),
            numerator <= v * (n as int) * (n as int),
        decreases 26 - v,
    {
        let h: u128 = hist[v] as u128;
        proof {
            lemma_count_bounds(text@, v as int);
            assert(h * h <= (n as int) * (n as int)) by (nonlinear_arith)
                requires
                    h <= n,
            ;
            assert(h * (h - 1) <= h * h) by (nonlinear_arith)
                requires
                    h >= 0,
            ;
            assert((v + 1) * (n as int) * (n as int) == v * (n as int) * (n as int) + (n as int) * (n as int))
                by (nonlinear_arith);
            assert((v + 1) * (n as int) * (n as int) <= 26 * 0xffff_ffff * 0xffff_ffffu128) by (nonlinear_arith)
                requires
                    v + 1 <= 26,
                    n <= 0xffff_ffff,
            ;
        }
        if h > 0 {
            numerator = numerator + h * (h - 1);
        } else {
            proof {
            let vi = v as int;
            let c = count_of(text@, vi);
            assert(c == 0);
            assert(coincidences(text@, vi + 1) == coincidences(text@, vi) + c * (c - 1));
            assert(c * (c - 1) == 0) by (nonlinear_arith)
                requires
                    c == 0,
            ;
            }
        }
        v = v + 1;
    }
    let nn: u128 = n as u128;
    proof {
        lemma_coincidences_at_most_pairs(text@);
        lemma_ioc_range(text@);
        assert(nn * (nn - 1) <= nn * nn) by (nonlinear_arith)
            requires
                nn >= 2,
        ;
        assert(nn * nn <= 0xffff_ffff * 0xffff_ffffu128) by (nonlinear_arith)
            requires
                nn <= 0xffff_ffff,
        ;
    }
    let d: u128 = nn * (nn - 1);
    proof {
        assert(d >= 2) by (nonlinear_arith)
            requires
                nn >= 2,
                d == nn * (nn - 1),
        ;
    }
    let score: u128 = (52000 * numerator + d) / (2 * d);
    Some(score as i32)
}

} // verus!
