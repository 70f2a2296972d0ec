use vstd::prelude::*;
use crate::codec::{c2n, chars_of, is_letter, lemma_letter_of, letter_index, letter_of, n2c};
use crate::machine::{
    lemma_configured_unique, letter_pairs, run, steps, unplugged, Enigma, ROTOR_DESIGNS,
};
use crate::score::{all_letters, ioc_of_letters, ioc_spec};

verus! {

/// `t` holds three numbers drawn from `0..n` (from `1..=n` when
/// `base_one`), pairwise distinct unless `repeat`.
pub open spec fn valid_triple(t: Seq<int>, n: int, repeat: bool, base_one: bool) -> bool {
    let offset = if base_one { 1int } else { 0int };
    &&& t.len() == 3
    &&& offset <= t[0] < n + offset
    &&& offset <= t[1] < n + offset
    &&& offset <= t[2] < n + offset
    &&& (repeat || (t[0] != t[1] && t[0] != t[2] && t[1] != t[2]))
}

/// Lexicographic order of triples.
pub open spec fn lex_less(a: Seq<int>, b: Seq<int>) -> bool {
    a[0] < b[0] || (a[0] == b[0] && (a[1] < b[1] || (a[1] == b[1] && a[2] < b[2])))
}

pub open spec fn triple_view(t: [u8; 3]) -> Seq<int> {
    seq![t[0] as int, t[1] as int, t[2] as int]
}

/// All triples of `0..n` (or `1..=n` when `base_one`), with or without
/// repeats, in increasing lexicographic order.
pub fn n_choose_three(n: u8, repeat: bool, base_one: bool) -> (configs: Vec<[u8; 3]>)
    ensures
        forall|x: int| 0 <= x < configs@.len() ==> valid_triple(triple_view(#[trigger] configs@[x]), n as int, repeat, base_one),
        forall|x: int, y: int| 0 <= x < y < configs@.len() ==> lex_less(triple_view(#[trigger] configs@[x]), triple_view(#[trigger] configs@[y])),
        forall|t: Seq<int>| #[trigger] valid_triple(t, n as int, repeat, base_one) ==> exists|x: int| 0 <= x < configs@.len() && triple_view(#[trigger] configs@[x]) == t,
{
    let ghost off: int = if base_one { 1int } else { 0int };
    let mut configs: Vec<[u8; 3]> = Vec::new();
    let mut i: u8 = 0;
    while i < n
        invariant
            i <= n,
            off == if base_one { 1int } else { 0int },
            forall|x: int| 0 <= x < configs@.len() ==> valid_triple(triple_view(#[trigger] configs@[x]), n as int, repeat, base_one),
            forall|x: int| 0 <= x < configs@.len() ==> triple_view(#[trigger] configs@[x])[0] < i + off,
            forall|x: int, y: int| 0 <= x < y < configs@.len() ==> lex_less(triple_view(#[trigger] configs@[x]), triple_view(#[trigger] configs@[y])),
            forall|t: Seq<int>| #[trigger] valid_triple(t, n as int, repeat, base_one) && t[0] < i + off ==> exists|x: int| 0 <= x < configs@.len() && triple_view(#[trigger] configs@[x]) == t,
        decreases n - i,
    {
        let mut j: u8 = 0;
        while j < n
            invariant
                i < n,
                j <= n,
                off == if base_one { 1int } else { 0int },
                forall|x: int| 0 <= x < configs@.len() ==> valid_triple(triple_view(#[trigger] configs@[x]), n as int, repeat, base_one),
                forall|x: int| 0 <= x < configs@.len() ==> lex_less(triple_view(#[trigger] configs@[x]), seq![i + off, j + off, 0]),
                forall|x: int, y: int| 0 <= x < y < configs@.len() ==> lex_less(triple_view(#[trigger] configs@[x]), triple_view(#[trigger] configs@[y])),
                forall|t: Seq<int>| #[trigger] valid_triple(t, n as int, repeat, base_one) && lex_less(t, seq![i + off, j + off, 0]) ==> exists|x: int| 0 <= x < configs@.len() && triple_view(#[trigger] configs@[x]) == t,
            decreases n - j,
        {
            if repeat || i != j {
                let mut k: u8 = 0;
                while k < n
                    invariant
                        i < n,
                        j < n,
                        k <= n,
                        repeat || i != j,
                        off == if base_one { 1int } else { 0int },
                        forall|x: int| 0 <= x < configs@.len() ==> valid_triple(triple_view(#[trigger] configs@[x]), n as int, repeat, base_one),
                        forall|x: int| 0 <= x < configs@.len() ==> lex_less(triple_view(#[trigger] configs@[x]), seq![i + off, j + off, k + off]),
                        forall|x: int, y: int| 0 <= x < y < configs@.len() ==> lex_less(triple_view(#[trigger] configs@[x]), triple_view(#[trigger] configs@[y])),
                        forall|t: Seq<int>| #[trigger] valid_triple(t, n as int, repeat, base_one) && lex_less(t, seq![i + off, j + off, k + off]) ==> exists|x: int| 0 <= x < configs@.len() && triple_view(#[trigger] configs@[x]) == t,
                    decreases n - k,
                {
                    if repeat || (k != j && k != i) {
                        let t: [u8; 3] = if base_one { [i + 1, j + 1, k + 1] } else { [i, j, k] };
                        let ghost old_configs = configs@;
                        configs.push(t);
                        proof {
                            assert(triple_view(t) =~= seq![i + off, j + off, k + off]);
                            assert forall|x: int| 0 <= x < old_configs.len() implies configs@[x] == old_configs[x] by {}
                            assert forall|s: Seq<int>| #[trigger] valid_triple(s, n as int, repeat, base_one) && lex_less(s, seq![i + off, j + off, k + 1 + off]) implies exists|x: int| 0 <= x < configs@.len() && triple_view(#[trigger] configs@[x]) == s by {
                                if lex_less(s, seq![i + off, j + off, k + off]) {
                                    let x = choose|x: int| 0 <= x < old_configs.len() && triple_view(#[trigger] old_configs[x]) == s;
                                    assert(configs@[x] == old_configs[x]);
                                } else {
                                    assert(s =~= seq![i + off, j + off, k + off]);
                                    assert(configs@[old_configs.len() as int] == t);
                                }
                            }
                        }
                    } else {
                        proof {
                            assert forall|s: Seq<int>| #[trigger] valid_triple(s, n as int, repeat, base_one) && lex_less(s, seq![i + off, j + off, k + 1 + off]) implies lex_less(s, seq![i + off, j + off, k + off]) by {}
                        }
                    }
                    k = k + 1;
                }
                proof {
                    assert forall|s: Seq<int>| #[trigger] valid_triple(s, n as int, repeat, base_one) && lex_less(s, seq![i + off, j + 1 + off, 0]) implies lex_less(s, seq![i + off, j + off, n + off]) by {}
                }
            } else {
                proof {
                    assert forall|s: Seq<int>| #[trigger] valid_triple(s, n as int, repeat, base_one) && lex_less(s, seq![i + off, j + 1 + off, 0]) implies lex_less(s, seq![i + off, j + off, 0]) by {}
                }
            }
            j = j + 1;
        }
        proof {
            assert forall|s: Seq<int>| #[trigger] valid_triple(s, n as int, repeat, base_one) && s[0] < i + 1 + off implies lex_less(s, seq![i + off, n + off, 0]) by {}
        }
        i = i + 1;
    }
    configs
}


/// Rotor positions at which every search starts.
pub const INIT_POSITIONS: [u8; 3] = [1u8, 1u8, 1u8];

/// Reflector used by the search.
pub const DEFAULT_REFLECTOR: char = 'B';

/// Candidates kept after the rotor and ring search.
pub const STORE_TOP_RESULTS: usize = 5;

/// Score above which the plugboard search stops early.
pub const GOOD_ENOUGH_SCORE: i32 = 1600;

/// Rotor designs and ring settings that a machine can be built from.
pub open spec fn rotors_ok(rotors: [u8; 3], settings: [u8; 3]) -> bool {
    &&& forall|i: int| 0 <= i < 3 ==> #[trigger] rotors[i] < ROTOR_DESIGNS
    &&& forall|i: int| 0 <= i < 3 ==> #[trigger] settings[i] < 26
}

/// The search's machine for these rotors, ring settings and plugboard pairs.
pub open spec fn search_machine(rotors: [u8; 3], settings: [u8; 3], pairs: Seq<(char, char)>) -> Enigma {
    choose|e: Enigma| e.wf() && e.is_configured(rotors, INIT_POSITIONS, settings, pairs, DEFAULT_REFLECTOR)
}

/// The letter numbers that the search's machine prints for `text`.
pub open spec fn deciphered(text: Seq<u8>, rotors: [u8; 3], settings: [u8; 3], pairs: Seq<(char, char)>) -> Seq<u8> {
    run(search_machine(rotors, settings, pairs), text)
}

/// The letter numbers of a string of letters.
pub open spec fn numbers_of(s: Seq<char>) -> Seq<u8> {
    Seq::new(s.len(), |i: int| letter_index(s[i]) as u8)
}

/// Relies on `FromIterator<&char> for String`: the string of the characters in order.
#[verifier::external_body]
fn string_of(chars: &Vec<char>) -> (r: String)
    ensures
        r@ == chars@,
{
    chars.iter().collect()
}

fn numbers_from(s: &str) -> (r: Vec<u8>)
    requires
        forall|i: int| 0 <= i < s@.len() ==> is_letter(#[trigger] s@[i]),
    ensures
        r@ == numbers_of(s@),
        all_letters(r@),
{
    let chars = chars_of(s);
    let mut out: Vec<u8> = Vec::new();
    let mut i: usize = 0;
    while i < chars.len()
        invariant
            chars@ == s@,
            forall|k: int| 0 <= k < s@.len() ==> is_letter(#[trigger] s@[k]),
            i <= chars@.len(),
            out@ =~= numbers_of(s@).take(i as int),
            all_letters(out@),
        decreases chars@.len() - i,
    {
        proof {
            assert(is_letter(s@[i as int]));
        }
        out.push(c2n(chars[i]));
        i = i + 1;
    }
    proof {
        assert(numbers_of(s@).take(i as int) =~= numbers_of(s@));
    }
    out
}

/// Runs `text` (letter numbers) through a fresh search machine.
pub fn decrypt_letters(text: &Vec<u8>, rotors: [u8; 3], settings: [u8; 3], mappings: &Vec<(char, char)>) -> (r: Vec<u8>)
    requires
        all_letters(text@),
        rotors_ok(rotors, settings),
        letter_pairs(mappings@),
    ensures
        r@ == deciphered(text@, rotors, settings, mappings@),
        all_letters(r@),
{
    let mut enigma = Enigma::new_enigma(rotors, INIT_POSITIONS, settings, mappings, DEFAULT_REFLECTOR);
    let ghost e0 = enigma;
    proof {
        assert(INIT_POSITIONS[0] == 1 && INIT_POSITIONS[1] == 1 && INIT_POSITIONS[2] == 1);
        let m = search_machine(rotors, settings, mappings@);
        assert(m.wf() && m.is_configured(rotors, INIT_POSITIONS, settings, mappings@, DEFAULT_REFLECTOR));
        lemma_configured_unique(e0, m, rotors, INIT_POSITIONS, settings, mappings@, DEFAULT_REFLECTOR);
    }
    let mut out: Vec<u8> = Vec::new();
    let mut i: usize = 0;
    while i < text.len()
        invariant
            all_letters(text@),
            i <= text@.len(),
            enigma.wf(),
            enigma == steps(e0, i as nat),
            out@ == run(e0, text@.take(i as int)),
            all_letters(out@),
        decreases text@.len() - i,
    {
        let x = enigma.encrypt_index(text[i]);
        proof {
            let next = text@.take(i + 1);
            assert(next.drop_last() =~= text@.take(i as int));
            assert(next.last() == text@[i as int]);
        }
        out.push(x);
        i = i + 1;
    }
    proof {
        assert(text@.take(i as int) =~= text@);
    }
    out
}

/// Deciphers (or enciphers) a string of letters with the given rotor
/// designs, ring settings and plugboard pairs, starting from the search's
/// rotor positions and reflector.
pub fn cipher_string(string: &str, rotors: [u8; 3], settings: [u8; 3], mappings: &Vec<(char, char)>) -> (r: String)
    requires
        forall|i: int| 0 <= i < string@.len() ==> is_letter(#[trigger] string@[i]),
        rotors_ok(rotors, settings),
        letter_pairs(mappings@),
    ensures
        r@.len() == string@.len(),
        forall|i: int| 0 <= i < r@.len() ==> #[trigger] r@[i] == letter_of(deciphered(numbers_of(string@), rotors, settings, mappings@)[i]),
{
    let nums = numbers_from(string);
    let out = decrypt_letters(&nums, rotors, settings, mappings);
    let mut chars: Vec<char> = Vec::new();
    let mut i: usize = 0;
    while i < out.len()
        invariant
            all_letters(out@),
            i <= out@.len(),
            chars@.len() == i,
            forall|k: int| 0 <= k < i ==> #[trigger] chars@[k] == letter_of(out@[k]),
        decreases out@.len() - i,
    {
        chars.push(n2c(out[i]));
        i = i + 1;
    }
    proof {
        assert(out@.len() == nums@.len()) by {
            lemma_run_len(search_machine(rotors, settings, mappings@), nums@);
        }
    }
    string_of(&chars)
}

proof fn lemma_run_len(e: Enigma, text: Seq<u8>)
    ensures
        run(e, text).len() == text.len(),
    decreases text.len(),
{
    if text.len() > 0 {
        lemma_run_len(e, text.drop_last());
    }
}

/// The index-of-coincidence score of a string of letters (see
/// `ioc_of_letters`), or `None` for fewer than two letters.
pub fn ioc(text: &str) -> (r: Option<i32>)
    requires
        forall|i: int| 0 <= i < text@.len() ==> is_letter(#[trigger] text@[i]),
        text@.len() <= u32::MAX,
    ensures
        text@.len() <= 1 ==> r is None,
        text@.len() >= 2 ==> r == Some(ioc_spec(numbers_of(text@)) as i32),
{
    let nums = numbers_from(text);
    ioc_of_letters(&nums)
}

/// A guess at the key: rotor designs, ring settings, plugboard pairs, and
/// the score of the text it deciphers.
pub struct EnigmaConfig {
    pub rotors: [u8; 3],
    pub settings: [u8; 3],
    pub mappings: Vec<(char, char)>,
    pub score: i32,
}

/// The first index of a lowest score.
pub open spec fn min_index(s: Seq<EnigmaConfig>) -> int
    decreases s.len(),
{
    if s.len() <= 1 {
        0
    } else {
        let m = min_index(s.drop_last());
        if s.last().score < s[m].score {
            s.len() - 1
        } else {
            m
        }
    }
}

/// The kept candidates after offering `c` to a tracker of capacity `n`
/// that holds `items`: when it is full, the first candidate of lowest score
/// among the old ones and `c` leaves.
pub open spec fn after_add(items: Seq<EnigmaConfig>, n: int, c: EnigmaConfig) -> Seq<EnigmaConfig> {
    if items.len() < n {
        items.push(c)
    } else {
        let all = items.push(c);
        all.remove(min_index(all))
    }
}

/// The kept candidates after offering each of `cs` in turn to an empty
/// tracker of capacity `n`.
pub open spec fn after_all(n: int, cs: Seq<EnigmaConfig>) -> Seq<EnigmaConfig>
    decreases cs.len(),
{
    if cs.len() == 0 {
        Seq::empty()
    } else {
        after_add(after_all(n, cs.drop_last()), n, cs.last())
    }
}

proof fn lemma_min_index(s: Seq<EnigmaConfig>)
    requires
        s.len() >= 1,
    ensures
        0 <= min_index(s) < s.len(),
        forall|j: int| 0 <= j < s.len() ==> s[min_index(s)].score <= #[trigger] s[j].score,
    decreases s.len(),
{
    if s.len() > 1 {
        let init = s.drop_last();
        lemma_min_index(init);
        assert forall|j: int| 0 <= j < s.len() implies s[min_index(s)].score <= #[trigger] s[j].score by {
            if j < s.len() - 1 {
                assert(init[j] == s[j]);
            }
            assert(init[min_index(init)] == s[min_index(init)]);
        }
    }
}

/// The top-N law: after offering candidates one by one to a tracker of
/// capacity `n`, it keeps `min(len, n)` of them, each kept candidate was
/// offered, and every candidate that was offered and not kept scores no
/// higher than any kept one.
pub proof fn lemma_top_n(n: int, cs: Seq<EnigmaConfig>)
    requires
        n >= 0,
    ensures
        after_all(n, cs).len() == if cs.len() < n { cs.len() as int } else { n },
        cs.len() <= n ==> after_all(n, cs) == cs,
        forall|x: EnigmaConfig| #[trigger] after_all(n, cs).to_multiset().count(x) <= cs.to_multiset().count(x),
        forall|x: EnigmaConfig, j: int|
            #![trigger cs.to_multiset().count(x), after_all(n, cs)[j]]
            after_all(n, cs).to_multiset().count(x) < cs.to_multiset().count(x) && 0 <= j < after_all(n, cs).len()
                ==> x.score <= after_all(n, cs)[j].score,
    decreases cs.len(),
{
    broadcast use vstd::seq_lib::group_to_multiset_ensures;

    if cs.len() == 0 {
        assert(cs =~= Seq::<EnigmaConfig>::empty());
    } else {
        let prev = cs.drop_last();
        let c = cs.last();
        lemma_top_n(n, prev);
        let r = after_all(n, prev);
        assert(prev.push(c) =~= cs);
        if r.len() < n {
            assert(after_all(n, cs) == r.push(c));
        } else {
            let all = r.push(c);
            lemma_min_index(all);
            let k = min_index(all);
            let e = all[k];
            let r2 = all.remove(k);
            assert(after_all(n, cs) == r2);
            assert(r2.to_multiset() == all.to_multiset().remove(e));
            assert forall|x: EnigmaConfig, j: int|
                #![trigger cs.to_multiset().count(x), r2[j]]
                r2.to_multiset().count(x) < cs.to_multiset().count(x) && 0 <= j < r2.len()
                implies x.score <= r2[j].score by {
                let jj = if j < k { j } else { j + 1 };
                assert(r2[j] == all[jj]);
                assert(e.score <= all[jj].score);
                if r.to_multiset().count(x) < prev.to_multiset().count(x) {
                    if k < r.len() {
                        assert(all[k] == r[k]);
                        assert(x.score <= r[k].score);
                    } else {
                        assert(jj < r.len());
                        assert(all[jj] == r[jj]);
                    }
                } else {
                    assert(x == e);
                }
            }
        }
    }
}

/// Keeps the `top_n` best-scoring candidates offered so far.
pub struct EnigmaResults {
    pub top_enigma_configs: Vec<EnigmaConfig>,
    pub top_n: usize,
}

fn lowest_index(v: &Vec<EnigmaConfig>) -> (r: usize)
    requires
        v@.len() >= 1,
    ensures
        r == min_index(v@),
{
    let mut best: usize = 0;
    let mut i: usize = 1;
    proof {
        assert(v@.take(1).len() == 1);
    }
    while i < v.len()
        invariant
            1 <= i <= v@.len(),
            best == min_index(v@.take(i as int)),
            best < i,
        decreases v@.len() - i,
    {
        proof {
            let next = v@.take(i + 1);
            assert(next.drop_last() =~= v@.take(i as int));
            assert(next.last() == v@[i as int]);
            assert(next[best as int] == v@[best as int]);
        }
        if v[i].score < v[best].score {
            best = i;
        }
        i = i + 1;
    }
    proof {
        assert(v@.take(i as int) =~= v@);
    }
    best
}

impl EnigmaResults {
    /// An empty tracker that keeps up to `store_top_n` candidates.
    pub fn new(store_top_n: usize) -> (r: EnigmaResults)
        ensures
            r.top_enigma_configs@ == Seq::<EnigmaConfig>::empty(),
            r.top_n == store_top_n,
    {
        EnigmaResults { top_enigma_configs: Vec::new(), top_n: store_top_n }
    }

    /// Offers a candidate; when more than `top_n` are held, the first one
    /// of lowest score leaves.
    pub fn add(&mut self, res: EnigmaConfig)
        requires
            old(self).top_enigma_configs@.len() <= old(self).top_n,
        ensures
            final(self).top_n == old(self).top_n,
            final(self).top_enigma_configs@ == after_add(old(self).top_enigma_configs@, old(self).top_n as int, res),
            final(self).top_enigma_configs@.len() <= final(self).top_n,
    {
        self.top_enigma_configs.push(res);
        if self.top_enigma_configs.len() > self.top_n {
            let k = lowest_index(&self.top_enigma_configs);
            proof {
                lemma_min_index(self.top_enigma_configs@);
            }
            let _evicted = self.top_enigma_configs.remove(k);
        }
    }
}

/// A text the search can score: letter numbers, at least two of them.
pub open spec fn text_ok(text: Seq<u8>) -> bool {
    &&& all_letters(text)
    &&& 2 <= text.len() <= u32::MAX
}

/// `c` can be built, and its score is that of the text it deciphers.
pub open spec fn scored(text: Seq<u8>, c: EnigmaConfig) -> bool {
    &&& rotors_ok(c.rotors, c.settings)
    &&& letter_pairs(c.mappings@)
    &&& c.score == ioc_spec(deciphered(text, c.rotors, c.settings, c.mappings@))
}

/// Letters `a < b` that no pair of `pairs` uses yet.
pub open spec fn free_pair(pairs: Seq<(char, char)>, a: int, b: int) -> bool {
    &&& 0 <= a < b < 26
    &&& unplugged(pairs, a)
    &&& unplugged(pairs, b)
}

/// `pairs` with the letters numbered `a` and `b` joined.
pub open spec fn with_pair(pairs: Seq<(char, char)>, a: int, b: int) -> Seq<(char, char)> {
    pairs.push((letter_of(a as u8), letter_of(b as u8)))
}

/// The score of `pairs` with one more pair, `a` and `b`.
pub open spec fn pair_score(text: Seq<u8>, rotors: [u8; 3], settings: [u8; 3], pairs: Seq<(char, char)>, a: int, b: int) -> int {
    ioc_spec(deciphered(text, rotors, settings, with_pair(pairs, a, b)))
}

/// The score of `c` with one more pair, `a` and `b`.
pub open spec fn trial_score(text: Seq<u8>, c: EnigmaConfig, a: int, b: int) -> int {
    pair_score(text, c.rotors, c.settings, c.mappings@, a, b)
}

/// `(a, b)` is the pair that one round of the plugboard search adds to
/// `pairs` of score `score`: free, scoring above `score`, scoring highest,
/// and first in order among the pairs of that score.
pub open spec fn best_pair(text: Seq<u8>, rotors: [u8; 3], settings: [u8; 3], pairs: Seq<(char, char)>, score: int, a: int, b: int) -> bool {
    &&& free_pair(pairs, a, b)
    &&& pair_score(text, rotors, settings, pairs, a, b) > score
    &&& forall|a2: int, b2: int| #[trigger] free_pair(pairs, a2, b2) ==> pair_score(text, rotors, settings, pairs, a2, b2) <= pair_score(text, rotors, settings, pairs, a, b)
    &&& forall|a2: int, b2: int| #[trigger] free_pair(pairs, a2, b2) && pair_before(a2, b2, a, b) ==> pair_score(text, rotors, settings, pairs, a2, b2) < pair_score(text, rotors, settings, pairs, a, b)
}

/// The plugboard pairs after up to `rounds` rounds of the plugboard search
/// from `pairs` of score `score`: each round adds the best pair, the search
/// stops when no pair raises the score, and it stops after a round whose
/// score passes `GOOD_ENOUGH_SCORE`.
pub open spec fn greedy_pairs(text: Seq<u8>, rotors: [u8; 3], settings: [u8; 3], pairs: Seq<(char, char)>, score: int, rounds: nat) -> Seq<(char, char)>
    decreases rounds,
{
    if rounds == 0 || !(exists|a: int, b: int| best_pair(text, rotors, settings, pairs, score, a, b)) {
        pairs
    } else {
        let (a, b) = choose|a: int, b: int| best_pair(text, rotors, settings, pairs, score, a, b);
        let next = with_pair(pairs, a, b);
        let s = pair_score(text, rotors, settings, pairs, a, b);
        if s > GOOD_ENOUGH_SCORE {
            next
        } else {
            greedy_pairs(text, rotors, settings, next, s, (rounds - 1) as nat)
        }
    }
}

proof fn lemma_best_pair_unique(text: Seq<u8>, rotors: [u8; 3], settings: [u8; 3], pairs: Seq<(char, char)>, score: int, a: int, b: int, a2: int, b2: int)
    requires
        best_pair(text, rotors, settings, pairs, score, a, b),
        best_pair(text, rotors, settings, pairs, score, a2, b2),
    ensures
        a == a2 && b == b2,
{
    assert(free_pair(pairs, a, b) && free_pair(pairs, a2, b2));
    if pair_before(a, b, a2, b2) {
        assert(pair_score(text, rotors, settings, pairs, a, b) < pair_score(text, rotors, settings, pairs, a2, b2));
    } else if pair_before(a2, b2, a, b) {
        assert(pair_score(text, rotors, settings, pairs, a2, b2) < pair_score(text, rotors, settings, pairs, a, b));
    }
}

/// Pair `(a, b)` comes before `(i, j)` in the order of the search.
pub open spec fn pair_before(a: int, b: int, i: int, j: int) -> bool {
    a < i || (a == i && b < j)
}

/// The score of the text that a machine of this configuration deciphers.
pub fn score_config(text: &Vec<u8>, rotors: [u8; 3], settings: [u8; 3], mappings: &Vec<(char, char)>) -> (r: i32)
    requires
        text_ok(text@),
        rotors_ok(rotors, settings),
        letter_pairs(mappings@),
    ensures
        r == ioc_spec(deciphered(text@, rotors, settings, mappings@)),
{
    let plain = decrypt_letters(text, rotors, settings, mappings);
    proof {
        lemma_run_len(search_machine(rotors, settings, mappings@), text@);
    }
    match ioc_of_letters(&plain) {
        Some(s) => s,
        None => {
            proof {
                assert(false);
            }
            0
        },
    }
}

fn extended(mappings: &Vec<(char, char)>, a: char, b: char) -> (r: Vec<(char, char)>)
    ensures
        r@ == mappings@.push((a, b)),
{
    let mut r: Vec<(char, char)> = Vec::new();
    let mut i: usize = 0;
    while i < mappings.len()
        invariant
            i <= mappings@.len(),
            r@ =~= mappings@.take(i as int),
        decreases mappings@.len() - i,
    {
        r.push(mappings[i]);
        i = i + 1;
    }
    proof {
        assert(mappings@.take(i as int) =~= mappings@);
    }
    r.push((a, b));
    r
}

fn used_letters(mappings: &Vec<(char, char)>) -> (used: [bool; 26])
    requires
        letter_pairs(mappings@),
    ensures
        forall|x: int| 0 <= x < 26 ==> #[trigger] used@[x] == !unplugged(mappings@, x),
{
    let mut used: [bool; 26] = [false; 26];
    let mut k: usize = 0;
    while k < mappings.len()
        invariant
            k <= mappings@.len(),
            letter_pairs(mappings@),
            forall|x: int| 0 <= x < 26 ==> #[trigger] used@[x] == !unplugged(mappings@.take(k as int), x),
        decreases mappings@.len() - k,
    {
        let (p, q) = mappings[k];
        proof {
            assert(is_letter(mappings@[k as int].0) && is_letter(mappings@[k as int].1));
        }
        let a = c2n(p);
        let b = c2n(q);
        let ghost before = used@;
        used[a as usize] = true;
        used[b as usize] = true;
        proof {
            let prev = mappings@.take(k as int);
            let next = mappings@.take(k + 1);
            assert forall|x: int| 0 <= x < 26 implies #[trigger] used@[x] == !unplugged(next, x) by {
                assert(next[k as int] == mappings@[k as int]);
                assert(letter_index(next[k as int].0) == a as int);
                assert(letter_index(next[k as int].1) == b as int);
                if x == a || x == b {
                    assert(!unplugged(next, x));
                } else {
                    assert(used@[x] == before[x]);
                    if unplugged(prev, x) {
                        assert forall|i: int| 0 <= i < next.len() implies letter_index(#[trigger] next[i].0) != x && letter_index(next[i].1) != x by {
                            if i < k {
                                assert(next[i] == prev[i]);
                            } else {
                                assert(next[i] == mappings@[k as int]);
                            }
                        }
                    } else {
                        let i = choose|i: int| 0 <= i < prev.len() && !(letter_index(#[trigger] prev[i].0) != x && letter_index(prev[i].1) != x);
                        assert(i < next.len());
                        assert(next[i] == prev[i]);
                        assert(!(letter_index(next[i].0) != x && letter_index(next[i].1) != x));
                    }
                }
            }
        }
        k = k + 1;
    }
    proof {
        assert(mappings@.take(k as int) =~= mappings@);
    }
    used
}

/// One round of the plugboard search: among the pairs of letters that no
/// wire uses yet, taken in increasing order, the first whose wire gives the
/// highest score, if that score beats `conf`'s; `None` when no pair does.
pub fn add_best_plugwire(ciphertext: &Vec<u8>, conf: &EnigmaConfig) -> (r: Option<EnigmaConfig>)
    requires
        text_ok(ciphertext@),
        rotors_ok(conf.rotors, conf.settings),
        letter_pairs(conf.mappings@),
    ensures
        r is None <==> forall|a: int, b: int| #[trigger] free_pair(conf.mappings@, a, b) ==> trial_score(ciphertext@, *conf, a, b) <= conf.score,
        r matches Some(c) ==> exists|a: int, b: int| {
            &&& #[trigger] free_pair(conf.mappings@, a, b)
            &&& c.rotors == conf.rotors
            &&& c.settings == conf.settings
            &&& c.mappings@ == with_pair(conf.mappings@, a, b)
            &&& c.score == trial_score(ciphertext@, *conf, a, b)
            &&& c.score > conf.score
            &&& forall|a2: int, b2: int| #[trigger] free_pair(conf.mappings@, a2, b2) ==> trial_score(ciphertext@, *conf, a2, b2) <= c.score
            &&& forall|a2: int, b2: int| #[trigger] free_pair(conf.mappings@, a2, b2) && pair_before(a2, b2, a, b) ==> trial_score(ciphertext@, *conf, a2, b2) < c.score
        },
{
    let used = used_letters(&conf.mappings);
    let mut max_score: i32 = conf.score;
    let mut best_conf: Option<EnigmaConfig> = None;
    let ghost mut best_a: int = 0;
    let ghost mut best_b: int = 0;
    let mut i: u8 = 0;
    while i < 26
        invariant
            text_ok(ciphertext@),
            rotors_ok(conf.rotors, conf.settings),
            letter_pairs(conf.mappings@),
            i <= 26,
            forall|x: int| 0 <= x < 26 ==> #[trigger] used@[x] == !unplugged(conf.mappings@, x),
            max_score >= conf.score,
            forall|a: int, b: int| #[trigger] free_pair(conf.mappings@, a, b) && a < i ==> trial_score(ciphertext@, *conf, a, b) <= max_score,
            best_conf is None ==> max_score == conf.score,
            best_conf matches Some(c) ==> {
                &&& free_pair(conf.mappings@, best_a, best_b)
                &&& best_a < i
                &&& c.rotors == conf.rotors
                &&& c.settings == conf.settings
                &&& c.mappings@ == with_pair(conf.mappings@, best_a, best_b)
                &&& c.score == trial_score(ciphertext@, *conf, best_a, best_b)
                &&& c.score == max_score
                &&& max_score > conf.score
                &&& forall|a2: int, b2: int| #[trigger] free_pair(conf.mappings@, a2, b2) && pair_before(a2, b2, best_a, best_b) ==> trial_score(ciphertext@, *conf, a2, b2) < max_score
            },
        decreases 26 - i,
    {
        if !used[i as usize] {
            let mut j: u8 = i + 1;
            while j < 26
                invariant
                    text_ok(ciphertext@),
                    rotors_ok(conf.rotors, conf.settings),
                    letter_pairs(conf.mappings@),
                    i < 26,
                    i < j <= 26,
                    unplugged(conf.mappings@, i as int),
                    forall|x: int| 0 <= x < 26 ==> #[trigger] used@[x] == !unplugged(conf.mappings@, x),
                    max_score >= conf.score,
                    forall|a: int, b: int| #[trigger] free_pair(conf.mappings@, a, b) && pair_before(a, b, i as int, j as int) ==> trial_score(ciphertext@, *conf, a, b) <= max_score,
                    best_conf is None ==> max_score == conf.score,
                    best_conf matches Some(c) ==> {
                        &&& free_pair(conf.mappings@, best_a, best_b)
                        &&& pair_before(best_a, best_b, i as int, j as int)
                        &&& c.rotors == conf.rotors
                        &&& c.settings == conf.settings
                        &&& c.mappings@ == with_pair(conf.mappings@, best_a, best_b)
                        &&& c.score == trial_score(ciphertext@, *conf, best_a, best_b)
                        &&& c.score == max_score
                        &&& max_score > conf.score
                        &&& forall|a2: int, b2: int| #[trigger] free_pair(conf.mappings@, a2, b2) && pair_before(a2, b2, best_a, best_b) ==> trial_score(ciphertext@, *conf, a2, b2) < max_score
                    },
                decreases 26 - j,
            {
                if !used[j as usize] {
                    let char1 = n2c(i);
                    let char2 = n2c(j);
                    let new_mapping = extended(&conf.mappings, char1, char2);
                    proof {
                        lemma_letter_of(i);
                        lemma_letter_of(j);
                        assert(new_mapping@ == with_pair(conf.mappings@, i as int, j as int));
                        assert forall|k: int| 0 <= k < new_mapping@.len() implies is_letter(#[trigger] new_mapping@[k].0) && is_letter(new_mapping@[k].1) by {
                            if k < conf.mappings@.len() {
                                assert(new_mapping@[k] == conf.mappings@[k]);
                            }
                        }
                        assert(free_pair(conf.mappings@, i as int, j as int));
                    }
                    let score = score_config(ciphertext, conf.rotors, conf.settings, &new_mapping);
                    if score > max_score {
                        max_score = score;
                        best_conf = Some(EnigmaConfig {
                            rotors: conf.rotors,
                            settings: conf.settings,
                            mappings: new_mapping,
                            score,
                        });
                        proof {
                            best_a = i as int;
                            best_b = j as int;
                        }
                    }
                } else {
                    proof {
                        assert forall|a: int, b: int| #[trigger] free_pair(conf.mappings@, a, b) && pair_before(a, b, i as int, j + 1) implies pair_before(a, b, i as int, j as int) by {
                            if a == i && b == j {
                                assert(!unplugged(conf.mappings@, j as int));
                            }
                        }
                    }
                }
                j = j + 1;
            }
        } else {
            proof {
                assert(!unplugged(conf.mappings@, i as int));
            }
        }
        i = i + 1;
    }
    best_conf
}

/// The plugboard search for one candidate: up to `number_of_wires` rounds
/// of `add_best_plugwire`, stopping once the score passes
/// `GOOD_ENOUGH_SCORE` or when no pair improves it.
pub fn solve_plugboard(conf: EnigmaConfig, ciphertext: &Vec<u8>, number_of_wires: u8) -> (r: EnigmaConfig)
    requires
        text_ok(ciphertext@),
        scored(ciphertext@, conf),
    ensures
        scored(ciphertext@, r),
        r.rotors == conf.rotors,
        r.settings == conf.settings,
        r.score >= conf.score,
        r.mappings@.len() <= conf.mappings@.len() + number_of_wires,
        r.mappings@.subrange(0, conf.mappings@.len() as int) == conf.mappings@,
        number_of_wires == 0 ==> r == conf,
        r.score > GOOD_ENOUGH_SCORE || r.mappings@.len() == conf.mappings@.len() + number_of_wires
            || forall|a: int, b: int| #[trigger] free_pair(r.mappings@, a, b) ==> trial_score(ciphertext@, r, a, b) <= r.score,
        r.mappings@ == greedy_pairs(ciphertext@, conf.rotors, conf.settings, conf.mappings@, conf.score as int, number_of_wires as nat),
{
    let ghost start = conf.mappings@;
    let mut best_guess = conf;
    let mut w: u8 = 0;
    let mut converged = false;
    while w < number_of_wires && !converged
        invariant
            text_ok(ciphertext@),
            scored(ciphertext@, best_guess),
            best_guess.rotors == conf.rotors,
            best_guess.settings == conf.settings,
            best_guess.score >= conf.score,
            start == conf.mappings@,
            w <= number_of_wires,
            best_guess.mappings@.len() == start.len() + w,
            w == 0 ==> best_guess == conf,
            best_guess.mappings@.subrange(0, start.len() as int) == start,
            converged ==> forall|a: int, b: int| #[trigger] free_pair(best_guess.mappings@, a, b) ==> trial_score(ciphertext@, best_guess, a, b) <= best_guess.score,
            greedy_pairs(ciphertext@, conf.rotors, conf.settings, start, conf.score as int, number_of_wires as nat) == if converged {
                best_guess.mappings@
            } else {
                greedy_pairs(ciphertext@, conf.rotors, conf.settings, best_guess.mappings@, best_guess.score as int, (number_of_wires - w) as nat)
            },
        decreases number_of_wires - w + if converged { 0int } else { 1int },
    {
        match add_best_plugwire(ciphertext, &best_guess) {
            Some(x) => {
                proof {
                    let (a, b) = choose|a: int, b: int| {
                        &&& #[trigger] free_pair(best_guess.mappings@, a, b)
                        &&& x.rotors == best_guess.rotors
                        &&& x.settings == best_guess.settings
                        &&& x.mappings@ == with_pair(best_guess.mappings@, a, b)
                        &&& x.score == trial_score(ciphertext@, best_guess, a, b)
                        &&& x.score > best_guess.score
                        &&& forall|a2: int, b2: int| #[trigger] free_pair(best_guess.mappings@, a2, b2) ==> trial_score(ciphertext@, best_guess, a2, b2) <= x.score
                        &&& forall|a2: int, b2: int| #[trigger] free_pair(best_guess.mappings@, a2, b2) && pair_before(a2, b2, a, b) ==> trial_score(ciphertext@, best_guess, a2, b2) < x.score
                    };
                    lemma_letter_of(a as u8);
                    lemma_letter_of(b as u8);
                    assert forall|k: int| 0 <= k < x.mappings@.len() implies is_letter(#[trigger] x.mappings@[k].0) && is_letter(x.mappings@[k].1) by {
                        if k < best_guess.mappings@.len() {
                            assert(x.mappings@[k] == best_guess.mappings@[k]);
                        }
                    }
                    assert(x.mappings@.subrange(0, start.len() as int) =~= best_guess.mappings@.subrange(0, start.len() as int));
                    let t = ciphertext@;
                    let pairs = best_guess.mappings@;
                    let sc = best_guess.score as int;
                    assert(best_pair(t, conf.rotors, conf.settings, pairs, sc, a, b)) by {
                        assert forall|a2: int, b2: int| #[trigger] free_pair(pairs, a2, b2) implies pair_score(t, conf.rotors, conf.settings, pairs, a2, b2) <= pair_score(t, conf.rotors, conf.settings, pairs, a, b) by {
                            assert(trial_score(t, best_guess, a2, b2) <= x.score);
                        }
                        assert forall|a2: int, b2: int| #[trigger] free_pair(pairs, a2, b2) && pair_before(a2, b2, a, b) implies pair_score(t, conf.rotors, conf.settings, pairs, a2, b2) < pair_score(t, conf.rotors, conf.settings, pairs, a, b) by {
                            assert(trial_score(t, best_guess, a2, b2) < x.score);
                        }
                    }
                    let (ca, cb) = choose|ca: int, cb: int| best_pair(t, conf.rotors, conf.settings, pairs, sc, ca, cb);
                    lemma_best_pair_unique(t, conf.rotors, conf.settings, pairs, sc, a, b, ca, cb);
                    assert(greedy_pairs(t, conf.rotors, conf.settings, pairs, sc, (number_of_wires - w) as nat) == if x.score > GOOD_ENOUGH_SCORE {
                        x.mappings@
                    } else {
                        greedy_pairs(t, conf.rotors, conf.settings, x.mappings@, x.score as int, (number_of_wires - w - 1) as nat)
                    });
                }
                if x.score > GOOD_ENOUGH_SCORE {
                    return x;
                }
                best_guess = x;
                w = w + 1;
            },
            None => {
                proof {
                    let t = ciphertext@;
                    let pairs = best_guess.mappings@;
                    let sc = best_guess.score as int;
                    assert(!(exists|a: int, b: int| best_pair(t, conf.rotors, conf.settings, pairs, sc, a, b))) by {
                        if exists|a: int, b: int| best_pair(t, conf.rotors, conf.settings, pairs, sc, a, b) {
                            let (a, b) = choose|a: int, b: int| best_pair(t, conf.rotors, conf.settings, pairs, sc, a, b);
                            assert(free_pair(pairs, a, b));
                            assert(trial_score(t, best_guess, a, b) <= best_guess.score);
                        }
                    }
                }
                converged = true;
            },
        }
    }
    best_guess
}

/// Ring-setting triples: every triple of `0..26`, repeats allowed, in
/// increasing order.
pub fn rotor_settings() -> (r: Vec<[u8; 3]>)
    ensures
        forall|x: int| 0 <= x < r@.len() ==> valid_triple(triple_view(#[trigger] r@[x]), 26, true, false),
        forall|x: int, y: int| 0 <= x < y < r@.len() ==> lex_less(triple_view(#[trigger] r@[x]), triple_view(#[trigger] r@[y])),
        forall|t: Seq<int>| #[trigger] valid_triple(t, 26, true, false) ==> exists|x: int| 0 <= x < r@.len() && triple_view(#[trigger] r@[x]) == t,
{
    n_choose_three(26, true, false)
}

/// Rotor-design triples: every triple of distinct designs below
/// `number_of_rotors`, in increasing order.
pub fn rotor_configs(number_of_rotors: u8) -> (r: Vec<[u8; 3]>)
    ensures
        forall|x: int| 0 <= x < r@.len() ==> valid_triple(triple_view(#[trigger] r@[x]), number_of_rotors as int, false, false),
        forall|x: int, y: int| 0 <= x < y < r@.len() ==> lex_less(triple_view(#[trigger] r@[x]), triple_view(#[trigger] r@[y])),
        forall|t: Seq<int>| #[trigger] valid_triple(t, number_of_rotors as int, false, false) ==> exists|x: int| 0 <= x < r@.len() && triple_view(#[trigger] r@[x]) == t,
{
    n_choose_three(number_of_rotors, false, false)
}

/// The score of rotors and ring settings with an empty plugboard.
pub open spec fn phase_one_score(text: Seq<u8>, rotors: [u8; 3], settings: [u8; 3]) -> int {
    ioc_spec(deciphered(text, rotors, settings, Seq::empty()))
}

/// Some candidate of `items` scores at least `v`.
pub open spec fn covered(items: Seq<EnigmaConfig>, v: int) -> bool {
    exists|j: int| 0 <= j < items.len() && #[trigger] items[j].score >= v
}

/// A scored candidate of the rotor and ring search.
pub open spec fn searched(text: Seq<u8>, number_of_rotors: int, c: EnigmaConfig) -> bool {
    &&& scored(text, c)
    &&& valid_triple(triple_view(c.rotors), number_of_rotors, false, false)
    &&& valid_triple(triple_view(c.settings), 26, true, false)
}

proof fn lemma_after_add(items: Seq<EnigmaConfig>, n: int, c: EnigmaConfig, text: Seq<u8>, number_of_rotors: int)
    requires
        n >= 1,
        items.len() <= n,
        forall|j: int| 0 <= j < items.len() ==> searched(text, number_of_rotors, #[trigger] items[j]) && items[j].mappings@.len() == 0,
        searched(text, number_of_rotors, c),
        c.mappings@.len() == 0,
    ensures
        forall|j: int| 0 <= j < after_add(items, n, c).len() ==> searched(text, number_of_rotors, #[trigger] after_add(items, n, c)[j]) && after_add(items, n, c)[j].mappings@.len() == 0,
        forall|v: int| #[trigger] covered(items, v) ==> covered(after_add(items, n, c), v),
        covered(after_add(items, n, c), c.score as int),
{
    let all = items.push(c);
    lemma_min_index(all);
    let k = min_index(all);
    let r = after_add(items, n, c);
    assert forall|j: int| 0 <= j < r.len() implies searched(text, number_of_rotors, #[trigger] r[j]) && r[j].mappings@.len() == 0 by {
        if items.len() < n {
            assert(r[j] == all[j]);
        } else {
            let jj = if j < k { j } else { j + 1 };
            assert(r[j] == all[jj]);
        }
    }
    assert forall|v: int| #[trigger] covered(items, v) implies covered(r, v) by {
        let j = choose|j: int| 0 <= j < items.len() && #[trigger] items[j].score >= v;
        assert(all[j] == items[j]);
        if items.len() < n {
            assert(r[j] == all[j]);
        } else if j < k {
            assert(r[j] == all[j]);
        } else if j > k {
            assert(r[j - 1] == all[j]);
        } else {
            assert(all[k].score <= all[0].score && all[k].score <= all[1].score);
            if k == 0 {
                assert(r[0] == all[1]);
            } else {
                assert(r[0] == all[0]);
            }
        }
    }
    if items.len() < n {
        assert(r[items.len() as int] == c);
    } else {
        let last = items.len() as int;
        assert(all[last] == c);
        if k == last {
            assert(all[k].score <= all[0].score);
            assert(r[0] == all[0]);
        } else {
            assert(r[last - 1] == all[last]);
        }
    }
}

proof fn lemma_triple_view_eq(a: [u8; 3], b: [u8; 3])
    requires
        triple_view(a) == triple_view(b),
    ensures
        a == b,
{
    assert(triple_view(a)[0] == a[0] && triple_view(b)[0] == b[0]);
    assert(triple_view(a)[1] == a[1] && triple_view(b)[1] == b[1]);
    assert(triple_view(a)[2] == a[2] && triple_view(b)[2] == b[2]);
    assert(a =~= b);
}

/// Recovers a key from ciphertext alone: every rotor-design triple drawn
/// from the first `number_of_rotors` designs and every ring-setting triple
/// is scored with an empty plugboard, the best `STORE_TOP_RESULTS` are kept,
/// each goes through the plugboard search, and the best result is returned
/// with the text it deciphers. `None` for fewer than two letters, which
/// cannot be scored.
pub fn decipher(ciphertext: &str, number_of_rotors: u8, number_of_wires: u8) -> (r: Option<(EnigmaConfig, String)>)
    requires
        forall|i: int| 0 <= i < ciphertext@.len() ==> is_letter(#[trigger] ciphertext@[i]),
        ciphertext@.len() <= u32::MAX,
        3 <= number_of_rotors <= ROTOR_DESIGNS,
    ensures
        r is None <==> ciphertext@.len() <= 1,
        r matches Some((c, plain)) ==> {
            &&& searched(numbers_of(ciphertext@), number_of_rotors as int, c)
            &&& c.mappings@ == greedy_pairs(numbers_of(ciphertext@), c.rotors, c.settings, Seq::empty(), phase_one_score(numbers_of(ciphertext@), c.rotors, c.settings), number_of_wires as nat)
            &&& plain@.len() == ciphertext@.len()
            &&& forall|i: int| 0 <= i < plain@.len() ==> #[trigger] plain@[i] == letter_of(deciphered(numbers_of(ciphertext@), c.rotors, c.settings, c.mappings@)[i])
            &&& forall|t1: [u8; 3], t2: [u8; 3]|
                valid_triple(triple_view(t1), number_of_rotors as int, false, false) && valid_triple(triple_view(t2), 26, true, false)
                    ==> c.score >= #[trigger] phase_one_score(numbers_of(ciphertext@), t1, t2)
        },
{
    let text = numbers_from(ciphertext);
    if text.len() <= 1 {
        return None;
    }
    let ghost txt = text@;
    let ghost nr = number_of_rotors as int;
    let possible_rotor_configs = rotor_configs(number_of_rotors);
    let possible_rotor_settings = rotor_settings();
    let mut res = EnigmaResults::new(STORE_TOP_RESULTS);
    let empty: Vec<(char, char)> = Vec::new();
    let mut ci: usize = 0;
    while ci < possible_rotor_configs.len()
        invariant
            txt == text@,
            text_ok(txt),
            nr == number_of_rotors as int,
            number_of_rotors <= ROTOR_DESIGNS,
            empty@ == Seq::<(char, char)>::empty(),
            forall|x: int| 0 <= x < possible_rotor_configs@.len() ==> valid_triple(triple_view(#[trigger] possible_rotor_configs@[x]), nr, false, false),
            forall|x: int| 0 <= x < possible_rotor_settings@.len() ==> valid_triple(triple_view(#[trigger] possible_rotor_settings@[x]), 26, true, false),
            ci <= possible_rotor_configs@.len(),
            res.top_n == STORE_TOP_RESULTS,
            res.top_enigma_configs@.len() <= res.top_n,
            forall|j: int| 0 <= j < res.top_enigma_configs@.len() ==> searched(txt, nr, #[trigger] res.top_enigma_configs@[j]) && res.top_enigma_configs@[j].mappings@.len() == 0,
            forall|x: int, y: int| 0 <= x < ci && 0 <= y < possible_rotor_settings@.len() ==> covered(res.top_enigma_configs@, #[trigger] phase_one_score(txt, possible_rotor_configs@[x], possible_rotor_settings@[y])),
        decreases possible_rotor_configs@.len() - ci,
    {
        let mut si: usize = 0;
        while si < possible_rotor_settings.len()
            invariant
                txt == text@,
                text_ok(txt),
                nr == number_of_rotors as int,
                number_of_rotors <= ROTOR_DESIGNS,
                empty@ == Seq::<(char, char)>::empty(),
                forall|x: int| 0 <= x < possible_rotor_configs@.len() ==> valid_triple(triple_view(#[trigger] possible_rotor_configs@[x]), nr, false, false),
                forall|x: int| 0 <= x < possible_rotor_settings@.len() ==> valid_triple(triple_view(#[trigger] possible_rotor_settings@[x]), 26, true, false),
                ci < possible_rotor_configs@.len(),
                si <= possible_rotor_settings@.len(),
                res.top_n == STORE_TOP_RESULTS,
                res.top_enigma_configs@.len() <= res.top_n,
                forall|j: int| 0 <= j < res.top_enigma_configs@.len() ==> searched(txt, nr, #[trigger] res.top_enigma_configs@[j]) && res.top_enigma_configs@[j].mappings@.len() == 0,
                forall|x: int, y: int| 0 <= x < ci && 0 <= y < possible_rotor_settings@.len() ==> covered(res.top_enigma_configs@, #[trigger] phase_one_score(txt, possible_rotor_configs@[x], possible_rotor_settings@[y])),
                forall|y: int| 0 <= y < si ==> covered(res.top_enigma_configs@, #[trigger] phase_one_score(txt, possible_rotor_configs@[ci as int], possible_rotor_settings@[y])),
            decreases possible_rotor_settings@.len() - si,
        {
            let rotors = possible_rotor_configs[ci];
            let settings = possible_rotor_settings[si];
            proof {
                assert(valid_triple(triple_view(rotors), nr, false, false));
                assert(valid_triple(triple_view(settings), 26, true, false));
                assert(triple_view(rotors)[0] == rotors[0] && triple_view(rotors)[1] == rotors[1] && triple_view(rotors)[2] == rotors[2]);
                assert(triple_view(settings)[0] == settings[0] && triple_view(settings)[1] == settings[1] && triple_view(settings)[2] == settings[2]);
                assert(rotors_ok(rotors, settings));
                assert(letter_pairs(empty@));
            }
            let score = score_config(&text, rotors, settings, &empty);
            let candidate = EnigmaConfig { rotors, settings, mappings: Vec::new(), score };
            proof {
                assert(candidate.mappings@ == empty@);
                lemma_after_add(res.top_enigma_configs@, res.top_n as int, candidate, txt, nr);
            }
            res.add(candidate);
            si = si + 1;
        }
        ci = ci + 1;
    }
    let mut top = res.top_enigma_configs;
    let ghost orig = top@;
    let mut best: Option<EnigmaConfig> = None;
    while top.len() > 0
        invariant
            txt == text@,
            text_ok(txt),
            nr == number_of_rotors as int,
            forall|j: int| 0 <= j < top@.len() ==> searched(txt, nr, #[trigger] top@[j]) && top@[j].mappings@.len() == 0,
            best matches Some(b) ==> searched(txt, nr, b) && b.mappings@ == greedy_pairs(txt, b.rotors, b.settings, Seq::empty(), phase_one_score(txt, b.rotors, b.settings), number_of_wires as nat),
            forall|v: int| #[trigger] covered(orig, v) ==> covered(top@, v) || (best matches Some(b) && b.score >= v),
        decreases top@.len(),
    {
        let ghost before = top@;
        let candidate = top.pop().unwrap();
        proof {
            assert(candidate == before[before.len() - 1]);
            assert(searched(txt, nr, before[before.len() - 1]));
            assert(candidate.mappings@ =~= Seq::<(char, char)>::empty());
        }
        let solved = solve_plugboard(candidate, &text, number_of_wires);
        let better = match &best {
            Some(b) => solved.score > b.score,
            None => true,
        };
        let ghost old_best = best;
        if better {
            best = Some(solved);
        }
        proof {
            assert forall|v: int| #[trigger] covered(orig, v) implies covered(top@, v) || (best matches Some(b) && b.score >= v) by {
                if covered(before, v) {
                    let j = choose|j: int| 0 <= j < before.len() && #[trigger] before[j].score >= v;
                    if j < before.len() - 1 {
                        assert(top@[j] == before[j]);
                    }
                }
            }
        }
    }
    proof {
        assert(valid_triple(seq![0int, 1, 2], nr, false, false));
        assert(valid_triple(seq![0int, 0, 0], 26, true, false));
        let x = choose|x: int| 0 <= x < possible_rotor_configs@.len() && triple_view(#[trigger] possible_rotor_configs@[x]) == seq![0int, 1, 2];
        let y = choose|y: int| 0 <= y < possible_rotor_settings@.len() && triple_view(#[trigger] possible_rotor_settings@[y]) == seq![0int, 0, 0];
        assert(covered(orig, phase_one_score(txt, possible_rotor_configs@[x], possible_rotor_settings@[y])));
    }
    match best {
        Some(c) => {
            proof {
                assert(txt == numbers_of(ciphertext@));
                assert forall|t1: [u8; 3], t2: [u8; 3]|
                    valid_triple(triple_view(t1), nr, false, false) && valid_triple(triple_view(t2), 26, true, false)
                    implies c.score >= #[trigger] phase_one_score(txt, t1, t2) by {
                    let x = choose|x: int| 0 <= x < possible_rotor_configs@.len() && triple_view(#[trigger] possible_rotor_configs@[x]) == triple_view(t1);
                    let y = choose|y: int| 0 <= y < possible_rotor_settings@.len() && triple_view(#[trigger] possible_rotor_settings@[y]) == triple_view(t2);
                    lemma_triple_view_eq(possible_rotor_configs@[x], t1);
                    lemma_triple_view_eq(possible_rotor_settings@[y], t2);
                    assert(covered(orig, phase_one_score(txt, possible_rotor_configs@[x], possible_rotor_settings@[y])));
                }
            }
            let plain = cipher_string(ciphertext, c.rotors, c.settings, &c.mappings);
            Some((c, plain))
        },
        None => {
            proof {
                assert(false);
            }
            None
        },
    }
}

} // verus!
