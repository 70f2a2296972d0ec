use vstd::prelude::*;
use crate::codec::{
    c2n, c2narray_arr26, inv_mapping_arr26, is_inverse, is_letter, is_permutation, letter_index, n2c,
};

verus! {

/// A notch value that no position reaches: the design has a single notch.
pub const ILLEGAL_LOC: u8 = 27;

/// Number of rotor designs.
pub const ROTOR_DESIGNS: u8 = 8;

/// The wiring of rotor design `idx` (0..=7), as letters.
pub open spec fn rotor_encoding(idx: int) -> Seq<char> {
    if idx == 0 {
        "EKMFLGDQVZNTOWYHXUSPAIBRCJ"@
    } else if idx == 1 {
        "AJDKSIRUXBLHWTMCQGZNPYFVOE"@
    } else if idx == 2 {
        "BDFHJLCPRTXVZNYEIWGAKMUSQO"@
    } else if idx == 3 {
        "ESOVPZJAYQUIRHXLNFTGKDCMWB"@
    } else if idx == 4 {
        "VZBRGITYUPSDNHLXAWMJQOFECK"@
    } else if idx == 5 {
        "JPGVOUMFYQBENHZRDKASXLICTW"@
    } else if idx == 6 {
        "NZJHGRCXMYSWBOUFAIVLPEKQDT"@
    } else {
        "FKQHTLXOCBJSPDZRAMEWNIUYGV"@
    }
}

/// The two notch positions of rotor design `idx` (0..=7).
pub open spec fn rotor_notches(idx: int) -> Seq<u8> {
    if idx == 0 {
        seq![ILLEGAL_LOC, 16u8]
    } else if idx == 1 {
        seq![ILLEGAL_LOC, 4u8]
    } else if idx == 2 {
        seq![ILLEGAL_LOC, 21u8]
    } else if idx == 3 {
        seq![ILLEGAL_LOC, 9u8]
    } else if idx == 4 {
        seq![ILLEGAL_LOC, 25u8]
    } else {
        seq![12u8, 25u8]
    }
}

/// The wiring of a reflector, selected by its letter; any other letter
/// selects the descending table.
pub open spec fn reflector_encoding(id: char) -> Seq<char> {
    if id == 'B' {
        "YRUHQSLDPXNGOKMIEBFZCWVJAT"@
    } else if id == 'C' {
        "FVPJIAOYEDRZXWGCTKUQSBNMHL"@
    } else {
        "ZYXWVUTSRQPONMLKJIHGFEDCBA"@
    }
}

/// The numbers of a string of letters.
pub open spec fn table_of(s: Seq<char>) -> Seq<u8> {
    Seq::new(s.len(), |i: int| letter_index(s[i]) as u8)
}

/// A table of letters that swaps them in pairs: applying it twice changes nothing.
pub open spec fn is_involution(t: Seq<u8>) -> bool {
    &&& t.len() == 26
    &&& forall|i: int| 0 <= i < 26 ==> #[trigger] t[i] < 26 && t[t[i] as int] == i
}

/// The identity table.
pub open spec fn identity_table() -> Seq<u8> {
    Seq::new(26, |i: int| i as u8)
}

/// All letters of all pairs are upper-case letters.
pub open spec fn letter_pairs(pairs: Seq<(char, char)>) -> bool {
    forall|i: int| 0 <= i < pairs.len() ==> is_letter(#[trigger] pairs[i].0) && is_letter(pairs[i].1)
}

/// The plugboard table made from `pairs`: starting from the identity, each
/// pair in turn sets both of its directions, so later pairs win.
pub open spec fn plug_table(pairs: Seq<(char, char)>) -> Seq<u8>
    decreases pairs.len(),
{
    if pairs.len() == 0 {
        identity_table()
    } else {
        let (a, b) = pairs.last();
        plug_table(pairs.drop_last()).update(letter_index(a), letter_index(b) as u8).update(
            letter_index(b),
            letter_index(a) as u8,
        )
    }
}

/// A signal passed through a table that is offset by `position - setting`.
pub open spec fn shift_through(table: Seq<u8>, position: int, setting: int, n: int) -> int {
    (table[(n + 26 + position - setting) % 26] + 26 - position + setting) % 26
}

proof fn lemma_index_cases(i: int)
    requires
        0 <= i < 26,
    ensures
        i == 0 || i == 1 || i == 2 || i == 3 || i == 4 || i == 5 || i == 6 || i == 7 || i == 8
            || i == 9 || i == 10 || i == 11 || i == 12 || i == 13 || i == 14 || i == 15 || i == 16
            || i == 17 || i == 18 || i == 19 || i == 20 || i == 21 || i == 22 || i == 23 || i == 24
            || i == 25,
{
}

proof fn lemma_rotor_encoding(idx: int)
    requires
        0 <= idx < 8,
    ensures
        rotor_encoding(idx).len() == 26,
        forall|i: int| 0 <= i < 26 ==> is_letter(#[trigger] rotor_encoding(idx)[i]),
        is_permutation(table_of(rotor_encoding(idx))),
{
    reveal_strlit("EKMFLGDQVZNTOWYHXUSPAIBRCJ");
    reveal_strlit("AJDKSIRUXBLHWTMCQGZNPYFVOE");
    reveal_strlit("BDFHJLCPRTXVZNYEIWGAKMUSQO");
    reveal_strlit("ESOVPZJAYQUIRHXLNFTGKDCMWB");
    reveal_strlit("VZBRGITYUPSDNHLXAWMJQOFECK");
    reveal_strlit("JPGVOUMFYQBENHZRDKASXLICTW");
    reveal_strlit("NZJHGRCXMYSWBOUFAIVLPEKQDT");
    reveal_strlit("FKQHTLXOCBJSPDZRAMEWNIUYGV");
    let s = rotor_encoding(idx);
    let t = table_of(s);
    assert forall|i: int| 0 <= i < 26 implies is_letter(#[trigger] s[i]) && t[i] < 26 by {
        lemma_index_cases(i);
    }
    assert forall|i: int, j: int| 0 <= i < 26 && 0 <= j < 26 && i != j implies #[trigger] t[i]
        != #[trigger] t[j] by {
        lemma_index_cases(i);
        lemma_index_cases(j);
    }
}

proof fn lemma_reflector_encoding(id: char)
    ensures
        reflector_encoding(id).len() == 26,
        forall|i: int| 0 <= i < 26 ==> is_letter(#[trigger] reflector_encoding(id)[i]),
        is_involution(table_of(reflector_encoding(id))),
{
    reveal_strlit("YRUHQSLDPXNGOKMIEBFZCWVJAT");
    reveal_strlit("FVPJIAOYEDRZXWGCTKUQSBNMHL");
    reveal_strlit("ZYXWVUTSRQPONMLKJIHGFEDCBA");
    let s = reflector_encoding(id);
    let t = table_of(s);
    assert forall|i: int| 0 <= i < 26 implies is_letter(#[trigger] s[i]) && t[i] < 26 && t[t[i] as int]
        == i by {
        lemma_index_cases(i);
    }
}

/// A rotor: a wiring table, its inverse, a turning position and a fixed ring setting.
pub struct Rotor {
    notches: [u8; 2],
    position: u8,
    setting: u8,
    forward_mapping: [u8; 26],
    reverse_mapping: [u8; 26],
}

impl Rotor {
    /// Position and setting are 0..=25 and the reverse table inverts the wiring.
    pub closed spec fn wf(&self) -> bool {
        &&& self.position < 26
        &&& self.setting < 26
        &&& is_permutation(self.forward_mapping@)
        &&& is_inverse(self.forward_mapping@, self.reverse_mapping@)
    }

    pub closed spec fn spec_position(&self) -> int {
        self.position as int
    }

    /// The rotor stands at one of its notches.
    pub closed spec fn notch_hit(&self) -> bool {
        self.notches@[0] == self.position || self.notches@[1] == self.position
    }

    /// The rotor after turning over one position.
    pub closed spec fn turned(&self) -> Rotor {
        Rotor { position: ((self.position + 1) % 26) as u8, ..*self }
    }

    pub closed spec fn spec_forward(&self, n: int) -> int {
        shift_through(self.forward_mapping@, self.position as int, self.setting as int, n)
    }

    pub closed spec fn spec_backward(&self, n: int) -> int {
        shift_through(self.reverse_mapping@, self.position as int, self.setting as int, n)
    }

    /// The rotor is design `idx` at `position` with ring `setting`.
    pub closed spec fn is_design(&self, idx: int, position: int, setting: int) -> bool {
        &&& self.position == position
        &&& self.setting == setting
        &&& self.notches@ == rotor_notches(idx)
        &&& self.forward_mapping@ == table_of(rotor_encoding(idx))
    }

    fn at_notch(&self) -> (r: bool)
        ensures
            r == self.notch_hit(),
    {
        self.notches[0] == self.position || self.notches[1] == self.position
    }

    fn turnover(&mut self)
        requires
            old(self).wf(),
        ensures
            *final(self) == old(self).turned(),
            final(self).wf(),
    {
        self.position = (self.position + 1) % crate::codec::CHARSET_SIZE;
    }

    fn forward(&self, num: u8) -> (r: u8)
        requires
            self.wf(),
            num < 26,
        ensures
            r == self.spec_forward(num as int),
    {
        let shift_add: u8 = 26 + self.position - self.setting;
        let shift_sub: u8 = 26 - self.position + self.setting;
        let x: u8 = (num + shift_add) % 26;
        (self.forward_mapping[x as usize] + shift_sub) % 26
    }

    fn backward(&self, num: u8) -> (r: u8)
        requires
            self.wf(),
            num < 26,
        ensures
            r == self.spec_backward(num as int),
    {
        let shift_add: u8 = 26 + self.position - self.setting;
        let shift_sub: u8 = 26 - self.position + self.setting;
        let x: u8 = (num + shift_add) % 26;
        proof {
            assert(self.reverse_mapping@[x as int] < 26);
        }
        (self.reverse_mapping[x as usize] + shift_sub) % 26
    }

    fn rotor_by_index(idx: u8, position: u8, setting: u8) -> (r: Rotor)
        requires
            idx < ROTOR_DESIGNS,
            position < 26,
            setting < 26,
        ensures
            r.wf(),
            r.is_design(idx as int, position as int, setting as int),
    {
        let (encoding, notches): (&str, [u8; 2]) = match idx {
            0 => ("EKMFLGDQVZNTOWYHXUSPAIBRCJ", [ILLEGAL_LOC, 16]),
            1 => ("AJDKSIRUXBLHWTMCQGZNPYFVOE", [ILLEGAL_LOC, 4]),
            2 => ("BDFHJLCPRTXVZNYEIWGAKMUSQO", [ILLEGAL_LOC, 21]),
            3 => ("ESOVPZJAYQUIRHXLNFTGKDCMWB", [ILLEGAL_LOC, 9]),
            4 => ("VZBRGITYUPSDNHLXAWMJQOFECK", [ILLEGAL_LOC, 25]),
            5 => ("JPGVOUMFYQBENHZRDKASXLICTW", [12, 25]),
            6 => ("NZJHGRCXMYSWBOUFAIVLPEKQDT", [12, 25]),
            _ => ("FKQHTLXOCBJSPDZRAMEWNIUYGV", [12, 25]),
        };
        proof {
            lemma_rotor_encoding(idx as int);
            assert(notches@ =~= rotor_notches(idx as int));
        }
        let enc_u8: [u8; 26] = c2narray_arr26(encoding);
        proof {
            assert(enc_u8@ =~= table_of(rotor_encoding(idx as int)));
        }
        let rev_enc_u8: [u8; 26] = inv_mapping_arr26(enc_u8);
        Rotor {
            notches,
            position,
            setting,
            forward_mapping: enc_u8,
            reverse_mapping: rev_enc_u8,
        }
    }
}

/// A fixed reflector table.
pub struct Reflector {
    reflector_mapping_arr: [u8; 26],
}

impl Reflector {
    /// The table swaps letters in pairs.
    pub closed spec fn wf(&self) -> bool {
        is_involution(self.reflector_mapping_arr@)
    }

    pub closed spec fn table(&self) -> Seq<u8> {
        self.reflector_mapping_arr@
    }

    fn forward(&self, num: u8) -> (r: u8)
        requires
            self.wf(),
            num < 26,
        ensures
            r == self.table()[num as int],
    {
        self.reflector_mapping_arr[num as usize]
    }

    fn reflection_from_letterid(letterid: char) -> (r: Reflector)
        ensures
            r.wf(),
            r.table() == table_of(reflector_encoding(letterid)),
    {
        let encoding: &str = match letterid {
            'B' => "YRUHQSLDPXNGOKMIEBFZCWVJAT",
            'C' => "FVPJIAOYEDRZXWGCTKUQSBNMHL",
            _ => "ZYXWVUTSRQPONMLKJIHGFEDCBA",
        };
        proof {
            lemma_reflector_encoding(letterid);
        }
        let arr = c2narray_arr26(encoding);
        proof {
            assert(arr@ =~= table_of(reflector_encoding(letterid)));
        }
        Reflector { reflector_mapping_arr: arr }
    }
}

/// The letter-swap board at both ends of the signal path.
pub struct Plugboard {
    plugboard_mappings: [u8; 26],
}

impl Plugboard {
    /// Every entry is a letter number.
    pub closed spec fn wf(&self) -> bool {
        forall|i: int| 0 <= i < 26 ==> #[trigger] self.plugboard_mappings@[i] < 26
    }

    pub closed spec fn table(&self) -> Seq<u8> {
        self.plugboard_mappings@
    }

    fn forward(&self, num: u8) -> (r: u8)
        requires
            self.wf(),
            num < 26,
        ensures
            r == self.table()[num as int],
            r < 26,
    {
        self.plugboard_mappings[num as usize]
    }

    fn new_plugboard(letter_mapping: &Vec<(char, char)>) -> (r: Plugboard)
        requires
            letter_pairs(letter_mapping@),
        ensures
            r.wf(),
            r.table() == plug_table(letter_mapping@),
    {
        let mut mappings: [u8; 26] = [0u8; 26];
        let mut i: usize = 0;
        while i < 26
            invariant
                i <= 26,
                forall|k: int| 0 <= k < i ==> #[trigger] mappings@[k] == k,
            decreases 26 - i,
        {
            mappings[i] = i as u8;
            i = i + 1;
        }
        proof {
            assert(mappings@ =~= plug_table(letter_mapping@.take(0)));
        }
        let mut j: usize = 0;
        while j < letter_mapping.len()
            invariant
                j <= letter_mapping@.len(),
                letter_pairs(letter_mapping@),
                mappings@ == plug_table(letter_mapping@.take(j as int)),
                forall|k: int| 0 <= k < 26 ==> #[trigger] mappings@[k] < 26,
            decreases letter_mapping@.len() - j,
        {
            let (key, value) = letter_mapping[j];
            proof {
                assert(is_letter(letter_mapping@[j as int].0));
            }
            let a = c2n(key);
            let b = c2n(value);
            mappings[a as usize] = b;
            mappings[b as usize] = a;
            proof {
                let next = letter_mapping@.take(j + 1);
                assert(next.drop_last() =~= letter_mapping@.take(j as int));
                assert(next.last() == letter_mapping@[j as int]);
            }
            j = j + 1;
        }
        proof {
            assert(letter_mapping@.take(j as int) =~= letter_mapping@);
        }
        Plugboard { plugboard_mappings: mappings }
    }
}

/// The cipher machine: a plugboard, three rotors (left, middle, right) and a reflector.
pub struct Enigma {
    plugboard: Plugboard,
    left_rotor: Rotor,
    middle_rotor: Rotor,
    right_rotor: Rotor,
    reflector: Reflector,
}

/// The machine after `k` key presses.
pub open spec fn steps(e: Enigma, k: nat) -> Enigma
    decreases k,
{
    if k == 0 {
        e
    } else {
        steps(e, (k - 1) as nat).stepped()
    }
}

/// The letter numbers that the machine `e` prints for the letter numbers
/// `text`, one key press each.
pub open spec fn run(e: Enigma, text: Seq<u8>) -> Seq<u8>
    decreases text.len(),
{
    if text.len() == 0 {
        Seq::empty()
    } else {
        run(e, text.drop_last()).push(steps(e, text.len()).signal(text.last() as int) as u8)
    }
}

impl Enigma {
    /// Every part is well formed.
    pub closed spec fn wf(&self) -> bool {
        &&& self.plugboard.wf()
        &&& self.left_rotor.wf()
        &&& self.middle_rotor.wf()
        &&& self.right_rotor.wf()
        &&& self.reflector.wf()
    }

    /// The rotor positions, left to right.
    pub closed spec fn positions(&self) -> (int, int, int) {
        (
            self.left_rotor.spec_position(),
            self.middle_rotor.spec_position(),
            self.right_rotor.spec_position(),
        )
    }

    pub closed spec fn middle_at_notch(&self) -> bool {
        self.middle_rotor.notch_hit()
    }

    pub closed spec fn right_at_notch(&self) -> bool {
        self.right_rotor.notch_hit()
    }

    pub closed spec fn plugboard_table(&self) -> Seq<u8> {
        self.plugboard.table()
    }

    /// The machine after one key press: a middle rotor at its notch turns
    /// itself and the left rotor; else a right rotor at its notch turns the
    /// middle rotor; the right rotor always turns.
    pub closed spec fn stepped(&self) -> Enigma {
        if self.middle_rotor.notch_hit() {
            Enigma {
                left_rotor: self.left_rotor.turned(),
                middle_rotor: self.middle_rotor.turned(),
                right_rotor: self.right_rotor.turned(),
                ..*self
            }
        } else if self.right_rotor.notch_hit() {
            Enigma {
                middle_rotor: self.middle_rotor.turned(),
                right_rotor: self.right_rotor.turned(),
                ..*self
            }
        } else {
            Enigma { right_rotor: self.right_rotor.turned(), ..*self }
        }
    }

    /// The signal path at the current positions, from letter number `n`.
    pub closed spec fn signal(&self, n: int) -> int {
        let a = self.plugboard.table()[n] as int;
        let b = self.right_rotor.spec_forward(a);
        let c = self.middle_rotor.spec_forward(b);
        let d = self.left_rotor.spec_forward(c);
        let e = self.reflector.table()[d] as int;
        let f = self.left_rotor.spec_backward(e);
        let g = self.middle_rotor.spec_backward(f);
        let h = self.right_rotor.spec_backward(g);
        self.plugboard.table()[h] as int
    }

    /// The machine was built from these rotor designs, positions, ring
    /// settings, plugboard pairs and reflector letter.
    pub closed spec fn is_configured(
        &self,
        rotor_indexes: [u8; 3],
        rotor_positions: [u8; 3],
        rotor_settings: [u8; 3],
        pairs: Seq<(char, char)>,
        reflector_letterid: char,
    ) -> bool {
        &&& self.left_rotor.is_design(rotor_indexes[0] as int, rotor_positions[0] as int, rotor_settings[0] as int)
        &&& self.middle_rotor.is_design(rotor_indexes[1] as int, rotor_positions[1] as int, rotor_settings[1] as int)
        &&& self.right_rotor.is_design(rotor_indexes[2] as int, rotor_positions[2] as int, rotor_settings[2] as int)
        &&& self.plugboard.table() == plug_table(pairs)
        &&& self.reflector.table() == table_of(reflector_encoding(reflector_letterid))
    }

    proof fn lemma_stepped_wf(&self)
        requires
            self.wf(),
        ensures
            self.stepped().wf(),
    {
    }

    fn rotate(&mut self)
        requires
            old(self).wf(),
        ensures
            *final(self) == old(self).stepped(),
            final(self).wf(),
    {
        let middle_notch = self.middle_rotor.at_notch();
        if middle_notch {
            self.middle_rotor.turnover();
            self.left_rotor.turnover();
        } else if self.right_rotor.at_notch() {
            self.middle_rotor.turnover();
        }
        self.right_rotor.turnover();
    }

    /// Presses the key of letter number `num` and returns the number of the lit letter.
    pub fn encrypt_index(&mut self, num: u8) -> (r: u8)
        requires
            old(self).wf(),
            num < 26,
        ensures
            final(self).wf(),
            *final(self) == old(self).stepped(),
            r == old(self).stepped().signal(num as int),
            r < 26,
    {
        self.rotate();
        let num = self.plugboard.forward(num);
        let num = self.right_rotor.forward(num);
        let num = self.middle_rotor.forward(num);
        let num = self.left_rotor.forward(num);
        let num = self.reflector.forward(num);
        let num = self.left_rotor.backward(num);
        let num = self.middle_rotor.backward(num);
        let num = self.right_rotor.backward(num);
        self.plugboard.forward(num)
    }

    /// Presses the key of `c` and returns the lit letter; the rotors step first.
    pub fn encrypt(&mut self, c: char) -> (r: char)
        requires
            old(self).wf(),
            is_letter(c),
        ensures
            final(self).wf(),
            *final(self) == old(self).stepped(),
            is_letter(r),
            letter_index(r) == old(self).stepped().signal(letter_index(c)),
    {
        let num = c2n(c);
        let out = self.encrypt_index(num);
        n2c(out)
    }

    /// A machine with rotor designs `rotor_indexes` (left to right), their
    /// positions and ring settings, a plugboard of the given letter pairs
    /// and the reflector named by `reflector_letterid`.
    pub fn new_enigma(
        rotor_indexes: [u8; 3],
        rotor_positions: [u8; 3],
        rotor_settings: [u8; 3],
        plugboard_mappings: &Vec<(char, char)>,
        reflector_letterid: char,
    ) -> (r: Enigma)
        requires
            forall|i: int| 0 <= i < 3 ==> #[trigger] rotor_indexes[i] < ROTOR_DESIGNS,
            forall|i: int| 0 <= i < 3 ==> #[trigger] rotor_positions[i] < 26,
            forall|i: int| 0 <= i < 3 ==> #[trigger] rotor_settings[i] < 26,
            letter_pairs(plugboard_mappings@),
        ensures
            r.wf(),
            r.is_configured(
                rotor_indexes,
                rotor_positions,
                rotor_settings,
                plugboard_mappings@,
                reflector_letterid,
            ),
    {
        Enigma {
            plugboard: Plugboard::new_plugboard(plugboard_mappings),
            left_rotor: Rotor::rotor_by_index(rotor_indexes[0], rotor_positions[0], rotor_settings[0]),
            middle_rotor: Rotor::rotor_by_index(rotor_indexes[1], rotor_positions[1], rotor_settings[1]),
            right_rotor: Rotor::rotor_by_index(rotor_indexes[2], rotor_positions[2], rotor_settings[2]),
            reflector: Reflector::reflection_from_letterid(reflector_letterid),
        }
    }
}

/// No letter occurs in two pairs.
pub open spec fn disjoint_pairs(pairs: Seq<(char, char)>) -> bool {
    forall|i: int, j: int|
        0 <= i < j < pairs.len() ==> {
            let (a, b) = #[trigger] pairs[i];
            let (c, d) = #[trigger] pairs[j];
            letter_index(a) != letter_index(c) && letter_index(a) != letter_index(d)
                && letter_index(b) != letter_index(c) && letter_index(b) != letter_index(d)
        }
}

/// `x` is a letter of none of the pairs.
pub open spec fn unplugged(pairs: Seq<(char, char)>, x: int) -> bool {
    forall|i: int| 0 <= i < pairs.len() ==> letter_index(#[trigger] pairs[i].0) != x && letter_index(pairs[i].1) != x
}

proof fn lemma_unplugged_fixed(pairs: Seq<(char, char)>, x: int)
    requires
        0 <= x < 26,
        letter_pairs(pairs),
        unplugged(pairs, x),
    ensures
        plug_table(pairs)[x] == x,
    decreases pairs.len(),
{
    lemma_plug_table_len(pairs);
    if pairs.len() > 0 {
        lemma_letter_pairs_prefix(pairs);
        lemma_plug_table_len(pairs.drop_last());
        assert(letter_index(pairs[pairs.len() - 1].0) != x);
        assert(unplugged(pairs.drop_last(), x)) by {
            assert forall|i: int| 0 <= i < pairs.drop_last().len() implies letter_index(#[trigger] pairs.drop_last()[i].0) != x && letter_index(pairs.drop_last()[i].1) != x by {
                assert(pairs.drop_last()[i] == pairs[i]);
                assert(letter_index(pairs[i].0) != x);
            }
        }
        lemma_unplugged_fixed(pairs.drop_last(), x);
        assert(pairs[pairs.len() - 1] == pairs.last());
    }
}

proof fn lemma_plug_table_len(pairs: Seq<(char, char)>)
    requires
        letter_pairs(pairs),
    ensures
        plug_table(pairs).len() == 26,
    decreases pairs.len(),
{
    if pairs.len() > 0 {
        lemma_letter_pairs_prefix(pairs);
        lemma_plug_table_len(pairs.drop_last());
        assert(is_letter(pairs[pairs.len() - 1].0));
    }
}

proof fn lemma_letter_pairs_prefix(pairs: Seq<(char, char)>)
    requires
        letter_pairs(pairs),
        pairs.len() > 0,
    ensures
        letter_pairs(pairs.drop_last()),
{
    assert forall|i: int| 0 <= i < pairs.drop_last().len() implies is_letter(#[trigger] pairs.drop_last()[i].0) && is_letter(pairs.drop_last()[i].1) by {
        assert(pairs.drop_last()[i] == pairs[i]);
        assert(is_letter(pairs[i].0));
    }
}

/// A plugboard built from disjoint pairs of letters swaps letters in pairs.
pub proof fn lemma_disjoint_plugboard(pairs: Seq<(char, char)>)
    requires
        letter_pairs(pairs),
        disjoint_pairs(pairs),
    ensures
        is_involution(plug_table(pairs)),
    decreases pairs.len(),
{
    if pairs.len() > 0 {
        let init = pairs.drop_last();
        assert(letter_pairs(init)) by {
            assert forall|i: int| 0 <= i < init.len() implies is_letter(#[trigger] init[i].0) && is_letter(init[i].1) by {
                assert(init[i] == pairs[i]);
            }
        }
        assert(disjoint_pairs(init)) by {
            assert forall|i: int, j: int| 0 <= i < j < init.len() implies {
                let (a, b) = #[trigger] init[i];
                let (c, d) = #[trigger] init[j];
                letter_index(a) != letter_index(c) && letter_index(a) != letter_index(d)
                    && letter_index(b) != letter_index(c) && letter_index(b) != letter_index(d)
            } by {
                assert(init[i] == pairs[i]);
                assert(init[j] == pairs[j]);
            }
        }
        lemma_disjoint_plugboard(init);
        lemma_plug_table_len(pairs);
        let last = pairs.len() - 1;
        let (a, b) = pairs[last];
        assert(is_letter(pairs[last].0) && is_letter(pairs[last].1));
        assert(unplugged(init, letter_index(a))) by {
            assert forall|i: int| 0 <= i < init.len() implies letter_index(#[trigger] init[i].0) != letter_index(a) && letter_index(init[i].1) != letter_index(a) by {
                assert(init[i] == pairs[i]);
                assert(i < last);
                let (x, y) = pairs[i];
                let (z, w) = pairs[last];
            }
        }
        assert(unplugged(init, letter_index(b))) by {
            assert forall|i: int| 0 <= i < init.len() implies letter_index(#[trigger] init[i].0) != letter_index(b) && letter_index(init[i].1) != letter_index(b) by {
                assert(init[i] == pairs[i]);
                assert(i < last);
                let (x, y) = pairs[i];
                let (z, w) = pairs[last];
            }
        }
        lemma_unplugged_fixed(init, letter_index(a));
        lemma_unplugged_fixed(init, letter_index(b));
    }
}

proof fn lemma_shift_cancel(y: int, p: int, s: int)
    requires
        0 <= y < 26,
        0 <= p < 26,
        0 <= s < 26,
    ensures
        ((y + 26 - p + s) % 26 + 26 + p - s) % 26 == y,
        ((y + 26 + p - s) % 26 + 26 - p + s) % 26 == y,
{
    let k = y + 26 - p + s;
    if k < 26 {
    } else if k < 52 {
        assert(k % 26 == k - 26);
    } else {
        assert(k % 26 == k - 52);
    }
    let m = y + 26 + p - s;
    if m < 26 {
    } else if m < 52 {
        assert(m % 26 == m - 26);
    } else {
        assert(m % 26 == m - 52);
    }
}

proof fn lemma_rotor_round_trip(r: Rotor, n: int)
    requires
        r.wf(),
        0 <= n < 26,
    ensures
        0 <= r.spec_forward(n) < 26,
        0 <= r.spec_backward(n) < 26,
        r.spec_backward(r.spec_forward(n)) == n,
        r.spec_forward(r.spec_backward(n)) == n,
{
    let p = r.position as int;
    let s = r.setting as int;
    let x = (n + 26 + p - s) % 26;
    let y = r.forward_mapping@[x] as int;
    let z = r.reverse_mapping@[x] as int;
    assert(y < 26 && r.reverse_mapping@[y] == x);
    assert(z < 26 && r.forward_mapping@[z] == x);
    lemma_shift_cancel(y, p, s);
    lemma_shift_cancel(z, p, s);
    lemma_shift_cancel(n, p, s);
}

proof fn lemma_signal_involution(e: Enigma, n: int)
    requires
        e.wf(),
        is_involution(e.plugboard_table()),
        0 <= n < 26,
    ensures
        0 <= e.signal(n) < 26,
        e.signal(e.signal(n)) == n,
{
    let a = e.plugboard.table()[n] as int;
    lemma_rotor_round_trip(e.right_rotor, a);
    let b = e.right_rotor.spec_forward(a);
    lemma_rotor_round_trip(e.middle_rotor, b);
    let c = e.middle_rotor.spec_forward(b);
    lemma_rotor_round_trip(e.left_rotor, c);
    let d = e.left_rotor.spec_forward(c);
    let r = e.reflector.table()[d] as int;
    lemma_rotor_round_trip(e.left_rotor, r);
    let f = e.left_rotor.spec_backward(r);
    lemma_rotor_round_trip(e.middle_rotor, f);
    let g = e.middle_rotor.spec_backward(f);
    lemma_rotor_round_trip(e.right_rotor, g);
    let h = e.right_rotor.spec_backward(g);
    let out = e.plugboard.table()[h] as int;
    assert(e.plugboard.table()[out] == h);
    lemma_rotor_round_trip(e.right_rotor, h);
    lemma_rotor_round_trip(e.middle_rotor, g);
    lemma_rotor_round_trip(e.left_rotor, f);
    assert(e.reflector.table()[r] == d);
}

/// Two machines configured alike are the same machine.
pub proof fn lemma_configured_unique(
    e1: Enigma,
    e2: Enigma,
    rotor_indexes: [u8; 3],
    rotor_positions: [u8; 3],
    rotor_settings: [u8; 3],
    pairs: Seq<(char, char)>,
    reflector_letterid: char,
)
    requires
        e1.wf(),
        e2.wf(),
        e1.is_configured(rotor_indexes, rotor_positions, rotor_settings, pairs, reflector_letterid),
        e2.is_configured(rotor_indexes, rotor_positions, rotor_settings, pairs, reflector_letterid),
    ensures
        e1 == e2,
{
    lemma_same_rotor(e1.left_rotor, e2.left_rotor);
    lemma_same_rotor(e1.middle_rotor, e2.middle_rotor);
    lemma_same_rotor(e1.right_rotor, e2.right_rotor);
    assert(e1.plugboard.plugboard_mappings =~= e2.plugboard.plugboard_mappings);
    assert(e1.reflector.reflector_mapping_arr =~= e2.reflector.reflector_mapping_arr);
}

proof fn lemma_same_rotor(r1: Rotor, r2: Rotor)
    requires
        r1.wf(),
        r2.wf(),
        r1.position == r2.position,
        r1.setting == r2.setting,
        r1.notches@ == r2.notches@,
        r1.forward_mapping@ == r2.forward_mapping@,
    ensures
        r1 == r2,
{
    assert(r1.notches =~= r2.notches);
    assert(r1.forward_mapping =~= r2.forward_mapping);
    assert forall|i: int| 0 <= i < 26 implies r1.reverse_mapping[i] == r2.reverse_mapping[i] by {
        let p = r1.forward_mapping@;
        let a = r1.reverse_mapping@[i] as int;
        let b = r2.reverse_mapping@[i] as int;
        assert(p[a] == i && p[b] == i);
    }
    assert(r1.reverse_mapping =~= r2.reverse_mapping);
}

/// The cipher is its own inverse: a letter pressed on a machine, and the
/// lit letter pressed on a fresh machine configured alike, gives the first
/// letter back, as long as no letter is in two plugboard pairs.
pub proof fn lemma_reciprocal(
    e1: Enigma,
    e2: Enigma,
    rotor_indexes: [u8; 3],
    rotor_positions: [u8; 3],
    rotor_settings: [u8; 3],
    pairs: Seq<(char, char)>,
    reflector_letterid: char,
    n: int,
)
    requires
        e1.wf(),
        e2.wf(),
        e1.is_configured(rotor_indexes, rotor_positions, rotor_settings, pairs, reflector_letterid),
        e2.is_configured(rotor_indexes, rotor_positions, rotor_settings, pairs, reflector_letterid),
        letter_pairs(pairs),
        disjoint_pairs(pairs),
        0 <= n < 26,
    ensures
        e2.stepped().signal(e1.stepped().signal(n)) == n,
{
    lemma_configured_unique(e1, e2, rotor_indexes, rotor_positions, rotor_settings, pairs, reflector_letterid);
    lemma_disjoint_plugboard(pairs);
    e1.lemma_stepped_wf();
    lemma_signal_involution(e1.stepped(), n);
}

/// Double stepping: when the right rotor's notch turns the middle rotor onto
/// its own notch, the next press turns the middle rotor again, so it moves
/// twice (and the left rotor once) in two presses.
pub proof fn lemma_double_step(e: Enigma)
    requires
        e.wf(),
        !e.middle_at_notch(),
        e.right_at_notch(),
        e.stepped().middle_at_notch(),
    ensures
        e.stepped().stepped().positions() == (
            (e.positions().0 + 1) % 26,
            (e.positions().1 + 2) % 26,
            (e.positions().2 + 2) % 26,
        ),
{
}

} // verus!
