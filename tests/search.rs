use enigma::search::{
    add_best_plugwire, cipher_string, decipher, decrypt_letters, n_choose_three, rotor_configs, rotor_settings,
    score_config, solve_plugboard, EnigmaConfig, EnigmaResults,
};
use enigma::Enigma;

fn config(score: i32) -> EnigmaConfig {
    EnigmaConfig { rotors: [0, 1, 2], settings: [0, 0, 0], mappings: Vec::new(), score }
}

fn numbers(text: &str) -> Vec<u8> {
    text.bytes().map(|b| b - b'A').collect()
}

#[test]
fn choose_three_without_repeats() {
    let t = n_choose_three(3, false, false);
    assert_eq!(t, vec![[0, 1, 2], [0, 2, 1], [1, 0, 2], [1, 2, 0], [2, 0, 1], [2, 1, 0]]);
}

#[test]
fn choose_three_with_repeats_from_one() {
    let t = n_choose_three(2, true, true);
    assert_eq!(
        t,
        vec![[1, 1, 1], [1, 1, 2], [1, 2, 1], [1, 2, 2], [2, 1, 1], [2, 1, 2], [2, 2, 1], [2, 2, 2]]
    );
}

#[test]
fn rotor_and_ring_enumerations() {
    let s = rotor_settings();
    assert_eq!(s.len(), 17576);
    assert_eq!(s[0], [0, 0, 0]);
    assert_eq!(s[1], [0, 0, 1]);
    assert_eq!(s[17575], [25, 25, 25]);
    assert_eq!(rotor_configs(8).len(), 336);
    assert_eq!(rotor_configs(3).len(), 6);
}

#[test]
fn top_n_keeps_highest() {
    let mut res = EnigmaResults::new(2);
    for s in [5, 1, 7, 3, 6] {
        res.add(config(s));
    }
    let mut kept: Vec<i32> = res.top_enigma_configs.iter().map(|c| c.score).collect();
    kept.sort();
    assert_eq!(kept, vec![6, 7]);
}

#[test]
fn top_n_with_ties_keeps_n() {
    let mut res = EnigmaResults::new(3);
    for s in [4, 4, 4, 4, 2, 9] {
        res.add(config(s));
    }
    let mut kept: Vec<i32> = res.top_enigma_configs.iter().map(|c| c.score).collect();
    kept.sort();
    assert_eq!(kept, vec![4, 4, 9]);
}

#[test]
fn top_n_under_capacity_keeps_all() {
    let mut res = EnigmaResults::new(5);
    res.add(config(3));
    res.add(config(1));
    assert_eq!(res.top_enigma_configs.len(), 2);
}

#[test]
fn cipher_string_matches_machine() {
    let pairs = vec![('A', 'B')];
    let text = "SOMELETTERSTOENCIPHER";
    let out = cipher_string(text, [2, 0, 1], [3, 4, 5], &pairs);
    assert_ne!(out, text);
    let mut e = Enigma::new_enigma([2, 0, 1], [1, 1, 1], [3, 4, 5], &pairs, 'B');
    let direct: String = text.chars().map(|c| e.encrypt(c)).collect();
    assert_eq!(out, direct);
    assert_eq!(cipher_string(&out, [2, 0, 1], [3, 4, 5], &pairs), text);
}

#[test]
fn decrypt_letters_matches_cipher_string() {
    let pairs = Vec::new();
    let text = "ABCDEFG";
    let out = cipher_string(text, [4, 5, 6], [1, 2, 3], &pairs);
    assert_eq!(decrypt_letters(&numbers(text), [4, 5, 6], [1, 2, 3], &pairs), numbers(&out));
}

#[test]
fn plugwire_round_improves_or_reports_none() {
    let text = numbers(&cipher_string(
        "WEATHERREPORTFORTHENORTHSEAWINDSTRONGFROMTHEWEST",
        [0, 1, 2],
        [0, 0, 0],
        &vec![('E', 'T')],
    ));
    let start = EnigmaConfig {
        rotors: [0, 1, 2],
        settings: [0, 0, 0],
        mappings: Vec::new(),
        score: score_config(&text, [0, 1, 2], [0, 0, 0], &Vec::new()),
    };
    match add_best_plugwire(&text, &start) {
        Some(c) => {
            assert!(c.score > start.score);
            assert_eq!(c.mappings.len(), 1);
            assert_eq!(c.score, score_config(&text, [0, 1, 2], [0, 0, 0], &c.mappings));
        }
        None => panic!("some wire should improve the score"),
    }
    let top = EnigmaConfig { score: 30000, ..start };
    assert!(add_best_plugwire(&text, &top).is_none());
}

#[test]
fn zero_wires_returns_input() {
    let text = numbers("HELLOWORLD");
    let score = score_config(&text, [0, 1, 2], [0, 0, 0], &Vec::new());
    let conf = EnigmaConfig { rotors: [0, 1, 2], settings: [0, 0, 0], mappings: Vec::new(), score };
    let out = solve_plugboard(conf, &text, 0);
    assert_eq!(out.score, score);
    assert!(out.mappings.is_empty());
}

#[test]
fn decipher_rejects_short_text() {
    assert!(decipher("", 3, 0).is_none());
    assert!(decipher("Q", 3, 0).is_none());
}

#[test]
fn solver_recovers_known_plaintext() {
    // Enciphered with rotors [2, 0, 1], ring settings [3, 7, 11], starting
    // positions [1, 1, 1], reflector B and plugboard pairs T-Z and E-X.
    let plain = "THEQUICKBROWNFOXJUMPSOVERTHELAZYDOGANDTHENRUNSAWAYINTOTHEFORESTWHERETHEOTHERANIMALSAREWAITINGFORTHEMTOCOMEBACKHOMEBEFORETHESUNSETSOVERTHEHILLSANDTHENIGHTFALLSONTHEQUIETVILLAGEBELOWTHEMOUNTAINS";
    let cipher = "OVBIRJYESVXZJNNEOXFUTTPVTYWNUTKKLSWCAQOVDXHBMMPVQXTRJREIRVGUROSHAVYFAXHAFXIBDJSQSZPNYJUMHRXOVRDEWZLTRGYUSSUJFSWBDQDLJDYSKBKPZEPREDWFHJOXRLYKHCVSCFSJQFAMKMHVTJXUBELWRVPDIVWPFFUVOIPAXOTLQVFNDNTT";
    assert_eq!(cipher_string(plain, [2, 0, 1], [3, 7, 11], &vec![('T', 'Z'), ('E', 'X')]), cipher);
    let (best, text) = decipher(cipher, 3, 2).unwrap();
    assert_eq!(best.rotors, [2, 0, 1]);
    assert_eq!(best.settings, [3, 7, 11]);
    assert_eq!(text, plain);
}
