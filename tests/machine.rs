use enigma::Enigma;

fn benchmark_pairs() -> Vec<(char, char)> {
    vec![
        ('B', 'Q'),
        ('C', 'R'),
        ('D', 'I'),
        ('E', 'J'),
        ('K', 'W'),
        ('M', 'T'),
        ('O', 'S'),
        ('P', 'X'),
        ('U', 'Z'),
        ('G', 'H'),
    ]
}

fn type_text(enigma: &mut Enigma, text: &str) -> String {
    let mut out = String::with_capacity(text.len());
    for c in text.chars() {
        out.push(enigma.encrypt(c));
    }
    out
}

#[test]
fn benchmark_test() {
    let rotor_indexes = [7u8, 5, 3];
    let rotor_positions = [18u8, 10, 12];
    let rotor_settings = [1u8, 1, 5];
    let plugboard_mappings = benchmark_pairs();

    let mut enigma = Enigma::new_enigma(rotor_indexes, rotor_positions, rotor_settings, &plugboard_mappings, 'B');

    for i in 0..100000 {
        let string = "HELLOWORLDANDTHISISJUSTATESTHJDLSDHGUROSLJKSHDJKSBDJKBSJKDBSKJBFJKSBFJKSFGHJGHGJYKFYJFYKTFTFKYFTFIYU";
        let write_to = type_text(&mut enigma, string);
        if i == 0 {
            assert_eq!(
                write_to,
                "OJWAHLFOZNXGNBBWWJTSSWCSHSYLZMTENWAMIMUGRTFFJMYNTQCNSJAKTUYJRDSCCOHEXERXDIGVQWAPABBBNUQMDNFJXKKOXSQM"
            );
        }
    }
}

#[test]
fn fresh_machine_decrypts_each_letter() {
    let pairs = benchmark_pairs();
    for start in 0u8..26 {
        for c in b'A'..=b'Z' {
            let c = c as char;
            let mut first = Enigma::new_enigma([7, 5, 3], [start, 10, 12], [1, 1, 5], &pairs, 'B');
            let mut second = Enigma::new_enigma([7, 5, 3], [start, 10, 12], [1, 1, 5], &pairs, 'B');
            let lit = first.encrypt(c);
            assert_ne!(lit, c);
            assert_eq!(second.encrypt(lit), c);
        }
    }
}

#[test]
fn whole_message_round_trip() {
    let pairs = vec![('A', 'Z'), ('Q', 'M')];
    let plain = "ATTACKATDAWNALONGTHERIVER";
    let mut e1 = Enigma::new_enigma([0, 1, 2], [0, 0, 0], [0, 0, 0], &pairs, 'C');
    let cipher = type_text(&mut e1, plain);
    assert_ne!(cipher, plain);
    let mut e2 = Enigma::new_enigma([0, 1, 2], [0, 0, 0], [0, 0, 0], &pairs, 'C');
    assert_eq!(type_text(&mut e2, &cipher), plain);
}

#[test]
fn middle_rotor_double_steps() {
    // Design 1 has its notch at 4, design 2 at 21.  The first press turns
    // the middle rotor onto its notch, the second turns it and the left one.
    let pairs = Vec::new();
    let mut pressed = Enigma::new_enigma([0, 1, 2], [7, 3, 21], [2, 4, 6], &pairs, 'B');
    pressed.encrypt('A');
    pressed.encrypt('A');
    let mut expected = Enigma::new_enigma([0, 1, 2], [8, 5, 23], [2, 4, 6], &pairs, 'B');
    let text = "THEMIDDLEROTORSTEPSTWICEINAROWHEREANDTHENMOVESON";
    assert_eq!(type_text(&mut pressed, text), type_text(&mut expected, text));
}

#[test]
fn middle_rotor_single_step_without_notch() {
    let pairs = Vec::new();
    let mut pressed = Enigma::new_enigma([0, 1, 2], [7, 10, 21], [0, 0, 0], &pairs, 'B');
    pressed.encrypt('A');
    pressed.encrypt('A');
    let mut expected = Enigma::new_enigma([0, 1, 2], [7, 11, 23], [0, 0, 0], &pairs, 'B');
    let text = "ONLYONESTEPFORTHEMIDDLEROTOR";
    assert_eq!(type_text(&mut pressed, text), type_text(&mut expected, text));
}

#[test]
fn unknown_reflector_uses_descending_table() {
    let pairs = Vec::new();
    let mut a = Enigma::new_enigma([3, 4, 6], [1, 2, 3], [4, 5, 6], &pairs, 'X');
    let mut b = Enigma::new_enigma([3, 4, 6], [1, 2, 3], [4, 5, 6], &pairs, 'Q');
    let mut c = Enigma::new_enigma([3, 4, 6], [1, 2, 3], [4, 5, 6], &pairs, 'B');
    let text = "REFLECTORFALLBACK";
    let out_a = type_text(&mut a, text);
    assert_eq!(out_a, type_text(&mut b, text));
    assert_ne!(out_a, type_text(&mut c, text));
}
