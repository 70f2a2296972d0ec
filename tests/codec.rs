use enigma::codec::{c2n, c2narray_arr26, inv_mapping_arr26, n2c};

#[test]
fn letters_round_trip() {
    for c in b'A'..=b'Z' {
        let c = c as char;
        assert_eq!(n2c(c2n(c)), c);
    }
    assert_eq!(c2n('A'), 0);
    assert_eq!(c2n('Z'), 25);
    assert_eq!(n2c(7), 'H');
}

#[test]
fn string_to_numbers() {
    let t = c2narray_arr26("EKMFLGDQVZNTOWYHXUSPAIBRCJ");
    assert_eq!(t[0], 4);
    assert_eq!(t[1], 10);
    assert_eq!(t[25], 9);
}

#[test]
fn inverse_of_inverse_gives_table_back() {
    let wirings = [
        "EKMFLGDQVZNTOWYHXUSPAIBRCJ",
        "AJDKSIRUXBLHWTMCQGZNPYFVOE",
        "FKQHTLXOCBJSPDZRAMEWNIUYGV",
        "ZYXWVUTSRQPONMLKJIHGFEDCBA",
    ];
    for w in wirings {
        let p = c2narray_arr26(w);
        let q = inv_mapping_arr26(p);
        for i in 0..26 {
            assert_eq!(q[p[i] as usize] as usize, i);
        }
        assert_eq!(inv_mapping_arr26(q), p);
    }
}

#[test]
fn inverse_of_known_table() {
    let p = c2narray_arr26("EKMFLGDQVZNTOWYHXUSPAIBRCJ");
    let q = inv_mapping_arr26(p);
    // 'A' is wired to 'E', so the inverse sends 'E' (4) back to 'A' (0).
    assert_eq!(q[4], 0);
    assert_eq!(q[9], 25);
}
