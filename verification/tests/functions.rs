use js_compressor::minify::{add, ajouter, drain_values, multiplier, soustraire, value_name_is_valid, InvalidSyntaxError};

#[test]
fn test() {
    //Array statique de fonctions
    let liste_de_fonctions: [fn(i32, i32) -> i32; 3] = [ajouter, multiplier, soustraire];
    let mut i = 0;
    while i < 3 {
        let fonction_a_executer: fn(i32, i32) -> i32 = liste_de_fonctions[i];
        let resultat = fonction_a_executer(4, 5);
        println!("Le résultat est {}", resultat);
        i += 1;
    }
}

#[test]
fn arithmetic_helpers_give_exact_results() {
    assert_eq!(ajouter(4, 5), 9);
    assert_eq!(multiplier(4, 5), 20);
    assert_eq!(soustraire(4, 5), -1);
    assert_eq!(add(2, 2), 4);
}

#[test]
fn value_name_is_valid_needs_boundaries_on_both_sides() {
    assert!(value_name_is_valid(32, 59));
    assert!(value_name_is_valid(40, 41));
    assert!(!value_name_is_valid(97, 32));
    assert!(!value_name_is_valid(32, 48));
}

#[test]
fn drain_values_removes_the_bytes_between() {
    let mut buf = vec![1u8, 2, 3, 4, 5];
    let mut i = 3usize;
    let mut last = 0usize;
    drain_values(&mut buf, &mut i, &mut last);
    assert_eq!(buf, vec![1u8, 4, 5]);
    assert_eq!(i, 0);
    assert_eq!(last, 0);
}

#[test]
fn drain_values_with_nothing_between_moves_last_index() {
    let mut buf = vec![1u8, 2, 3];
    let mut i = 1usize;
    let mut last = 0usize;
    drain_values(&mut buf, &mut i, &mut last);
    assert_eq!(buf, vec![1u8, 2, 3]);
    assert_eq!(i, 1);
    assert_eq!(last, 1);
}

#[test]
fn syntax_error_has_a_message() {
    let message = InvalidSyntaxError.message();
    assert!(message.starts_with("Code given as an input seems to contain a sytax error."));
}
