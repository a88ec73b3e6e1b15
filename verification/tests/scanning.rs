use std::collections::HashMap;

use js_compressor::analysis_object::CodeAnalysisObject;
use js_compressor::code_analysis::{EndOfScopeChar, GoingThrough, NewValueName, PreviousBufferState};
use js_compressor::minify::{assign_end_scope_char, find_value, find_value_can_run, start_count};
use js_compressor::quoted::{find_if_corresponds, find_quote_chars, look_for_values_js};

fn reading(source: &[u8]) -> CodeAnalysisObject {
    let mut buffer = [b'\n'; 1024];
    buffer[..source.len()].copy_from_slice(source);
    let mut cao = CodeAnalysisObject::new();
    cao.receive_buffer(buffer);
    cao
}

#[test]
fn declared_value_is_written_with_its_short_name() {
    let mut cao = reading(b"value;");
    let declared = cao.current_scope.new_value(b"value");
    assert!(matches!(declared.value_new_name, NewValueName::OneChar(65)));
    let mut counts: HashMap<u16, u16> = HashMap::new();
    start_count(&cao, &mut counts);
    assert_eq!(counts.get(&65), Some(&0));
    assert!(find_value_can_run(&cao, &counts));
    assert!(find_value(&mut cao, &mut counts));
    assert_eq!(cao.current_scope.characters, b"A".to_vec());
    assert_eq!(cao.i_buffer, 4);
    assert_eq!(counts.get(&65), Some(&1));
    assert_eq!(cao.character_amounts.one_byte_chars[65], 1);
}

#[test]
fn undeclared_value_becomes_a_potential_value() {
    let mut cao = reading(b"other(1);");
    let mut counts: HashMap<u16, u16> = HashMap::new();
    start_count(&cao, &mut counts);
    assert!(counts.is_empty());
    assert!(!find_value(&mut cao, &mut counts));
    assert!(cao.current_scope.characters.is_empty());
    assert_eq!(cao.i_buffer, 0);
    assert_eq!(cao.current_scope.potential_values_called.len(), 1);
    assert_eq!(cao.current_scope.potential_values_called[0].name, b"other".to_vec());
    assert!(cao.current_scope.potential_values_called[0].is_a_function);
}

#[test]
fn known_globals_are_not_potential_values() {
    let mut cao = reading(b"console.log(1);");
    let mut counts: HashMap<u16, u16> = HashMap::new();
    assert!(!find_value(&mut cao, &mut counts));
    assert!(cao.current_scope.potential_values_called.is_empty());
}

#[test]
fn end_scope_char_moves_the_code_to_the_beginning() {
    let mut cao = CodeAnalysisObject::new();
    cao.add_one_byte_char(97);
    cao.add_one_byte_char(62);
    cao.previous_buffer_state = PreviousBufferState::ExpectingScopeChar;
    assign_end_scope_char(&mut cao, EndOfScopeChar::Curly);
    assert_eq!(cao.current_scope.beginning_chars, b"a>".to_vec());
    assert!(cao.current_scope.characters.is_empty());
    assert!(cao.current_scope.end_scope_char == EndOfScopeChar::Curly);
    assert!(cao.previous_buffer_state == PreviousBufferState::Code);
}

#[test]
fn bytes_after_a_position_can_be_compared() {
    let cao = reading(b"<!--x");
    assert!(find_if_corresponds(&cao, 0, &[33, 45, 45]));
    assert!(!find_if_corresponds(&cao, 0, &[33, 45, 46]));
    assert!(find_if_corresponds(&cao, 4, &[]));
    assert!(!find_if_corresponds(&cao, 1023, &[10]));
}

#[test]
fn code_inside_a_template_stops_at_its_closing_bracket() {
    let mut cao = reading(b"a}b");
    let mut going_through = GoingThrough::JS;
    let mut counts: HashMap<u16, u16> = HashMap::new();
    look_for_values_js(true, &mut going_through, &mut cao, &mut counts);
    assert_eq!(cao.current_scope.characters, b"a}".to_vec());
    assert_eq!(cao.i_buffer, 1);
}

#[test]
fn quoted_byte_is_copied_and_a_matching_quote_closes() {
    let mut cao = reading(b"x'");
    let mut going_through = GoingThrough::JS;
    let mut counts: HashMap<u16, u16> = HashMap::new();
    let mut quote_char = b'\'';
    find_quote_chars(&mut quote_char, &mut going_through, &mut cao, &mut counts);
    assert_eq!(quote_char, b'\'');
    cao.i_buffer = 1;
    find_quote_chars(&mut quote_char, &mut going_through, &mut cao, &mut counts);
    assert_eq!(quote_char, 0);
    assert_eq!(cao.current_scope.characters, b"x'".to_vec());
}
