use std::collections::HashMap;

use js_compressor::analysis_object::CodeAnalysisObject;
use js_compressor::closing::{collect_changed_values, render_upper_if, rename_values, scope_end};
use js_compressor::code_analysis::{EndOfScopeChar, InsideOf, JsScope, NewValueName, Value};

#[test]
fn rename_values_renames_whole_names() {
    let changed = vec![([97u8, 98], 65u8)];
    assert_eq!(rename_values(&b"ab+ab".to_vec(), &changed), b"A+A".to_vec());
    assert_eq!(rename_values(&b"abc+ab".to_vec(), &changed), b"abc+A".to_vec());
}

#[test]
fn rename_values_leaves_quotes_alone() {
    let changed = vec![([97u8, 98], 65u8)];
    assert_eq!(rename_values(&b"'ab'+ab".to_vec(), &changed), b"'ab'+A".to_vec());
    assert_eq!(rename_values(&b"`ab${ab}`".to_vec(), &changed), b"`ab${A}`".to_vec());
}

#[test]
fn rename_values_without_pairs_changes_nothing() {
    let text = b"let ab = 'x' + `y${ab}`;".to_vec();
    assert_eq!(rename_values(&text, &Vec::new()), text);
}

#[test]
fn changed_values_take_the_letters_free_before_the_declaration() {
    let value = Value {
        value_old_name: b"ong".to_vec(),
        value_new_name: NewValueName::TwoChar([65, 65]),
        amount_occurences: 1,
        declaration_index: 10,
        last_usage_index: 12,
        function_index: None,
    };
    let mut positions: [Option<usize>; 52] = [None; 52];
    positions[2] = Some(5);
    positions[30] = Some(20);
    assert_eq!(collect_changed_values(&vec![value], &positions), vec![([65u8, 65], 67u8)]);
}

fn branch(inside_of: InsideOf, beginning: &[u8], characters: &[u8], end: EndOfScopeChar) -> JsScope {
    let mut scope = JsScope::new(None, inside_of);
    scope.beginning_chars = beginning.to_vec();
    scope.characters = characters.to_vec();
    scope.end_scope_char = end;
    scope
}

#[test]
fn single_if_becomes_a_condition_and_code() {
    let list = vec![branch(InsideOf::IfStatement, b"c", b"x()", EndOfScopeChar::NotSet)];
    let (out, counted) = render_upper_if(&list).ok().unwrap();
    assert_eq!(out, b"c&&x()".to_vec());
    assert_eq!(counted, b"&&".to_vec());
}

#[test]
fn if_else_becomes_a_ternary() {
    let list = vec![
        branch(InsideOf::IfStatement, b"a", b"b", EndOfScopeChar::NotSet),
        branch(InsideOf::ElseStatement, b"", b"c", EndOfScopeChar::NotSet),
    ];
    let (out, counted) = render_upper_if(&list).ok().unwrap();
    assert_eq!(out, b"a?b:c".to_vec());
    assert_eq!(counted, b"?:".to_vec());
}

#[test]
fn if_else_with_curly_keeps_keywords() {
    let list = vec![
        branch(InsideOf::IfStatement, b"a", b"b", EndOfScopeChar::Curly),
        branch(InsideOf::ElseStatement, b"", b"c", EndOfScopeChar::NotSet),
    ];
    let (out, _) = render_upper_if(&list).ok().unwrap();
    assert_eq!(out, b"if(a){b}else(){c}".to_vec());
}

#[test]
fn unmatched_bracket_is_a_syntax_error() {
    let list = vec![branch(InsideOf::IfStatement, b"c", b"a)", EndOfScopeChar::NotSet)];
    assert!(render_upper_if(&list).is_err());
}

#[test]
fn closing_a_scope_hands_its_output_to_the_parent() {
    let mut cao = CodeAnalysisObject::new();
    cao.add_one_byte_char(97);
    cao.enter_scope(InsideOf::NormalCode);
    cao.add_one_byte_char(120);
    cao.add_one_byte_char(61);
    cao.add_one_byte_char(49);
    let mut counts: HashMap<u16, u16> = HashMap::new();
    assert!(scope_end(&mut cao, &mut counts).is_ok());
    assert!(cao.current_scope.parent_scope.is_none());
    assert_eq!(cao.current_scope.characters, b"ax=1}".to_vec());
    assert!(cao.current_scope.is_a_parent);
    assert_eq!(cao.character_amounts.one_byte_chars[125], 2);
    assert_eq!(cao.character_amounts.one_byte_chars[120], 2);
    assert!(counts.is_empty());
}

#[test]
fn closing_the_top_scope_only_adds_the_bracket() {
    let mut cao = CodeAnalysisObject::new();
    cao.add_one_byte_char(97);
    let mut counts: HashMap<u16, u16> = HashMap::new();
    assert!(scope_end(&mut cao, &mut counts).is_ok());
    assert_eq!(cao.current_scope.characters, b"a}".to_vec());
    assert_eq!(cao.character_amounts.one_byte_chars[125], 1);
}

#[test]
fn a_freed_letter_goes_to_one_value_only() {
    let two = |c: [u8; 2], decl: usize| Value {
        value_old_name: c.to_vec(),
        value_new_name: NewValueName::TwoChar(c),
        amount_occurences: 0,
        declaration_index: decl,
        last_usage_index: decl,
        function_index: None,
    };
    let vals = vec![two([65, 65], 50), two([65, 66], 60), two([65, 67], 70)];
    let mut pos: [Option<usize>; 52] = [None; 52];
    // 'A' was last used at 10 and 'B' at 20 in the child scopes.
    pos[0] = Some(10);
    pos[1] = Some(20);
    let changed = collect_changed_values(&vals, &pos);
    assert_eq!(changed, vec![([65, 65], 65), ([65, 66], 66)]);
}

#[test]
fn several_statements_in_a_ternary_are_joined_by_commas() {
    let mut first = branch(InsideOf::IfStatement, b"a", b"b;c", EndOfScopeChar::NotSet);
    first.semi_column_indexes.push(1);
    let list = vec![first, branch(InsideOf::ElseStatement, b"", b"d", EndOfScopeChar::NotSet)];
    let (out, counted) = render_upper_if(&list).ok().unwrap();
    assert_eq!(out, b"a?(b,c):d".to_vec());
    assert_eq!(counted, b"?():".to_vec());
}
