use std::collections::HashMap;

use js_compressor::analysis_object::CodeAnalysisObject;
use js_compressor::code_analysis::GoingThrough;
use js_compressor::closing::whole_output;
use js_compressor::compress::compress_buffer;

fn run(source: &[u8]) -> Vec<u8> {
    let mut buffer = [b'\n'; 1024];
    buffer[..source.len()].copy_from_slice(source);
    let mut cao = CodeAnalysisObject::new();
    let mut quote_char = 0u8;
    let mut function_body = false;
    let mut going_through = GoingThrough::JS;
    let mut counts: HashMap<u16, u16> = HashMap::new();
    assert!(compress_buffer(&mut cao, buffer, &mut quote_char, &mut function_body, &mut going_through, &mut counts));
    assert_eq!(cao.last_index, 1024);
    cao.current_scope.characters.clone()
}

#[test]
fn newlines_and_extra_spaces_are_dropped() {
    assert_eq!(run(b"let a=1;\n"), b"let A=1;".to_vec());
    assert_eq!(run(b"x  y"), b"x y".to_vec());
    assert_eq!(run(b"x + y"), b"x+y".to_vec());
}

#[test]
fn comments_are_dropped() {
    assert_eq!(run(b"a;//note\nb;"), b"a;b;".to_vec());
    assert_eq!(run(b"a/*x*/;"), b"a;".to_vec());
    assert_eq!(run(b"a<!-- html -->;"), b"a;".to_vec());
}

#[test]
fn quoted_text_is_kept() {
    assert_eq!(run(b"s = 'a  b';"), b"s='a  b';".to_vec());
}

#[test]
fn blocks_are_closed_into_their_parent() {
    assert_eq!(run(b"{ x; }"), b"{x;}".to_vec());
}

#[test]
fn two_buffers_follow_each_other() {
    let mut cao = CodeAnalysisObject::new();
    let mut quote_char = 0u8;
    let mut function_body = false;
    let mut going_through = GoingThrough::JS;
    let mut counts: HashMap<u16, u16> = HashMap::new();
    let mut first = [b'\n'; 1024];
    first[..2].copy_from_slice(b"a;");
    let mut second = [b'\n'; 1024];
    second[..2].copy_from_slice(b"b;");
    assert!(compress_buffer(&mut cao, first, &mut quote_char, &mut function_body, &mut going_through, &mut counts));
    assert!(compress_buffer(&mut cao, second, &mut quote_char, &mut function_body, &mut going_through, &mut counts));
    assert_eq!(cao.current_scope.characters, b"a;b;".to_vec());
}

#[test]
fn function_parameters_get_short_names() {
    assert_eq!(run(b"function foo(a,b){return a+b}"), b"function A(B,C){return B+C}".to_vec());
}

#[test]
fn template_literals_are_kept() {
    assert_eq!(run(b"s=`x${a}y`;"), b"s=`x${a}y`;".to_vec());
}

#[test]
fn slashes_inside_quotes_are_no_comment() {
    assert_eq!(run(b"'//a'"), b"'//a'".to_vec());
}

#[test]
fn block_and_line_comments_between_numbers_are_dropped() {
    assert_eq!(run(b"1/*c*/+2//d"), b"1+2".to_vec());
}

#[test]
fn let_const_and_var_names_get_short_names() {
    assert_eq!(run(b"let count=1;console.log(count)"), b"let A=1;console.log(A)".to_vec());
    assert_eq!(run(b"const x = 5;\nvar y = x;\ny"), b"const A=5;var B=A;B".to_vec());
}

#[test]
fn a_declaration_in_a_block_is_known_in_it() {
    assert_eq!(run(b"{ let a = 1; a; }"), b"{let A=1;A;}".to_vec());
}

#[test]
fn the_text_of_scopes_left_open_is_kept() {
    let mut buffer = [b'\n'; 1024];
    let source = b"a;{b;";
    buffer[..source.len()].copy_from_slice(source);
    let mut cao = CodeAnalysisObject::new();
    let mut quote_char = 0u8;
    let mut function_body = false;
    let mut going_through = GoingThrough::JS;
    let mut counts: HashMap<u16, u16> = HashMap::new();
    assert!(compress_buffer(&mut cao, buffer, &mut quote_char, &mut function_body, &mut going_through, &mut counts));
    assert_eq!(cao.current_scope.characters, b"b;".to_vec());
    assert_eq!(whole_output(&cao.current_scope), b"a;{b;".to_vec());
}

#[test]
fn a_var_in_a_block_keeps_its_name() {
    assert_eq!(run(b"{ var a = 1; } a;"), b"{var a=1;}a;".to_vec());
    assert_eq!(run(b"function f(){ var a = 1; return a }"), b"function A(){var B=1;return B}".to_vec());
}

#[test]
fn a_declared_function_is_called_by_its_short_name() {
    assert_eq!(run(b"function f(a){return a}\nf(1)"), b"function A(B){return B}A(1)".to_vec());
}
