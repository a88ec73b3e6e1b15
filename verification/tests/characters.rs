use js_compressor::bitset::BitSet64;
use js_compressor::analysis_object::CodeAnalysisObject;
use js_compressor::compression::CharacterAmounts;

#[test]
fn bitset_insert_get_remove() {
    let mut set = BitSet64 { bitset: 0, offset: 65 };
    assert!(!set.get(70));
    set.insert(70);
    assert!(set.get(70));
    assert!(!set.get(71));
    set.insert(128);
    assert!(set.get(128));
    set.remove(70);
    assert!(!set.get(70));
    assert!(set.get(128));
}

#[test]
fn small_characters_are_counted() {
    let mut amounts = CharacterAmounts::new();
    amounts.add_small_char(97);
    amounts.add_small_char(97);
    amounts.add_small_char(32);
    assert_eq!(amounts.one_byte_chars[97], 2);
    assert_eq!(amounts.one_byte_chars[32], 1);
    assert_eq!(amounts.one_byte_chars[98], 0);
    amounts.remove_small_char(97);
    assert_eq!(amounts.one_byte_chars[97], 1);
    amounts.remove_small_char(98);
    assert_eq!(amounts.one_byte_chars[98], 0);
}

#[test]
fn big_characters_are_counted() {
    let mut amounts = CharacterAmounts::new();
    let e_acute = [0xC3u8, 0xA9, 0, 0];
    let euro = [0xE2u8, 0x82, 0xAC, 0];
    let smile = [0xF0u8, 0x9F, 0x98, 0x80];
    assert_eq!(amounts.big_char_amount(e_acute), 0);
    amounts.add_big_char(e_acute);
    amounts.add_big_char(e_acute);
    amounts.add_big_char(euro);
    amounts.add_big_char(smile);
    assert_eq!(amounts.big_char_amount(e_acute), 2);
    assert_eq!(amounts.big_char_amount(euro), 1);
    assert_eq!(amounts.big_char_amount(smile), 1);
    assert_eq!(amounts.big_char_amount([0xC3u8, 0xA8, 0, 0]), 0);
}

#[test]
fn two_byte_character_comes_back_from_its_place() {
    // é = C3 A9: list index (A9 & 7F) | (C3 << 7) = 0xA9, subindex C3.
    assert_eq!(CharacterAmounts::extract_two_bytes_char(0xA9, 0xC3), [0xC3, 0xA9]);
}

#[test]
fn three_byte_character_comes_back_from_its_place() {
    // € = E2 82 AC: list index 0xAC, subindex 0x20.
    assert_eq!(CharacterAmounts::extract_three_bytes_char(0xAC, 0x20), [0xE2, 0x82, 0xAC]);
}

#[test]
fn four_byte_character_comes_back_from_its_place() {
    // 😀 = F0 9F 98 80: list index 0, subindexes 9F 98.
    assert_eq!(CharacterAmounts::extract_four_byte_char(0, [0x9F, 0x98]), [0xF0, 0x9F, 0x98, 0x80]);
}

#[test]
fn bitset_words_hold_exactly_the_inserted_bits() {
    let mut set = BitSet64 { bitset: 0, offset: 65 };
    set.insert(70);
    assert_eq!(set.bitset, 1u64 << 5);
    set.insert(128);
    assert_eq!(set.bitset, (1u64 << 5) | (1u64 << 63));
    set.remove(70);
    assert_eq!(set.bitset, 1u64 << 63);
    assert_eq!(set.offset, 65);
}

#[test]
fn a_new_three_byte_character_gets_its_own_entry() {
    // U+0E01 = E0 B8 81: list index 0b'ijklmnop' = 1, subindex 0b'abcdefgh' = 0x0E.
    let mut amounts = CharacterAmounts::new();
    amounts.add_big_char([0xE0, 0xB8, 0x81, 0]);
    assert_eq!(amounts.three_byte_chars[1].len(), 1);
    assert_eq!(amounts.three_byte_chars[1][0].character_subindex, 0x0E);
    assert_eq!(amounts.three_byte_chars[1][0].amount, 1);
    let others: usize = amounts.three_byte_chars.iter().map(|b| b.len()).sum();
    assert_eq!(others, 1);
    assert!(amounts.two_byte_chars.iter().all(|b| b.is_empty()));
    assert!(amounts.four_byte_chars.iter().all(|b| b.is_empty()));
    amounts.add_big_char([0xE0, 0xB8, 0x81, 0]);
    assert_eq!(amounts.three_byte_chars[1].len(), 1);
    assert_eq!(amounts.three_byte_chars[1][0].amount, 2);
}

#[test]
fn a_two_byte_character_is_written_and_counted_once_complete() {
    let mut cao = CodeAnalysisObject::new();
    cao.add_byte_for_big_char(0xC3);
    assert_eq!(cao.current_char_bytes_remaining, 1);
    assert!(cao.character_amounts.two_byte_chars.iter().all(|b| b.is_empty()));
    cao.add_byte_for_big_char(0xA9);
    assert_eq!(cao.current_scope.characters, vec![0xC3, 0xA9]);
    assert_eq!(cao.current_char_bytes_remaining, 0);
    assert_eq!(cao.current_big_char, [0; 4]);
    assert_eq!(cao.character_amounts.two_byte_chars[169].len(), 1);
    assert_eq!(cao.character_amounts.two_byte_chars[169][0].character_subindex, 0xC3);
    assert_eq!(cao.character_amounts.two_byte_chars[169][0].amount, 1);
    let all: usize = cao.character_amounts.two_byte_chars.iter().map(|b| b.len()).sum();
    assert_eq!(all, 1);
}

#[test]
fn an_unfinished_character_is_given_up_for_a_new_one() {
    let mut cao = CodeAnalysisObject::new();
    assert!(cao.add_byte(0xC3));
    assert!(cao.add_byte(0xC3));
    assert!(cao.add_byte(0xA9));
    assert_eq!(cao.current_scope.characters, vec![0xC3, 0xC3, 0xA9]);
    assert_eq!(cao.current_char_bytes_remaining, 0);
    assert_eq!(cao.character_amounts.two_byte_chars[169].len(), 1);
    assert_eq!(cao.character_amounts.two_byte_chars[169][0].amount, 1);
    assert!(!cao.add_byte(0xA9));
    assert_eq!(cao.current_scope.characters, vec![0xC3, 0xC3, 0xA9]);
}
