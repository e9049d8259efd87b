//! Tests for the decoder, the encoder, and their round trip.

use rusty_adams::game::parser::{parse_game, ParseErrorKind};
use rusty_adams::game::writer::write_game;
use rusty_adams::game::{ActionType, Condition, Game, ETERNAL_LIGHT};
use rusty_adams::tokenizer::{Stream, TokenErrorKind};

/// One integer cell, exactly as the encoder lays it out.
fn int_tok(n: i32) -> Vec<u8> {
    format!(" {} \n", n).into_bytes()
}

/// One quoted string cell, exactly as the encoder lays it out.
fn str_tok(s: &str) -> Vec<u8> {
    format!("\"{}\"\n", s).into_bytes()
}

/// A small but complete game file in canonical layout: one action, one
/// verb/noun pair, one room, one message, one item, and a footer.
fn sample_file() -> Vec<u8> {
    let mut data: Vec<u8> = Vec::new();
    // header: the five counts are stored one less than the true count
    data.extend(int_tok(0)); // unknown
    data.extend(int_tok(0)); // 1 item
    data.extend(int_tok(0)); // 1 action
    data.extend(int_tok(0)); // 1 word pair
    data.extend(int_tok(0)); // 1 room
    data.extend(int_tok(6)); // max inventory
    data.extend(int_tok(0)); // starting room
    data.extend(int_tok(1)); // treasures
    data.extend(int_tok(3)); // word length
    data.extend(int_tok(-1)); // eternal light
    data.extend(int_tok(0)); // 1 message
    data.extend(int_tok(0)); // treasure room
    // one action: verb 1, noun 2; condition ItemPresent(7); GetItem
    data.extend(int_tok(1 * 150 + 2));
    data.extend(int_tok(3 + 20 * 7));
    data.extend(int_tok(0));
    data.extend(int_tok(0));
    data.extend(int_tok(0));
    data.extend(int_tok(0));
    data.extend(int_tok(52 * 150));
    data.extend(int_tok(0));
    // one verb/noun pair
    data.extend(str_tok("GO"));
    data.extend(str_tok("*NOR"));
    // one room
    data.extend(int_tok(0));
    data.extend(int_tok(0));
    data.extend(int_tok(0));
    data.extend(int_tok(0));
    data.extend(int_tok(0));
    data.extend(int_tok(0));
    data.extend(str_tok("*deep forest"));
    // one message
    data.extend(str_tok("hello"));
    // one item, a treasure with an autograb name
    data.extend(str_tok("*LAMP/LAMP/"));
    data.extend(int_tok(5));
    // one comment, one per action
    data.extend(str_tok("pick up the lamp"));
    // footer
    data.extend(int_tok(1));
    data.extend(int_tok(2));
    data.extend(int_tok(3));
    data
}

/// A game file whose header demands nothing at all: every count stored as
/// -1, so every section is empty.
fn empty_file() -> Vec<u8> {
    let mut data: Vec<u8> = Vec::new();
    data.extend(int_tok(7)); // unknown
    data.extend(int_tok(-1)); // 0 items
    data.extend(int_tok(-1)); // 0 actions
    data.extend(int_tok(-1)); // 0 word pairs
    data.extend(int_tok(-1)); // 0 rooms
    data.extend(int_tok(2)); // max inventory
    data.extend(int_tok(0)); // starting room
    data.extend(int_tok(0)); // treasures
    data.extend(int_tok(4)); // word length
    data.extend(int_tok(50)); // light duration
    data.extend(int_tok(-1)); // 0 messages
    data.extend(int_tok(0)); // treasure room
    data.extend(int_tok(9)); // footer: version
    data.extend(int_tok(8)); // footer: adventure
    data.extend(int_tok(7)); // footer: magic
    data
}

fn parse_bytes(data: Vec<u8>) -> Game {
    let mut stream = Stream::new(data).expect("tokenize");
    let game = parse_game(&mut stream).expect("parse");
    assert!(stream.done());
    game
}

#[test]
fn test_parse_and_write_are_inverses() {
    // Decoding a game file and re-encoding the game reproduces the file
    // byte for byte.
    let want = sample_file();
    let game = parse_bytes(want.clone());
    let got = write_game(&game);
    assert_eq!(got, want);
}

#[test]
fn test_round_trip_empty_game() {
    let want = empty_file();
    let game = parse_bytes(want.clone());
    assert_eq!(game.actions.len(), 0);
    assert_eq!(game.verbs.len(), 0);
    assert_eq!(game.nouns.len(), 0);
    assert_eq!(game.rooms.len(), 0);
    assert_eq!(game.messages.len(), 0);
    assert_eq!(game.items.len(), 0);
    let got = write_game(&game);
    assert_eq!(got, want);
}

#[test]
fn test_header_count_adjustment() {
    // The on-disk counts are one less than the true counts.
    let game = parse_bytes(sample_file());
    assert_eq!(game.header.num_items, 1);
    assert_eq!(game.header.num_actions, 1);
    assert_eq!(game.header.num_words, 1);
    assert_eq!(game.header.num_rooms, 1);
    assert_eq!(game.header.num_messages, 1);
    assert_eq!(game.header.light_duration, ETERNAL_LIGHT);

    let empty = parse_bytes(empty_file());
    assert_eq!(empty.header.num_items, 0);
    assert_eq!(empty.header.num_messages, 0);

    // Encoding writes the counts back decremented: the second cell of the
    // written file holds num_items - 1.
    let written = write_game(&game);
    let mut expected_prefix: Vec<u8> = Vec::new();
    expected_prefix.extend(int_tok(0));
    expected_prefix.extend(int_tok(game.header.num_items - 1));
    assert_eq!(&written[..expected_prefix.len()], &expected_prefix[..]);
}

#[test]
fn test_decoded_game_fields() {
    let game = parse_bytes(sample_file());

    assert_eq!(game.actions.len(), 1);
    let action = &game.actions[0];
    assert_eq!(action.verb_index, 1);
    assert_eq!(action.noun_index, 2);
    assert_eq!(action.conditions[0], Condition::ItemPresent(7));
    assert_eq!(action.conditions[1], Condition::Parameter(0));
    assert_eq!(action.actions[0], ActionType::GetItem);
    assert_eq!(action.actions[1], ActionType::Nothing);
    assert_eq!(action.comment, Some(b"pick up the lamp".to_vec()));

    assert_eq!(game.rooms.len(), 1);
    assert_eq!(game.rooms[0].exits, [0, 0, 0, 0, 0, 0]);
    assert_eq!(game.rooms[0].description, b"deep forest".to_vec());
    assert!(game.rooms[0].is_literal);

    assert_eq!(game.messages, vec![b"hello".to_vec()]);

    assert_eq!(game.footer.version, 1);
    assert_eq!(game.footer.adventure, 2);
    assert_eq!(game.footer.magic, 3);
}

#[test]
fn test_word_synonym_marker() {
    // A leading `*` marks a synonym and is stripped; its absence leaves
    // the word verbatim. Encoding restores the marker.
    let game = parse_bytes(sample_file());
    assert_eq!(game.verbs.len(), 1);
    assert_eq!(game.verbs[0].word, b"GO".to_vec());
    assert!(!game.verbs[0].is_synonym);
    assert_eq!(game.nouns[0].word, b"NOR".to_vec());
    assert!(game.nouns[0].is_synonym);
}

#[test]
fn test_item_autograb_extraction() {
    // Description `*LAMP/LAMP/` with location 5: the `*` marks a treasure
    // and stays; the `/LAMP/` suffix is stripped into the autograb name.
    let game = parse_bytes(sample_file());
    assert_eq!(game.items.len(), 1);
    let item = &game.items[0];
    assert_eq!(item.description, b"*LAMP".to_vec());
    assert_eq!(item.location, 5);
    assert!(item.is_treasure);
    assert_eq!(item.autograb, Some(b"LAMP".to_vec()));
}

#[test]
fn test_item_without_autograb() {
    let mut data = empty_file();
    // raise the item count to 1 and append an item before the footer
    let mut file: Vec<u8> = Vec::new();
    file.extend(int_tok(7));
    file.extend(int_tok(0)); // 1 item now
    data.drain(..int_tok(7).len() + int_tok(-1).len());
    file.extend(data);
    let footer_len = int_tok(9).len() + int_tok(8).len() + int_tok(7).len();
    let insert_at = file.len() - footer_len;
    let mut item_bytes: Vec<u8> = Vec::new();
    item_bytes.extend(str_tok("SWORD"));
    item_bytes.extend(int_tok(-1));
    file.splice(insert_at..insert_at, item_bytes);

    let game = parse_bytes(file.clone());
    assert_eq!(game.items.len(), 1);
    assert_eq!(game.items[0].description, b"SWORD".to_vec());
    assert_eq!(game.items[0].location, rusty_adams::game::INVENTORY);
    assert!(!game.items[0].is_treasure);
    assert_eq!(game.items[0].autograb, None);
    assert_eq!(write_game(&game), file);
}

#[test]
fn test_empty_comment_becomes_none() {
    let mut file = sample_file();
    // replace the comment with an empty string, byte for byte
    let old = str_tok("pick up the lamp");
    let new = str_tok("");
    let pos = file
        .windows(old.len())
        .position(|w| w == &old[..])
        .expect("comment cell");
    file.splice(pos..pos + old.len(), new);

    let game = parse_bytes(file.clone());
    assert_eq!(game.actions[0].comment, None);
    assert_eq!(write_game(&game), file);
}

#[test]
fn test_condition_packing() {
    // decode(type + 20 * parameter) == (type, parameter), for negative
    // parameters too, and encoding is the exact inverse.
    assert_eq!(Condition::from_i32(3 + 20 * 7), Condition::ItemPresent(7));
    assert_eq!(Condition::from_i32(3 + 20 * 7).to_i32(), 3 + 20 * 7);
    assert_eq!(Condition::from_i32(0), Condition::Parameter(0));
    assert_eq!(Condition::from_i32(19), Condition::CounterEQ(0));
    assert_eq!(Condition::from_i32(-37), Condition::ItemPresent(-2));
    assert_eq!(Condition::from_i32(-37).to_i32(), -37);
    assert_eq!(Condition::from_i32(i32::MAX).to_i32(), i32::MAX);
    assert_eq!(Condition::from_i32(i32::MIN).to_i32(), i32::MIN);
}

#[test]
fn test_action_pair_packing() {
    // decode_action_pair(a * 150 + b) == (a, b)
    assert_eq!(rusty_adams::game::div_rem_euclid(7 * 150 + 31, 150), (7, 31));
    assert_eq!(rusty_adams::game::div_rem_euclid(0, 150), (0, 0));
    assert_eq!(rusty_adams::game::div_rem_euclid(149 * 150 + 149, 150), (149, 149));
}

#[test]
fn test_action_type_codes() {
    assert_eq!(ActionType::from_i32(0), ActionType::Nothing);
    assert_eq!(ActionType::from_i32(1), ActionType::Message(0));
    assert_eq!(ActionType::from_i32(51), ActionType::Message(50));
    assert_eq!(ActionType::from_i32(52), ActionType::GetItem);
    assert_eq!(ActionType::from_i32(55), ActionType::RemoveItem(false));
    assert_eq!(ActionType::from_i32(59), ActionType::RemoveItem(true));
    assert_eq!(ActionType::from_i32(64), ActionType::DescribeRoom(false));
    assert_eq!(ActionType::from_i32(76), ActionType::DescribeRoom(true));
    assert_eq!(ActionType::from_i32(89), ActionType::DrawPicture);
    assert_eq!(ActionType::from_i32(90), ActionType::Invalid(90));
    assert_eq!(ActionType::from_i32(101), ActionType::Invalid(101));
    assert_eq!(ActionType::from_i32(102), ActionType::Message(51));
    assert_eq!(ActionType::from_i32(150), ActionType::Message(99));
    assert_eq!(ActionType::from_i32(151), ActionType::Invalid(151));
    assert_eq!(ActionType::from_i32(-5), ActionType::Invalid(-5));

    // the duplicate opcodes keep their own raw values
    assert_eq!(ActionType::RemoveItem(false).to_i32(), 55);
    assert_eq!(ActionType::RemoveItem(true).to_i32(), 59);
    assert_eq!(ActionType::DescribeRoom(false).to_i32(), 64);
    assert_eq!(ActionType::DescribeRoom(true).to_i32(), 76);
    // every raw value decodes and encodes back to itself
    let mut v: i32 = -300;
    while v <= 300 {
        assert_eq!(ActionType::from_i32(v).to_i32(), v);
        v += 1;
    }
}

#[test]
fn test_parse_error_type_mismatch() {
    // a string where the header expects an integer
    let mut data = str_tok("oops");
    data.extend(empty_file());
    let mut stream = Stream::new(data).expect("tokenize");
    let err = parse_game(&mut stream).expect_err("must fail");
    match err.kind {
        ParseErrorKind::Stream(te) => {
            assert_eq!(te.kind, TokenErrorKind::ExpectedInt);
            assert_eq!(te.loc.line, 1);
            assert_eq!(te.loc.col, 1);
        },
        other => panic!("wrong error: {:?}", other),
    }
}

#[test]
fn test_parse_error_expected_str() {
    // an integer where the message section expects a string: in the sample
    // file the message cell follows the room description
    let mut file = sample_file();
    let old = str_tok("hello");
    let new = int_tok(11);
    let pos = file
        .windows(old.len())
        .position(|w| w == &old[..])
        .expect("message cell");
    file.splice(pos..pos + old.len(), new);
    let mut stream = Stream::new(file).expect("tokenize");
    let err = parse_game(&mut stream).expect_err("must fail");
    match err.kind {
        ParseErrorKind::Stream(te) => assert_eq!(te.kind, TokenErrorKind::ExpectedStr),
        other => panic!("wrong error: {:?}", other),
    }
}

#[test]
fn test_parse_error_unexpected_end() {
    let mut stream = Stream::new(b" 0 \n 0 \n".to_vec()).expect("tokenize");
    let err = parse_game(&mut stream).expect_err("must fail");
    match err.kind {
        ParseErrorKind::Stream(te) => {
            assert_eq!(te.kind, TokenErrorKind::UnexpectedEnd);
            assert_eq!(te.loc.line, 0);
            assert_eq!(te.loc.col, 0);
        },
        other => panic!("wrong error: {:?}", other),
    }
}

#[test]
fn test_parse_error_count_overflow() {
    // an on-disk count at the 32-bit limit cannot be adjusted up
    let mut data = int_tok(0);
    data.extend(int_tok(i32::MAX));
    data.extend(empty_file());
    let mut stream = Stream::new(data).expect("tokenize");
    let err = parse_game(&mut stream).expect_err("must fail");
    assert!(matches!(err.kind, ParseErrorKind::CountOverflow));
}

#[test]
fn test_write_then_parse_restores_game() {
    // a game built by hand, in the decoder's canonical form
    let game = Game {
        header: rusty_adams::game::Header {
            unknown0: 0,
            num_items: 1,
            num_actions: 1,
            num_words: 1,
            num_rooms: 1,
            max_inventory: 4,
            starting_room: 0,
            num_treasures: 0,
            word_length: 5,
            light_duration: 9,
            num_messages: 1,
            treasure_room: 0,
        },
        actions: vec![rusty_adams::game::Action {
            verb_index: 10,
            noun_index: 20,
            conditions: [Condition::Parameter(0); 5],
            actions: [ActionType::Score, ActionType::Nothing, ActionType::Nothing,
                ActionType::Nothing],
            comment: Some(b"score it".to_vec()),
        }],
        verbs: vec![rusty_adams::game::Word { word: b"CLIMB".to_vec(), is_synonym: false }],
        nouns: vec![rusty_adams::game::Word { word: b"TREE".to_vec(), is_synonym: true }],
        rooms: vec![rusty_adams::game::Room {
            exits: [1, 2, 3, 4, 5, 6],
            description: b"meadow".to_vec(),
            is_literal: false,
        }],
        messages: vec![b"you made it".to_vec()],
        items: vec![rusty_adams::game::Item {
            description: b"*CROWN*".to_vec(),
            location: 0,
            is_treasure: true,
            autograb: Some(b"CROWN".to_vec()),
        }],
        footer: rusty_adams::game::Footer { version: 4, adventure: 16, magic: 0 },
    };
    let bytes = write_game(&game);
    let restored = parse_bytes(bytes.clone());
    assert_eq!(restored.header, game.header);
    assert_eq!(restored.actions[0].verb_index, 10);
    assert_eq!(restored.actions[0].noun_index, 20);
    assert_eq!(restored.actions[0].actions[0], ActionType::Score);
    assert_eq!(restored.actions[0].comment, Some(b"score it".to_vec()));
    assert_eq!(restored.verbs[0].word, b"CLIMB".to_vec());
    assert!(restored.nouns[0].is_synonym);
    assert_eq!(restored.rooms[0].exits, [1, 2, 3, 4, 5, 6]);
    assert_eq!(restored.items[0].description, b"*CROWN*".to_vec());
    assert_eq!(restored.items[0].autograb, Some(b"CROWN".to_vec()));
    assert_eq!(restored.footer, game.footer);
    // and the bytes themselves round-trip
    assert_eq!(write_game(&restored), bytes);
}

#[test]
fn test_game_new_matches_parse_game() {
    let mut stream = Stream::new(sample_file()).expect("tokenize");
    let game = Game::new(&mut stream).expect("parse");
    assert!(stream.done());
    assert_eq!(write_game(&game), sample_file());
}
