use parser::Parser;

#[test]
fn parser_test() {
    let mut parser = Parser::from("a   word getto[ endlol");

    assert_eq!(parser.get_char(), 'a');

    parser.next();
    parser.skip();

    assert_eq!(parser.get_word(), "word");

    parser.next();
    assert_eq!(parser.get_to_chars(&[' ', '[']), "getto");

    parser.next();
    parser.skip();

    assert_eq!(parser.get_to_str("lol"), "end");

    let mut parser = Parser::from("odfosdf _)_data");
    parser.skip_to_str("_)_");

    assert_eq!(parser.next(), '_');
    parser.next();
    parser.next();

    assert_eq!(parser.get_to_end(), "data");
}

#[test]
fn finished_iff_position_at_end() {
    let mut parser = Parser::from("ab");
    assert!(!parser.finished());
    assert_eq!(parser.get_position(), 0);
    parser.next();
    assert!(!parser.finished());
    assert_eq!(parser.get_position(), 1);
    parser.next();
    assert!(parser.finished());
    assert_eq!(parser.get_position(), 2);
    assert_eq!(parser.get_char(), ' ');
}

#[test]
fn empty_buffer_is_finished() {
    let mut parser = Parser::from("");
    assert!(parser.finished());
    assert_eq!(parser.get_position(), 0);
    assert_eq!(parser.get_char(), ' ');
    assert_eq!(parser.get_word(), "");
    assert_eq!(parser.get_to_end(), "");
    assert_eq!(parser.get_position(), 0);
}

#[test]
fn next_after_finished_is_noop() {
    let mut parser = Parser::from("x");
    assert_eq!(parser.next(), 'x');
    assert!(parser.finished());
    let position = parser.get_position();
    assert_eq!(parser.next(), ' ');
    assert_eq!(parser.next(), ' ');
    assert_eq!(parser.next(), ' ');
    assert_eq!(parser.get_position(), position);
    assert!(parser.finished());
}

#[test]
fn skip_is_idempotent() {
    let mut parser = Parser::from("  \t\n\r  abc  ");
    parser.skip();
    let once = parser.get_position();
    parser.skip();
    assert_eq!(parser.get_position(), once);
    assert_eq!(parser.get_char(), 'a');

    let mut tail = Parser::from("   ");
    tail.skip();
    let once = tail.get_position();
    assert!(tail.finished());
    tail.skip();
    assert_eq!(tail.get_position(), once);
}

#[test]
fn word_scan() {
    let mut parser = Parser::from("a   word getto[ endlol");
    assert_eq!(parser.get_word(), "a");
    assert_eq!(parser.get_position(), 1);
    assert_eq!(parser.get_char(), ' ');
    parser.next();
    parser.skip();
    assert_eq!(parser.get_word(), "word");
}

#[test]
fn char_set_scan() {
    let mut parser = Parser::from("a   word getto[ endlol");
    parser.next_count(9);
    assert_eq!(parser.get_to_chars(&[' ', '[']), "getto");
    assert_eq!(parser.get_char(), '[');
}

#[test]
fn string_scan_repositions_past_delimiter() {
    let mut parser = Parser::from("endlol");
    assert_eq!(parser.get_to_str("lol"), "end");
    assert!(parser.finished());
    assert_eq!(parser.get_position(), 6);
}

#[test]
fn string_scan_in_the_middle() {
    let mut parser = Parser::from("head<->tail");
    assert_eq!(parser.get_to_str("<->"), "head");
    assert_eq!(parser.get_position(), 7);
    assert_eq!(parser.get_to_end(), "tail");
}

#[test]
fn skip_to_str_lands_on_delimiter() {
    let mut parser = Parser::from("odfosdf _)_data");
    parser.skip_to_str("_)_");
    assert_eq!(parser.next(), '_');
    assert_eq!(parser.next(), ')');
    assert_eq!(parser.next(), '_');
    assert_eq!(parser.get_to_end(), "data");
}

#[test]
fn string_scan_without_match_consumes_to_end() {
    let mut parser = Parser::from("abc");
    assert_eq!(parser.get_to_str("xy"), "abc");
    assert!(parser.finished());
    assert_eq!(parser.get_position(), 3);

    let mut parser = Parser::from("abc");
    parser.skip_to_str("zz");
    assert!(parser.finished());

    let mut parser = Parser::from("abc");
    assert_eq!(parser.get_to_strs(&["zz", "yy"]), "abc");
    assert!(parser.finished());
}

#[test]
fn string_scan_with_long_delimiter_and_short_text() {
    let mut parser = Parser::from("ab");
    assert_eq!(parser.get_to_str("abcdef"), "ab");
    assert!(parser.finished());
    let mut parser = Parser::from("ab");
    parser.skip_to_str("abcdef");
    assert!(parser.finished());
}

#[test]
fn string_set_scan_takes_first_in_scan_order() {
    let mut parser = Parser::from("one,two;three");
    assert_eq!(parser.get_to_strs(&[";", ","]), "one");
    assert_eq!(parser.get_position(), 4);
    assert_eq!(parser.get_to_end(), "two;three");
}

#[test]
fn string_set_scan_list_order_breaks_ties() {
    let mut parser = Parser::from("xxab!");
    assert_eq!(parser.get_to_strs(&["b", "ab"]), "xxa");
    assert_eq!(parser.get_position(), 4);
    assert_eq!(parser.get_to_end(), "!");

    let mut parser = Parser::from("xxab!");
    assert_eq!(parser.get_to_strs(&["ab", "b"]), "xx");
    assert_eq!(parser.get_position(), 4);
    assert_eq!(parser.get_to_end(), "!");
}

#[test]
fn empty_delimiter_matches_at_once() {
    let mut parser = Parser::from("abc");
    assert_eq!(parser.get_to_str(""), "");
    assert_eq!(parser.get_position(), 0);
    parser.skip_to_str("");
    assert_eq!(parser.get_position(), 0);
    assert_eq!(parser.get_to_strs(&[""]), "");
    assert_eq!(parser.get_position(), 0);
    assert_eq!(parser.get_char(), 'a');
}

#[test]
fn char_scan_stops_on_delimiter() {
    let mut parser = Parser::from("key=value");
    assert_eq!(parser.get_to_char('='), "key");
    assert_eq!(parser.get_char(), '=');
    assert_eq!(parser.get_position(), 3);
    parser.next();
    assert_eq!(parser.get_to_end(), "value");
}

#[test]
fn char_scan_without_match_consumes_to_end() {
    let mut parser = Parser::from("abc");
    assert_eq!(parser.get_to_char('z'), "abc");
    assert!(parser.finished());
    let mut parser = Parser::from("abc");
    assert_eq!(parser.get_to_chars(&['z', 'y']), "abc");
    assert!(parser.finished());
}

#[test]
fn next_count_stops_at_end() {
    let mut parser = Parser::from("abcde");
    parser.next_count(3);
    assert_eq!(parser.get_position(), 3);
    assert_eq!(parser.get_char(), 'd');
    parser.next_count(100);
    assert!(parser.finished());
    assert_eq!(parser.get_position(), 5);
}

#[test]
fn is_space_on_whitespace_and_sentinel() {
    let mut parser = Parser::from("\tx");
    assert!(parser.is_space());
    parser.next();
    assert!(!parser.is_space());
    parser.next();
    assert!(parser.finished());
    assert!(parser.is_space());
}

#[test]
fn round_trip_over_multibyte_buffer() {
    let text = "абеёжэюя";
    let mut parser = Parser::from(text);
    let mut collected = String::new();
    while !parser.finished() {
        collected.push(parser.next());
    }
    assert_eq!(collected, text);
    assert_eq!(parser.get_position(), 16);
    assert_eq!(parser.next(), ' ');
    assert_eq!(parser.get_position(), 16);
}

#[test]
fn positions_are_byte_offsets() {
    let mut parser = Parser::from("аб");
    assert_eq!(parser.get_position(), 0);
    assert_eq!(parser.next(), 'а');
    assert_eq!(parser.get_position(), 2);
    assert_eq!(parser.next(), 'б');
    assert_eq!(parser.get_position(), 4);
    assert!(parser.finished());
    assert_eq!(parser.get_position(), "аб".len());
}

#[test]
fn multibyte_extraction() {
    let mut parser = Parser::from("абвгд");
    assert_eq!(parser.get_to_char('в'), "аб");
    assert_eq!(parser.next(), 'в');
    assert_eq!(parser.get_position(), 6);
    assert_eq!(parser.get_to_str("гд"), "");
    assert!(parser.finished());

    let mut parser = Parser::from("абвгд");
    assert_eq!(parser.get_to_str("гд"), "абв");
    assert!(parser.finished());
}
