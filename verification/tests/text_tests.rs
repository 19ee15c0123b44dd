use cfg_parser::text::{after_spaces, before_spaces, char_is_space, chars_of, find_arrow, parse_count, NumberError};

#[test]
fn white_space_is_what_the_standard_library_takes_for_it() {
    let mut c = '\0';
    loop {
        assert_eq!(char_is_space(c), c.is_whitespace(), "at {:?}", c);
        if c == char::MAX {
            break;
        }
        c = char::from_u32(c as u32 + 1).unwrap_or('\u{e000}');
    }
}

#[test]
fn the_characters_of_a_text_are_its_scalar_values() {
    assert_eq!(chars_of("a→ε"), vec!['a', '→', 'ε']);
    assert_eq!(chars_of(""), Vec::<char>::new());
}

#[test]
fn the_ends_of_a_text_without_white_space_are_found() {
    let text = chars_of(" \t ab c \n");
    assert_eq!(after_spaces(&text, 0), 3);
    assert_eq!(after_spaces(&text, 3), 3);
    assert_eq!(after_spaces(&text, 5), 6);
    assert_eq!(after_spaces(&text, 7), 9);
    assert_eq!(before_spaces(&text), 7);
    let blank = chars_of("  ");
    assert_eq!(after_spaces(&blank, 0), 2);
    assert_eq!(before_spaces(&blank), 0);
    assert_eq!(before_spaces(&chars_of("")), 0);
}

#[test]
fn a_count_is_read_like_an_unsigned_number() {
    for text in [
        "0", "7", "+7", "007", " 42 ", "18446744073709551615", "18446744073709551616", "4294967295",
        "4294967296", "", " ", "+", "-", "-0", "+-1", "1+", "1_000", "0x10", "１", "1e3", "１２",
        "99999999999999999999", "000000000000000000000000000001", "+0", "9 9",
    ] {
        let ours = parse_count(&chars_of(text));
        match text.trim().parse::<usize>() {
            Ok(value) => assert!(matches!(ours, Ok(read) if read == value), "on {:?}", text),
            Err(e) => {
                let kind = match ours {
                    Ok(_) => panic!("read {:?}", text),
                    Err(NumberError::Empty) => "cannot parse integer from empty string",
                    Err(NumberError::InvalidDigit) => "invalid digit found in string",
                    Err(NumberError::TooLarge) => "number too large to fit in target type",
                };
                assert_eq!(e.to_string(), kind, "on {:?}", text);
            },
        }
    }
}

#[test]
fn the_arrow_is_found_where_there_is_one_only() {
    assert_eq!(find_arrow(&chars_of("S -> a")), Some(2));
    assert_eq!(find_arrow(&chars_of("->")), Some(0));
    assert_eq!(find_arrow(&chars_of("-->")), Some(1));
    assert_eq!(find_arrow(&chars_of("->>")), Some(0));
    assert_eq!(find_arrow(&chars_of("a-")), None);
    assert_eq!(find_arrow(&chars_of("")), None);
    assert_eq!(find_arrow(&chars_of("-")), None);
    assert_eq!(find_arrow(&chars_of(">-")), None);
    assert_eq!(find_arrow(&chars_of("->->")), None);
    assert_eq!(find_arrow(&chars_of("a -> b -> c")), None);
    for text in ["S -> a", "->", "-->", "->>", "a-", "", "->->", "a -> b -> c", "x->y->", "- > ->"] {
        let parts = text.split("->").count();
        assert_eq!(find_arrow(&chars_of(text)).is_some(), parts == 2, "on {:?}", text);
    }
}
