use std::cell::Cell;

use nibble::parsers::{character, digit, many, many_char, many_digit, satisfy};
use nibble::predicates::{is_alpha, is_digit};
use nibble::structs::{Consumed, Reply};

fn test_parser<'a>(i: &'a [u8]) -> Consumed<'a, (u8, u8, u8)> {
    digit(i).bind(|d1, i| {
        digit(i).bind(|d2, i| {
            character(i)
                .choice(digit)
                .bind(|d3, i| Consumed::Consumed(Reply::Success((d1, d2, d3), i)))
        })
    })
}

#[test]
fn test_do_block() {
    let str1 = String::from("123145skfjhalb1");
    let str2 = String::from("12a145skfjhalb1");
    let input1 = str1.as_bytes();
    let input2 = str2.as_bytes();
    let result1 = test_parser(input1);
    let result2 = test_parser(input2);

    println!("{:?}", result1);
    println!("{:?}", result2);
    assert_eq!(
        result1,
        Consumed::Consumed(Reply::Success((b'1', b'2', b'3'), &b"145skfjhalb1"[..]))
    );
    assert_eq!(
        result2,
        Consumed::Consumed(Reply::Success((b'1', b'2', b'a'), &b"145skfjhalb1"[..]))
    );
}

#[test]
fn test_many() {
    let string = String::from("asdabfkjasbf123145skfjhalb1");
    let input = string.as_bytes();
    let result = many_char(input).bind(|chars, i| {
        many_digit(i).bind(|digits, i| Consumed::Consumed(Reply::Success((chars, digits), i)))
    });

    println!("{:?}", result);
    assert_eq!(
        result,
        Consumed::Consumed(Reply::Success(
            (b"asdabfkjasbf".to_vec(), b"123145".to_vec()),
            &b"skfjhalb1"[..]
        ))
    );
}

#[test]
fn test_many_complex() {
    let str = String::from("123145skfjhalb1");
    let input = str.as_bytes();
    let result = many(test_parser, input);

    println!("{:?}", result);
    assert_eq!(
        result,
        Consumed::Consumed(Reply::Success(
            vec![(b'1', b'2', b'3'), (b'1', b'4', b'5')],
            &b"skfjhalb1"[..]
        ))
    );
}

#[test]
fn satisfy_takes_an_accepted_byte() {
    let input: &[u8] = b"xyz";
    assert_eq!(
        satisfy(|b| b == b'x', input),
        Consumed::Consumed(Reply::Success(b'x', &b"yz"[..]))
    );
}

#[test]
fn satisfy_refuses_without_consuming() {
    let input: &[u8] = b"xyz";
    assert_eq!(satisfy(|b| b == b'q', input), Consumed::Empty(Reply::Failure(input)));
}

#[test]
fn satisfy_on_empty_input() {
    let input: &[u8] = b"";
    assert_eq!(satisfy(|_| true, input), Consumed::Empty(Reply::Failure(input)));
}

#[test]
fn satisfy_last_byte_leaves_nothing() {
    let input: &[u8] = b"7";
    assert_eq!(digit(input), Consumed::Consumed(Reply::Success(b'7', &b""[..])));
}

#[test]
fn digit_and_character_classes() {
    for b in 0u8..=255 {
        assert_eq!(is_digit(b), (b'0'..=b'9').contains(&b), "byte {}", b);
        assert_eq!(
            is_alpha(b),
            (b'a'..=b'z').contains(&b) || (b'A'..=b'Z').contains(&b),
            "byte {}",
            b
        );
    }
    assert!(!is_alpha(0xC0));
    assert!(!is_digit(b'/') && !is_digit(b':'));
    assert!(!is_alpha(b'@') && !is_alpha(b'[') && !is_alpha(b'`') && !is_alpha(b'{'));
}

#[test]
fn character_refuses_a_digit() {
    let input: &[u8] = b"1a";
    assert_eq!(character(input), Consumed::Empty(Reply::Failure(input)));
    assert_eq!(digit(input), Consumed::Consumed(Reply::Success(b'1', &b"a"[..])));
}

#[test]
fn bind_empty_then_empty_stays_empty() {
    let rest: &[u8] = b"rest";
    let first: Consumed<u8> = Consumed::Empty(Reply::Success(b'a', rest));
    let result = first.bind(|_, r| Consumed::<u8>::Empty(Reply::Failure(r)));
    assert_eq!(result, Consumed::Empty(Reply::Failure(rest)));
}

#[test]
fn bind_empty_then_consuming_is_consumed() {
    let input: &[u8] = b"9z";
    let first: Consumed<u8> = Consumed::Empty(Reply::Success(b'a', input));
    let result = first.bind(|a, r| digit(r).bind(|d, r| Consumed::Empty(Reply::Success((a, d), r))));
    assert_eq!(result, Consumed::Consumed(Reply::Success((b'a', b'9'), &b"z"[..])));
}

#[test]
fn bind_consumed_then_empty_stays_consumed() {
    let input: &[u8] = b"1a";
    let result = digit(input).bind(|_, r| Consumed::<u8>::Empty(Reply::Failure(r)));
    assert_eq!(result, Consumed::Consumed(Reply::Failure(&b"a"[..])));
    let result = digit(input).bind(|d, r| Consumed::Empty(Reply::Success(d, r)));
    assert_eq!(result, Consumed::Consumed(Reply::Success(b'1', &b"a"[..])));
}

#[test]
fn bind_failure_skips_the_continuation() {
    let input: &[u8] = b"ab";
    let called = Cell::new(0u32);
    let result = digit(input).bind(|d, r| {
        called.set(called.get() + 1);
        Consumed::Consumed(Reply::Success(d, r))
    });
    assert_eq!(result, Consumed::Empty(Reply::Failure(input)));
    let first: Consumed<u8> = Consumed::Consumed(Reply::Failure(&input[1..]));
    let result = first.bind(|d, r| {
        called.set(called.get() + 1);
        Consumed::Consumed(Reply::Success(d, r))
    });
    assert_eq!(result, Consumed::Consumed(Reply::Failure(&b"b"[..])));
    assert_eq!(called.get(), 0);
}

#[test]
fn choice_does_not_backtrack_after_consuming() {
    let input: &[u8] = b"12";
    let first = digit(input).bind(|_, r| character(r));
    assert_eq!(first, Consumed::Consumed(Reply::Failure(&b"2"[..])));
    let called = Cell::new(0u32);
    let result = first.choice(|i| {
        called.set(called.get() + 1);
        digit(i)
    });
    assert_eq!(result, Consumed::Consumed(Reply::Failure(&b"2"[..])));
    assert_eq!(called.get(), 0);
}

#[test]
fn choice_tries_the_alternative_after_an_empty_failure() {
    let input: &[u8] = b"7x";
    assert_eq!(
        character(input).choice(digit),
        Consumed::Consumed(Reply::Success(b'7', &b"x"[..]))
    );
    let none: &[u8] = b"-";
    assert_eq!(character(none).choice(digit), Consumed::Empty(Reply::Failure(none)));
}

#[test]
fn choice_tie_keeps_the_first_value() {
    let input: &[u8] = b"abc";
    let first: Consumed<u8> = Consumed::Empty(Reply::Success(1, input));
    let result = first.choice(|i| Consumed::Empty(Reply::Success(2, i)));
    assert_eq!(result, Consumed::Empty(Reply::Success(1, input)));
}

#[test]
fn choice_empty_success_gives_way_to_consuming_alternative() {
    let input: &[u8] = b"abc";
    let first: Consumed<u8> = Consumed::Empty(Reply::Success(0, input));
    assert_eq!(first.choice(character), Consumed::Consumed(Reply::Success(b'a', &b"bc"[..])));
    let first: Consumed<u8> = Consumed::Empty(Reply::Success(0, input));
    assert_eq!(first.choice(digit), Consumed::Empty(Reply::Failure(input)));
}

#[test]
fn many_digit_accumulates() {
    let input: &[u8] = b"123a";
    assert_eq!(
        many(digit, input),
        Consumed::Consumed(Reply::Success(vec![b'1', b'2', b'3'], &b"a"[..]))
    );
    assert_eq!(
        many_digit(input),
        Consumed::Consumed(Reply::Success(vec![b'1', b'2', b'3'], &b"a"[..]))
    );
}

#[test]
fn many_digit_without_digits() {
    let input: &[u8] = b"a";
    assert_eq!(many(digit, input), Consumed::Empty(Reply::Failure(input)));
    let empty: &[u8] = b"";
    assert_eq!(many(digit, empty), Consumed::Empty(Reply::Failure(empty)));
}

#[test]
fn many_to_the_end_of_input() {
    let input: &[u8] = b"abc";
    assert_eq!(
        many_char(input),
        Consumed::Consumed(Reply::Success(b"abc".to_vec(), &b""[..]))
    );
}

#[test]
fn many_passes_on_a_consuming_failure() {
    let input: &[u8] = b"1a";
    assert_eq!(many(test_parser, input), Consumed::Consumed(Reply::Failure(&b"a"[..])));
    let input: &[u8] = b"1231x";
    assert_eq!(
        many(test_parser, input),
        Consumed::Consumed(Reply::Success(vec![(b'1', b'2', b'3')], &b"x"[..]))
    );
}

#[test]
fn many_stops_on_a_success_that_consumes_nothing() {
    let input: &[u8] = b"abc";
    let result = many(|i| Consumed::Empty(Reply::Success(0u8, i)), input);
    assert_eq!(result, Consumed::Empty(Reply::Success(Vec::new(), input)));
    let counted = Cell::new(0u32);
    let result = many(
        |i| {
            counted.set(counted.get() + 1);
            if counted.get() <= 2 {
                character(i)
            } else {
                Consumed::Empty(Reply::Success(b'-', i))
            }
        },
        input,
    );
    assert_eq!(result, Consumed::Consumed(Reply::Success(vec![b'a', b'b'], &b"c"[..])));
}

#[test]
fn empty_outcomes_leave_the_input_as_it_was() {
    let input: &[u8] = b"x1";
    let outcomes = vec![
        digit(input),
        satisfy(|_| false, input),
        character(input).bind(|c, r| Consumed::Empty(Reply::Success(c, r))).choice(digit),
        digit(input).choice(digit),
    ];
    for outcome in outcomes {
        if let Consumed::Empty(reply) = outcome {
            let rest = match reply {
                Reply::Success(_, r) => r,
                Reply::Failure(r) => r,
            };
            assert!(std::ptr::eq(rest, input));
        }
    }
    match many_digit(input) {
        Consumed::Empty(Reply::Failure(r)) => assert!(std::ptr::eq(r, input)),
        other => panic!("unexpected {:?}", other),
    }
}
