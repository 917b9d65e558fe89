use graph_distances::parse_point;
use graph_distances::Point;

#[test]
fn parse_two_integers() {
    assert_eq!(parse_point("12 34"), Some(Point { x: 12, z: 34 }));
    assert_eq!(parse_point("0 0"), Some(Point { x: 0, z: 0 }));
}

#[test]
fn parse_passes_over_whitespace_of_any_kind() {
    assert_eq!(parse_point("  7\t\t8  "), Some(Point { x: 7, z: 8 }));
    assert_eq!(parse_point("\u{a0}1\u{2003}2\u{3000}"), Some(Point { x: 1, z: 2 }));
    assert_eq!(parse_point("3\r\n4\n"), Some(Point { x: 3, z: 4 }));
    assert_eq!(parse_point("5\u{b}6"), Some(Point { x: 5, z: 6 }));
    assert_eq!(parse_point("5\u{200b}6 7"), None);
}

#[test]
fn parse_takes_signs() {
    assert_eq!(parse_point("-5 +7"), Some(Point { x: -5, z: 7 }));
    assert_eq!(parse_point("+0 -0"), Some(Point { x: 0, z: 0 }));
    assert_eq!(parse_point("- 5"), None);
    assert_eq!(parse_point("+ 5"), None);
    assert_eq!(parse_point("--5 1"), None);
    assert_eq!(parse_point("+-5 1"), None);
    assert_eq!(parse_point("5- 1"), None);
}

#[test]
fn parse_takes_leading_zeros() {
    assert_eq!(parse_point("0005 -010"), Some(Point { x: 5, z: -10 }));
    assert_eq!(
        parse_point("00000000000000000000000000000002147483647 1"),
        Some(Point { x: 2147483647, z: 1 })
    );
}

#[test]
fn parse_does_not_look_past_the_second_number() {
    assert_eq!(parse_point("1 2 3"), Some(Point { x: 1, z: 2 }));
    assert_eq!(parse_point("1 2 three"), Some(Point { x: 1, z: 2 }));
}

#[test]
fn parse_keeps_to_thirty_two_bits() {
    assert_eq!(
        parse_point("2147483647 -2147483648"),
        Some(Point { x: 2147483647, z: -2147483648 })
    );
    assert_eq!(parse_point("2147483648 0"), None);
    assert_eq!(parse_point("0 -2147483649"), None);
    assert_eq!(parse_point("99999999999999999999999999 1"), None);
    assert_eq!(parse_point("1 -99999999999999999999999999"), None);
    assert_eq!(parse_point("4294967297 1"), None);
}

#[test]
fn parse_refuses_lines_without_two_numbers() {
    assert_eq!(parse_point(""), None);
    assert_eq!(parse_point("   "), None);
    assert_eq!(parse_point("12"), None);
    assert_eq!(parse_point("  12  "), None);
    assert_eq!(parse_point("a 5"), None);
    assert_eq!(parse_point("5 b"), None);
    assert_eq!(parse_point("1.5 2"), None);
    assert_eq!(parse_point("1,2"), None);
    assert_eq!(parse_point("0x10 2"), None);
    assert_eq!(parse_point("\u{ff11} 2"), None);
    assert_eq!(parse_point("\u{661} 2"), None);
    assert_eq!(parse_point("1e3 2"), None);
}

#[test]
fn parse_agrees_with_the_standard_library() {
    let lines = [
        "1 2", " -3  4 ", "+5 -6 7", "x y", "", "8", "2147483648 1", "-2147483648 -2147483648",
        "00 -00", "+ 1", "1 +", "١ 2", "1\u{85}2", "1\u{1680}2", "1\u{feff}2 3", "-+1 2",
    ];
    for line in lines.iter() {
        let mut parts = line.trim().split_whitespace();
        let expected = match (parts.next(), parts.next()) {
            (Some(x), Some(z)) => match (x.parse::<i32>(), z.parse::<i32>()) {
                (Ok(x), Ok(z)) => Some(Point { x, z }),
                _ => None,
            },
            _ => None,
        };
        assert_eq!(parse_point(line), expected);
    }
}
