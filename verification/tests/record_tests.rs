use connect_games::record::Game;

#[test]
fn json_string_lists_all_fields_in_order() {
    let g = Game {
        game_number: 3,
        game_type: String::from("Connect4"),
        player1_name: String::from("Alice"),
        player2_name: String::from("Computer"),
        winner_name: String::from("Alice"),
        game_date: 1700000000123,
    };
    assert_eq!(
        g.to_json_string(),
        "{\"game_number\": 3, \"game_type\": \"Connect4\", \"player1_name\": \"Alice\", \
         \"player2_name\": \"Computer\", \"winner_name\": \"Alice\", \"game_date\": 1700000000123 }"
    );
}

#[test]
fn json_string_renders_zero_and_negative_numbers() {
    let g = Game {
        game_number: -12,
        game_type: String::from("TOOT-OTTO"),
        player1_name: String::from("Pat"),
        player2_name: String::from("Computer"),
        winner_name: String::from("Draw"),
        game_date: 0,
    };
    assert_eq!(
        g.to_json_string(),
        "{\"game_number\": -12, \"game_type\": \"TOOT-OTTO\", \"player1_name\": \"Pat\", \
         \"player2_name\": \"Computer\", \"winner_name\": \"Draw\", \"game_date\": 0 }"
    );
}

#[test]
fn json_string_of_extreme_dates() {
    let g = Game {
        game_number: 0,
        game_type: String::from("Connect4"),
        player1_name: String::from("a"),
        player2_name: String::from("b"),
        winner_name: String::from("b"),
        game_date: i64::MIN,
    };
    let s = g.to_json_string();
    assert!(s.ends_with("\"game_date\": -9223372036854775808 }"));
    let g2 = Game { game_date: i64::MAX, ..g };
    let s2 = g2.to_json_string();
    assert!(s2.ends_with("\"game_date\": 9223372036854775807 }"));
}

#[test]
fn json_array_joins_records_in_order() {
    let a = Game {
        game_number: 1,
        game_type: String::from("Connect4"),
        player1_name: String::from("Alice"),
        player2_name: String::from("Computer"),
        winner_name: String::from("Computer"),
        game_date: 10,
    };
    let b = Game {
        game_number: 2,
        game_type: String::from("TOOT-OTTO"),
        player1_name: String::from("Pat"),
        player2_name: String::from("Computer"),
        winner_name: String::from("Draw"),
        game_date: 20,
    };
    let expected_a = a.to_json_string();
    let expected_b = b.to_json_string();
    let joined = connect_games::record::games_json_array(&vec![a, b]);
    assert_eq!(joined, format!("[{}, {}]", expected_a, expected_b));
}

#[test]
fn json_array_of_no_records_is_empty_brackets() {
    let none: Vec<Game> = Vec::new();
    assert_eq!(connect_games::record::games_json_array(&none), "[]");
}
