use pronostics::{get_pronostics, Player, Pronostics};

#[test]
fn returns_player_with_highest_ratio() {
    let player_list: Vec<Player> = vec![
        Player { ratio: 3100, age: 33, name: String::from("Kareem") },
        Player { ratio: 3000, age: 32, name: String::from("Lebron") },
        Player { ratio: 2999, age: 24, name: String::from("Boo") },
        Player { ratio: 2999, age: 24, name: String::from("Moriarty") },
        Player { ratio: 700, age: 30, name: String::from("Félix") },
        Player { ratio: 2700, age: 31, name: String::from("Michael") },
        Player { ratio: 2800, age: 30, name: String::from("Karl") },
    ];
    let result: Pronostics = get_pronostics(player_list);
    assert_eq!(result.champion.name, "Kareem");
}

#[test]
fn returns_player_with_highest_ratio_and_youngest_age() {
    let player_list: Vec<Player> = vec![
        Player { ratio: 3000, age: 33, name: String::from("Kareem") },
        Player { ratio: 3000, age: 32, name: String::from("Lebron") },
        Player { ratio: 2999, age: 24, name: String::from("Boo") },
        Player { ratio: 2999, age: 24, name: String::from("Moriarty") },
        Player { ratio: 700, age: 30, name: String::from("Félix") },
        Player { ratio: 2700, age: 31, name: String::from("Michael") },
        Player { ratio: 2800, age: 30, name: String::from("Karl") },
    ];
    let result: Pronostics = get_pronostics(player_list);
    assert_eq!(result.champion.name, "Lebron");
}

#[test]
fn a_list_with_multiple_possible_champions_cant_be_empty() {
    let player_list: Vec<Player> = vec![
        Player { ratio: 3000, age: 30, name: String::from("Kareem") },
        Player { ratio: 3000, age: 30, name: String::from("Lebron") },
        Player { ratio: 2999, age: 24, name: String::from("Boo") },
        Player { ratio: 2999, age: 24, name: String::from("Moriarty") },
        Player { ratio: 700, age: 30, name: String::from("Félix") },
        Player { ratio: 2700, age: 31, name: String::from("Michael") },
        Player { ratio: 2800, age: 30, name: String::from("Karl") },
    ];
    let result: Pronostics = get_pronostics(player_list);
    assert_ne!(result.possible_champions, Vec::<Player>::new());
    assert!(!result.possible_champions.is_empty());
}

#[test]
fn cannot_return_a_default_object_with_default_values() {
    let player_list: Vec<Player> = vec![
        Player { ratio: 3000, age: 30, name: String::from("Kareem") },
        Player { ratio: 3000, age: 30, name: String::from("Lebron") },
        Player { ratio: 2999, age: 24, name: String::from("Boo") },
        Player { ratio: 2999, age: 24, name: String::from("Moriarty") },
        Player { ratio: 700, age: 30, name: String::from("Félix") },
        Player { ratio: 2700, age: 31, name: String::from("Michael") },
        Player { ratio: 2800, age: 30, name: String::from("Karl") },
    ];
    let result: Pronostics = get_pronostics(player_list);
    assert_ne!(result.champion, Player::default());
}

#[test]
fn returns_all_players_with_highest_ratio_and_same_age() {
    let player_list: Vec<Player> = vec![
        Player { ratio: 3000, age: 30, name: String::from("Kareem") },
        Player { ratio: 3000, age: 30, name: String::from("Lebron") },
        Player { ratio: 2900, age: 30, name: String::from("Boo") },
        Player { ratio: 2999, age: 24, name: String::from("Moriarty") },
        Player { ratio: 700, age: 30, name: String::from("Félix") },
        Player { ratio: 2700, age: 31, name: String::from("Michael") },
        Player { ratio: 2800, age: 30, name: String::from("Karl") },
    ];
    let possible_champions = vec![
        Player { ratio: 3000, age: 30, name: String::from("Kareem") },
        Player { ratio: 3000, age: 30, name: String::from("Lebron") },
    ];
    let result: Pronostics = get_pronostics(player_list);
    assert_eq!(result.possible_champions, possible_champions);
}

#[test]
fn returns_all_3_players_with_highest_ratio_and_same_age() {
    let player_list: Vec<Player> = vec![
        Player { ratio: 4000, age: 32, name: String::from("Kareem") },
        Player { ratio: 4000, age: 32, name: String::from("Lebron") },
        Player { ratio: 4000, age: 32, name: String::from("Boo") },
        Player { ratio: 2999, age: 24, name: String::from("Moriarty") },
        Player { ratio: 700, age: 30, name: String::from("Félix") },
        Player { ratio: 2700, age: 31, name: String::from("Michael") },
        Player { ratio: 2800, age: 30, name: String::from("Karl") },
    ];
    let possible_champions = vec![
        Player { ratio: 4000, age: 32, name: String::from("Kareem") },
        Player { ratio: 4000, age: 32, name: String::from("Lebron") },
        Player { ratio: 4000, age: 32, name: String::from("Boo") },
    ];
    let result: Pronostics = get_pronostics(player_list);
    assert_eq!(result.possible_champions, possible_champions);
}
