use pronostics::{are_equal_players, get_pronostics, is_stronger, is_younger, Player, Pronostics};

fn player(ratio: u16, age: u8, name: &str) -> Player {
    Player { ratio, age, name: String::from(name) }
}

#[test]
fn empty_pool_yields_the_placeholder() {
    let result: Pronostics = get_pronostics(Vec::new());
    assert_eq!(result.champion, Player::default());
    assert_eq!(result.champion.ratio, 0);
    assert_eq!(result.champion.age, 0);
    assert_eq!(result.champion.name, "");
    assert!(result.possible_champions.is_empty());
}

#[test]
fn singleton_pool_yields_its_player() {
    let result = get_pronostics(vec![player(2500, 28, "Ada")]);
    assert_eq!(result.champion, player(2500, 28, "Ada"));
    assert!(result.possible_champions.is_empty());
}

#[test]
fn singleton_zero_valued_player_still_wins() {
    // a real player with zero ratio and age must override the placeholder
    let result = get_pronostics(vec![player(0, 0, "Zed")]);
    assert_eq!(result.champion.name, "Zed");
    assert!(result.possible_champions.is_empty());
}

#[test]
fn permutation_keeps_the_top_tier() {
    let forward = vec![
        player(3000, 30, "Kareem"),
        player(3000, 30, "Lebron"),
        player(2900, 30, "Boo"),
        player(2999, 24, "Moriarty"),
        player(700, 30, "Félix"),
        player(2700, 31, "Michael"),
        player(2800, 30, "Karl"),
    ];
    let mut backward = forward.clone();
    backward.reverse();
    let r1 = get_pronostics(forward);
    let r2 = get_pronostics(backward);
    // the champion's ranking keys do not depend on the order
    assert_eq!(r1.champion.ratio, r2.champion.ratio);
    assert_eq!(r1.champion.age, r2.champion.age);
    // the tie lists hold the same players, order aside
    assert_eq!(r1.possible_champions.len(), r2.possible_champions.len());
    for p in &r1.possible_champions {
        assert!(r2.possible_champions.contains(p));
    }
}

#[test]
fn unique_champion_leaves_no_possible_champions() {
    let result = get_pronostics(vec![
        player(3000, 30, "Kareem"),
        player(2999, 30, "Boo"),
        player(3000, 29, "Lebron"),
    ]);
    assert_eq!(result.champion, player(3000, 29, "Lebron"));
    assert!(result.possible_champions.is_empty());
}

#[test]
fn duplicate_entries_are_deduplicated() {
    let result = get_pronostics(vec![player(3000, 30, "Kareem"), player(3000, 30, "Kareem")]);
    assert_eq!(result.champion, player(3000, 30, "Kareem"));
    assert_eq!(result.possible_champions, vec![player(3000, 30, "Kareem")]);
}

#[test]
fn later_stronger_player_clears_the_ties() {
    let result = get_pronostics(vec![
        player(3000, 30, "Kareem"),
        player(3000, 30, "Lebron"),
        player(3500, 20, "Magnus"),
    ]);
    assert_eq!(result.champion, player(3500, 20, "Magnus"));
    assert!(result.possible_champions.is_empty());
}

#[test]
fn equal_ratio_older_player_does_not_replace() {
    let result = get_pronostics(vec![player(3000, 30, "Kareem"), player(3000, 31, "Boo")]);
    assert_eq!(result.champion, player(3000, 30, "Kareem"));
    assert!(result.possible_champions.is_empty());
}

#[test]
fn champion_dominates_the_whole_pool() {
    let pool = vec![
        player(2800, 30, "Karl"),
        player(2999, 24, "Moriarty"),
        player(3000, 33, "Kareem"),
        player(3000, 32, "Lebron"),
    ];
    let result = get_pronostics(pool.clone());
    for p in &pool {
        assert!(!is_stronger(p, &result.champion));
        assert!(
            !(p.ratio == result.champion.ratio && is_younger(p, &result.champion))
        );
    }
}

#[test]
fn comparison_predicates() {
    let a = player(3000, 30, "A");
    let b = player(2999, 24, "B");
    let c = player(3000, 24, "C");
    assert!(is_stronger(&a, &b));
    assert!(!is_stronger(&b, &a));
    assert!(!is_stronger(&a, &c));
    assert!(is_younger(&b, &a));
    assert!(!is_younger(&a, &b));
    assert!(are_equal_players(&b, &player(2999, 24, "Other")));
    assert!(!are_equal_players(&a, &b));
    assert!(!are_equal_players(&a, &c));
}

#[test]
fn tie_list_keeps_first_occurrence_order() {
    let result = get_pronostics(vec![
        player(100, 50, "Weak"),
        player(4000, 32, "First"),
        player(4000, 32, "Second"),
        player(200, 40, "AlsoWeak"),
        player(4000, 32, "Third"),
        player(4000, 32, "Second"),
    ]);
    assert_eq!(result.champion.name, "First");
    assert_eq!(
        result.possible_champions,
        vec![player(4000, 32, "First"), player(4000, 32, "Second"), player(4000, 32, "Third")]
    );
}
