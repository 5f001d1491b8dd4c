use agario_core::consts::{DEFAULT_MASS, MINIMUM_VISIBLE_RANGE};
use agario_core::entity::{FoodCell, PlayerCell, Position};
use agario_core::game::{merge_step, Game, GameError};
use agario_core::player::Player;

fn world() -> Game {
    Game::new()
}

fn player_with_cell(id: &str, x: i64, y: i64, mass: u64) -> Player {
    let mut cell = PlayerCell::new(Position { x, y }, 10);
    if mass != 0 {
        cell.update_mass(mass);
    }
    Player {
        id: id.to_string(),
        cells: vec![cell],
        target: None,
        visible_range: MINIMUM_VISIBLE_RANGE,
    }
}

#[test]
fn ticket_gating() {
    let mut g = world();
    // no tickets: rejected, world untouched
    let r = g.enter_game("0xabc".to_string());
    assert!(matches!(r, Err(GameError::NoTicketsAvailable)));
    assert_eq!(g.players.len(), 0);
    // one ticket: entry succeeds once and consumes it
    g.ticket_bought("0xabc".to_string());
    assert_eq!(g.get_available_tickets(&"0xabc".to_string()), 1);
    let r = g.enter_game("0xabc".to_string());
    assert!(r.is_ok());
    assert_eq!(g.get_available_tickets(&"0xabc".to_string()), 0);
    assert_eq!(g.players.len(), 1);
    // a second immediate entry for the live identity is rejected
    g.ticket_bought("0xabc".to_string());
    let r = g.enter_game("0xabc".to_string());
    assert!(matches!(r, Err(GameError::PlayerAlreadyInGame)));
    assert_eq!(g.players.len(), 1);
    assert_eq!(g.get_available_tickets(&"0xabc".to_string()), 1);
}

#[test]
fn enter_game_spawns_one_default_cell() {
    let mut g = world();
    g.ticket_bought("0xp".to_string());
    g.enter_game("0xp".to_string()).unwrap();
    assert_eq!(g.players[0].cells.len(), 1);
    assert_eq!(g.players[0].cells[0].mass, DEFAULT_MASS);
    assert!(g.players[0].target.is_none());
    assert_eq!(g.food_stack, 10_000);
}

#[test]
fn split_enforces_sixteen_cell_cap() {
    let mut g = world();
    let mut p = player_with_cell("0xp", 1_000_000, 1_000_000, 0);
    p.cells[0].update_mass(100_000_000); // plenty of mass for many splits
    g.players.push(p);
    let total: u64 = 100_000_000;
    for round in 0..6 {
        g.split(&"0xp".to_string(), round);
        let n = g.players[0].cells.len();
        assert!(1 <= n && n <= 16, "cap violated: {} cells", n);
        let sum: u64 = g.players[0].cells.iter().map(|c| c.mass).sum();
        assert_eq!(sum, total, "split lost mass");
    }
    assert_eq!(g.players[0].cells.len(), 16);
}

#[test]
fn split_without_player_is_dropped() {
    let mut g = world();
    g.split(&"0xnobody".to_string(), 0);
    assert_eq!(g.players.len(), 0);
}

#[test]
fn set_target_stores_offset() {
    let mut g = world();
    g.players.push(player_with_cell("0xp", 1_000_000, 1_000_000, 0));
    g.set_target(&"0xp".to_string(), 50_000, -25_000);
    assert_eq!(g.players[0].target, Some(Position { x: 50_000, y: -25_000 }));
    // unknown identities are silently dropped
    g.set_target(&"0xq".to_string(), 1, 1);
    assert_eq!(g.players.len(), 1);
}

#[test]
fn movement_approaches_target() {
    let mut g = world();
    g.players.push(player_with_cell("0xp", 1_000_000, 1_000_000, 0));
    g.set_target(&"0xp".to_string(), 100_000, 0);
    g.move_players(0);
    let c = g.players[0].cells[0];
    // full speed for a default cell: 5 / log10(10) + 1 momentum = 6 units
    assert_eq!(c.pos.x, 1_006_000);
    assert_eq!(c.pos.y, 1_000_000);
    // mass untouched by movement
    assert_eq!(c.mass, DEFAULT_MASS);
}

#[test]
fn movement_without_target_holds_still() {
    let mut g = world();
    g.players.push(player_with_cell("0xp", 1_000_000, 1_000_000, 0));
    g.move_players(0);
    assert_eq!(g.players[0].cells[0].pos, Position { x: 1_000_000, y: 1_000_000 });
}

#[test]
fn siblings_on_cooldown_do_not_merge() {
    let mut g = world();
    let mut p = player_with_cell("0xp", 1_000_000, 1_000_000, 0);
    p.cells[0].update_mass(40_000);
    g.players.push(p);
    g.split(&"0xp".to_string(), 10_000); // both cells stamped at t = 10000
    assert_eq!(g.players[0].cells.len(), 2);
    // overlapping (same position), but the cooldown still runs
    g.move_players(12_000);
    assert_eq!(g.players[0].cells.len(), 2);
    let sum: u64 = g.players[0].cells.iter().map(|c| c.mass).sum();
    assert_eq!(sum, 40_000);
}

#[test]
fn siblings_merge_after_cooldown_in_tight_overlap() {
    let mut g = world();
    let mut p = player_with_cell("0xp", 1_000_000, 1_000_000, 0);
    p.cells[0].update_mass(40_000);
    g.players.push(p);
    g.split(&"0xp".to_string(), 10_000);
    assert_eq!(g.players[0].cells.len(), 2);
    // cooldown (5000 ms) elapsed; cells still at the same point: tight overlap
    g.move_players(15_001);
    assert_eq!(g.players[0].cells.len(), 1);
    assert_eq!(g.players[0].cells[0].mass, 40_000);
    assert_eq!(g.players[0].cells[0].last_split, None);
}

#[test]
fn food_collision_scenario() {
    // world side 5000, bucket 500; cell of mass 10 at (100,100); food of
    // mass 1 at (105,100): the food phase consumes it, mass becomes 11
    let mut g = world();
    g.players.push(player_with_cell("0xp", 100_000, 100_000, 0));
    g.food.push(FoodCell::new(Position { x: 105_000, y: 100_000 }, 0));
    g.check_food_collisions();
    assert_eq!(g.players[0].cells[0].mass, 11_000);
    assert_eq!(g.food.len(), 0);
}

#[test]
fn food_out_of_reach_survives() {
    let mut g = world();
    g.players.push(player_with_cell("0xp", 100_000, 100_000, 0));
    g.food.push(FoodCell::new(Position { x: 200_000, y: 100_000 }, 0));
    g.check_food_collisions();
    assert_eq!(g.players[0].cells[0].mass, 10_000);
    assert_eq!(g.food.len(), 1);
}

#[test]
fn player_collision_consumes_and_eliminates() {
    let mut g = world();
    // attacker mass 100 (radius ~64) on top of a default victim
    g.players.push(player_with_cell("0xbig", 1_000_000, 1_000_000, 100_000));
    g.players.push(player_with_cell("0xsmall", 1_010_000, 1_000_000, 0));
    g.check_players_collisions();
    assert_eq!(g.players.len(), 1);
    assert_eq!(g.players[0].id, "0xbig");
    assert_eq!(g.players[0].cells[0].mass, 110_000);
    // the eliminated identity may enter again at once
    g.ticket_bought("0xsmall".to_string());
    assert!(g.enter_game("0xsmall".to_string()).is_ok());
    assert_eq!(g.players.len(), 2);
}

#[test]
fn ten_percent_rule_blocks_close_masses() {
    let mut g = world();
    // 10.5 vs 10: only a 5% advantage, nobody is consumed
    g.players.push(player_with_cell("0xa", 1_000_000, 1_000_000, 10_500));
    g.players.push(player_with_cell("0xb", 1_005_000, 1_000_000, 0));
    g.check_players_collisions();
    assert_eq!(g.players.len(), 2);
    let total: u64 = g.players.iter().flat_map(|p| p.cells.iter()).map(|c| c.mass).sum();
    assert_eq!(total, 20_500);
}

#[test]
fn consumption_is_first_claim_only() {
    let mut g = world();
    // two eligible attackers flank one victim; its mass must be spent once
    g.players.push(player_with_cell("0xa", 990_000, 1_000_000, 100_000));
    g.players.push(player_with_cell("0xb", 1_010_000, 1_000_000, 100_000));
    g.players.push(player_with_cell("0xvictim", 1_000_000, 1_000_000, 0));
    let before: u64 = g.players.iter().flat_map(|p| p.cells.iter()).map(|c| c.mass).sum();
    g.check_players_collisions();
    assert_eq!(g.players.len(), 2);
    let after: u64 = g.players.iter().flat_map(|p| p.cells.iter()).map(|c| c.mass).sum();
    assert_eq!(before, after, "a double claim would create mass");
}

#[test]
fn combined_pass_handles_food_and_cells() {
    let mut g = world();
    g.players.push(player_with_cell("0xa", 1_000_000, 1_000_000, 100_000));
    g.players.push(player_with_cell("0xvictim", 1_010_000, 1_000_000, 0));
    g.food.push(FoodCell::new(Position { x: 1_020_000, y: 1_000_000 }, 0));
    g.check_collisions();
    assert_eq!(g.players.len(), 1);
    assert_eq!(g.players[0].cells[0].mass, 111_000);
    assert_eq!(g.food.len(), 0);
}

#[test]
fn add_food_bounded_by_stack() {
    let mut g = world();
    g.food_stack = 5;
    g.add_food(10_000);
    assert_eq!(g.food.len(), 5);
    assert_eq!(g.food_stack, 0);
    for f in &g.food {
        assert!(f.pos.x >= 22_972 && f.pos.x <= 5_000_000);
        assert!(f.pos.y >= 22_972 && f.pos.y <= 5_000_000);
        assert_eq!(f.mass, 1_000);
    }
    g.add_food(10_000);
    assert_eq!(g.food.len(), 5);
}

#[test]
fn winner_needs_threshold() {
    let mut g = world();
    g.players.push(player_with_cell("0xa", 1_000_000, 1_000_000, 100_000));
    assert!(g.get_winner().is_none()); // exactly at the threshold: no win
    g.players.push(player_with_cell("0xb", 2_000_000, 2_000_000, 100_001));
    assert_eq!(g.get_winner(), Some("0xb".to_string()));
}

#[test]
fn remove_player_is_idempotent() {
    let mut g = world();
    g.players.push(player_with_cell("0xa", 1_000_000, 1_000_000, 0));
    let removed = g.remove_player(&"0xa".to_string());
    assert!(removed.is_some());
    assert_eq!(removed.unwrap().id, "0xa");
    assert_eq!(g.players.len(), 0);
    assert!(g.remove_player(&"0xa".to_string()).is_none());
    g.player_lost_connection(&"0xa".to_string());
    assert_eq!(g.players.len(), 0);
}

#[test]
fn scores_sorted_descending() {
    let mut g = world();
    g.players.push(player_with_cell("0xa", 1_000_000, 1_000_000, 50_000));
    g.players.push(player_with_cell("0xb", 2_000_000, 2_000_000, 200_000));
    g.players.push(player_with_cell("0xc", 3_000_000, 3_000_000, 120_000));
    let scores = g.get_scores();
    assert_eq!(scores.len(), 3);
    assert_eq!(scores[0], ("0xb".to_string(), 200));
    assert_eq!(scores[1], ("0xc".to_string(), 120));
    assert_eq!(scores[2], ("0xa".to_string(), 50));
}

#[test]
fn error_descriptions() {
    assert_eq!(GameError::PlayerAlreadyInGame.description(), "You are already in game!");
    assert_eq!(GameError::NoTicketsAvailable.description(), "You have no tickets to play!");
}

#[test]
fn server_info_echoes_config() {
    let g = world();
    let info = g.get_server_info();
    assert_eq!(info.max_players, 100);
    assert_eq!(info.entry_fee, 100);
}

#[test]
fn momentum_decays_after_split() {
    let mut g = world();
    let mut p = player_with_cell("0xp", 1_000_000, 1_000_000, 40_000);
    p.target = Some(Position { x: 200_000, y: 0 });
    g.players.push(p);
    g.split(&"0xp".to_string(), 0);
    assert_eq!(g.players[0].cells[1].momentum, 25_000);
    g.move_players(1);
    assert_eq!(g.players[0].cells[1].momentum, 24_300);
    for t in 2..60u64 {
        g.move_players(t);
    }
    assert_eq!(g.players[0].cells[1].momentum, 1_000);
}

#[test]
fn movement_clamped_at_border() {
    let mut g = world();
    g.players.push(player_with_cell("0xp", 8_000, 1_000_000, 0));
    g.set_target(&"0xp".to_string(), -300_000, 0);
    g.move_players(0);
    // padding: a third of the radius (22972 / 3 = 7657)
    assert_eq!(g.players[0].cells[0].pos.x, 7_657);
}

#[test]
fn visible_range_recomputed_after_collisions() {
    let mut g = world();
    g.players.push(player_with_cell("0xp", 1_000_000, 1_000_000, 0));
    assert_eq!(g.players[0].visible_range, MINIMUM_VISIBLE_RANGE);
    g.check_players_collisions();
    // 120 * sqrt(22.972 - 22) + 550, fixed point
    assert_eq!(g.players[0].visible_range, 668_200);
}

#[test]
fn enter_game_spawns_inside_world() {
    let mut g = world();
    g.ticket_bought("0xp".to_string());
    g.enter_game("0xp".to_string()).unwrap();
    let pos = g.players[0].cells[0].pos;
    assert!(pos.x >= 22_972 && pos.x <= 5_000_000);
    assert!(pos.y >= 22_972 && pos.y <= 5_000_000);
}

#[test]
fn merge_step_requires_tight_overlap() {
    // two cooldown-free cells overlapping, but not tightly: no merge
    let mut a = PlayerCell::new(Position { x: 1_000_000, y: 1_000_000 }, 1);
    a.update_mass(40_000);
    let b = PlayerCell::new(Position { x: 1_045_000, y: 1_000_000 }, 2);
    // radii ~41.9 and ~22.97: distance 45 < 64.9 overlaps, but 45 > 64.9/1.75
    let mut cells = vec![a, b];
    assert!(!merge_step(&mut cells, 0, 1, 0));
    assert_eq!(cells.len(), 2);
    // tight overlap: distance 10 < 65 / 1.75
    let mut cells = vec![a, PlayerCell { pos: Position { x: 1_010_000, y: 1_000_000 }, ..b }];
    assert!(merge_step(&mut cells, 0, 1, 0));
    assert_eq!(cells.len(), 1);
    assert_eq!(cells[0].mass, 50_000);
    assert_eq!(cells[0].last_split, None);
}

#[test]
fn merge_step_repels_on_cooldown() {
    let mut a = PlayerCell::new(Position { x: 1_000_000, y: 1_000_000 }, 1);
    a.update_mass(40_000);
    a.last_split = Some(100);
    let mut b = PlayerCell::new(Position { x: 1_010_000, y: 1_000_000 }, 2);
    b.last_split = Some(100);
    let mut cells = vec![a, b];
    // tight overlap, but the cooldown still runs at t = 200: nudged apart
    assert!(!merge_step(&mut cells, 0, 1, 200));
    assert_eq!(cells.len(), 2);
    assert_eq!(cells[0].pos.x, 999_000); // one unit away from the partner
    assert_eq!(cells[0].mass, 40_000);
    assert_eq!(cells[1].mass, 10_000);
}
