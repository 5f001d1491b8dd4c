use agario_core::consts::MINIMUM_VISIBLE_RANGE;
use agario_core::entity::{FoodCell, PlayerCell, Position};
use agario_core::game::Game;
use agario_core::player::Player;

fn one_player_world() -> Game {
    let cell = PlayerCell::new(Position { x: 1_000_000, y: 2_000_000 }, 90);
    let player = Player {
        id: "0xp".to_string(),
        cells: vec![cell],
        target: None,
        visible_range: MINIMUM_VISIBLE_RANGE,
    };
    let mut g = Game::new();
    g.players.push(player);
    g
}

#[test]
fn state_message_header_and_records() {
    let g = one_player_world();
    let msgs = g.build_state_messages();
    assert_eq!(msgs.len(), 1);
    assert_eq!(msgs[0].0, "0xp");
    let m = &msgs[0].1;
    assert_eq!(m[0], 0u8);
    assert_eq!(&m[1..5], &1_000_000u32.to_le_bytes());
    assert_eq!(&m[5..9], &2_000_000u32.to_le_bytes());
    assert_eq!(&m[9..13], &(MINIMUM_VISIBLE_RANGE as u32).to_le_bytes());
    // the player sees its own cell: exactly one 13-byte record
    assert_eq!(m.len(), 13 + 13);
    assert_eq!(&m[13..17], &1_000_000u32.to_le_bytes());
    assert_eq!(&m[17..21], &2_000_000u32.to_le_bytes());
    assert_eq!(m[25], 90);
}

#[test]
fn food_message_covers_visible_window() {
    let mut g = one_player_world();
    // one food cell in view, one far away
    g.food.push(FoodCell::new(Position { x: 1_100_000, y: 2_000_000 }, 12));
    g.food.push(FoodCell::new(Position { x: 4_900_000, y: 4_900_000 }, 13));
    let msgs = g.build_food_messages();
    assert_eq!(msgs.len(), 1);
    let m = &msgs[0].1;
    assert_eq!(m[0], 1u8);
    assert_eq!(m.len(), 1 + 9);
    assert_eq!(&m[1..5], &1_100_000u32.to_le_bytes());
    assert_eq!(m[9], 12);
}

#[test]
fn eliminated_player_gets_no_message() {
    let mut g = one_player_world();
    // a heavy opponent consumes the only cell of 0xp
    let mut big = PlayerCell::new(Position { x: 1_010_000, y: 2_000_000 }, 1);
    big.update_mass(100_000);
    g.players.push(Player {
        id: "0xbig".to_string(),
        cells: vec![big],
        target: None,
        visible_range: MINIMUM_VISIBLE_RANGE,
    });
    g.check_players_collisions();
    let msgs = g.build_state_messages();
    assert_eq!(msgs.len(), 1);
    assert_eq!(msgs[0].0, "0xbig");
}

#[test]
fn state_snapshot_copies_world() {
    let mut g = one_player_world();
    g.food.push(FoodCell::new(Position { x: 100_000, y: 100_000 }, 1));
    let st = g.get_state();
    assert_eq!(st.players.len(), 1);
    assert_eq!(st.players[0].id, "0xp");
    assert_eq!(st.players[0].cells.len(), 1);
    assert_eq!(st.food.len(), 1);
    assert_eq!(st.food[0].pos, Position { x: 100_000, y: 100_000 });
}

#[test]
fn authentication_rejects_bad_signatures() {
    // unparsable signature text
    assert!(!agario_core::auth::authenticate("0xabc", "not-a-signature"));
    // well-formed hex of the wrong length
    assert!(!agario_core::auth::authenticate("0xabc", "0xdeadbeef"));
}

#[test]
fn authentication_is_not_echo() {
    // if recovery simply handed the signature text back, an "address" equal
    // to the signature would authenticate; it must not
    assert!(!agario_core::auth::authenticate("not-a-signature", "not-a-signature"));
}
