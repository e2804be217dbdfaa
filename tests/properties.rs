use gamey::board::GameYError;
use gamey::distance::{distancias_desde_borde, Side, UNREACHABLE};
use gamey::group_expansion::obtein_all_available_neighbors;
use gamey::monte_carlo::{play_out, playout_wins};
use gamey::priority_block::{get_better_cell, score_cell};
use gamey::shortest_path::calcular_distancia_total;
use gamey::simple_blocker::obtain_enemy_neighbors;
use gamey::triangle_attack::count_my_neighbors;
use gamey::{
    Coordinates, GameStatus, GameY, GroupExpansionBot, MonteCarloBot, Movement, PlayerId,
    PriorityBlockBot, ShortestPathBot, SimpleBlockerBot, TriangleAttackBot, YBot,
};

fn place(game: &mut GameY, player: u32, x: u32, y: u32, z: u32) {
    game.add_move(Movement::Placement {
        player: PlayerId::new(player),
        coords: Coordinates::new(x, y, z),
    })
    .unwrap();
}

fn all_bots() -> Vec<Box<dyn YBot>> {
    vec![
        Box::new(GroupExpansionBot),
        Box::new(MonteCarloBot),
        Box::new(PriorityBlockBot),
        Box::new(ShortestPathBot),
        Box::new(SimpleBlockerBot),
        Box::new(TriangleAttackBot),
    ]
}

fn is_free(game: &GameY, c: &Coordinates) -> bool {
    game.available_cells().contains(&c.to_index(game.board_size()))
}

#[test]
fn every_strategy_plays_an_empty_cell() {
    let mut game = GameY::new(4);
    place(&mut game, 0, 3, 0, 0);
    place(&mut game, 1, 0, 3, 0);
    place(&mut game, 0, 2, 1, 0);
    for bot in all_bots() {
        let c = bot.choose_move(&game).unwrap();
        assert_eq!(c.x() + c.y() + c.z(), 3);
        assert!(is_free(&game, &c));
    }
}

#[test]
fn every_strategy_returns_nothing_on_a_full_board() {
    let mut game = GameY::new(2);
    place(&mut game, 0, 1, 0, 0);
    place(&mut game, 1, 0, 1, 0);
    place(&mut game, 0, 0, 0, 1);
    for bot in all_bots() {
        assert!(bot.choose_move(&game).is_none());
    }
}

#[test]
fn every_strategy_plays_the_last_free_cell() {
    let mut game = GameY::new(2);
    place(&mut game, 0, 1, 0, 0);
    place(&mut game, 1, 0, 1, 0);
    assert_eq!(game.available_cells(), vec![1]);
    for bot in all_bots() {
        for _ in 0..5 {
            assert_eq!(bot.choose_move(&game), Some(Coordinates::new(0, 0, 1)));
        }
    }
}

#[test]
fn every_strategy_moves_on_a_finished_board_with_a_free_cell() {
    let mut game = GameY::new(2);
    place(&mut game, 1, 1, 0, 0);
    place(&mut game, 1, 0, 1, 0);
    assert!(game.check_game_over());
    for bot in all_bots() {
        assert_eq!(bot.choose_move(&game), Some(Coordinates::new(0, 0, 1)));
    }
}

#[test]
fn monte_carlo_takes_the_winning_cell() {
    let mut game = GameY::new(2);
    place(&mut game, 0, 1, 0, 0);
    place(&mut game, 1, 0, 1, 0);
    let bot = MonteCarloBot;
    for _ in 0..3 {
        assert_eq!(bot.choose_move(&game), Some(Coordinates::new(0, 0, 1)));
    }
}

#[test]
fn group_expansion_falls_back_to_any_cell_without_pieces() {
    let game = GameY::new(3);
    let bot = GroupExpansionBot;
    let mut seen = Vec::new();
    for _ in 0..200 {
        let c = bot.choose_move(&game).unwrap();
        assert!(is_free(&game, &c));
        let i = c.to_index(3);
        if !seen.contains(&i) {
            seen.push(i);
        }
    }
    assert!(seen.len() > 1);
}

#[test]
fn simple_blocker_falls_back_to_any_cell_without_enemy_pieces() {
    let mut game = GameY::new(3);
    place(&mut game, 1, 2, 0, 0);
    place(&mut game, 0, 0, 0, 2);
    // Player 1 moves next; player 0's single piece borders two cells.
    let bot = SimpleBlockerBot;
    for _ in 0..50 {
        let c = bot.choose_move(&game).unwrap();
        assert!(c == Coordinates::new(1, 0, 1) || c == Coordinates::new(0, 1, 1));
    }
    let fresh = GameY::new(3);
    let mut seen = Vec::new();
    for _ in 0..200 {
        let c = bot.choose_move(&fresh).unwrap();
        let i = c.to_index(3);
        if !seen.contains(&i) {
            seen.push(i);
        }
    }
    assert!(seen.len() > 1);
}

#[test]
fn group_expansion_grows_next_to_own_pieces() {
    let mut game = GameY::new(3);
    place(&mut game, 1, 0, 0, 2);
    place(&mut game, 0, 2, 0, 0);
    // Player 1 moves next; its piece borders (1,0,1) and (0,1,1).
    let bot = GroupExpansionBot;
    for _ in 0..50 {
        let c = bot.choose_move(&game).unwrap();
        assert!(c == Coordinates::new(1, 0, 1) || c == Coordinates::new(0, 1, 1));
    }
}

#[test]
fn priority_block_returns_several_cells_on_an_empty_board() {
    let game = GameY::new(4);
    let bot = PriorityBlockBot;
    let mut seen = Vec::new();
    for _ in 0..200 {
        let c = bot.choose_move(&game).unwrap();
        let i = c.to_index(4);
        if !seen.contains(&i) {
            seen.push(i);
        }
    }
    assert!(seen.len() > 1);
}

#[test]
fn priority_block_scores_contact_and_edges() {
    let mut game = GameY::new(3);
    place(&mut game, 0, 2, 0, 0);
    place(&mut game, 1, 1, 1, 0);
    // Player 0 to move: (1,0,1) borders its own piece (+1), the enemy (+2),
    // and lies on side B next to the enemy (+3).
    assert_eq!(score_cell(&game, &Coordinates::new(1, 0, 1), PlayerId::new(0)), 6);
    // (0,2,0) borders only the enemy piece, on sides A and C.
    assert_eq!(score_cell(&game, &Coordinates::new(0, 2, 0), PlayerId::new(0)), 5);
    // (0,0,2) borders nothing.
    assert_eq!(score_cell(&game, &Coordinates::new(0, 0, 2), PlayerId::new(0)), 0);
    let available = game.available_cells();
    for _ in 0..20 {
        assert_eq!(get_better_cell(&game, &available), Some(Coordinates::new(1, 0, 1)));
        assert_eq!(PriorityBlockBot.choose_move(&game), Some(Coordinates::new(1, 0, 1)));
    }
}

#[test]
fn triangle_attack_plays_the_single_junction() {
    let mut game = GameY::new(3);
    place(&mut game, 0, 2, 0, 0);
    place(&mut game, 1, 0, 0, 2);
    place(&mut game, 0, 0, 2, 0);
    place(&mut game, 1, 0, 1, 1);
    assert_eq!(game.next_player(), Some(PlayerId::new(0)));
    let junction = Coordinates::new(1, 1, 0);
    assert_eq!(count_my_neighbors(&game, &junction, PlayerId::new(0)), 2);
    assert_eq!(count_my_neighbors(&game, &Coordinates::new(1, 0, 1), PlayerId::new(0)), 1);
    let bot = TriangleAttackBot;
    for _ in 0..30 {
        assert_eq!(bot.choose_move(&game), Some(junction));
    }
}

#[test]
fn triangle_attack_expands_without_junction() {
    let mut game = GameY::new(3);
    place(&mut game, 1, 0, 0, 2);
    place(&mut game, 0, 2, 0, 0);
    let bot = TriangleAttackBot;
    for _ in 0..30 {
        let c = bot.choose_move(&game).unwrap();
        assert!(c == Coordinates::new(1, 0, 1) || c == Coordinates::new(0, 1, 1));
    }
}

#[test]
fn neighbour_candidates_are_listed_once() {
    let mut game = GameY::new(3);
    place(&mut game, 0, 2, 0, 0);
    place(&mut game, 1, 0, 0, 2);
    place(&mut game, 0, 0, 2, 0);
    let available = game.available_cells();
    let mine = game.cells_for_player(PlayerId::new(0));
    let mut own = obtein_all_available_neighbors(mine, &game, &available);
    own.sort();
    // (1,1,0) borders both pieces of player 0 but appears once.
    assert_eq!(own, vec![1, 2, 4]);
    let theirs = game.cells_for_player(PlayerId::new(1));
    let mut enemy = obtain_enemy_neighbors(theirs, &game, &available);
    enemy.sort();
    assert_eq!(enemy, vec![1, 4]);
}

#[test]
fn distances_on_an_empty_small_board() {
    let game = GameY::new(2);
    let me = PlayerId::new(0);
    assert_eq!(distancias_desde_borde(&game, me, Side::A), vec![2, 1, 1]);
    assert_eq!(distancias_desde_borde(&game, me, Side::B), vec![1, 1, 2]);
    assert_eq!(distancias_desde_borde(&game, me, Side::C), vec![1, 2, 1]);
    for side in [Side::A, Side::B, Side::C] {
        for d in distancias_desde_borde(&game, me, side) {
            assert!(d < UNREACHABLE);
        }
    }
    assert_eq!(calcular_distancia_total(&game, me), 2);
}

#[test]
fn own_pieces_cost_nothing_to_cross() {
    let mut game = GameY::new(3);
    place(&mut game, 0, 2, 0, 0);
    place(&mut game, 1, 0, 0, 2);
    let me = PlayerId::new(0);
    // Index order: (2,0,0), (1,0,1), (1,1,0), (0,0,2), (0,1,1), (0,2,0).
    assert_eq!(distancias_desde_borde(&game, me, Side::B), vec![0, 1, 1, UNREACHABLE, 2, 2]);
}

#[test]
fn blocked_side_leaves_the_sentinel() {
    let mut game = GameY::new(2);
    place(&mut game, 1, 1, 0, 0);
    place(&mut game, 1, 0, 1, 0);
    let me = PlayerId::new(0);
    let field = distancias_desde_borde(&game, me, Side::C);
    assert_eq!(field, vec![999, 999, 999]);
    assert_eq!(calcular_distancia_total(&game, me), 999);
}

#[test]
fn a_winner_has_total_distance_zero() {
    let mut game = GameY::new(3);
    place(&mut game, 1, 1, 1, 0);
    place(&mut game, 0, 2, 0, 0);
    place(&mut game, 1, 1, 0, 1);
    place(&mut game, 0, 0, 0, 2);
    place(&mut game, 1, 0, 1, 1);
    assert!(game.check_game_over());
    assert_eq!(calcular_distancia_total(&game, PlayerId::new(1)), 0);
    assert!(calcular_distancia_total(&game, PlayerId::new(0)) > 0);
}

#[test]
fn no_junction_keeps_the_sentinel_total() {
    let mut game = GameY::new(2);
    place(&mut game, 0, 0, 1, 0);
    place(&mut game, 1, 1, 0, 0);
    place(&mut game, 0, 0, 0, 1);
    let rival = PlayerId::new(1);
    assert_eq!(distancias_desde_borde(&game, rival, Side::A), vec![999, 999, 999]);
    assert_eq!(calcular_distancia_total(&game, rival), 999);
}

#[test]
fn shortest_path_prefers_connecting_cells() {
    let mut game = GameY::new(2);
    place(&mut game, 0, 1, 0, 0);
    place(&mut game, 1, 0, 1, 0);
    assert_eq!(ShortestPathBot.choose_move(&game), Some(Coordinates::new(0, 0, 1)));
}

#[test]
fn choosing_leaves_the_board_unchanged() {
    let mut game = GameY::new(4);
    place(&mut game, 0, 3, 0, 0);
    place(&mut game, 1, 0, 3, 0);
    place(&mut game, 0, 2, 1, 0);
    let cells = game.cells.clone();
    let turn = game.turn;
    let status = game.status;
    for bot in all_bots() {
        let _ = bot.choose_move(&game);
        assert_eq!(game.cells, cells);
        assert_eq!(game.turn, turn);
        assert_eq!(game.status, status);
    }
}

#[test]
fn placements_are_refused_for_each_reason() {
    let mut game = GameY::new(2);
    let bad_player = game.add_move(Movement::Placement {
        player: PlayerId::new(2),
        coords: Coordinates::new(1, 0, 0),
    });
    assert_eq!(bad_player, Err(GameYError::InvalidPlayer));
    let off_board = game.add_move(Movement::Placement {
        player: PlayerId::new(0),
        coords: Coordinates::new(1, 1, 0),
    });
    assert_eq!(off_board, Err(GameYError::OutOfBounds));
    place(&mut game, 0, 1, 0, 0);
    let taken = game.add_move(Movement::Placement {
        player: PlayerId::new(1),
        coords: Coordinates::new(1, 0, 0),
    });
    assert_eq!(taken, Err(GameYError::Occupied));
    place(&mut game, 1, 0, 1, 0);
    place(&mut game, 0, 0, 0, 1);
    assert_eq!(game.status(), GameStatus::Finished { winner: PlayerId::new(0) });
    assert!(game.check_game_over());
    assert_eq!(game.next_player(), None);
    let late = game.add_move(Movement::Placement {
        player: PlayerId::new(1),
        coords: Coordinates::new(0, 0, 1),
    });
    assert_eq!(late, Err(GameYError::GameOver));
}

#[test]
fn a_group_wins_only_when_connected() {
    let mut game = GameY::new(3);
    place(&mut game, 0, 2, 0, 0);
    place(&mut game, 1, 1, 1, 0);
    place(&mut game, 0, 0, 2, 0);
    place(&mut game, 1, 1, 0, 1);
    // Player 0 holds two corners that do not touch each other.
    place(&mut game, 0, 0, 0, 2);
    assert_eq!(game.status(), GameStatus::InProgress);
    place(&mut game, 1, 0, 1, 1);
    // Player 1 now holds (1,1,0), (1,0,1) and (0,1,1), touching all sides.
    assert_eq!(game.status(), GameStatus::Finished { winner: PlayerId::new(1) });
}

#[test]
fn coordinates_round_trip_through_indices() {
    for size in 1..8u32 {
        let n = size * (size + 1) / 2;
        for i in 0..n {
            let c = Coordinates::from_index(i, size);
            assert_eq!(c.x() + c.y() + c.z() + 1, size);
            assert_eq!(c.to_index(size), i);
        }
    }
    assert_eq!(Coordinates::new(0, 0, 1).to_index(2), 1);
    assert!(Coordinates::new(0, 2, 0).touches_side_a());
    assert!(Coordinates::new(0, 2, 0).touches_side_c());
    assert!(!Coordinates::new(0, 2, 0).touches_side_b());
}

#[test]
fn neighbours_follow_the_geometry() {
    let game = GameY::new(3);
    assert_eq!(game.get_neighbors(&Coordinates::new(2, 0, 0)).len(), 2);
    assert_eq!(game.get_neighbors(&Coordinates::new(1, 1, 0)).len(), 4);
    let game5 = GameY::new(5);
    assert_eq!(game5.get_neighbors(&Coordinates::new(2, 1, 1)).len(), 6);
}

#[test]
fn playout_follows_the_given_order() {
    let mut game = GameY::new(2);
    place(&mut game, 0, 1, 0, 0);
    // Player 1 takes (0,1,0), then player 0 takes (0,0,1) and wins.
    assert!(playout_wins(&game, &vec![2, 1], PlayerId::new(0)));
    // Player 1 takes (0,0,1), then player 0 takes (0,1,0) and wins with a
    // group that touches all sides.
    assert!(playout_wins(&game, &vec![1, 2], PlayerId::new(0)));
    assert!(!playout_wins(&game, &vec![1, 2], PlayerId::new(1)));
    let mut sim = GameY::new(2);
    play_out(&mut sim, &vec![0, 0, 7, 1]);
    // The repeated and out-of-range cells are skipped.
    assert_eq!(sim.available_cells(), vec![2]);
    assert_eq!(sim.turn, PlayerId::new(0));
}

#[test]
fn other_player_is_the_complement() {
    assert_eq!(PlayerId::new(0).other(), PlayerId::new(1));
    assert_eq!(PlayerId::new(1).other(), PlayerId::new(0));
    assert_eq!(PlayerId::new(1).id(), 1);
}
