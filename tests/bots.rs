use gamey::{
    Coordinates, GameY, GroupExpansionBot, MonteCarloBot, Movement, PlayerId, PriorityBlockBot,
    ShortestPathBot, SimpleBlockerBot, TriangleAttackBot,
};

#[test]
fn test_group_expansion_bot_name() {
    let bot = GroupExpansionBot;
    assert_eq!(bot.name(), "group_expansion_bot");
}

#[test]
fn test_group_expansion_bot_returns_move_on_empty_board() {
    let bot = GroupExpansionBot;
    let game = GameY::new(5);

    let chosen_move = bot.choose_move(&game);
    assert!(chosen_move.is_some());
}

#[test]
fn test_group_expansion_bot_returns_valid_coordinates() {
    let bot = GroupExpansionBot;
    let game = GameY::new(5);

    let coords = bot.choose_move(&game).unwrap();
    let index = coords.to_index(game.board_size());

    // A board of side 5 has 15 cells.
    assert!(index < 15);
}

#[test]
fn test_group_expansion_bot_returns_none_on_full_board() {
    let bot = GroupExpansionBot;
    let mut game = GameY::new(2);

    // A board of side 2 has 3 cells.
    let moves = vec![
        Movement::Placement {
            player: PlayerId::new(0),
            coords: Coordinates::new(1, 0, 0),
        },
        Movement::Placement {
            player: PlayerId::new(1),
            coords: Coordinates::new(0, 1, 0),
        },
        Movement::Placement {
            player: PlayerId::new(0),
            coords: Coordinates::new(0, 0, 1),
        },
    ];

    for mv in moves {
        game.add_move(mv).unwrap();
    }

    assert!(game.available_cells().is_empty());
    let chosen_move = bot.choose_move(&game);
    assert!(chosen_move.is_none());
}

#[test]
fn test_group_expansion_bot_chooses_from_available_cells() {
    let bot = GroupExpansionBot;
    let mut game = GameY::new(3);

    game.add_move(Movement::Placement {
        player: PlayerId::new(0),
        coords: Coordinates::new(2, 0, 0),
    })
    .unwrap();

    let coords = bot.choose_move(&game).unwrap();
    let index = coords.to_index(game.board_size());

    assert!(game.available_cells().contains(&index));
}

#[test]
fn test_group_expansion_bot_multiple_calls_return_valid_moves() {
    let bot = GroupExpansionBot;
    let game = GameY::new(7);

    for _ in 0..10 {
        let coords = bot.choose_move(&game).unwrap();
        let index = coords.to_index(game.board_size());

        // A board of side 7 has 28 cells.
        assert!(index < 28);
        assert!(game.available_cells().contains(&index));
    }
}

#[test]
fn test_monte_carlo_bot_name() {
    let bot = MonteCarloBot;
    assert_eq!(bot.name(), "monte_carlo_bot");
}

#[test]
fn test_monte_carlo_bot_returns_move_on_empty_board() {
    let bot = MonteCarloBot;
    let game = GameY::new(5);

    let chosen_move = bot.choose_move(&game);
    assert!(chosen_move.is_some());
}

#[test]
fn test_monte_carlo_bot_returns_valid_coordinates() {
    let bot = MonteCarloBot;
    let game = GameY::new(5);

    let coords = bot.choose_move(&game).unwrap();
    let index = coords.to_index(game.board_size());

    // A board of side 5 has 15 cells.
    assert!(index < 15);
}

#[test]
fn test_monte_carlo_bot_returns_none_on_full_board() {
    let bot = MonteCarloBot;
    let mut game = GameY::new(2);

    // A board of side 2 has 3 cells.
    let moves = vec![
        Movement::Placement {
            player: PlayerId::new(0),
            coords: Coordinates::new(1, 0, 0),
        },
        Movement::Placement {
            player: PlayerId::new(1),
            coords: Coordinates::new(0, 1, 0),
        },
        Movement::Placement {
            player: PlayerId::new(0),
            coords: Coordinates::new(0, 0, 1),
        },
    ];

    for mv in moves {
        game.add_move(mv).unwrap();
    }

    assert!(game.available_cells().is_empty());
    let chosen_move = bot.choose_move(&game);
    assert!(chosen_move.is_none());
}

#[test]
fn test_monte_carlo_bot_chooses_from_available_cells() {
    let bot = MonteCarloBot;
    let mut game = GameY::new(3);

    game.add_move(Movement::Placement {
        player: PlayerId::new(0),
        coords: Coordinates::new(2, 0, 0),
    })
    .unwrap();

    let coords = bot.choose_move(&game).unwrap();
    let index = coords.to_index(game.board_size());

    assert!(game.available_cells().contains(&index));
}

#[test]
fn test_monte_carlo_bot_multiple_calls_return_valid_moves() {
    let bot = MonteCarloBot;
    let game = GameY::new(7);

    for _ in 0..10 {
        let coords = bot.choose_move(&game).unwrap();
        let index = coords.to_index(game.board_size());

        // A board of side 7 has 28 cells.
        assert!(index < 28);
        assert!(game.available_cells().contains(&index));
    }
}

#[test]
fn test_priority_block_bot_name() {
    let bot = PriorityBlockBot;
    assert_eq!(bot.name(), "priority_block_bot");
}

#[test]
fn test_priority_block_bot_returns_move_on_empty_board() {
    let bot = PriorityBlockBot;
    let game = GameY::new(5);

    let chosen_move = bot.choose_move(&game);
    assert!(chosen_move.is_some());
}

#[test]
fn test_priority_block_bot_returns_valid_coordinates() {
    let bot = PriorityBlockBot;
    let game = GameY::new(5);

    let coords = bot.choose_move(&game).unwrap();
    let index = coords.to_index(game.board_size());

    // A board of side 5 has 15 cells.
    assert!(index < 15);
}

#[test]
fn test_priority_block_bot_returns_none_on_full_board() {
    let bot = PriorityBlockBot;
    let mut game = GameY::new(2);

    // A board of side 2 has 3 cells.
    let moves = vec![
        Movement::Placement {
            player: PlayerId::new(0),
            coords: Coordinates::new(1, 0, 0),
        },
        Movement::Placement {
            player: PlayerId::new(1),
            coords: Coordinates::new(0, 1, 0),
        },
        Movement::Placement {
            player: PlayerId::new(0),
            coords: Coordinates::new(0, 0, 1),
        },
    ];

    for mv in moves {
        game.add_move(mv).unwrap();
    }

    assert!(game.available_cells().is_empty());
    let chosen_move = bot.choose_move(&game);
    assert!(chosen_move.is_none());
}

#[test]
fn test_priority_block_bot_chooses_from_available_cells() {
    let bot = PriorityBlockBot;
    let mut game = GameY::new(3);

    game.add_move(Movement::Placement {
        player: PlayerId::new(0),
        coords: Coordinates::new(2, 0, 0),
    })
    .unwrap();

    let coords = bot.choose_move(&game).unwrap();
    let index = coords.to_index(game.board_size());

    assert!(game.available_cells().contains(&index));
}

#[test]
fn test_priority_block_bot_multiple_calls_return_valid_moves() {
    let bot = PriorityBlockBot;
    let game = GameY::new(7);

    for _ in 0..10 {
        let coords = bot.choose_move(&game).unwrap();
        let index = coords.to_index(game.board_size());

        // A board of side 7 has 28 cells.
        assert!(index < 28);
        assert!(game.available_cells().contains(&index));
    }
}

#[test]
fn test_shortest_path_bot_name() {
    let bot = ShortestPathBot;
    assert_eq!(bot.name(), "shortest_path_bot");
}

#[test]
fn test_shortest_path_bot_returns_move_on_empty_board() {
    let bot = ShortestPathBot;
    let game = GameY::new(5);

    let chosen_move = bot.choose_move(&game);
    assert!(chosen_move.is_some());
}

#[test]
fn test_shortest_path_bot_returns_valid_coordinates() {
    let bot = ShortestPathBot;
    let game = GameY::new(5);

    let coords = bot.choose_move(&game).unwrap();
    let index = coords.to_index(game.board_size());

    // A board of side 5 has 15 cells.
    assert!(index < 15);
}

#[test]
fn test_shortest_path_bot_returns_none_on_full_board() {
    let bot = ShortestPathBot;
    let mut game = GameY::new(2);

    // A board of side 2 has 3 cells.
    let moves = vec![
        Movement::Placement {
            player: PlayerId::new(0),
            coords: Coordinates::new(1, 0, 0),
        },
        Movement::Placement {
            player: PlayerId::new(1),
            coords: Coordinates::new(0, 1, 0),
        },
        Movement::Placement {
            player: PlayerId::new(0),
            coords: Coordinates::new(0, 0, 1),
        },
    ];

    for mv in moves {
        game.add_move(mv).unwrap();
    }

    assert!(game.available_cells().is_empty());
    let chosen_move = bot.choose_move(&game);
    assert!(chosen_move.is_none());
}

#[test]
fn test_shortest_path_bot_chooses_from_available_cells() {
    let bot = ShortestPathBot;
    let mut game = GameY::new(3);

    game.add_move(Movement::Placement {
        player: PlayerId::new(0),
        coords: Coordinates::new(2, 0, 0),
    })
    .unwrap();

    let coords = bot.choose_move(&game).unwrap();
    let index = coords.to_index(game.board_size());

    assert!(game.available_cells().contains(&index));
}

#[test]
fn test_shortest_path_bot_multiple_calls_return_valid_moves() {
    let bot = ShortestPathBot;
    let game = GameY::new(7);

    for _ in 0..10 {
        let coords = bot.choose_move(&game).unwrap();
        let index = coords.to_index(game.board_size());

        // A board of side 7 has 28 cells.
        assert!(index < 28);
        assert!(game.available_cells().contains(&index));
    }
}

#[test]
fn test_simple_blocker_bot_name() {
    let bot = SimpleBlockerBot;
    assert_eq!(bot.name(), "simple_blocker_bot");
}

#[test]
fn test_simple_blocker_bot_returns_move_on_empty_board() {
    let bot = SimpleBlockerBot;
    let game = GameY::new(5);

    let chosen_move = bot.choose_move(&game);
    assert!(chosen_move.is_some());
}

#[test]
fn test_simple_blocker_bot_returns_none_on_full_board() {
    let bot = SimpleBlockerBot;
    let mut game = GameY::new(2);

    // A board of side 2 has 3 cells.
    let moves = vec![
        Movement::Placement {
            player: PlayerId::new(0),
            coords: Coordinates::new(1, 0, 0),
        },
        Movement::Placement {
            player: PlayerId::new(1),
            coords: Coordinates::new(0, 1, 0),
        },
        Movement::Placement {
            player: PlayerId::new(0),
            coords: Coordinates::new(0, 0, 1),
        },
    ];

    for mv in moves {
        game.add_move(mv).unwrap();
    }

    assert!(game.available_cells().is_empty());
    let chosen_move = bot.choose_move(&game);
    assert!(chosen_move.is_none());
}

#[test]
fn test_simple_blocker_bot_chooses_from_available_cells() {
    let bot = SimpleBlockerBot;
    let mut game = GameY::new(3);

    game.add_move(Movement::Placement {
        player: PlayerId::new(1),
        coords: Coordinates::new(2, 0, 0),
    })
    .unwrap();

    let coords = bot.choose_move(&game).unwrap();
    let index = coords.to_index(game.board_size());

    assert!(game.available_cells().contains(&index));
}

#[test]
fn test_triangle_attack_bot_name() {
    let bot = TriangleAttackBot;
    assert_eq!(bot.name(), "triangle_attack_bot");
}

#[test]
fn test_triangle_attack_bot_returns_move_on_empty_board() {
    let bot = TriangleAttackBot;
    let game = GameY::new(5);

    let chosen_move = bot.choose_move(&game);
    assert!(chosen_move.is_some());
}

#[test]
fn test_triangle_attack_bot_returns_valid_coordinates() {
    let bot = TriangleAttackBot;
    let game = GameY::new(5);

    let coords = bot.choose_move(&game).unwrap();
    let index = coords.to_index(game.board_size());

    // A board of side 5 has 15 cells.
    assert!(index < 15);
}

#[test]
fn test_triangle_attack_bot_returns_none_on_full_board() {
    let bot = TriangleAttackBot;
    let mut game = GameY::new(2);

    // A board of side 2 has 3 cells.
    let moves = vec![
        Movement::Placement {
            player: PlayerId::new(0),
            coords: Coordinates::new(1, 0, 0),
        },
        Movement::Placement {
            player: PlayerId::new(1),
            coords: Coordinates::new(0, 1, 0),
        },
        Movement::Placement {
            player: PlayerId::new(0),
            coords: Coordinates::new(0, 0, 1),
        },
    ];

    for mv in moves {
        game.add_move(mv).unwrap();
    }

    assert!(game.available_cells().is_empty());
    let chosen_move = bot.choose_move(&game);
    assert!(chosen_move.is_none());
}

#[test]
fn test_triangle_attack_bot_chooses_from_available_cells() {
    let bot = TriangleAttackBot;
    let mut game = GameY::new(3);

    game.add_move(Movement::Placement {
        player: PlayerId::new(0),
        coords: Coordinates::new(2, 0, 0),
    })
    .unwrap();

    let coords = bot.choose_move(&game).unwrap();
    let index = coords.to_index(game.board_size());

    assert!(game.available_cells().contains(&index));
}

#[test]
fn test_triangle_attack_bot_multiple_calls_return_valid_moves() {
    let bot = TriangleAttackBot;
    let game = GameY::new(7);

    for _ in 0..10 {
        let coords = bot.choose_move(&game).unwrap();
        let index = coords.to_index(game.board_size());

        // A board of side 7 has 28 cells.
        assert!(index < 28);
        assert!(game.available_cells().contains(&index));
    }
}
