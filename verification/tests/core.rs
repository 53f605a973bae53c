use match3_core::board::{Board, GameError};
use match3_core::dropper::{count_matched_tiles, drop_column, drop_column_with, validate};
use match3_core::game::Game;
use match3_core::matcher::resolve_matches;
use match3_core::physics::integrate_column;
use match3_core::tile::{Params, TileColor, TileState};

fn small_params(w: usize, h: usize) -> Params {
    Params {
        grid_w: w,
        grid_h: h,
        tile_h: 32_000,
        gravity: 200_000,
        swap_time_ms: 150,
        swerve: 8_000,
        color_range: 2,
    }
}

fn settled_row(colors: &[TileColor]) -> Board {
    Board {
        cols: colors.iter().map(|c| vec![TileState::Settled(*c)]).collect(),
    }
}

#[test]
fn horizontal_run_of_three_marked_exactly() {
    // A run of exactly three at x = 2, 3, 4 in an otherwise unique row.
    let params = small_params(7, 1);
    let mut board = settled_row(&[
        TileColor::Red,
        TileColor::Orange,
        TileColor::Green,
        TileColor::Green,
        TileColor::Green,
        TileColor::Blue,
        TileColor::Cyan,
    ]);
    let found = resolve_matches(&mut board, &params);
    assert!(found);
    assert_eq!(board.cols[2][0], TileState::JustMatched(TileColor::Green));
    assert_eq!(board.cols[3][0], TileState::JustMatched(TileColor::Green));
    assert_eq!(board.cols[4][0], TileState::JustMatched(TileColor::Green));
    assert_eq!(board.cols[1][0], TileState::Settled(TileColor::Orange));
    assert_eq!(board.cols[5][0], TileState::Settled(TileColor::Blue));
}

#[test]
fn run_of_two_untouched() {
    let params = small_params(5, 1);
    let mut board = settled_row(&[
        TileColor::Red,
        TileColor::Green,
        TileColor::Green,
        TileColor::Blue,
        TileColor::Cyan,
    ]);
    let found = resolve_matches(&mut board, &params);
    assert!(!found);
    assert_eq!(board.cols[1][0], TileState::Settled(TileColor::Green));
    assert_eq!(board.cols[2][0], TileState::Settled(TileColor::Green));
}

#[test]
fn vertical_run_marked() {
    let params = small_params(1, 5);
    let mut board = Board {
        cols: vec![vec![
            TileState::Settled(TileColor::Red),
            TileState::Settled(TileColor::Magenta),
            TileState::Settled(TileColor::Magenta),
            TileState::Settled(TileColor::Magenta),
            TileState::Settled(TileColor::Yellow),
        ]],
    };
    let found = resolve_matches(&mut board, &params);
    assert!(found);
    assert_eq!(board.cols[0][0], TileState::Settled(TileColor::Red));
    assert_eq!(board.cols[0][1], TileState::JustMatched(TileColor::Magenta));
    assert_eq!(board.cols[0][2], TileState::JustMatched(TileColor::Magenta));
    assert_eq!(board.cols[0][3], TileState::JustMatched(TileColor::Magenta));
    assert_eq!(board.cols[0][4], TileState::Settled(TileColor::Yellow));
}

#[test]
fn run_at_the_grid_edge_is_marked() {
    // The run ends exactly at the last column; the scan must flush it and
    // must not wrap around to the start of the row.
    let params = small_params(5, 1);
    let mut board = settled_row(&[
        TileColor::Blue,
        TileColor::Red,
        TileColor::Green,
        TileColor::Green,
        TileColor::Green,
    ]);
    let found = resolve_matches(&mut board, &params);
    assert!(found);
    assert_eq!(board.cols[0][0], TileState::Settled(TileColor::Blue));
    assert_eq!(board.cols[1][0], TileState::Settled(TileColor::Red));
    assert!(matches!(board.cols[4][0], TileState::JustMatched(_)));
}

#[test]
fn resolution_is_idempotent_on_a_resolved_board() {
    let params = small_params(5, 1);
    let mut board = settled_row(&[
        TileColor::Red,
        TileColor::Green,
        TileColor::Green,
        TileColor::Green,
        TileColor::Cyan,
    ]);
    resolve_matches(&mut board, &params);
    let snapshot = board.cols.clone();
    // A second pass with no intervening state change marks nothing new.
    resolve_matches(&mut board, &params);
    assert_eq!(snapshot, board.cols);
}

#[test]
fn drop_leaves_no_tombstones_and_conserves_tiles() {
    let mut col = vec![
        TileState::JustMatched(TileColor::Red),
        TileState::Settled(TileColor::Green),
        TileState::JustMatched(TileColor::Red),
        TileState::Settled(TileColor::Blue),
        TileState::JustMatched(TileColor::Red),
        TileState::Settled(TileColor::Cyan),
    ];
    drop_column(&mut col, 32_000, 2);
    assert_eq!(col.len(), 6);
    for s in &col {
        assert!(matches!(
            s,
            TileState::Settled(_) | TileState::Falling { .. }
        ));
    }
    // The three survivors are compacted to the bottom in their order; the
    // lowest one had no cleared cell below it and stays put, at rest.
    assert!(matches!(col[3], TileState::Falling { color: TileColor::Green, .. }));
    assert!(matches!(col[4], TileState::Falling { color: TileColor::Blue, .. }));
    assert_eq!(col[5], TileState::Settled(TileColor::Cyan));
}

#[test]
fn drop_is_a_no_op_without_marked_cells() {
    let mut col = vec![
        TileState::Settled(TileColor::Green),
        TileState::Falling {
            color: TileColor::Red,
            d: 10_000,
            v: 500,
        },
    ];
    let before = col.clone();
    drop_column(&mut col, 32_000, 2);
    assert_eq!(before, col);
}

#[test]
fn drop_accumulates_travel_of_moved_tiles() {
    // The falling pair drops through three vacated cells: 96 pixels are
    // added to the 63.5 pixels of travel each tile had already accumulated.
    let mut col = vec![
        TileState::Falling {
            color: TileColor::Magenta,
            d: 63_500,
            v: 0,
        },
        TileState::Falling {
            color: TileColor::Blue,
            d: 63_500,
            v: 0,
        },
        TileState::JustMatched(TileColor::Red),
        TileState::JustMatched(TileColor::Red),
        TileState::JustMatched(TileColor::Red),
        TileState::Settled(TileColor::Red),
        TileState::Settled(TileColor::Orange),
        TileState::Settled(TileColor::Yellow),
        TileState::Settled(TileColor::Green),
        TileState::Settled(TileColor::Red),
    ];
    drop_column(&mut col, 32_000, 2);
    assert!(matches!(
        col[3],
        TileState::Falling { color: TileColor::Magenta, d: 159_500, v: 0 }
    ));
    assert!(matches!(
        col[4],
        TileState::Falling { color: TileColor::Blue, d: 159_500, v: 0 }
    ));
    // The refilled span starts from the same shared distance, so nothing
    // clips through the still-falling pair.
    for i in 0..3 {
        assert!(matches!(col[i], TileState::Falling { d: 159_500, v: 0, .. }));
    }
    assert_eq!(col[5], TileState::Settled(TileColor::Red));
    assert!(validate(&col));
}

#[test]
fn refilled_colors_come_from_the_narrowed_palette() {
    // The randomized refill draws only from the first two palette colors.
    for _ in 0..20 {
        let mut col = vec![
            TileState::JustMatched(TileColor::Cyan),
            TileState::JustMatched(TileColor::Cyan),
            TileState::JustMatched(TileColor::Cyan),
            TileState::Settled(TileColor::Green),
        ];
        drop_column(&mut col, 32_000, 2);
        for i in 0..3 {
            match col[i] {
                TileState::Falling { color, .. } => {
                    assert!(color == TileColor::Red || color == TileColor::Orange);
                }
                ref other => panic!("{:?}", other),
            }
        }
    }
}

#[test]
fn drop_with_supplied_colors_is_deterministic() {
    let mut col = vec![
        TileState::JustMatched(TileColor::Red),
        TileState::JustMatched(TileColor::Red),
        TileState::Settled(TileColor::Green),
    ];
    let colors = vec![TileColor::Cyan, TileColor::Magenta];
    assert_eq!(count_matched_tiles(&col), 2);
    drop_column_with(&mut col, &colors, 32_000);
    assert_eq!(
        col[0],
        TileState::Falling { color: TileColor::Cyan, d: 64_000, v: 0 }
    );
    assert_eq!(
        col[1],
        TileState::Falling { color: TileColor::Magenta, d: 64_000, v: 0 }
    );
    assert_eq!(col[2], TileState::Settled(TileColor::Green));
}

#[test]
fn validate_rejects_a_tile_below_a_slower_one() {
    let col = vec![
        TileState::Falling {
            color: TileColor::Red,
            d: 1_000,
            v: 0,
        },
        TileState::Falling {
            color: TileColor::Blue,
            d: 2_000,
            v: 0,
        },
    ];
    assert!(!validate(&col));
}

#[test]
fn integration_step_exact_values() {
    // d' = d - v*dt - g*dt^2/2 and v' = v + g*dt, in milli-pixel units with
    // dt = 100 ms and gravity = 200 pixels per second per second.
    let mut col = vec![TileState::Falling {
        color: TileColor::Red,
        d: 32_000,
        v: 0,
    }];
    let settled = integrate_column(&mut col, 100, 200_000);
    assert!(!settled);
    assert_eq!(
        col[0],
        TileState::Falling { color: TileColor::Red, d: 31_000, v: 20_000 }
    );
}

#[test]
fn tile_settles_when_distance_runs_out() {
    let mut col = vec![TileState::Falling {
        color: TileColor::Blue,
        d: 500,
        v: 0,
    }];
    let settled = integrate_column(&mut col, 100, 200_000);
    assert!(settled);
    assert_eq!(col[0], TileState::Settled(TileColor::Blue));
}

#[test]
fn falling_tile_is_clamped_against_the_tile_below() {
    // Unclamped, the upper tile would end at 4000 while the lower tile is
    // still 8000 away: both its position and its closing speed are capped.
    let mut col = vec![
        TileState::Falling {
            color: TileColor::Red,
            d: 10_000,
            v: 50_000,
        },
        TileState::Falling {
            color: TileColor::Blue,
            d: 9_000,
            v: 0,
        },
    ];
    let settled = integrate_column(&mut col, 100, 200_000);
    assert!(!settled);
    assert_eq!(
        col[1],
        TileState::Falling { color: TileColor::Blue, d: 8_000, v: 20_000 }
    );
    assert_eq!(
        col[0],
        TileState::Falling { color: TileColor::Red, d: 8_000, v: 20_000 }
    );
}

#[test]
fn swap_completes_with_colors_exchanged() {
    // Start a swap of two adjacent settled tiles, then advance past the
    // swap duration: both cells settle with colors exchanged and a recheck
    // is scheduled.
    let mut game = Game::new(Params::standard());
    let c_top = match game.board.cols[0][0] {
        TileState::Settled(c) => c,
        ref other => panic!("{:?}", other),
    };
    let c_bottom = match game.board.cols[0][1] {
        TileState::Settled(c) => c,
        ref other => panic!("{:?}", other),
    };
    assert!(game.try_start_swap(0, 0, 0, 1));
    assert!(game.swap.is_some());
    game.step_swap(200);
    assert!(game.swap.is_none());
    assert!(game.recheck);
    assert_eq!(game.board.cols[0][0], TileState::Settled(c_bottom));
    assert_eq!(game.board.cols[0][1], TileState::Settled(c_top));
}

#[test]
fn swap_animation_keeps_running_before_the_deadline() {
    let mut game = Game::new(Params::standard());
    assert!(game.try_start_swap(3, 3, 3, 4));
    game.step_swap(100);
    let sw = game.swap.expect("swap still in flight");
    assert_eq!(sw.t_ms, 100);
    assert!(matches!(game.board.cols[3][3], TileState::Swapping(_)));
}

#[test]
fn second_gesture_is_ignored_while_a_swap_is_in_flight() {
    let mut game = Game::new(Params::standard());
    assert!(game.try_start_swap(0, 0, 0, 1));
    let first = game.swap;
    let before = game.board.cols.clone();
    assert!(!game.try_start_swap(5, 5, 5, 6));
    assert_eq!(game.swap, first);
    assert_eq!(before, game.board.cols);
}

#[test]
fn invalid_gestures_are_rejected_without_any_change() {
    let mut game = Game::new(Params::standard());
    let before = game.board.cols.clone();
    // not adjacent
    assert!(!game.try_start_swap(0, 0, 2, 0));
    // diagonal
    assert!(!game.try_start_swap(0, 0, 1, 1));
    // out of bounds
    assert!(!game.try_start_swap(9, 9, 9, 10));
    assert_eq!(before, game.board.cols);
    assert!(game.swap.is_none());
}

#[test]
fn out_of_bounds_access_reports_an_error() {
    let game = Game::new(Params::standard());
    assert_eq!(game.board.get(10, 0), Err(GameError::OutOfBounds));
    assert_eq!(game.board.get(0, 10), Err(GameError::OutOfBounds));
    assert_eq!(game.cell_sprite(10, 0), Err(GameError::OutOfBounds));
    let mut board = Board {
        cols: vec![vec![TileState::Settled(TileColor::Red)]],
    };
    assert_eq!(
        board.set(1, 0, TileState::Settled(TileColor::Blue)),
        Err(GameError::OutOfBounds)
    );
    assert_eq!(board.cols[0][0], TileState::Settled(TileColor::Red));
}

#[test]
fn patterned_board_cycles_the_whole_palette() {
    let board = Board::new_patterned(&Params::standard());
    assert_eq!(board.cols[0][0], TileState::Settled(TileColor::Red));
    assert_eq!(board.cols[0][1], TileState::Settled(TileColor::Orange));
    assert_eq!(board.cols[1][0], TileState::Settled(TileColor::Green));
    // (3 * 3 + 0) % 7 == 2
    assert_eq!(board.cols[3][0], TileState::Settled(TileColor::Yellow));
}

#[test]
fn tick_keeps_the_board_consistent_through_a_cascade() {
    // Force a horizontal run, then keep ticking: after every tick no
    // tombstone may survive and every column must satisfy the stacking
    // invariant, however the cascade of falls and re-matches plays out.
    let params = small_params(3, 3);
    let mut game = Game::new(params);
    for x in 0..3 {
        for y in 0..3 {
            let c = if y == 2 {
                TileColor::Green
            } else {
                [TileColor::Red, TileColor::Orange, TileColor::Yellow, TileColor::Blue,
                    TileColor::Cyan, TileColor::Magenta][(x * 3 + y) % 6]
            };
            game.board.set(x, y, TileState::Settled(c)).unwrap();
        }
    }
    game.recheck = true;
    let mut saw_falling = false;
    for _ in 0..200 {
        game.tick(16, None);
        for x in 0..3 {
            let col = &game.board.cols[x];
            assert!(validate(col));
            for s in col {
                assert!(!matches!(s, TileState::JustMatched(_)));
                if matches!(s, TileState::Falling { .. }) {
                    saw_falling = true;
                }
            }
        }
    }
    // The cleared run really did make tiles fall at some point.
    assert!(saw_falling);
}

#[test]
fn fully_cleared_column_refills_from_the_top() {
    let mut col = vec![TileState::JustMatched(TileColor::Red); 4];
    drop_column(&mut col, 32_000, 2);
    assert_eq!(col.len(), 4);
    for s in &col {
        // every spawned tile travels the full column height from rest
        assert!(matches!(s, TileState::Falling { d: 128_000, v: 0, .. }));
    }
}

#[test]
fn drop_handles_the_largest_column() {
    // The tallest column the tunables allow.
    let mut col = vec![TileState::JustMatched(TileColor::Red); 256];
    col[255] = TileState::Settled(TileColor::Green);
    drop_column(&mut col, 32_000, 2);
    assert_eq!(col.len(), 256);
    assert_eq!(col[255], TileState::Settled(TileColor::Green));
    for i in 0..255 {
        assert!(matches!(col[i], TileState::Falling { d: 8_160_000, v: 0, .. }));
    }
    assert!(validate(&col));
}

#[test]
fn idle_tick_changes_nothing() {
    let mut game = Game::new(Params::standard());
    let before = game.board.cols.clone();
    game.tick(16, None);
    assert_eq!(before, game.board.cols);
    assert!(game.swap.is_none());
    assert!(!game.recheck);
}

#[test]
fn sprite_snapshot_reports_offsets() {
    let game = Game {
        params: small_params(1, 3),
        board: Board {
            cols: vec![vec![
                TileState::Falling {
                    color: TileColor::Blue,
                    d: 12_345,
                    v: 7,
                },
                TileState::Settled(TileColor::Red),
                TileState::Settled(TileColor::Green),
            ]],
        },
        swap: None,
        recheck: false,
    };
    assert_eq!(game.cell_sprite(0, 0), Ok(Some((TileColor::Blue, 12_345))));
    assert_eq!(game.cell_sprite(0, 1), Ok(Some((TileColor::Red, 0))));
}
