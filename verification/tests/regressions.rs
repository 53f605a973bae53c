use match3_core::dropper::{drop_column, validate};
use match3_core::tile::{TileColor, TileState};

#[test]
fn regression1() {
    let mut col = vec![
        TileState::Falling {
            color: TileColor::Magenta,
            d: 63_500,
            v: 0,
        },
        TileState::Falling {
            color: TileColor::Blue,
            d: 63_500,
            v: 0,
        },
        TileState::JustMatched(TileColor::Red),
        TileState::JustMatched(TileColor::Red),
        TileState::JustMatched(TileColor::Red),
        TileState::Settled(TileColor::Red),
        TileState::Settled(TileColor::Orange),
        TileState::Settled(TileColor::Yellow),
        TileState::Settled(TileColor::Green),
        TileState::Settled(TileColor::Red),
    ];
    drop_column(&mut col, 32_000, 2);
    assert!(validate(&col));
}

#[test]
fn regression2() {
    let mut col = vec![
        TileState::Settled(TileColor::Magenta),
        TileState::JustMatched(TileColor::Red),
        TileState::Settled(TileColor::Green),
        TileState::Settled(TileColor::Orange),
        TileState::Settled(TileColor::Yellow),
        TileState::Settled(TileColor::Red),
        TileState::Settled(TileColor::Red),
        TileState::Settled(TileColor::Red),
        TileState::Settled(TileColor::Red),
        TileState::Settled(TileColor::Red),
    ];
    drop_column(&mut col, 32_000, 2);
    println!("{:?}", col);
    assert!(validate(&col));
    assert!(matches!(col[0], TileState::Falling { d, .. } if d == 32_000));
    assert!(matches!(col[1], TileState::Falling { d, .. } if d == 32_000));
}
