use freecell::{game_from_columns, Card, CardAddress, GameUndoStack, Suit};

#[test]
fn undo_test() {
    let mut game = game_from_columns(vec![
        vec![
            Card::new(5, Suit::Clubs),
            Card::new(4, Suit::Diamonds),
            Card::new(3, Suit::Clubs),
            Card::new(2, Suit::Diamonds),
            Card::new(1, Suit::Clubs),
        ],
        Vec::new(),
        Vec::new(),
    ]);
    let mut undo_stack = GameUndoStack::new();

    // basic undo
    let game_state_1 = game.clone();
    game = undo_stack.update(
        game.clone(),
        game.pick_up_card(CardAddress::Column(0)).unwrap(),
    );
    game = undo_stack.update(game.clone(), game.place(CardAddress::Column(1)).unwrap());
    let game_state_2 = game.clone();
    let undo_stack_state_1 = undo_stack.clone();
    game = undo_stack.undo(game);
    assert_eq!(game, game_state_1);

    // automatic redo
    game = undo_stack.redo(game);
    assert_eq!(game, game_state_2);

    // manual redo
    game = undo_stack.undo(game);
    game = undo_stack.update(
        game.clone(),
        game.pick_up_card(CardAddress::Column(0)).unwrap(),
    );
    game = undo_stack.update(game.clone(), game.place(CardAddress::Column(1)).unwrap());
    assert_eq!(game, game_state_2);
    assert_eq!(undo_stack, undo_stack_state_1);

    // nop skipping during update
    game = undo_stack.update(
        game.clone(),
        game.pick_up_card(CardAddress::Column(0)).unwrap(),
    );
    game = undo_stack.update(game.clone(), game.place(CardAddress::Column(0)).unwrap());
    assert_eq!(game, game_state_2);
    assert_eq!(undo_stack, undo_stack_state_1);

    // sneak skipping during undo
    game = undo_stack.update(
        game.clone(),
        game.pick_up_card(CardAddress::Column(0)).unwrap(),
    );
    game = undo_stack.update(game.clone(), game.place(CardAddress::Column(2)).unwrap());
    game = undo_stack.sneak_update(game.clone(), game.auto_move_to_foundations().unwrap());
    game = undo_stack.undo(game);
    assert_eq!(game, game_state_2);
}

#[test]
fn undo_redo() {
    let mut game = game_from_columns(vec![
        vec![Card::new(2, Suit::Diamonds), Card::new(1, Suit::Clubs)],
        Vec::new(),
    ]);
    let mut undo_stack = GameUndoStack::new();

    // basic undo
    let game_state_1 = game.clone();
    game = undo_stack.update(
        game.clone(),
        game.pick_up_card(CardAddress::Column(0)).unwrap(),
    );
    game = undo_stack.update(game.clone(), game.place(CardAddress::Column(1)).unwrap());
    let game_state_2 = game.clone();
    game = undo_stack.undo(game);
    assert_eq!(game, game_state_1);

    // automatic redo
    game = undo_stack.redo(game);
    assert_eq!(game, game_state_2);
}

#[test]
fn manual_undo() {
    let mut game = game_from_columns(vec![
        vec![Card::new(2, Suit::Clubs), Card::new(1, Suit::Diamonds)],
        Vec::new(),
        Vec::new(),
    ]);
    let mut undo_stack = GameUndoStack::new();

    let game_state_1 = game.clone();
    game = undo_stack.update(
        game.clone(),
        game.pick_up_card(CardAddress::Column(0)).unwrap(),
    );
    game = undo_stack.update(game.clone(), game.place(CardAddress::Column(1)).unwrap());
    game = undo_stack.update(
        game.clone(),
        game.pick_up_card(CardAddress::Column(0)).unwrap(),
    );
    game = undo_stack.update(game.clone(), game.place(CardAddress::Column(2)).unwrap());
    let game_state_2 = game.clone();

    // make sure manual undos don't mess up the redo stack
    game = undo_stack.undo(game);
    game = undo_stack.update(
        game.clone(),
        game.pick_up_card(CardAddress::Column(1)).unwrap(),
    );
    println!("{:?}\n---\n{:?}\n---", game.view(), undo_stack);
    game = undo_stack.update(game.clone(), game.place(CardAddress::Column(0)).unwrap());
    assert_eq!(game, game_state_1);
    println!("{:?}\n---\n{:?}\n---", game.view(), undo_stack);
    game = undo_stack.redo(game);
    println!("{:?}\n---\n{:?}\n---", game.view(), undo_stack);
    assert_ne!(game, game_state_1);
    assert_ne!(game, game_state_2);
    game = undo_stack.redo(game);
    assert_eq!(game, game_state_2);
}

#[test]
fn manual_redo() {
    let mut game = game_from_columns(vec![
        vec![Card::new(1, Suit::Clubs), Card::new(2, Suit::Diamonds)],
        Vec::new(),
    ]);
    let mut undo_stack = GameUndoStack::new();

    let game_state_1 = game.clone();
    game = undo_stack.update(
        game.clone(),
        game.pick_up_card(CardAddress::Column(0)).unwrap(),
    );
    game = undo_stack.update(game.clone(), game.place(CardAddress::Column(1)).unwrap());
    game = undo_stack.update(
        game.clone(),
        game.pick_up_card(CardAddress::Column(0)).unwrap(),
    );
    game = undo_stack.update(game.clone(), game.place(CardAddress::Column(1)).unwrap());
    let game_state_2 = game.clone();

    game = undo_stack.undo(game);
    game = undo_stack.undo(game);
    assert_eq!(game, game_state_1);

    // manual redo
    game = undo_stack.update(
        game.clone(),
        game.pick_up_card(CardAddress::Column(0)).unwrap(),
    );
    game = undo_stack.update(game.clone(), game.place(CardAddress::Column(1)).unwrap());

    // auto redo
    game = undo_stack.redo(game);
    assert_eq!(game, game_state_2);
}

#[test]
fn nop_skipping() {
    let mut game = game_from_columns(vec![
        vec![Card::new(1, Suit::Clubs), Card::new(2, Suit::Diamonds)],
        Vec::new(),
    ]);
    let mut undo_stack = GameUndoStack::new();

    game = undo_stack.update(
        game.clone(),
        game.pick_up_card(CardAddress::Column(0)).unwrap(),
    );
    game = undo_stack.update(game.clone(), game.place(CardAddress::Column(1)).unwrap());
    let game_state_1 = game.clone();
    game = undo_stack.update(
        game.clone(),
        game.pick_up_card(CardAddress::Column(0)).unwrap(),
    );
    game = undo_stack.update(game.clone(), game.place(CardAddress::Column(1)).unwrap());
    let game_state_2 = game.clone();
    game = undo_stack.undo(game);

    // nop skipping during update
    game = undo_stack.update(
        game.clone(),
        game.pick_up_card(CardAddress::Column(0)).unwrap(),
    );
    game = undo_stack.update(game.clone(), game.place(CardAddress::Column(0)).unwrap());
    assert_eq!(game, game_state_1);

    game = undo_stack.redo(game);
    assert_eq!(game, game_state_2);
}

#[test]
fn sneak_skipping() {
    let mut game = game_from_columns(vec![
        vec![Card::new(1, Suit::Clubs), Card::new(2, Suit::Diamonds)],
        Vec::new(),
    ]);
    let mut undo_stack = GameUndoStack::new();

    let game_state_1 = game.clone();
    game = undo_stack.update(
        game.clone(),
        game.pick_up_card(CardAddress::Column(0)).unwrap(),
    );
    game = undo_stack.update(game.clone(), game.place(CardAddress::Column(1)).unwrap());
    game = undo_stack.sneak_update(game.clone(), game.auto_move_to_foundations().unwrap());

    // sneak skipping during undo
    game = undo_stack.undo(game);
    assert_eq!(game, game_state_1);
}

#[test]
fn no_ops() {
    let mut game = game_from_columns(vec![
        vec![Card::new(2, Suit::Clubs), Card::new(1, Suit::Diamonds)],
        Vec::new(),
        Vec::new(),
        Vec::new(),
    ]);
    let mut undo_stack = GameUndoStack::new();

    let game_state_1 = game.clone();
    game = undo_stack.update(
        game.clone(),
        game.pick_up_card(CardAddress::Column(0)).unwrap(),
    );
    game = undo_stack.update(game.clone(), game.place(CardAddress::Column(1)).unwrap());
    game = undo_stack.update(
        game.clone(),
        game.pick_up_card(CardAddress::Column(0)).unwrap(),
    );
    game = undo_stack.update(game.clone(), game.place(CardAddress::Column(2)).unwrap());
    let game_state_2 = game.clone();

    // make sure no-ops don't destroy redo stack
    game = undo_stack.undo(game);
    game = undo_stack.undo(game);
    assert_eq!(game, game_state_1);
    game = undo_stack.update(
        game.clone(),
        game.pick_up_card(CardAddress::Column(0)).unwrap(),
    );
    game = undo_stack.update(game.clone(), game.place(CardAddress::Column(0)).unwrap());
    game = undo_stack.redo(game);
    game = undo_stack.redo(game);
    assert_eq!(game, game_state_2);

    // make sure actual ops do
    game = undo_stack.undo(game);
    game = undo_stack.undo(game);
    assert_eq!(game, game_state_1);
    game = undo_stack.update(
        game.clone(),
        game.pick_up_card(CardAddress::Column(0)).unwrap(),
    );
    game = undo_stack.update(game.clone(), game.place(CardAddress::Column(3)).unwrap());
    assert_ne!(game, game_state_2);
    let game_state_3 = game.clone();
    game = undo_stack.redo(game);
    assert_eq!(game, game_state_3);
}
