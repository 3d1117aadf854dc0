use vstd::prelude::*;

use crate::game::turn::GameCommand;
use crate::game::types::Direction;

verus! {

/// A source of player commands (a terminal, a script).
pub trait InputHandler {
    type Error;

    fn next_command(&mut self) -> Result<GameCommand, Self::Error>;
}

/// A key press, as far as the game tells keys apart.
#[derive(Clone, Copy, Debug)]
pub enum Key {
    Char(char),
    Left,
    Right,
    Up,
    Down,
    Esc,
    Other,
}

/// The command of a key on the map screen (`None`: the key means nothing there). Letters
/// `hjklyubn` move, their capitals and shifted arrows turn without moving, `.` waits, `i`
/// and `t` open the inventories and `q` quits.
pub open spec fn key_command(key: Key, shift: bool) -> Option<GameCommand> {
    match key {
        Key::Char('q') => Some(GameCommand::Quit),
        Key::Char('H') => Some(GameCommand::Turn(Direction::Left)),
        Key::Char('J') => Some(GameCommand::Turn(Direction::Down)),
        Key::Char('K') => Some(GameCommand::Turn(Direction::Up)),
        Key::Char('L') => Some(GameCommand::Turn(Direction::Right)),
        Key::Char('Y') => Some(GameCommand::Turn(Direction::UpLeft)),
        Key::Char('U') => Some(GameCommand::Turn(Direction::UpRight)),
        Key::Char('N') => Some(GameCommand::Turn(Direction::DownLeft)),
        Key::Char('M') => Some(GameCommand::Turn(Direction::DownRight)),
        Key::Left => Some(if shift { GameCommand::Turn(Direction::Left) } else { GameCommand::Move(Direction::Left) }),
        Key::Down => Some(if shift { GameCommand::Turn(Direction::Down) } else { GameCommand::Move(Direction::Down) }),
        Key::Up => Some(if shift { GameCommand::Turn(Direction::Up) } else { GameCommand::Move(Direction::Up) }),
        Key::Right => Some(
            if shift {
                GameCommand::Turn(Direction::Right)
            } else {
                GameCommand::Move(Direction::Right)
            },
        ),
        Key::Char('h') => Some(GameCommand::Move(Direction::Left)),
        Key::Char('j') => Some(GameCommand::Move(Direction::Down)),
        Key::Char('k') => Some(GameCommand::Move(Direction::Up)),
        Key::Char('l') => Some(GameCommand::Move(Direction::Right)),
        Key::Char('y') => Some(GameCommand::Move(Direction::UpLeft)),
        Key::Char('u') => Some(GameCommand::Move(Direction::UpRight)),
        Key::Char('n') => Some(GameCommand::Move(Direction::DownLeft)),
        Key::Char('m') => Some(GameCommand::Move(Direction::DownRight)),
        Key::Char('.') => Some(GameCommand::Wait),
        Key::Char('i') => Some(GameCommand::OpenInventory),
        Key::Char('t') => Some(GameCommand::OpenThrowInventory),
        _ => None,
    }
}

pub fn command_for_key(key: Key, shift: bool) -> (c: Option<GameCommand>)
    ensures
        c == key_command(key, shift),
{
    match key {
        Key::Char('q') => Some(GameCommand::Quit),
        Key::Char('H') => Some(GameCommand::Turn(Direction::Left)),
        Key::Char('J') => Some(GameCommand::Turn(Direction::Down)),
        Key::Char('K') => Some(GameCommand::Turn(Direction::Up)),
        Key::Char('L') => Some(GameCommand::Turn(Direction::Right)),
        Key::Char('Y') => Some(GameCommand::Turn(Direction::UpLeft)),
        Key::Char('U') => Some(GameCommand::Turn(Direction::UpRight)),
        Key::Char('N') => Some(GameCommand::Turn(Direction::DownLeft)),
        Key::Char('M') => Some(GameCommand::Turn(Direction::DownRight)),
        Key::Left if shift => Some(GameCommand::Turn(Direction::Left)),
        Key::Down if shift => Some(GameCommand::Turn(Direction::Down)),
        Key::Up if shift => Some(GameCommand::Turn(Direction::Up)),
        Key::Right if shift => Some(GameCommand::Turn(Direction::Right)),
        Key::Char('h') | Key::Left => Some(GameCommand::Move(Direction::Left)),
        Key::Char('j') | Key::Down => Some(GameCommand::Move(Direction::Down)),
        Key::Char('k') | Key::Up => Some(GameCommand::Move(Direction::Up)),
        Key::Char('l') | Key::Right => Some(GameCommand::Move(Direction::Right)),
        Key::Char('y') => Some(GameCommand::Move(Direction::UpLeft)),
        Key::Char('u') => Some(GameCommand::Move(Direction::UpRight)),
        Key::Char('n') => Some(GameCommand::Move(Direction::DownLeft)),
        Key::Char('m') => Some(GameCommand::Move(Direction::DownRight)),
        Key::Char('.') => Some(GameCommand::Wait),
        Key::Char('i') => Some(GameCommand::OpenInventory),
        Key::Char('t') => Some(GameCommand::OpenThrowInventory),
        _ => None,
    }
}

} // verus!
