use vstd::prelude::*;

use super::input::Key;

verus! {

/// What the player chose on an inventory screen.
#[derive(Clone, Copy, Debug)]
pub enum InventoryAction {
    Use(usize),
    Throw(usize),
    Cancel,
}

/// The experience that the next level needs, by current level.
pub open spec fn spec_next_level_exp(level: i32) -> i32 {
    if level == 0 {
        0
    } else if level == 1 {
        30
    } else if level == 2 {
        70
    } else if level == 3 {
        120
    } else if level == 4 {
        200
    } else {
        999
    }
}

pub fn next_level_exp(level: i32) -> (e: i32)
    ensures
        e == spec_next_level_exp(level),
{
    let table: [i32; 5] = [0, 30, 70, 120, 200];
    if 0 <= level && level < 5 {
        table[level as usize]
    } else {
        999
    }
}

/// How a remembered but unseen cell is drawn: floor and corridor dimmed, exits kept,
/// anything else blank.
pub open spec fn spec_dim_char(c: char) -> char {
    if c == '.' {
        ':'
    } else if c == '-' {
        ';'
    } else if c == '+' {
        '+'
    } else {
        ' '
    }
}

pub fn dim_char(c: char) -> (d: char)
    ensures
        d == spec_dim_char(c),
{
    match c {
        '.' => ':',
        '-' => ';',
        '+' => '+',
        _ => ' ',
    }
}

/// The most recent messages, oldest first, at most `max` of them.
pub struct MessageLog {
    pub lines: Vec<String>,
    pub max: usize,
}

impl MessageLog {
    pub fn new(max: usize) -> (l: Self)
        ensures
            l.lines@.len() == 0,
            l.max == max,
    {
        MessageLog { lines: Vec::new(), max }
    }

    /// Adds a message and drops the oldest ones beyond the maximum.
    pub fn push(&mut self, msg: String)
        requires
            old(self).lines@.len() <= old(self).max,
        ensures
            final(self).max == old(self).max,
            final(self).lines@ == ({
                let all = old(self).lines@.push(msg);
                if all.len() > old(self).max {
                    all.subrange(all.len() - old(self).max, all.len() as int)
                } else {
                    all
                }
            }),
    {
        let ghost all = self.lines@.push(msg);
        self.lines.push(msg);
        if self.lines.len() > self.max {
            self.lines.remove(0);
            assert(self.lines@ =~= all.subrange(all.len() - self.max, all.len() as int));
        }
    }
}

/// The choice that a key makes on an inventory screen of `n` items (`None`: the key means
/// nothing there and the screen waits for another). Escape, `q` and the key that opened the
/// screen (`t` when throwing, else `i`) close it; a letter from `a` picks the item at its
/// place in the alphabet, taken from the low byte of the character.
pub open spec fn inventory_key(key: Key, n: usize, throwing: bool) -> Option<InventoryAction> {
    let close = if throwing { 't' } else { 'i' };
    match key {
        Key::Esc => Some(InventoryAction::Cancel),
        Key::Char(c) => if c == 'q' || c == close {
            Some(InventoryAction::Cancel)
        } else if c >= 'a' && (c as u32) % 256 >= 97 && (c as u32) % 256 - 97 < n {
            let idx = ((c as u32) % 256 - 97) as usize;
            Some(if throwing { InventoryAction::Throw(idx) } else { InventoryAction::Use(idx) })
        } else {
            None
        },
        _ => None,
    }
}

pub fn inventory_choice(key: Key, n: usize, throwing: bool) -> (a: Option<InventoryAction>)
    ensures
        a == inventory_key(key, n, throwing),
{
    let close = if throwing { 't' } else { 'i' };
    match key {
        Key::Esc => Some(InventoryAction::Cancel),
        Key::Char(c) => {
            if c == 'q' || c == close {
                Some(InventoryAction::Cancel)
            } else if c >= 'a' {
                let b: u32 = (c as u32) % 256;
                if b >= 97 && ((b - 97) as usize) < n {
                    let idx = (b - 97) as usize;
                    if throwing {
                        Some(InventoryAction::Throw(idx))
                    } else {
                        Some(InventoryAction::Use(idx))
                    }
                } else {
                    None
                }
            } else {
                None
            }
        },
        _ => None,
    }
}

} // verus!
