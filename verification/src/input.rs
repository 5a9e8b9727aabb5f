use vstd::prelude::*;

use crate::snake::Direction;

verus! {

/// A logical key event as the input-capture unit sees it. Letters arrive
/// as `Char`; keys the game never reacts to are collapsed into `Other`.
#[derive(Debug, Clone, Copy, PartialEq, Eq, Structural)]
pub enum Key {
    Up,
    Down,
    Left,
    Right,
    Char(char),
    Esc,
    Other,
}

/// What the game loop does with a forwarded key.
#[derive(Debug, Clone, Copy, PartialEq, Eq, Structural)]
pub enum KeyCommand {
    Move(Direction),
    Quit,
    Ignore,
}

/// The command a key stands for: arrows or the letters w, a, s, d steer,
/// escape quits, every other key is ignored.
pub open spec fn spec_classify_key(k: Key) -> KeyCommand {
    match k {
        Key::Up => KeyCommand::Move(Direction::Up),
        Key::Down => KeyCommand::Move(Direction::Down),
        Key::Left => KeyCommand::Move(Direction::Left),
        Key::Right => KeyCommand::Move(Direction::Right),
        Key::Char(c) => if c == 'w' {
            KeyCommand::Move(Direction::Up)
        } else if c == 's' {
            KeyCommand::Move(Direction::Down)
        } else if c == 'a' {
            KeyCommand::Move(Direction::Left)
        } else if c == 'd' {
            KeyCommand::Move(Direction::Right)
        } else {
            KeyCommand::Ignore
        },
        Key::Esc => KeyCommand::Quit,
        Key::Other => KeyCommand::Ignore,
    }
}

/// Maps one key event to the command the game loop carries out.
pub fn classify_key(k: Key) -> (r: KeyCommand)
    ensures
        r == spec_classify_key(k),
{
    match k {
        Key::Up => KeyCommand::Move(Direction::Up),
        Key::Down => KeyCommand::Move(Direction::Down),
        Key::Left => KeyCommand::Move(Direction::Left),
        Key::Right => KeyCommand::Move(Direction::Right),
        Key::Char(c) => {
            if c == 'w' {
                KeyCommand::Move(Direction::Up)
            } else if c == 's' {
                KeyCommand::Move(Direction::Down)
            } else if c == 'a' {
                KeyCommand::Move(Direction::Left)
            } else if c == 'd' {
                KeyCommand::Move(Direction::Right)
            } else {
                KeyCommand::Ignore
            }
        },
        Key::Esc => KeyCommand::Quit,
        Key::Other => KeyCommand::Ignore,
    }
}

/// Whether the debouncer forwards a key: only when it differs from the
/// last forwarded one.
pub open spec fn debounce_forwards(last: Option<Key>, k: Key) -> bool {
    last != Some(k)
}

/// The debounce memory after a key was observed: always that key.
pub open spec fn debounce_next(last: Option<Key>, k: Key) -> Option<Key> {
    Some(k)
}

/// The memory of the input-capture unit: the last key it forwarded into
/// the channel, or nothing right after start or after a round ended.
pub struct Debouncer {
    pub last: Option<Key>,
}

impl Debouncer {
    pub fn new() -> (d: Debouncer)
        ensures
            d.last is None,
    {
        Debouncer { last: None }
    }

    /// Observes one polled key event and says whether to forward it;
    /// repeats of the last forwarded key are suppressed, so a held key
    /// does not flood the channel.
    pub fn observe(&mut self, k: Key) -> (forward: bool)
        ensures
            forward == debounce_forwards(old(self).last, k),
            final(self).last == debounce_next(old(self).last, k),
    {
        let forward = match self.last {
            None => true,
            Some(l) => !(l == k),
        };
        self.last = Some(k);
        forward
    }

    /// Handles the round-end control signal: the memory is cleared, so
    /// the key that was sent last can be forwarded again next round.
    pub fn note_death(&mut self)
        ensures
            final(self).last is None,
    {
        self.last = None;
    }
}

/// Two consecutive identical key events produce exactly one forwarded
/// event, and a differing event arriving right after the repeat is still
/// forwarded.
pub proof fn lemma_debounce_repeat(last: Option<Key>, k: Key, other: Key)
    requires
        debounce_forwards(last, k),
        other != k,
    ensures
        !debounce_forwards(debounce_next(last, k), k),
        debounce_forwards(debounce_next(debounce_next(last, k), k), other),
{
}

/// After the round-end signal cleared the memory, any key is forwarded
/// again — also the very key that was sent last before the round ended.
pub proof fn lemma_forward_after_death(k: Key)
    ensures
        debounce_forwards(None, k),
{
}

} // verus!
