//! The text of list markers.

use crate::syntax;
use crate::syntax::Marker;
use vstd::prelude::*;

verus! {

/// `String::push` appends one character to the end of the string.
pub assume_specification[ String::push ](s: &mut String, c: char)
    ensures
        final(s)@ == old(s)@.push(c),
;

/// The decimal digits of a number, without leading zeros.
pub open spec fn decimal(n: nat) -> Seq<char>
    decreases n,
{
    if n < 10 {
        seq![(0x30 + n) as char]
    } else {
        decimal(n / 10).push((0x30 + n % 10) as char)
    }
}

/// `count` times the same character.
pub open spec fn repeated(c: char, count: nat) -> Seq<char> {
    Seq::new(count, |i: int| c)
}

/// Appends the decimal digits of `n`.
pub fn push_decimal(s: &mut String, n: u32)
    ensures
        final(s)@ == old(s)@ + decimal(n as nat),
    decreases n,
{
    if n >= 10 {
        push_decimal(s, n / 10);
    }
    let digit: u8 = 0x30 + (n % 10) as u8;
    s.push(digit as char);
    assert(s@ =~= old(s)@ + decimal(n as nat));
}

/// Appends `count` times the same character.
pub fn push_repeated(s: &mut String, c: char, count: usize)
    ensures
        final(s)@ == old(s)@ + repeated(c, count as nat),
{
    let mut i: usize = 0;
    assert(s@ =~= old(s)@ + repeated(c, 0));
    while i < count
        invariant
            i <= count,
            s@ == old(s)@ + repeated(c, i as nat),
        decreases count - i,
    {
        s.push(c);
        i += 1;
        assert(s@ =~= old(s)@ + repeated(c, i as nat));
    }
}

impl Marker {
    /// The characters of the marker.
    pub open spec fn chars(self) -> Seq<char> {
        match self {
            Marker::Bullet(bullet) => seq![bullet],
            Marker::Number { n, delim } => decimal(n as nat).push(delim),
        }
    }

    /// The marker of the following item in the same list.
    pub open spec fn following(self) -> Marker {
        match self {
            Marker::Bullet(bullet) => Marker::Bullet(bullet),
            Marker::Number { n, delim } => Marker::Number {
                n: if n < u32::MAX {
                    (n + 1) as u32
                } else {
                    u32::MAX
                },
                delim,
            },
        }
    }

    /// The marker at another level: the bullet of that level, or the number one.
    pub open spec fn moved(self, level: int) -> Marker {
        match self {
            Marker::Bullet(_) => Marker::Bullet(syntax::spec_bullet(level)),
            Marker::Number { delim, .. } => Marker::Number { n: 1, delim },
        }
    }

    /// The text of the marker.
    pub fn text(self) -> (r: String)
        ensures
            r@ == self.chars(),
    {
        let mut s = String::new();
        match self {
            Marker::Bullet(bullet) => {
                s.push(bullet);
            },
            Marker::Number { n, delim } => {
                push_decimal(&mut s, n);
                s.push(delim);
            },
        }
        assert(s@ =~= self.chars());
        s
    }

    /// The marker of the following item in the same list.
    pub fn next(self) -> (r: Self)
        ensures
            r == self.following(),
    {
        match self {
            Marker::Bullet(bullet) => Marker::Bullet(bullet),
            Marker::Number { n, delim } => Marker::Number { n: n.saturating_add(1), delim },
        }
    }

    /// The marker when the item is moved to another level. A number gets its right value when the
    /// list is renumbered.
    pub fn for_level(self, level: usize) -> (r: Self)
        ensures
            r == self.moved(level as int),
    {
        match self {
            Marker::Bullet(_) => Marker::Bullet(syntax::bullet_for_level(level)),
            Marker::Number { delim, .. } => Marker::Number { n: 1, delim },
        }
    }
}

} // verus!
