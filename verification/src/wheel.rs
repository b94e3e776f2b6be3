//! One rotary wheel of the speed-dial lock.
//!
//! A wheel has a discrete position (five settings, `0..=4`) and a
//! directional shift (`-1`, `0`, or `+1`: leaning left, neutral, leaning
//! right). Both are packed into a single byte as
//! `position * 3 + (shift + 1)`, so the valid encodings are `0..=14`.

use vstd::prelude::*;

verus! {

/// Encoded position and shift of one wheel: `position * 3 + (shift + 1)`.
pub open spec fn encode(pos: int, shift: int) -> int {
    pos * 3 + shift + 1
}

/// The position held in an encoded wheel value.
pub open spec fn wheel_pos(w: int) -> int {
    w / 3
}

/// The shift held in an encoded wheel value.
pub open spec fn wheel_shift(w: int) -> int {
    w % 3 - 1
}

/// A wheel encoding is valid when it lies in `0..=14`.
pub open spec fn wheel_wf(w: int) -> bool {
    0 <= w < 15
}

/// One step of a wheel urged toward `shift`: a wheel already leaning at
/// least as far keeps stepping (position advances, wrapping from 4 to 0),
/// while a wheel leaning less only catches up its shift.
pub open spec fn advance_spec(w: int, shift: int) -> int {
    if wheel_shift(w) < shift {
        encode(wheel_pos(w), shift)
    } else {
        encode((wheel_pos(w) + 1) % 5, shift)
    }
}

/// The digit naming a wheel position.
pub open spec fn pos_char(p: int) -> char {
    if p == 0 {
        '0'
    } else if p == 1 {
        '1'
    } else if p == 2 {
        '2'
    } else if p == 3 {
        '3'
    } else {
        '4'
    }
}

/// The mark naming a wheel shift: leaning left, neutral, or leaning
/// right.
pub open spec fn shift_char(s: int) -> char {
    if s < 0 {
        '<'
    } else if s > 0 {
        '>'
    } else {
        '|'
    }
}

/// The concise rendering of a wheel: its position digit and shift mark.
pub open spec fn wheel_text(w: int) -> Seq<char> {
    seq![pos_char(wheel_pos(w)), shift_char(wheel_shift(w))]
}

/// The state of a single wheel, packed into one byte.
#[derive(Eq, PartialEq, Copy, Clone, Debug, Structural)]
pub struct Wheel(u8);

impl View for Wheel {
    type V = int;

    closed spec fn view(&self) -> int {
        self.0 as int
    }
}

impl Wheel {
    pub fn new(pos: u8, shift: i8) -> (w: Wheel)
        requires
            pos < 5,
            -1 <= shift <= 1,
        ensures
            w@ == encode(pos as int, shift as int),
            wheel_wf(w@),
    {
        Wheel(pos * 3 + (shift + 1) as u8)
    }

    pub fn set(&mut self, pos: u8, shift: i8)
        requires
            pos < 5,
            -1 <= shift <= 1,
        ensures
            final(self)@ == encode(pos as int, shift as int),
            wheel_wf(final(self)@),
    {
        self.0 = pos * 3 + (shift + 1) as u8;
    }

    pub fn pos(self) -> (p: u8)
        requires
            wheel_wf(self@),
        ensures
            p as int == wheel_pos(self@),
            p < 5,
    {
        self.0 / 3
    }

    pub fn shift(self) -> (s: i8)
        requires
            wheel_wf(self@),
        ensures
            s as int == wheel_shift(self@),
            -1 <= s <= 1,
    {
        (self.0 % 3) as i8 - 1
    }

    /// The packed byte encoding of this wheel.
    pub fn encoded(self) -> (e: u8)
        ensures
            e as int == self@,
    {
        self.0
    }

    /// The wheel with the given packed byte encoding.
    pub fn from_encoded(e: u8) -> (w: Wheel)
        requires
            e < 15,
        ensures
            w@ == e as int,
            wheel_wf(w@),
    {
        Wheel(e)
    }

    /// Display the wheel concisely: position digit, then shift mark.
    pub fn render(&self) -> (out: String)
        requires
            wheel_wf(self@),
        ensures
            out@ == wheel_text(self@),
    {
        let p = self.pos();
        let s = self.shift();
        let ptxt = if p == 0 {
            "0"
        } else if p == 1 {
            "1"
        } else if p == 2 {
            "2"
        } else if p == 3 {
            "3"
        } else {
            "4"
        };
        let stxt = if s < 0 {
            "<"
        } else if s > 0 {
            ">"
        } else {
            "|"
        };
        let mut out = String::from_str(ptxt);
        out.append(stxt);
        proof {
            reveal_strlit("0");
            reveal_strlit("1");
            reveal_strlit("2");
            reveal_strlit("3");
            reveal_strlit("4");
            reveal_strlit("<");
            reveal_strlit(">");
            reveal_strlit("|");
            assert(out@ =~= wheel_text(self@));
        }
        out
    }

    /// Return the wheel to the neutral reset state (position 0, shift 0).
    pub fn reset(&mut self)
        ensures
            final(self)@ == encode(0, 0),
    {
        self.set(0, 0)
    }

    /// Advance this wheel to the given shift. The encoding stays valid,
    /// and the position steps (mod 5) exactly when the requested shift is
    /// not greater than the current one.
    pub fn advance(&mut self, shift: i8)
        requires
            wheel_wf(old(self)@),
            -1 <= shift <= 1,
        ensures
            final(self)@ == advance_spec(old(self)@, shift as int),
            wheel_wf(final(self)@),
            wheel_shift(old(self)@) < shift ==> wheel_pos(final(self)@) == wheel_pos(old(self)@),
            wheel_shift(old(self)@) >= shift ==> wheel_pos(final(self)@) == (wheel_pos(old(self)@)
                + 1) % 5,
            wheel_shift(final(self)@) == shift,
    {
        if self.shift() < shift {
            let pos = self.pos();
            self.set(pos, shift);
        } else {
            let pos = if self.pos() == 4 {
                0
            } else {
                self.pos() + 1
            };
            self.set(pos, shift)
        }
    }
}

} // verus!
