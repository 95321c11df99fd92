//! How many pieces of each role one side has.

use crate::material_key::hb_piece::HbPieceRole;
use vstd::prelude::*;

verus! {

/// Counts of the pieces of one side, one per role.
#[derive(Clone, Copy, Debug, PartialEq, Eq, Hash, Structural)]
pub struct PieceCounts {
    pub king: u8,
    pub queen: u8,
    pub rook: u8,
    pub light_bishop: u8,
    pub dark_bishop: u8,
    pub knight: u8,
}

impl PieceCounts {
    /// The count of one role.
    pub open spec fn of(self, role: HbPieceRole) -> int {
        match role {
            HbPieceRole::King => self.king as int,
            HbPieceRole::Queen => self.queen as int,
            HbPieceRole::Rook => self.rook as int,
            HbPieceRole::LightBishop => self.light_bishop as int,
            HbPieceRole::DarkBishop => self.dark_bishop as int,
            HbPieceRole::Knight => self.knight as int,
        }
    }

    /// The counts with that of one role replaced.
    pub open spec fn with_count(self, role: HbPieceRole, value: u8) -> PieceCounts {
        match role {
            HbPieceRole::King => PieceCounts { king: value, ..self },
            HbPieceRole::Queen => PieceCounts { queen: value, ..self },
            HbPieceRole::Rook => PieceCounts { rook: value, ..self },
            HbPieceRole::LightBishop => PieceCounts { light_bishop: value, ..self },
            HbPieceRole::DarkBishop => PieceCounts { dark_bishop: value, ..self },
            HbPieceRole::Knight => PieceCounts { knight: value, ..self },
        }
    }

    /// The counts in the order of the roles' places in a table: king, queen,
    /// rook, light bishop, dark bishop, knight.
    pub open spec fn as_seq(self) -> Seq<u8> {
        seq![self.king, self.queen, self.rook, self.light_bishop, self.dark_bishop, self.knight]
    }

    /// The number of pieces in all.
    pub open spec fn spec_total(self) -> nat {
        (self.king + self.queen + self.rook + self.light_bishop + self.dark_bishop
            + self.knight) as nat
    }

    /// The counts with those of the two bishop roles exchanged.
    pub open spec fn bishops_swapped(self) -> PieceCounts {
        PieceCounts { light_bishop: self.dark_bishop, dark_bishop: self.light_bishop, ..self }
    }

    pub fn empty() -> (r: Self)
        ensures
            forall|role: HbPieceRole| r.of(role) == 0,
            r.spec_total() == 0,
    {
        Self { king: 0, queen: 0, rook: 0, light_bishop: 0, dark_bishop: 0, knight: 0 }
    }

    /// Counts from a table in the order king, queen, rook, light bishop,
    /// dark bishop, knight.
    pub fn from_array(counts: [u8; 6]) -> (r: Self)
        ensures
            r.as_seq() == counts@,
    {
        let r = Self {
            king: counts[0],
            queen: counts[1],
            rook: counts[2],
            light_bishop: counts[3],
            dark_bishop: counts[4],
            knight: counts[5],
        };
        assert(r.as_seq() =~= counts@);
        r
    }

    /// The number of pieces in all; it has to fit the result's type.
    pub fn total(&self) -> (r: u8)
        requires
            self.spec_total() <= 255,
        ensures
            r == self.spec_total(),
    {
        self.king + self.queen + self.rook + self.light_bishop + self.dark_bishop + self.knight
    }

    /// The number of pieces in all, in a type that always holds it.
    pub fn total_wide(&self) -> (r: u32)
        ensures
            r == self.spec_total(),
            r <= 6 * 255,
    {
        self.king as u32 + self.queen as u32 + self.rook as u32 + self.light_bishop as u32
            + self.dark_bishop as u32 + self.knight as u32
    }

    /// The counts in the order king, queen, rook, light bishop, dark bishop,
    /// knight.
    pub fn iter(&self) -> (r: Vec<u8>)
        ensures
            r@ == self.as_seq(),
    {
        let r = vec![
            self.king,
            self.queen,
            self.rook,
            self.light_bishop,
            self.dark_bishop,
            self.knight,
        ];
        assert(r@ =~= self.as_seq());
        r
    }

    pub fn swap_bishops(&mut self)
        ensures
            *final(self) == old(self).bishops_swapped(),
            final(self).spec_total() == old(self).spec_total(),
    {
        let light = self.light_bishop;
        self.light_bishop = self.dark_bishop;
        self.dark_bishop = light;
    }

    /// The count of one role.
    pub fn get(&self, role: HbPieceRole) -> (r: u8)
        ensures
            r == self.of(role),
    {
        match role {
            HbPieceRole::King => self.king,
            HbPieceRole::Queen => self.queen,
            HbPieceRole::Rook => self.rook,
            HbPieceRole::LightBishop => self.light_bishop,
            HbPieceRole::DarkBishop => self.dark_bishop,
            HbPieceRole::Knight => self.knight,
        }
    }

    /// Sets the count of one role.
    pub fn set(&mut self, role: HbPieceRole, value: u8)
        ensures
            *final(self) == old(self).with_count(role, value),
    {
        match role {
            HbPieceRole::King => {
                self.king = value;
            },
            HbPieceRole::Queen => {
                self.queen = value;
            },
            HbPieceRole::Rook => {
                self.rook = value;
            },
            HbPieceRole::LightBishop => {
                self.light_bishop = value;
            },
            HbPieceRole::DarkBishop => {
                self.dark_bishop = value;
            },
            HbPieceRole::Knight => {
                self.knight = value;
            },
        }
    }
}

} // verus!
