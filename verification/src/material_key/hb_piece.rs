//! Piece roles with the two bishop colors told apart, and colored pieces.

use vstd::prelude::*;

verus! {

/// The two sides.
#[derive(Debug, Clone, Copy, PartialEq, Eq, Hash, Structural)]
pub enum Color {
    White,
    Black,
}

/// The side that is not `color`.
pub open spec fn opponent(color: Color) -> Color {
    match color {
        Color::White => Color::Black,
        Color::Black => Color::White,
    }
}

impl Color {
    /// The opposing side.
    pub fn other(self) -> (r: Color)
        ensures
            r == opponent(self),
    {
        match self {
            Color::White => Color::Black,
            Color::Black => Color::White,
        }
    }
}

/// The role of a piece that is no pawn. A bishop never leaves the squares
/// of one color, so light and dark bishops are roles of their own.
#[derive(Debug, Clone, Copy, PartialEq, Eq, Hash, Structural)]
pub enum HbPieceRole {
    King,
    Queen,
    Rook,
    LightBishop,
    DarkBishop,
    Knight,
}

/// The roles in the order in which pieces are enumerated.
pub open spec fn all_roles() -> Seq<HbPieceRole> {
    seq![
        HbPieceRole::King,
        HbPieceRole::Queen,
        HbPieceRole::Rook,
        HbPieceRole::DarkBishop,
        HbPieceRole::LightBishop,
        HbPieceRole::Knight,
    ]
}

/// The roles that can be captured, and to which a pawn promotes.
pub open spec fn capturable_roles() -> Seq<HbPieceRole> {
    seq![
        HbPieceRole::Queen,
        HbPieceRole::Rook,
        HbPieceRole::DarkBishop,
        HbPieceRole::LightBishop,
        HbPieceRole::Knight,
    ]
}

/// The text of a role: `K`, `Q`, `R`, `Bd`, `Bl` or `N`.
pub open spec fn role_token(role: HbPieceRole) -> Seq<char> {
    match role {
        HbPieceRole::King => seq!['K'],
        HbPieceRole::Queen => seq!['Q'],
        HbPieceRole::Rook => seq!['R'],
        HbPieceRole::DarkBishop => seq!['B', 'd'],
        HbPieceRole::LightBishop => seq!['B', 'l'],
        HbPieceRole::Knight => seq!['N'],
    }
}

/// The role that a text names, if it names one.
pub open spec fn role_of_token(tok: Seq<char>) -> Option<HbPieceRole> {
    if tok == seq!['K'] {
        Some(HbPieceRole::King)
    } else if tok == seq!['Q'] {
        Some(HbPieceRole::Queen)
    } else if tok == seq!['R'] {
        Some(HbPieceRole::Rook)
    } else if tok == seq!['B', 'd'] {
        Some(HbPieceRole::DarkBishop)
    } else if tok == seq!['B', 'l'] {
        Some(HbPieceRole::LightBishop)
    } else if tok == seq!['N'] {
        Some(HbPieceRole::Knight)
    } else {
        None
    }
}

impl HbPieceRole {
    /// The roles in the order in which pieces are enumerated.
    pub fn all() -> (r: [HbPieceRole; 6])
        ensures
            r@ == all_roles(),
    {
        let r = [
            HbPieceRole::King,
            HbPieceRole::Queen,
            HbPieceRole::Rook,
            HbPieceRole::DarkBishop,
            HbPieceRole::LightBishop,
            HbPieceRole::Knight,
        ];
        assert(r@ =~= all_roles());
        r
    }

    /// The roles that can be captured, and to which a pawn promotes.
    pub fn capturable() -> (r: [HbPieceRole; 5])
        ensures
            r@ == capturable_roles(),
    {
        let r = [
            HbPieceRole::Queen,
            HbPieceRole::Rook,
            HbPieceRole::DarkBishop,
            HbPieceRole::LightBishop,
            HbPieceRole::Knight,
        ];
        assert(r@ =~= capturable_roles());
        r
    }

    pub fn token(self) -> (r: &'static str)
        ensures
            r@ == role_token(self),
    {
        proof {
            reveal_strlit("K");
            reveal_strlit("Q");
            reveal_strlit("R");
            reveal_strlit("Bd");
            reveal_strlit("Bl");
            reveal_strlit("N");
        }
        let r = match self {
            HbPieceRole::King => "K",
            HbPieceRole::Queen => "Q",
            HbPieceRole::Rook => "R",
            HbPieceRole::DarkBishop => "Bd",
            HbPieceRole::LightBishop => "Bl",
            HbPieceRole::Knight => "N",
        };
        assert(r@ =~= role_token(self));
        r
    }

    pub fn from_token(tok: &str) -> (r: Option<Self>)
        ensures
            r == role_of_token(tok@),
    {
        if !tok.is_ascii() {
            return None;
        }
        let bytes = tok.as_bytes();
        proof {
            vstd::string::is_ascii_spec_bytes(tok);
            assert(bytes@.len() == tok@.len());
            assert(forall|i: int| 0 <= i < tok@.len() ==> bytes@[i] == tok@[i] as u8);
        }
        if bytes.len() == 1 {
            let b = bytes[0];
            proof {
                assert(tok@ =~= seq![tok@[0]]);
            }
            if b == 75 {
                assert(tok@[0] == 'K');
                Some(HbPieceRole::King)
            } else if b == 81 {
                assert(tok@[0] == 'Q');
                Some(HbPieceRole::Queen)
            } else if b == 82 {
                assert(tok@[0] == 'R');
                Some(HbPieceRole::Rook)
            } else if b == 78 {
                assert(tok@[0] == 'N');
                Some(HbPieceRole::Knight)
            } else {
                None
            }
        } else if bytes.len() == 2 {
            proof {
                assert(tok@ =~= seq![tok@[0], tok@[1]]);
            }
            if bytes[0] == 66 && bytes[1] == 100 {
                assert(tok@[0] == 'B' && tok@[1] == 'd');
                Some(HbPieceRole::DarkBishop)
            } else if bytes[0] == 66 && bytes[1] == 108 {
                assert(tok@[0] == 'B' && tok@[1] == 'l');
                Some(HbPieceRole::LightBishop)
            } else {
                None
            }
        } else {
            None
        }
    }

    pub fn is_bishop(self) -> (r: bool)
        ensures
            r == (self == HbPieceRole::DarkBishop || self == HbPieceRole::LightBishop),
    {
        match self {
            HbPieceRole::DarkBishop | HbPieceRole::LightBishop => true,
            _ => false,
        }
    }

}

/// A piece with a role and a color; light and dark bishops are told apart.
#[derive(Clone, Copy, Debug, PartialEq, Eq, Structural)]
pub struct HbPiece {
    pub role: HbPieceRole,
    pub color: Color,
}

} // verus!
