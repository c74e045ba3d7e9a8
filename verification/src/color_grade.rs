//! The hue bands of the manual colour grade.

use vstd::prelude::*;

use crate::edit::EditSpecError;
use crate::text::str_equal;

verus! {

#[derive(Debug, Clone, Copy, PartialEq, Eq, Structural)]
pub enum HslBand {
    Red,
    Orange,
    Yellow,
    Green,
    Cyan,
    Blue,
    Magenta,
}

impl HslBand {
    pub const ALL: [HslBand; 7] = [
        HslBand::Red,
        HslBand::Orange,
        HslBand::Yellow,
        HslBand::Green,
        HslBand::Cyan,
        HslBand::Blue,
        HslBand::Magenta,
    ];

    /// The token that names this kind on the wire.
    pub open spec fn wire(self) -> Seq<char> {
        match self {
            HslBand::Red => "red"@,
            HslBand::Orange => "orange"@,
            HslBand::Yellow => "yellow"@,
            HslBand::Green => "green"@,
            HslBand::Cyan => "cyan"@,
            HslBand::Blue => "blue"@,
            HslBand::Magenta => "magenta"@,
        }
    }

    /// The kind a wire token names, if any.
    pub open spec fn from_wire(value: Seq<char>) -> Option<HslBand> {
        if value == "red"@ {
            Some(HslBand::Red)
        } else if value == "orange"@ {
            Some(HslBand::Orange)
        } else if value == "yellow"@ {
            Some(HslBand::Yellow)
        } else if value == "green"@ {
            Some(HslBand::Green)
        } else if value == "cyan"@ {
            Some(HslBand::Cyan)
        } else if value == "blue"@ {
            Some(HslBand::Blue)
        } else if value == "magenta"@ {
            Some(HslBand::Magenta)
        } else {
            None
        }
    }

    pub fn wire_id(self) -> (token: &'static str)
        ensures
            token@ == self.wire(),
    {
        match self {
            HslBand::Red => "red",
            HslBand::Orange => "orange",
            HslBand::Yellow => "yellow",
            HslBand::Green => "green",
            HslBand::Cyan => "cyan",
            HslBand::Blue => "blue",
            HslBand::Magenta => "magenta",
        }
    }

    /// Accept exactly the wire tokens, and nothing else.
    pub fn parse(value: &str) -> (result: Result<HslBand, EditSpecError>)
        ensures
            result == (match HslBand::from_wire(value@) {
                Some(kind) => Ok::<HslBand, EditSpecError>(kind),
                None => Err(EditSpecError::InvalidColorGrade),
            }),
    {
        if str_equal(value, "red") {
            return Ok(HslBand::Red);
        }
        if str_equal(value, "orange") {
            return Ok(HslBand::Orange);
        }
        if str_equal(value, "yellow") {
            return Ok(HslBand::Yellow);
        }
        if str_equal(value, "green") {
            return Ok(HslBand::Green);
        }
        if str_equal(value, "cyan") {
            return Ok(HslBand::Cyan);
        }
        if str_equal(value, "blue") {
            return Ok(HslBand::Blue);
        }
        if str_equal(value, "magenta") {
            return Ok(HslBand::Magenta);
        }
        Err(EditSpecError::InvalidColorGrade)
    }
}

/// Each band's id parses back to that band, so bands are known and unique.
pub proof fn law_hsl_band_tokens_round_trip(kind: HslBand)
    ensures
        HslBand::from_wire(kind.wire()) == Some(kind),
{
    reveal_strlit("red");
    reveal_strlit("orange");
    reveal_strlit("yellow");
    reveal_strlit("green");
    reveal_strlit("cyan");
    reveal_strlit("blue");
    reveal_strlit("magenta");
    match kind {
        HslBand::Red => {
        },
        HslBand::Orange => {
            assert("orange"@.len() != "red"@.len());
        },
        HslBand::Yellow => {
            assert("yellow"@.len() != "red"@.len());
            assert("yellow"@[0] != "orange"@[0]);
        },
        HslBand::Green => {
            assert("green"@.len() != "red"@.len());
            assert("green"@.len() != "orange"@.len());
            assert("green"@.len() != "yellow"@.len());
        },
        HslBand::Cyan => {
            assert("cyan"@.len() != "red"@.len());
            assert("cyan"@.len() != "orange"@.len());
            assert("cyan"@.len() != "yellow"@.len());
            assert("cyan"@.len() != "green"@.len());
        },
        HslBand::Blue => {
            assert("blue"@.len() != "red"@.len());
            assert("blue"@.len() != "orange"@.len());
            assert("blue"@.len() != "yellow"@.len());
            assert("blue"@.len() != "green"@.len());
            assert("blue"@[0] != "cyan"@[0]);
        },
        HslBand::Magenta => {
            assert("magenta"@.len() != "red"@.len());
            assert("magenta"@.len() != "orange"@.len());
            assert("magenta"@.len() != "yellow"@.len());
            assert("magenta"@.len() != "green"@.len());
            assert("magenta"@.len() != "cyan"@.len());
            assert("magenta"@.len() != "blue"@.len());
        },
    }
}

} // verus!
