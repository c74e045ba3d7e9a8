//! 360-degree reframing projections and stabilisation modes.

use vstd::prelude::*;

use crate::edit::EditSpecError;
use crate::text::str_equal;

verus! {

#[derive(Debug, Clone, Copy, PartialEq, Eq, Structural)]
pub enum InputProjection {
    Equirect,
    Fisheye,
    DualFisheye,
}

impl InputProjection {
    /// The token that names this kind on the wire.
    pub open spec fn wire(self) -> Seq<char> {
        match self {
            InputProjection::Equirect => "equirect"@,
            InputProjection::Fisheye => "fisheye"@,
            InputProjection::DualFisheye => "dfisheye"@,
        }
    }

    /// The kind a wire token names, if any.
    pub open spec fn from_wire(value: Seq<char>) -> Option<InputProjection> {
        if value == "equirect"@ {
            Some(InputProjection::Equirect)
        } else if value == "fisheye"@ {
            Some(InputProjection::Fisheye)
        } else if value == "dfisheye"@ {
            Some(InputProjection::DualFisheye)
        } else {
            None
        }
    }

    pub open spec fn ffmpeg(self) -> Seq<char> {
        match self {
            InputProjection::Equirect => "e"@,
            InputProjection::Fisheye => "fisheye"@,
            InputProjection::DualFisheye => "dfisheye"@,
        }
    }

    /// The `v360=input=` token. Fixed strings only, never client text.
    pub fn ffmpeg_name(self) -> (token: &'static str)
        ensures
            token@ == self.ffmpeg(),
    {
        match self {
            InputProjection::Equirect => "e",
            InputProjection::Fisheye => "fisheye",
            InputProjection::DualFisheye => "dfisheye",
        }
    }

    /// Accept exactly the wire tokens, and nothing else.
    pub fn parse(value: &str) -> (result: Result<InputProjection, EditSpecError>)
        ensures
            result == (match InputProjection::from_wire(value@) {
                Some(kind) => Ok::<InputProjection, EditSpecError>(kind),
                None => Err(EditSpecError::InvalidSpatial),
            }),
    {
        if str_equal(value, "equirect") {
            return Ok(InputProjection::Equirect);
        }
        if str_equal(value, "fisheye") {
            return Ok(InputProjection::Fisheye);
        }
        if str_equal(value, "dfisheye") {
            return Ok(InputProjection::DualFisheye);
        }
        Err(EditSpecError::InvalidSpatial)
    }
}

/// Each input projection's token parses back to it.
pub proof fn law_input_projection_tokens_round_trip(kind: InputProjection)
    ensures
        InputProjection::from_wire(kind.wire()) == Some(kind),
{
    reveal_strlit("equirect");
    reveal_strlit("fisheye");
    reveal_strlit("dfisheye");
    match kind {
        InputProjection::Equirect => {
        },
        InputProjection::Fisheye => {
            assert("fisheye"@.len() != "equirect"@.len());
        },
        InputProjection::DualFisheye => {
            assert("dfisheye"@[0] != "equirect"@[0]);
            assert("dfisheye"@.len() != "fisheye"@.len());
        },
    }
}

#[derive(Debug, Clone, Copy, PartialEq, Eq, Structural)]
pub enum OutputProjection {
    Flat,
    Equirect,
    Fisheye,
    Stereographic,
    Pannini,
}

impl OutputProjection {
    /// The token that names this kind on the wire.
    pub open spec fn wire(self) -> Seq<char> {
        match self {
            OutputProjection::Flat => "flat"@,
            OutputProjection::Equirect => "equirect"@,
            OutputProjection::Fisheye => "fisheye"@,
            OutputProjection::Stereographic => "stereographic"@,
            OutputProjection::Pannini => "pannini"@,
        }
    }

    /// The kind a wire token names, if any.
    pub open spec fn from_wire(value: Seq<char>) -> Option<OutputProjection> {
        if value == "flat"@ {
            Some(OutputProjection::Flat)
        } else if value == "equirect"@ {
            Some(OutputProjection::Equirect)
        } else if value == "fisheye"@ {
            Some(OutputProjection::Fisheye)
        } else if value == "stereographic"@ {
            Some(OutputProjection::Stereographic)
        } else if value == "pannini"@ {
            Some(OutputProjection::Pannini)
        } else {
            None
        }
    }

    pub open spec fn ffmpeg(self) -> Seq<char> {
        match self {
            OutputProjection::Flat => "flat"@,
            OutputProjection::Equirect => "e"@,
            OutputProjection::Fisheye => "fisheye"@,
            OutputProjection::Stereographic => "sg"@,
            OutputProjection::Pannini => "pannini"@,
        }
    }

    /// The `v360=output=` token.
    pub fn ffmpeg_name(self) -> (token: &'static str)
        ensures
            token@ == self.ffmpeg(),
    {
        match self {
            OutputProjection::Flat => "flat",
            OutputProjection::Equirect => "e",
            OutputProjection::Fisheye => "fisheye",
            OutputProjection::Stereographic => "sg",
            OutputProjection::Pannini => "pannini",
        }
    }

    /// Accept exactly the wire tokens, and nothing else.
    pub fn parse(value: &str) -> (result: Result<OutputProjection, EditSpecError>)
        ensures
            result == (match OutputProjection::from_wire(value@) {
                Some(kind) => Ok::<OutputProjection, EditSpecError>(kind),
                None => Err(EditSpecError::InvalidSpatial),
            }),
    {
        if str_equal(value, "flat") {
            return Ok(OutputProjection::Flat);
        }
        if str_equal(value, "equirect") {
            return Ok(OutputProjection::Equirect);
        }
        if str_equal(value, "fisheye") {
            return Ok(OutputProjection::Fisheye);
        }
        if str_equal(value, "stereographic") {
            return Ok(OutputProjection::Stereographic);
        }
        if str_equal(value, "pannini") {
            return Ok(OutputProjection::Pannini);
        }
        Err(EditSpecError::InvalidSpatial)
    }
}

/// Each output projection's token parses back to it.
pub proof fn law_output_projection_tokens_round_trip(kind: OutputProjection)
    ensures
        OutputProjection::from_wire(kind.wire()) == Some(kind),
{
    reveal_strlit("flat");
    reveal_strlit("equirect");
    reveal_strlit("fisheye");
    reveal_strlit("stereographic");
    reveal_strlit("pannini");
    match kind {
        OutputProjection::Flat => {
        },
        OutputProjection::Equirect => {
            assert("equirect"@.len() != "flat"@.len());
        },
        OutputProjection::Fisheye => {
            assert("fisheye"@.len() != "flat"@.len());
            assert("fisheye"@.len() != "equirect"@.len());
        },
        OutputProjection::Stereographic => {
            assert("stereographic"@.len() != "flat"@.len());
            assert("stereographic"@.len() != "equirect"@.len());
            assert("stereographic"@.len() != "fisheye"@.len());
        },
        OutputProjection::Pannini => {
            assert("pannini"@.len() != "flat"@.len());
            assert("pannini"@.len() != "equirect"@.len());
            assert("pannini"@[0] != "fisheye"@[0]);
            assert("pannini"@.len() != "stereographic"@.len());
        },
    }
}

#[derive(Debug, Clone, Copy, PartialEq, Eq, Structural)]
pub enum StabilizeMode {
    Fast,
    Precise,
}

impl StabilizeMode {
    /// What a wire token asks for: no stabilisation, or one of the modes.
    pub open spec fn from_wire(value: Seq<char>) -> Option<Option<StabilizeMode>> {
        if value == "off"@ {
            Some(None)
        } else if value == "fast"@ {
            Some(Some(StabilizeMode::Fast))
        } else if value == "precise"@ {
            Some(Some(StabilizeMode::Precise))
        } else {
            None
        }
    }

    /// `off` turns stabilisation off; `fast` and `precise` pick a mode.
    pub fn parse(value: &str) -> (result: Result<Option<Self>, EditSpecError>)
        ensures
            result == (match StabilizeMode::from_wire(value@) {
                Some(mode) => Ok::<Option<StabilizeMode>, EditSpecError>(mode),
                None => Err(EditSpecError::InvalidSpatial),
            }),
    {
        if str_equal(value, "off") {
            return Ok(None);
        }
        if str_equal(value, "fast") {
            return Ok(Some(StabilizeMode::Fast));
        }
        if str_equal(value, "precise") {
            return Ok(Some(StabilizeMode::Precise));
        }
        Err(EditSpecError::InvalidSpatial)
    }
}

} // verus!
