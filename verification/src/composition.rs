//! The transition catalogue used where clips meet.

use vstd::prelude::*;

use crate::edit::EditSpecError;
use crate::text::str_equal;

verus! {

/// The transition catalogue. Every entry maps one to one onto an FFmpeg
/// `xfade` transition name, so the emitted filter never holds a client string.
#[derive(Debug, Clone, Copy, PartialEq, Eq, Structural)]
pub enum TransitionKind {
    Fade,
    WipeLeft,
    WipeRight,
    WipeUp,
    WipeDown,
    SlideLeft,
    SlideRight,
    SlideUp,
    SlideDown,
    CircleOpen,
    CircleClose,
    Dissolve,
    Pixelize,
    Radial,
    SmoothLeft,
    SmoothRight,
    ZoomIn,
}

impl TransitionKind {
    pub const ALL: [TransitionKind; 17] = [
        TransitionKind::Fade,
        TransitionKind::WipeLeft,
        TransitionKind::WipeRight,
        TransitionKind::WipeUp,
        TransitionKind::WipeDown,
        TransitionKind::SlideLeft,
        TransitionKind::SlideRight,
        TransitionKind::SlideUp,
        TransitionKind::SlideDown,
        TransitionKind::CircleOpen,
        TransitionKind::CircleClose,
        TransitionKind::Dissolve,
        TransitionKind::Pixelize,
        TransitionKind::Radial,
        TransitionKind::SmoothLeft,
        TransitionKind::SmoothRight,
        TransitionKind::ZoomIn,
    ];

    /// The token that names this kind on the wire.
    pub open spec fn wire(self) -> Seq<char> {
        match self {
            TransitionKind::Fade => "fade"@,
            TransitionKind::WipeLeft => "wipeleft"@,
            TransitionKind::WipeRight => "wiperight"@,
            TransitionKind::WipeUp => "wipeup"@,
            TransitionKind::WipeDown => "wipedown"@,
            TransitionKind::SlideLeft => "slideleft"@,
            TransitionKind::SlideRight => "slideright"@,
            TransitionKind::SlideUp => "slideup"@,
            TransitionKind::SlideDown => "slidedown"@,
            TransitionKind::CircleOpen => "circleopen"@,
            TransitionKind::CircleClose => "circleclose"@,
            TransitionKind::Dissolve => "dissolve"@,
            TransitionKind::Pixelize => "pixelize"@,
            TransitionKind::Radial => "radial"@,
            TransitionKind::SmoothLeft => "smoothleft"@,
            TransitionKind::SmoothRight => "smoothright"@,
            TransitionKind::ZoomIn => "zoomin"@,
        }
    }

    /// The kind a wire token names, if any.
    pub open spec fn from_wire(value: Seq<char>) -> Option<TransitionKind> {
        if value == "fade"@ {
            Some(TransitionKind::Fade)
        } else if value == "wipeleft"@ {
            Some(TransitionKind::WipeLeft)
        } else if value == "wiperight"@ {
            Some(TransitionKind::WipeRight)
        } else if value == "wipeup"@ {
            Some(TransitionKind::WipeUp)
        } else if value == "wipedown"@ {
            Some(TransitionKind::WipeDown)
        } else if value == "slideleft"@ {
            Some(TransitionKind::SlideLeft)
        } else if value == "slideright"@ {
            Some(TransitionKind::SlideRight)
        } else if value == "slideup"@ {
            Some(TransitionKind::SlideUp)
        } else if value == "slidedown"@ {
            Some(TransitionKind::SlideDown)
        } else if value == "circleopen"@ {
            Some(TransitionKind::CircleOpen)
        } else if value == "circleclose"@ {
            Some(TransitionKind::CircleClose)
        } else if value == "dissolve"@ {
            Some(TransitionKind::Dissolve)
        } else if value == "pixelize"@ {
            Some(TransitionKind::Pixelize)
        } else if value == "radial"@ {
            Some(TransitionKind::Radial)
        } else if value == "smoothleft"@ {
            Some(TransitionKind::SmoothLeft)
        } else if value == "smoothright"@ {
            Some(TransitionKind::SmoothRight)
        } else if value == "zoomin"@ {
            Some(TransitionKind::ZoomIn)
        } else {
            None
        }
    }

    pub fn wire_id(self) -> (token: &'static str)
        ensures
            token@ == self.wire(),
    {
        match self {
            TransitionKind::Fade => "fade",
            TransitionKind::WipeLeft => "wipeleft",
            TransitionKind::WipeRight => "wiperight",
            TransitionKind::WipeUp => "wipeup",
            TransitionKind::WipeDown => "wipedown",
            TransitionKind::SlideLeft => "slideleft",
            TransitionKind::SlideRight => "slideright",
            TransitionKind::SlideUp => "slideup",
            TransitionKind::SlideDown => "slidedown",
            TransitionKind::CircleOpen => "circleopen",
            TransitionKind::CircleClose => "circleclose",
            TransitionKind::Dissolve => "dissolve",
            TransitionKind::Pixelize => "pixelize",
            TransitionKind::Radial => "radial",
            TransitionKind::SmoothLeft => "smoothleft",
            TransitionKind::SmoothRight => "smoothright",
            TransitionKind::ZoomIn => "zoomin",
        }
    }

    pub open spec fn ffmpeg(self) -> Seq<char> {
        match self {
            TransitionKind::Fade => "fade"@,
            TransitionKind::WipeLeft => "wipeleft"@,
            TransitionKind::WipeRight => "wiperight"@,
            TransitionKind::WipeUp => "wipeup"@,
            TransitionKind::WipeDown => "wipedown"@,
            TransitionKind::SlideLeft => "slideleft"@,
            TransitionKind::SlideRight => "slideright"@,
            TransitionKind::SlideUp => "slideup"@,
            TransitionKind::SlideDown => "slidedown"@,
            TransitionKind::CircleOpen => "circleopen"@,
            TransitionKind::CircleClose => "circleclose"@,
            TransitionKind::Dissolve => "dissolve"@,
            TransitionKind::Pixelize => "pixelize"@,
            TransitionKind::Radial => "radial"@,
            TransitionKind::SmoothLeft => "smoothleft"@,
            TransitionKind::SmoothRight => "smoothright"@,
            TransitionKind::ZoomIn => "zoomin"@,
        }
    }

    /// The `xfade=transition=` value, which is the wire id itself.
    pub fn ffmpeg_name(self) -> (token: &'static str)
        ensures
            token@ == self.ffmpeg(),
    {
        match self {
            TransitionKind::Fade => "fade",
            TransitionKind::WipeLeft => "wipeleft",
            TransitionKind::WipeRight => "wiperight",
            TransitionKind::WipeUp => "wipeup",
            TransitionKind::WipeDown => "wipedown",
            TransitionKind::SlideLeft => "slideleft",
            TransitionKind::SlideRight => "slideright",
            TransitionKind::SlideUp => "slideup",
            TransitionKind::SlideDown => "slidedown",
            TransitionKind::CircleOpen => "circleopen",
            TransitionKind::CircleClose => "circleclose",
            TransitionKind::Dissolve => "dissolve",
            TransitionKind::Pixelize => "pixelize",
            TransitionKind::Radial => "radial",
            TransitionKind::SmoothLeft => "smoothleft",
            TransitionKind::SmoothRight => "smoothright",
            TransitionKind::ZoomIn => "zoomin",
        }
    }

    /// Accept exactly the wire tokens, and nothing else.
    pub fn parse(value: &str) -> (result: Result<TransitionKind, EditSpecError>)
        ensures
            result == (match TransitionKind::from_wire(value@) {
                Some(kind) => Ok::<TransitionKind, EditSpecError>(kind),
                None => Err(EditSpecError::InvalidTransition),
            }),
    {
        if str_equal(value, "fade") {
            return Ok(TransitionKind::Fade);
        }
        if str_equal(value, "wipeleft") {
            return Ok(TransitionKind::WipeLeft);
        }
        if str_equal(value, "wiperight") {
            return Ok(TransitionKind::WipeRight);
        }
        if str_equal(value, "wipeup") {
            return Ok(TransitionKind::WipeUp);
        }
        if str_equal(value, "wipedown") {
            return Ok(TransitionKind::WipeDown);
        }
        if str_equal(value, "slideleft") {
            return Ok(TransitionKind::SlideLeft);
        }
        if str_equal(value, "slideright") {
            return Ok(TransitionKind::SlideRight);
        }
        if str_equal(value, "slideup") {
            return Ok(TransitionKind::SlideUp);
        }
        if str_equal(value, "slidedown") {
            return Ok(TransitionKind::SlideDown);
        }
        if str_equal(value, "circleopen") {
            return Ok(TransitionKind::CircleOpen);
        }
        if str_equal(value, "circleclose") {
            return Ok(TransitionKind::CircleClose);
        }
        if str_equal(value, "dissolve") {
            return Ok(TransitionKind::Dissolve);
        }
        if str_equal(value, "pixelize") {
            return Ok(TransitionKind::Pixelize);
        }
        if str_equal(value, "radial") {
            return Ok(TransitionKind::Radial);
        }
        if str_equal(value, "smoothleft") {
            return Ok(TransitionKind::SmoothLeft);
        }
        if str_equal(value, "smoothright") {
            return Ok(TransitionKind::SmoothRight);
        }
        if str_equal(value, "zoomin") {
            return Ok(TransitionKind::ZoomIn);
        }
        Err(EditSpecError::InvalidTransition)
    }
}

/// Each transition's id parses back to that transition: ids never collide.
pub proof fn law_transition_tokens_round_trip(kind: TransitionKind)
    ensures
        TransitionKind::from_wire(kind.wire()) == Some(kind),
{
    reveal_strlit("fade");
    reveal_strlit("wipeleft");
    reveal_strlit("wiperight");
    reveal_strlit("wipeup");
    reveal_strlit("wipedown");
    reveal_strlit("slideleft");
    reveal_strlit("slideright");
    reveal_strlit("slideup");
    reveal_strlit("slidedown");
    reveal_strlit("circleopen");
    reveal_strlit("circleclose");
    reveal_strlit("dissolve");
    reveal_strlit("pixelize");
    reveal_strlit("radial");
    reveal_strlit("smoothleft");
    reveal_strlit("smoothright");
    reveal_strlit("zoomin");
    match kind {
        TransitionKind::Fade => {
        },
        TransitionKind::WipeLeft => {
            assert("wipeleft"@.len() != "fade"@.len());
        },
        TransitionKind::WipeRight => {
            assert("wiperight"@.len() != "fade"@.len());
            assert("wiperight"@.len() != "wipeleft"@.len());
        },
        TransitionKind::WipeUp => {
            assert("wipeup"@.len() != "fade"@.len());
            assert("wipeup"@.len() != "wipeleft"@.len());
            assert("wipeup"@.len() != "wiperight"@.len());
        },
        TransitionKind::WipeDown => {
            assert("wipedown"@.len() != "fade"@.len());
            assert("wipedown"@[4] != "wipeleft"@[4]);
            assert("wipedown"@.len() != "wiperight"@.len());
            assert("wipedown"@.len() != "wipeup"@.len());
        },
        TransitionKind::SlideLeft => {
            assert("slideleft"@.len() != "fade"@.len());
            assert("slideleft"@.len() != "wipeleft"@.len());
            assert("slideleft"@[0] != "wiperight"@[0]);
            assert("slideleft"@.len() != "wipeup"@.len());
            assert("slideleft"@.len() != "wipedown"@.len());
        },
        TransitionKind::SlideRight => {
            assert("slideright"@.len() != "fade"@.len());
            assert("slideright"@.len() != "wipeleft"@.len());
            assert("slideright"@.len() != "wiperight"@.len());
            assert("slideright"@.len() != "wipeup"@.len());
            assert("slideright"@.len() != "wipedown"@.len());
            assert("slideright"@.len() != "slideleft"@.len());
        },
        TransitionKind::SlideUp => {
            assert("slideup"@.len() != "fade"@.len());
            assert("slideup"@.len() != "wipeleft"@.len());
            assert("slideup"@.len() != "wiperight"@.len());
            assert("slideup"@.len() != "wipeup"@.len());
            assert("slideup"@.len() != "wipedown"@.len());
            assert("slideup"@.len() != "slideleft"@.len());
            assert("slideup"@.len() != "slideright"@.len());
        },
        TransitionKind::SlideDown => {
            assert("slidedown"@.len() != "fade"@.len());
            assert("slidedown"@.len() != "wipeleft"@.len());
            assert("slidedown"@[0] != "wiperight"@[0]);
            assert("slidedown"@.len() != "wipeup"@.len());
            assert("slidedown"@.len() != "wipedown"@.len());
            assert("slidedown"@[5] != "slideleft"@[5]);
            assert("slidedown"@.len() != "slideright"@.len());
            assert("slidedown"@.len() != "slideup"@.len());
        },
        TransitionKind::CircleOpen => {
            assert("circleopen"@.len() != "fade"@.len());
            assert("circleopen"@.len() != "wipeleft"@.len());
            assert("circleopen"@.len() != "wiperight"@.len());
            assert("circleopen"@.len() != "wipeup"@.len());
            assert("circleopen"@.len() != "wipedown"@.len());
            assert("circleopen"@.len() != "slideleft"@.len());
            assert("circleopen"@[0] != "slideright"@[0]);
            assert("circleopen"@.len() != "slideup"@.len());
            assert("circleopen"@.len() != "slidedown"@.len());
        },
        TransitionKind::CircleClose => {
            assert("circleclose"@.len() != "fade"@.len());
            assert("circleclose"@.len() != "wipeleft"@.len());
            assert("circleclose"@.len() != "wiperight"@.len());
            assert("circleclose"@.len() != "wipeup"@.len());
            assert("circleclose"@.len() != "wipedown"@.len());
            assert("circleclose"@.len() != "slideleft"@.len());
            assert("circleclose"@.len() != "slideright"@.len());
            assert("circleclose"@.len() != "slideup"@.len());
            assert("circleclose"@.len() != "slidedown"@.len());
            assert("circleclose"@.len() != "circleopen"@.len());
        },
        TransitionKind::Dissolve => {
            assert("dissolve"@.len() != "fade"@.len());
            assert("dissolve"@[0] != "wipeleft"@[0]);
            assert("dissolve"@.len() != "wiperight"@.len());
            assert("dissolve"@.len() != "wipeup"@.len());
            assert("dissolve"@[0] != "wipedown"@[0]);
            assert("dissolve"@.len() != "slideleft"@.len());
            assert("dissolve"@.len() != "slideright"@.len());
            assert("dissolve"@.len() != "slideup"@.len());
            assert("dissolve"@.len() != "slidedown"@.len());
            assert("dissolve"@.len() != "circleopen"@.len());
            assert("dissolve"@.len() != "circleclose"@.len());
        },
        TransitionKind::Pixelize => {
            assert("pixelize"@.len() != "fade"@.len());
            assert("pixelize"@[0] != "wipeleft"@[0]);
            assert("pixelize"@.len() != "wiperight"@.len());
            assert("pixelize"@.len() != "wipeup"@.len());
            assert("pixelize"@[0] != "wipedown"@[0]);
            assert("pixelize"@.len() != "slideleft"@.len());
            assert("pixelize"@.len() != "slideright"@.len());
            assert("pixelize"@.len() != "slideup"@.len());
            assert("pixelize"@.len() != "slidedown"@.len());
            assert("pixelize"@.len() != "circleopen"@.len());
            assert("pixelize"@.len() != "circleclose"@.len());
            assert("pixelize"@[0] != "dissolve"@[0]);
        },
        TransitionKind::Radial => {
            assert("radial"@.len() != "fade"@.len());
            assert("radial"@.len() != "wipeleft"@.len());
            assert("radial"@.len() != "wiperight"@.len());
            assert("radial"@[0] != "wipeup"@[0]);
            assert("radial"@.len() != "wipedown"@.len());
            assert("radial"@.len() != "slideleft"@.len());
            assert("radial"@.len() != "slideright"@.len());
            assert("radial"@.len() != "slideup"@.len());
            assert("radial"@.len() != "slidedown"@.len());
            assert("radial"@.len() != "circleopen"@.len());
            assert("radial"@.len() != "circleclose"@.len());
            assert("radial"@.len() != "dissolve"@.len());
            assert("radial"@.len() != "pixelize"@.len());
        },
        TransitionKind::SmoothLeft => {
            assert("smoothleft"@.len() != "fade"@.len());
            assert("smoothleft"@.len() != "wipeleft"@.len());
            assert("smoothleft"@.len() != "wiperight"@.len());
            assert("smoothleft"@.len() != "wipeup"@.len());
            assert("smoothleft"@.len() != "wipedown"@.len());
            assert("smoothleft"@.len() != "slideleft"@.len());
            assert("smoothleft"@[1] != "slideright"@[1]);
            assert("smoothleft"@.len() != "slideup"@.len());
            assert("smoothleft"@.len() != "slidedown"@.len());
            assert("smoothleft"@[0] != "circleopen"@[0]);
            assert("smoothleft"@.len() != "circleclose"@.len());
            assert("smoothleft"@.len() != "dissolve"@.len());
            assert("smoothleft"@.len() != "pixelize"@.len());
            assert("smoothleft"@.len() != "radial"@.len());
        },
        TransitionKind::SmoothRight => {
            assert("smoothright"@.len() != "fade"@.len());
            assert("smoothright"@.len() != "wipeleft"@.len());
            assert("smoothright"@.len() != "wiperight"@.len());
            assert("smoothright"@.len() != "wipeup"@.len());
            assert("smoothright"@.len() != "wipedown"@.len());
            assert("smoothright"@.len() != "slideleft"@.len());
            assert("smoothright"@.len() != "slideright"@.len());
            assert("smoothright"@.len() != "slideup"@.len());
            assert("smoothright"@.len() != "slidedown"@.len());
            assert("smoothright"@.len() != "circleopen"@.len());
            assert("smoothright"@[0] != "circleclose"@[0]);
            assert("smoothright"@.len() != "dissolve"@.len());
            assert("smoothright"@.len() != "pixelize"@.len());
            assert("smoothright"@.len() != "radial"@.len());
            assert("smoothright"@.len() != "smoothleft"@.len());
        },
        TransitionKind::ZoomIn => {
            assert("zoomin"@.len() != "fade"@.len());
            assert("zoomin"@.len() != "wipeleft"@.len());
            assert("zoomin"@.len() != "wiperight"@.len());
            assert("zoomin"@[0] != "wipeup"@[0]);
            assert("zoomin"@.len() != "wipedown"@.len());
            assert("zoomin"@.len() != "slideleft"@.len());
            assert("zoomin"@.len() != "slideright"@.len());
            assert("zoomin"@.len() != "slideup"@.len());
            assert("zoomin"@.len() != "slidedown"@.len());
            assert("zoomin"@.len() != "circleopen"@.len());
            assert("zoomin"@.len() != "circleclose"@.len());
            assert("zoomin"@.len() != "dissolve"@.len());
            assert("zoomin"@.len() != "pixelize"@.len());
            assert("zoomin"@[0] != "radial"@[0]);
            assert("zoomin"@.len() != "smoothleft"@.len());
            assert("zoomin"@.len() != "smoothright"@.len());
        },
    }
}

/// The FFmpeg name of every transition is its wire id.
pub proof fn law_transition_ffmpeg_name_is_wire_id(kind: TransitionKind)
    ensures
        kind.ffmpeg() == kind.wire(),
{
}

} // verus!
