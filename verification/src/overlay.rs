//! Wire tokens of overlays, titles and subtitles.

use vstd::prelude::*;

use crate::edit::EditSpecError;
use crate::text::str_equal;

verus! {

#[derive(Debug, Clone, Copy, PartialEq, Eq, Structural)]
pub enum OverlayKind {
    Image,
    Video,
}

impl OverlayKind {
    /// The token that names this kind on the wire.
    pub open spec fn wire(self) -> Seq<char> {
        match self {
            OverlayKind::Image => "image"@,
            OverlayKind::Video => "video"@,
        }
    }

    /// The kind a wire token names, if any.
    pub open spec fn from_wire(value: Seq<char>) -> Option<OverlayKind> {
        if value == "image"@ {
            Some(OverlayKind::Image)
        } else if value == "video"@ {
            Some(OverlayKind::Video)
        } else {
            None
        }
    }

    /// Accept exactly the wire tokens, and nothing else.
    pub fn parse(value: &str) -> (result: Result<OverlayKind, EditSpecError>)
        ensures
            result == (match OverlayKind::from_wire(value@) {
                Some(kind) => Ok::<OverlayKind, EditSpecError>(kind),
                None => Err(EditSpecError::InvalidOverlay),
            }),
    {
        if str_equal(value, "image") {
            return Ok(OverlayKind::Image);
        }
        if str_equal(value, "video") {
            return Ok(OverlayKind::Video);
        }
        Err(EditSpecError::InvalidOverlay)
    }
}

/// Each overlay kind's token parses back to it.
pub proof fn law_overlay_kind_tokens_round_trip(kind: OverlayKind)
    ensures
        OverlayKind::from_wire(kind.wire()) == Some(kind),
{
    reveal_strlit("image");
    reveal_strlit("video");
    match kind {
        OverlayKind::Image => {
        },
        OverlayKind::Video => {
            assert("video"@[0] != "image"@[0]);
        },
    }
}

#[derive(Debug, Clone, Copy, PartialEq, Eq, Structural)]
pub enum TextAlign {
    Center,
    Left,
    Right,
}

impl TextAlign {
    /// The token that names this kind on the wire.
    pub open spec fn wire(self) -> Seq<char> {
        match self {
            TextAlign::Center => "center"@,
            TextAlign::Left => "left"@,
            TextAlign::Right => "right"@,
        }
    }

    /// The kind a wire token names, if any.
    pub open spec fn from_wire(value: Seq<char>) -> Option<TextAlign> {
        if value == "center"@ {
            Some(TextAlign::Center)
        } else if value == "left"@ {
            Some(TextAlign::Left)
        } else if value == "right"@ {
            Some(TextAlign::Right)
        } else {
            None
        }
    }

    /// Accept exactly the wire tokens, and nothing else.
    pub fn parse(value: &str) -> (result: Result<TextAlign, EditSpecError>)
        ensures
            result == (match TextAlign::from_wire(value@) {
                Some(kind) => Ok::<TextAlign, EditSpecError>(kind),
                None => Err(EditSpecError::InvalidTitle),
            }),
    {
        if str_equal(value, "center") {
            return Ok(TextAlign::Center);
        }
        if str_equal(value, "left") {
            return Ok(TextAlign::Left);
        }
        if str_equal(value, "right") {
            return Ok(TextAlign::Right);
        }
        Err(EditSpecError::InvalidTitle)
    }
}

/// Each alignment's token parses back to it.
pub proof fn law_text_align_tokens_round_trip(kind: TextAlign)
    ensures
        TextAlign::from_wire(kind.wire()) == Some(kind),
{
    reveal_strlit("center");
    reveal_strlit("left");
    reveal_strlit("right");
    match kind {
        TextAlign::Center => {
        },
        TextAlign::Left => {
            assert("left"@.len() != "center"@.len());
        },
        TextAlign::Right => {
            assert("right"@.len() != "center"@.len());
            assert("right"@.len() != "left"@.len());
        },
    }
}

#[derive(Debug, Clone, Copy, PartialEq, Eq, Structural)]
pub enum TitleAnimation {
    Still,
    Fade,
    SlideUp,
    Typewriter,
    Pop,
}

impl TitleAnimation {
    /// The token that names this kind on the wire.
    pub open spec fn wire(self) -> Seq<char> {
        match self {
            TitleAnimation::Still => "none"@,
            TitleAnimation::Fade => "fade"@,
            TitleAnimation::SlideUp => "slide-up"@,
            TitleAnimation::Typewriter => "typewriter"@,
            TitleAnimation::Pop => "pop"@,
        }
    }

    /// The kind a wire token names, if any.
    pub open spec fn from_wire(value: Seq<char>) -> Option<TitleAnimation> {
        if value == "none"@ {
            Some(TitleAnimation::Still)
        } else if value == "fade"@ {
            Some(TitleAnimation::Fade)
        } else if value == "slide-up"@ {
            Some(TitleAnimation::SlideUp)
        } else if value == "typewriter"@ {
            Some(TitleAnimation::Typewriter)
        } else if value == "pop"@ {
            Some(TitleAnimation::Pop)
        } else {
            None
        }
    }

    /// Accept exactly the wire tokens, and nothing else.
    pub fn parse(value: &str) -> (result: Result<TitleAnimation, EditSpecError>)
        ensures
            result == (match TitleAnimation::from_wire(value@) {
                Some(kind) => Ok::<TitleAnimation, EditSpecError>(kind),
                None => Err(EditSpecError::InvalidTitle),
            }),
    {
        if str_equal(value, "none") {
            return Ok(TitleAnimation::Still);
        }
        if str_equal(value, "fade") {
            return Ok(TitleAnimation::Fade);
        }
        if str_equal(value, "slide-up") {
            return Ok(TitleAnimation::SlideUp);
        }
        if str_equal(value, "typewriter") {
            return Ok(TitleAnimation::Typewriter);
        }
        if str_equal(value, "pop") {
            return Ok(TitleAnimation::Pop);
        }
        Err(EditSpecError::InvalidTitle)
    }
}

/// Each title animation's token parses back to it.
pub proof fn law_title_animation_tokens_round_trip(kind: TitleAnimation)
    ensures
        TitleAnimation::from_wire(kind.wire()) == Some(kind),
{
    reveal_strlit("none");
    reveal_strlit("fade");
    reveal_strlit("slide-up");
    reveal_strlit("typewriter");
    reveal_strlit("pop");
    match kind {
        TitleAnimation::Still => {
        },
        TitleAnimation::Fade => {
            assert("fade"@[0] != "none"@[0]);
        },
        TitleAnimation::SlideUp => {
            assert("slide-up"@.len() != "none"@.len());
            assert("slide-up"@.len() != "fade"@.len());
        },
        TitleAnimation::Typewriter => {
            assert("typewriter"@.len() != "none"@.len());
            assert("typewriter"@.len() != "fade"@.len());
            assert("typewriter"@.len() != "slide-up"@.len());
        },
        TitleAnimation::Pop => {
            assert("pop"@.len() != "none"@.len());
            assert("pop"@.len() != "fade"@.len());
            assert("pop"@.len() != "slide-up"@.len());
            assert("pop"@.len() != "typewriter"@.len());
        },
    }
}

#[derive(Debug, Clone, Copy, PartialEq, Eq, Structural)]
pub enum SubtitlePosition {
    Bottom,
    Top,
}

impl SubtitlePosition {
    /// The token that names this kind on the wire.
    pub open spec fn wire(self) -> Seq<char> {
        match self {
            SubtitlePosition::Bottom => "bottom"@,
            SubtitlePosition::Top => "top"@,
        }
    }

    /// The kind a wire token names, if any.
    pub open spec fn from_wire(value: Seq<char>) -> Option<SubtitlePosition> {
        if value == "bottom"@ {
            Some(SubtitlePosition::Bottom)
        } else if value == "top"@ {
            Some(SubtitlePosition::Top)
        } else {
            None
        }
    }

    /// Accept exactly the wire tokens, and nothing else.
    pub fn parse(value: &str) -> (result: Result<SubtitlePosition, EditSpecError>)
        ensures
            result == (match SubtitlePosition::from_wire(value@) {
                Some(kind) => Ok::<SubtitlePosition, EditSpecError>(kind),
                None => Err(EditSpecError::InvalidSubtitles),
            }),
    {
        if str_equal(value, "bottom") {
            return Ok(SubtitlePosition::Bottom);
        }
        if str_equal(value, "top") {
            return Ok(SubtitlePosition::Top);
        }
        Err(EditSpecError::InvalidSubtitles)
    }
}

/// Each subtitle position's token parses back to it.
pub proof fn law_subtitle_position_tokens_round_trip(kind: SubtitlePosition)
    ensures
        SubtitlePosition::from_wire(kind.wire()) == Some(kind),
{
    reveal_strlit("bottom");
    reveal_strlit("top");
    match kind {
        SubtitlePosition::Bottom => {
        },
        SubtitlePosition::Top => {
            assert("top"@.len() != "bottom"@.len());
        },
    }
}

} // verus!
