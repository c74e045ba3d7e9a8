//! Explicit colour and HDR contracts shared by probe, preview and export.

use vstd::prelude::*;

use vstd::utf8::encode_utf8;

use crate::fingerprint::{framed, hex_lower, sha256, Fingerprint};

verus! {

#[derive(Debug, Clone, Copy, PartialEq, Eq, Structural)]
pub enum ColorPrimaries {
    Unspecified,
    Bt709,
    Bt2020,
    P3D65,
    AcesAp0,
    AcesAp1,
}

#[derive(Debug, Clone, Copy, PartialEq, Eq, Structural)]
pub enum TransferFunction {
    Unspecified,
    Srgb,
    Bt1886,
    Pq,
    Hlg,
    Linear,
}

#[derive(Debug, Clone, Copy, PartialEq, Eq, Structural)]
pub enum MatrixCoefficients {
    Unspecified,
    Identity,
    Bt709,
    Bt2020Ncl,
    Bt2020Cl,
}

#[derive(Debug, Clone, Copy, PartialEq, Eq, Structural)]
pub enum ColorRange {
    Unspecified,
    Limited,
    Full,
}

#[derive(Debug, Clone, Copy, PartialEq, Eq, Structural)]
pub enum ChromaLocation {
    Unspecified,
    Left,
    Center,
    TopLeft,
}

#[derive(Debug, Clone, Copy, PartialEq, Eq, Structural)]
pub struct ColorDescriptor {
    pub primaries: ColorPrimaries,
    pub transfer: TransferFunction,
    pub matrix: MatrixCoefficients,
    pub range: ColorRange,
    pub chroma_location: ChromaLocation,
}

impl ColorDescriptor {
    /// Standard-dynamic-range BT.709 video in limited range.
    pub fn sdr_bt709() -> (descriptor: ColorDescriptor)
        ensures
            descriptor == (ColorDescriptor {
                primaries: ColorPrimaries::Bt709,
                transfer: TransferFunction::Bt1886,
                matrix: MatrixCoefficients::Bt709,
                range: ColorRange::Limited,
                chroma_location: ChromaLocation::Left,
            }),
    {
        ColorDescriptor {
            primaries: ColorPrimaries::Bt709,
            transfer: TransferFunction::Bt1886,
            matrix: MatrixCoefficients::Bt709,
            range: ColorRange::Limited,
            chroma_location: ChromaLocation::Left,
        }
    }

    /// PQ and HLG are the HDR transfer functions.
    pub fn is_hdr(self) -> (hdr: bool)
        ensures
            hdr == (self.transfer == TransferFunction::Pq || self.transfer == TransferFunction::Hlg),
    {
        match self.transfer {
            TransferFunction::Pq | TransferFunction::Hlg => true,
            _ => false,
        }
    }

    /// No property is left unspecified.
    pub fn is_explicit(self) -> (explicit: bool)
        ensures
            explicit == (self.primaries != ColorPrimaries::Unspecified && self.transfer
                != TransferFunction::Unspecified && self.matrix != MatrixCoefficients::Unspecified && self.range
                != ColorRange::Unspecified && self.chroma_location != ChromaLocation::Unspecified),
    {
        self.primaries != ColorPrimaries::Unspecified && self.transfer != TransferFunction::Unspecified && self.matrix
            != MatrixCoefficients::Unspecified && self.range != ColorRange::Unspecified && self.chroma_location
            != ChromaLocation::Unspecified
    }
}

pub struct ColorConfigIdentity {
    pub name: String,
    pub version: String,
    pub checksum: Fingerprint,
}

impl ColorConfigIdentity {
    /// The fingerprint of name, version and checksum, framed so that no two
    /// different triples hash the same bytes.
    pub fn fingerprint(&self) -> (fingerprint: Fingerprint)
        ensures
            fingerprint@ == hex_lower(
                sha256(
                    framed(
                        seq![
                            encode_utf8(self.name@),
                            encode_utf8(self.version@),
                            encode_utf8(self.checksum@),
                        ],
                    ),
                ),
            ),
    {
        let parts = vec![
            vstd::slice::slice_to_vec(self.name.as_str().as_bytes()),
            vstd::slice::slice_to_vec(self.version.as_str().as_bytes()),
            vstd::slice::slice_to_vec(self.checksum.as_str().as_bytes()),
        ];
        assert(parts@.map_values(|p: Vec<u8>| p@) =~= seq![
            encode_utf8(self.name@),
            encode_utf8(self.version@),
            encode_utf8(self.checksum@),
        ]);
        Fingerprint::combine(parts.as_slice())
    }
}

#[derive(Debug, Clone, Copy, PartialEq, Eq, Structural)]
pub enum WorkingSpace {
    SourceNative,
    AcesCg,
}

pub struct ColorTransformNode {
    pub from: ColorDescriptor,
    pub to: ColorDescriptor,
    pub purpose: &'static str,
}

/// The ACEScg working space: AP1 primaries, linear light, full range.
pub open spec fn acescg() -> ColorDescriptor {
    ColorDescriptor {
        primaries: ColorPrimaries::AcesAp1,
        transfer: TransferFunction::Linear,
        matrix: MatrixCoefficients::Identity,
        range: ColorRange::Full,
        chroma_location: ChromaLocation::Center,
    }
}

/// The colour transforms from source to output through the working space:
/// none when a native working space already matches the output, one output
/// transform otherwise, and through ACEScg a working-space transform then an
/// output transform.
pub fn working_graph(source: ColorDescriptor, working: WorkingSpace, output: ColorDescriptor) -> (graph: Vec<ColorTransformNode>)
    ensures
        working == WorkingSpace::SourceNative && source == output ==> graph@.len() == 0,
        working == WorkingSpace::SourceNative && source != output ==> graph@.len() == 1 && graph@[0].from == source
            && graph@[0].to == output && graph@[0].purpose@ == "output"@,
        working == WorkingSpace::AcesCg ==> graph@.len() == 2 && graph@[0].from == source && graph@[0].to == acescg()
            && graph@[0].purpose@ == "working-space"@ && graph@[1].from == acescg() && graph@[1].to == output
            && graph@[1].purpose@ == "output"@,
{
    let working_space = ColorDescriptor {
        primaries: ColorPrimaries::AcesAp1,
        transfer: TransferFunction::Linear,
        matrix: MatrixCoefficients::Identity,
        range: ColorRange::Full,
        chroma_location: ChromaLocation::Center,
    };
    match working {
        WorkingSpace::SourceNative => {
            if source == output {
                Vec::new()
            } else {
                vec![ColorTransformNode { from: source, to: output, purpose: "output" }]
            }
        },
        WorkingSpace::AcesCg => vec![
            ColorTransformNode { from: source, to: working_space, purpose: "working-space" },
            ColorTransformNode { from: working_space, to: output, purpose: "output" },
        ],
    }
}

#[derive(Debug, Clone, Copy, PartialEq, Eq, Structural)]
pub enum ToneMap {
    Passthrough,
    Bt2390,
    Hable,
}

#[derive(Debug, Clone, Copy, PartialEq, Eq, Structural)]
pub enum HdrSampleFormat {
    Float16,
    Float32,
}

pub struct HdrFrameArtifact {
    pub width: u32,
    pub height: u32,
    pub descriptor: ColorDescriptor,
    pub sample_format: HdrSampleFormat,
    pub checksum: Fingerprint,
}

} // verus!
