//! Still-image containers: brands, codecs, image items and metadata.

use vstd::prelude::*;

verus! {

#[derive(Debug, Clone, Copy, PartialEq, Eq, Structural)]
pub enum StillContainer {
    Avif,
    Heif,
    JpegXl,
}

#[derive(Debug, Clone, Copy, PartialEq, Eq, Structural)]
pub enum StillCodec {
    Av1,
    Hevc,
    JpegXl,
}

#[derive(Debug, Clone, Copy, PartialEq, Eq, Structural)]
pub enum StillBrand {
    Avif,
    Avis,
    Heic,
    Heix,
    Jxl,
}

#[derive(Debug, Clone, Copy, PartialEq, Eq, Structural)]
pub enum MetadataKind {
    Exif,
    Icc,
    Xmp,
}

#[derive(Debug, Clone, Copy, PartialEq, Eq, Structural)]
pub enum StillItemRole {
    Primary,
    AlphaAuxiliary,
    Thumbnail,
}

#[derive(Debug, Clone, Copy, PartialEq, Eq, Structural)]
pub struct StillImageItem {
    pub id: u32,
    pub role: StillItemRole,
    pub codec: StillCodec,
}

#[derive(Debug, Clone, Copy, PartialEq, Eq, Structural)]
pub enum ColorPrimaries {
    Bt709,
    DisplayP3,
    Bt2020,
}

#[derive(Debug, Clone, Copy, PartialEq, Eq, Structural)]
pub enum ImageOrientation {
    Identity,
    Rotate90,
    Rotate180,
    Rotate270,
}

#[derive(Clone)]
pub struct StillImageMetadata {
    pub color_primaries: ColorPrimaries,
    pub has_icc_profile: bool,
    pub alpha: bool,
    pub orientation: ImageOrientation,
    /// The metadata blocks present, as a set; `blocks_canonical` is the
    /// listing a set of kinds has (each once, in kind order).
    pub blocks: Vec<MetadataKind>,
}

#[derive(Clone)]
pub struct StillContainerSpec {
    pub container: StillContainer,
    pub codec: StillCodec,
    pub major_brand: StillBrand,
    pub items: Vec<StillImageItem>,
    pub metadata: StillImageMetadata,
}

#[derive(Debug, Clone, Copy, PartialEq, Eq, Structural)]
pub enum StillContainerError {
    IncompatibleBrandOrCodec,
    MissingPrimaryImage,
    InvalidSequenceBrand,
    AlphaItemMismatch,
}

/// AVIF carries AV1 under `avif` or `avis`, HEIF carries HEVC under `heic`
/// or `heix`, JPEG XL carries JPEG XL under `jxl`.
pub open spec fn brand_matches(container: StillContainer, codec: StillCodec, brand: StillBrand) -> bool {
    match container {
        StillContainer::Avif => codec == StillCodec::Av1 && (brand == StillBrand::Avif || brand == StillBrand::Avis),
        StillContainer::Heif => codec == StillCodec::Hevc && (brand == StillBrand::Heic || brand == StillBrand::Heix),
        StillContainer::JpegXl => codec == StillCodec::JpegXl && brand == StillBrand::Jxl,
    }
}

/// At least one item, every item in the container's codec, no id repeated.
pub open spec fn items_consistent(items: Seq<StillImageItem>, codec: StillCodec) -> bool {
    &&& items.len() >= 1
    &&& forall|i: int| 0 <= i < items.len() ==> (#[trigger] items[i]).codec == codec
    &&& forall|a: int, b: int| 0 <= a < b < items.len() ==> #[trigger] items[a].id != #[trigger] items[b].id
}

pub open spec fn count_role(items: Seq<StillImageItem>, role: StillItemRole) -> nat
    decreases items.len(),
{
    if items.len() == 0 {
        0
    } else {
        count_role(items.drop_last(), role) + if items.last().role == role { 1nat } else { 0nat }
    }
}

pub open spec fn still_error(spec: StillContainerSpec) -> Option<StillContainerError> {
    let primaries = count_role(spec.items@, StillItemRole::Primary);
    let sequence = spec.major_brand == StillBrand::Avis;
    if !brand_matches(spec.container, spec.codec, spec.major_brand) {
        Some(StillContainerError::IncompatibleBrandOrCodec)
    } else if !items_consistent(spec.items@, spec.codec) {
        Some(StillContainerError::MissingPrimaryImage)
    } else if (primaries > 1) != sequence || primaries == 0 {
        Some(StillContainerError::InvalidSequenceBrand)
    } else if (count_role(spec.items@, StillItemRole::AlphaAuxiliary) > 0) != spec.metadata.alpha {
        Some(StillContainerError::AlphaItemMismatch)
    } else {
        None
    }
}

fn count_items(items: &Vec<StillImageItem>, role: StillItemRole) -> (count: usize)
    ensures
        count == count_role(items@, role),
{
    let mut count: usize = 0;
    let mut i: usize = 0;
    while i < items.len()
        invariant
            0 <= i <= items@.len(),
            count == count_role(items@.subrange(0, i as int), role),
            count <= i,
        decreases items.len() - i,
    {
        assert(items@.subrange(0, i + 1).drop_last() =~= items@.subrange(0, i as int));
        if items[i].role == role {
            count = count + 1;
        }
        i = i + 1;
    }
    assert(items@.subrange(0, items@.len() as int) =~= items@);
    count
}

impl StillContainerSpec {
    pub fn validate(&self) -> (result: Result<(), StillContainerError>)
        ensures
            result == (match still_error(*self) {
                Some(e) => Err::<(), StillContainerError>(e),
                None => Ok(()),
            }),
    {
        let brand_ok = match self.container {
            StillContainer::Avif => self.codec == StillCodec::Av1 && (self.major_brand == StillBrand::Avif
                || self.major_brand == StillBrand::Avis),
            StillContainer::Heif => self.codec == StillCodec::Hevc && (self.major_brand == StillBrand::Heic
                || self.major_brand == StillBrand::Heix),
            StillContainer::JpegXl => self.codec == StillCodec::JpegXl && self.major_brand == StillBrand::Jxl,
        };
        if !brand_ok {
            return Err(StillContainerError::IncompatibleBrandOrCodec);
        }
        if self.items.len() == 0 {
            return Err(StillContainerError::MissingPrimaryImage);
        }
        let mut b: usize = 0;
        while b < self.items.len()
            invariant
                0 <= b <= self.items@.len(),
                forall|i: int| 0 <= i < b ==> (#[trigger] self.items@[i]).codec == self.codec,
                forall|x: int, y: int| 0 <= x < y < b ==> #[trigger] self.items@[x].id != #[trigger] self.items@[y].id,
                brand_matches(self.container, self.codec, self.major_brand),
                self.items@.len() >= 1,
            decreases self.items.len() - b,
        {
            if self.items[b].codec != self.codec {
                return Err(StillContainerError::MissingPrimaryImage);
            }
            let mut a: usize = 0;
            while a < b
                invariant
                    0 <= a <= b,
                    b < self.items@.len(),
                    brand_matches(self.container, self.codec, self.major_brand),
                    self.items@.len() >= 1,
                    forall|x: int| 0 <= x < a ==> self.items@[x].id != self.items@[b as int].id,
                decreases b - a,
            {
                if self.items[a].id == self.items[b].id {
                    return Err(StillContainerError::MissingPrimaryImage);
                }
                a = a + 1;
            }
            b = b + 1;
        }
        let primaries = count_items(&self.items, StillItemRole::Primary);
        let alphas = count_items(&self.items, StillItemRole::AlphaAuxiliary);
        let sequence = self.major_brand == StillBrand::Avis;
        if (primaries > 1) != sequence || primaries == 0 {
            return Err(StillContainerError::InvalidSequenceBrand);
        }
        if (alphas > 0) != self.metadata.alpha {
            return Err(StillContainerError::AlphaItemMismatch);
        }
        Ok(())
    }

    /// Compare the declared metadata with what a decoder read back.
    pub fn metadata_round_trip(&self, decoded: &StillImageMetadata) -> (report: MetadataRoundTrip)
        ensures
            report.preserved@ == kinds_where(|k: MetadataKind| self.metadata.blocks@.contains(k) && decoded.blocks@.contains(k)),
            report.lost@ == kinds_where(|k: MetadataKind| self.metadata.blocks@.contains(k) && !decoded.blocks@.contains(k)),
            report.introduced@ == kinds_where(|k: MetadataKind| !self.metadata.blocks@.contains(k) && decoded.blocks@.contains(k)),
            report.color_preserved == (self.metadata.color_primaries == decoded.color_primaries),
            report.icc_preserved == (self.metadata.has_icc_profile == decoded.has_icc_profile),
            report.alpha_preserved == (self.metadata.alpha == decoded.alpha),
            report.orientation_preserved == (self.metadata.orientation == decoded.orientation),
    {
        let mut preserved: Vec<MetadataKind> = Vec::new();
        let mut lost: Vec<MetadataKind> = Vec::new();
        let mut introduced: Vec<MetadataKind> = Vec::new();
        let kinds = [MetadataKind::Exif, MetadataKind::Icc, MetadataKind::Xmp];
        let mut i: usize = 0;
        while i < 3
            invariant
                0 <= i <= 3,
                kinds@ == all_kinds(),
                preserved@ == kinds_upto(|k: MetadataKind| self.metadata.blocks@.contains(k) && decoded.blocks@.contains(k), i as int),
                lost@ == kinds_upto(|k: MetadataKind| self.metadata.blocks@.contains(k) && !decoded.blocks@.contains(k), i as int),
                introduced@ == kinds_upto(|k: MetadataKind| !self.metadata.blocks@.contains(k) && decoded.blocks@.contains(k), i as int),
            decreases 3 - i,
        {
            let kind = kinds[i];
            let in_mine = contains_kind(&self.metadata.blocks, kind);
            let in_theirs = contains_kind(&decoded.blocks, kind);
            if in_mine && in_theirs {
                preserved.push(kind);
            }
            if in_mine && !in_theirs {
                lost.push(kind);
            }
            if !in_mine && in_theirs {
                introduced.push(kind);
            }
            i = i + 1;
        }
        MetadataRoundTrip {
            preserved,
            lost,
            introduced,
            color_preserved: self.metadata.color_primaries == decoded.color_primaries,
            icc_preserved: self.metadata.has_icc_profile == decoded.has_icc_profile,
            alpha_preserved: self.metadata.alpha == decoded.alpha,
            orientation_preserved: self.metadata.orientation == decoded.orientation,
        }
    }
}

/// Every metadata kind, in order.
pub open spec fn all_kinds() -> Seq<MetadataKind> {
    seq![MetadataKind::Exif, MetadataKind::Icc, MetadataKind::Xmp]
}

/// The kinds among the first `n` that satisfy `p`, in order.
pub open spec fn kinds_upto(p: spec_fn(MetadataKind) -> bool, n: int) -> Seq<MetadataKind>
    decreases n,
{
    if n <= 0 || n > 3 {
        Seq::empty()
    } else if p(all_kinds()[n - 1]) {
        kinds_upto(p, n - 1).push(all_kinds()[n - 1])
    } else {
        kinds_upto(p, n - 1)
    }
}

/// The kinds satisfying `p`, in order and each once: the set `p` describes.
pub open spec fn kinds_where(p: spec_fn(MetadataKind) -> bool) -> Seq<MetadataKind> {
    kinds_upto(p, 3)
}

fn contains_kind(blocks: &Vec<MetadataKind>, kind: MetadataKind) -> (found: bool)
    ensures
        found == blocks@.contains(kind),
{
    let mut i: usize = 0;
    while i < blocks.len()
        invariant
            0 <= i <= blocks@.len(),
            forall|j: int| 0 <= j < i ==> blocks@[j] != kind,
        decreases blocks.len() - i,
    {
        if blocks[i] == kind {
            return true;
        }
        i = i + 1;
    }
    false
}

pub struct MetadataRoundTrip {
    pub preserved: Vec<MetadataKind>,
    pub lost: Vec<MetadataKind>,
    pub introduced: Vec<MetadataKind>,
    pub color_preserved: bool,
    pub icc_preserved: bool,
    pub alpha_preserved: bool,
    pub orientation_preserved: bool,
}

impl MetadataRoundTrip {
    /// Nothing lost, nothing introduced, and every property kept.
    pub fn is_lossless(&self) -> (lossless: bool)
        ensures
            lossless == (self.lost@.len() == 0 && self.introduced@.len() == 0 && self.color_preserved
                && self.icc_preserved && self.alpha_preserved && self.orientation_preserved),
    {
        self.lost.len() == 0 && self.introduced.len() == 0 && self.color_preserved && self.icc_preserved
            && self.alpha_preserved && self.orientation_preserved
    }
}

/// A block list in canonical form: each kind once, in kind order, as a set
/// of kinds is listed.
pub open spec fn blocks_canonical(blocks: Seq<MetadataKind>) -> bool {
    blocks == kinds_where(|k: MetadataKind| blocks.contains(k))
}

/// A round trip reports nothing lost, nothing introduced and every property
/// kept exactly when the decoded metadata equals the declared metadata, for
/// block lists in canonical form.
pub proof fn law_lossless_round_trip_means_equal_metadata(declared: StillImageMetadata, decoded: StillImageMetadata)
    requires
        blocks_canonical(declared.blocks@),
        blocks_canonical(decoded.blocks@),
    ensures
        (kinds_where(|k: MetadataKind| declared.blocks@.contains(k) && !decoded.blocks@.contains(k)).len() == 0
            && kinds_where(|k: MetadataKind| !declared.blocks@.contains(k) && decoded.blocks@.contains(k)).len() == 0
            && declared.color_primaries == decoded.color_primaries && declared.has_icc_profile == decoded.has_icc_profile
            && declared.alpha == decoded.alpha && declared.orientation == decoded.orientation) <==> (declared.blocks@
            == decoded.blocks@ && declared.color_primaries == decoded.color_primaries && declared.has_icc_profile
            == decoded.has_icc_profile && declared.alpha == decoded.alpha && declared.orientation == decoded.orientation),
{
    reveal_with_fuel(kinds_upto, 4);
    let a = declared.blocks@;
    let b = decoded.blocks@;
    let lost = kinds_where(|k: MetadataKind| a.contains(k) && !b.contains(k));
    let introduced = kinds_where(|k: MetadataKind| !a.contains(k) && b.contains(k));
    if lost.len() == 0 && introduced.len() == 0 {
        assert forall|k: MetadataKind| a.contains(k) == b.contains(k) by {
            match k {
                MetadataKind::Exif => {},
                MetadataKind::Icc => {},
                MetadataKind::Xmp => {},
            }
        }
        assert((|k: MetadataKind| a.contains(k)) =~= (|k: MetadataKind| b.contains(k)));
    }
    if a == b {
        assert(lost.len() == 0);
        assert(introduced.len() == 0);
    }
}

} // verus!
