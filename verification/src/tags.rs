//! Tag definitions and how a raw value becomes a readable one.

use crate::text::{dec_int, dec_nat, push_char, push_dec, push_int};
use crate::value::{as_i64, display_exact, Value, ValueV};
use vstd::prelude::*;

verus! {

/// The lookup tables a tag can print through.
#[derive(Debug, Clone, Copy, PartialEq, Eq, Structural)]
pub enum Lookup {
    Orientation,
    ExposureProgram,
    Metering,
    ColorSpace,
    ExposureMode,
    WhiteBalance,
    /// A DNG marks its full-resolution frame here, which is how a raw file
    /// says which of its several images is the photograph.
    SubfileType,
    ResolutionUnit,
    SceneCapture,
    /// Flash is a bit field rather than an enum, and the combinations that
    /// matter are the ones cameras actually write.
    Flash,
}

/// The formatters a tag can print through.
#[derive(Debug, Clone, Copy, PartialEq, Eq, Structural)]
pub enum Formatter {
    /// Shutter speed, as a photographer writes it.
    ExposureTime,
    /// Aperture: one decimal above f/1, two below it.
    FNumber,
    /// Focal length as stored in a rational: one decimal.
    FocalMm,
    /// The 35 mm equivalent, a plain integer in the file.
    FocalMmInt,
    /// Exposure compensation, with its sign.
    Ev,
    /// Fujifilm's white balance shift, two signed longs.
    WbFineTune,
}

#[derive(Debug, Clone, Copy, PartialEq, Eq, Structural)]
pub enum Conv {
    /// Print the value as it is.
    AsIs,
    /// Look the number up.
    Lookup(Lookup),
    Fn(Formatter),
}

#[derive(Debug, Clone, Copy)]
pub struct TagDef {
    pub id: u16,
    pub name: &'static str,
    pub conv: Conv,
}

/// Tags whose value is a pointer to another directory.
pub const EXIF_IFD: u16 = 0x8769;
/// A DNG keeps its real image in a SubIFD and leaves IFD0 holding a thumbnail,
/// so a raw file that is not walked into reports an 8x8 frame.
pub const SUB_IFD: u16 = 0x014a;
pub const SUBFILE_TYPE_TAG: u16 = 0x00fe;
pub const MAKER_NOTE: u16 = 0x927c;

/// The tag tables.
#[derive(Debug, Clone, Copy, PartialEq, Eq, Structural)]
pub enum Table {
    Exif,
    Fuji,
}

/// The lookup tables, each sorted by key.
pub open spec fn lookup_table(l: Lookup) -> Seq<(i64, &'static str)> {
    match l {
        Lookup::Orientation => seq![
            (0x1, "Horizontal (normal)"),
            (0x2, "Mirror horizontal"),
            (0x3, "Rotate 180"),
            (0x4, "Mirror vertical"),
            (0x5, "Mirror horizontal and rotate 270 CW"),
            (0x6, "Rotate 90 CW"),
            (0x7, "Mirror horizontal and rotate 90 CW"),
            (0x8, "Rotate 270 CW"),
        ],
        Lookup::ExposureProgram => seq![
            (0x0, "Not Defined"),
            (0x1, "Manual"),
            (0x2, "Program AE"),
            (0x3, "Aperture-priority AE"),
            (0x4, "Shutter speed priority AE"),
            (0x5, "Creative (Slow speed)"),
            (0x6, "Action (High speed)"),
            (0x7, "Portrait"),
            (0x8, "Landscape"),
            (0x9, "Bulb"),
        ],
        Lookup::Metering => seq![
            (0x0, "Unknown"),
            (0x1, "Average"),
            (0x2, "Center-weighted average"),
            (0x3, "Spot"),
            (0x4, "Multi-spot"),
            (0x5, "Multi-segment"),
            (0x6, "Partial"),
            (0xff, "Other"),
        ],
        Lookup::ColorSpace => seq![
            (0x1, "sRGB"),
            (0x2, "Adobe RGB"),
            (0xffff, "Uncalibrated"),
        ],
        Lookup::ExposureMode => seq![
            (0x0, "Auto"),
            (0x1, "Manual"),
            (0x2, "Auto bracket"),
        ],
        Lookup::WhiteBalance => seq![
            (0x0, "Auto"),
            (0x1, "Manual"),
        ],
        Lookup::SubfileType => seq![
            (0x0, "Full-resolution image"),
            (0x1, "Reduced-resolution image"),
            (0x2, "Single page of multi-page image"),
        ],
        Lookup::ResolutionUnit => seq![
            (0x1, "None"),
            (0x2, "inches"),
            (0x3, "cm"),
        ],
        Lookup::SceneCapture => seq![
            (0x0, "Standard"),
            (0x1, "Landscape"),
            (0x2, "Portrait"),
            (0x3, "Night"),
        ],
        Lookup::Flash => seq![
            (0x0, "No Flash"),
            (0x1, "Fired"),
            (0x5, "Fired, Return not detected"),
            (0x7, "Fired, Return detected"),
            (0x8, "On, Did not fire"),
            (0x9, "On, Fired"),
            (0xd, "On, Return not detected"),
            (0xf, "On, Return detected"),
            (0x10, "Off, Did not fire"),
            (0x14, "Off, Did not fire, Return not detected"),
            (0x18, "Auto, Did not fire"),
            (0x19, "Auto, Fired"),
            (0x1d, "Auto, Fired, Return not detected"),
            (0x1f, "Auto, Fired, Return detected"),
            (0x20, "No flash function"),
            (0x30, "Off, No flash function"),
            (0x41, "Fired, Red-eye reduction"),
            (0x45, "Fired, Red-eye reduction, Return not detected"),
            (0x47, "Fired, Red-eye reduction, Return detected"),
            (0x49, "On, Red-eye reduction"),
            (0x4d, "On, Red-eye reduction, Return not detected"),
            (0x4f, "On, Red-eye reduction, Return detected"),
            (0x50, "Off, Red-eye reduction"),
            (0x58, "Auto, Did not fire, Red-eye reduction"),
            (0x59, "Auto, Fired, Red-eye reduction"),
            (0x5d, "Auto, Fired, Red-eye reduction, Return not detected"),
            (0x5f, "Auto, Fired, Red-eye reduction, Return detected"),
        ],
    }
}

fn lookup_entries(l: Lookup) -> (r: Vec<(i64, &'static str)>)
    ensures
        r@ == lookup_table(l),
{
    match l {
        Lookup::Orientation => vec![
            (0x1, "Horizontal (normal)"),
            (0x2, "Mirror horizontal"),
            (0x3, "Rotate 180"),
            (0x4, "Mirror vertical"),
            (0x5, "Mirror horizontal and rotate 270 CW"),
            (0x6, "Rotate 90 CW"),
            (0x7, "Mirror horizontal and rotate 90 CW"),
            (0x8, "Rotate 270 CW"),
        ],
        Lookup::ExposureProgram => vec![
            (0x0, "Not Defined"),
            (0x1, "Manual"),
            (0x2, "Program AE"),
            (0x3, "Aperture-priority AE"),
            (0x4, "Shutter speed priority AE"),
            (0x5, "Creative (Slow speed)"),
            (0x6, "Action (High speed)"),
            (0x7, "Portrait"),
            (0x8, "Landscape"),
            (0x9, "Bulb"),
        ],
        Lookup::Metering => vec![
            (0x0, "Unknown"),
            (0x1, "Average"),
            (0x2, "Center-weighted average"),
            (0x3, "Spot"),
            (0x4, "Multi-spot"),
            (0x5, "Multi-segment"),
            (0x6, "Partial"),
            (0xff, "Other"),
        ],
        Lookup::ColorSpace => vec![
            (0x1, "sRGB"),
            (0x2, "Adobe RGB"),
            (0xffff, "Uncalibrated"),
        ],
        Lookup::ExposureMode => vec![
            (0x0, "Auto"),
            (0x1, "Manual"),
            (0x2, "Auto bracket"),
        ],
        Lookup::WhiteBalance => vec![
            (0x0, "Auto"),
            (0x1, "Manual"),
        ],
        Lookup::SubfileType => vec![
            (0x0, "Full-resolution image"),
            (0x1, "Reduced-resolution image"),
            (0x2, "Single page of multi-page image"),
        ],
        Lookup::ResolutionUnit => vec![
            (0x1, "None"),
            (0x2, "inches"),
            (0x3, "cm"),
        ],
        Lookup::SceneCapture => vec![
            (0x0, "Standard"),
            (0x1, "Landscape"),
            (0x2, "Portrait"),
            (0x3, "Night"),
        ],
        Lookup::Flash => vec![
            (0x0, "No Flash"),
            (0x1, "Fired"),
            (0x5, "Fired, Return not detected"),
            (0x7, "Fired, Return detected"),
            (0x8, "On, Did not fire"),
            (0x9, "On, Fired"),
            (0xd, "On, Return not detected"),
            (0xf, "On, Return detected"),
            (0x10, "Off, Did not fire"),
            (0x14, "Off, Did not fire, Return not detected"),
            (0x18, "Auto, Did not fire"),
            (0x19, "Auto, Fired"),
            (0x1d, "Auto, Fired, Return not detected"),
            (0x1f, "Auto, Fired, Return detected"),
            (0x20, "No flash function"),
            (0x30, "Off, No flash function"),
            (0x41, "Fired, Red-eye reduction"),
            (0x45, "Fired, Red-eye reduction, Return not detected"),
            (0x47, "Fired, Red-eye reduction, Return detected"),
            (0x49, "On, Red-eye reduction"),
            (0x4d, "On, Red-eye reduction, Return not detected"),
            (0x4f, "On, Red-eye reduction, Return detected"),
            (0x50, "Off, Red-eye reduction"),
            (0x58, "Auto, Did not fire, Red-eye reduction"),
            (0x59, "Auto, Fired, Red-eye reduction"),
            (0x5d, "Auto, Fired, Red-eye reduction, Return not detected"),
            (0x5f, "Auto, Fired, Red-eye reduction, Return detected"),
        ],
    }
}

/// Standard EXIF, sorted by tag id.
pub open spec fn exif_defs() -> Seq<TagDef> {
    seq![
        TagDef { id: 0x00fe, name: "SubfileType", conv: Conv::Lookup(Lookup::SubfileType) },
        TagDef { id: 0x0100, name: "ImageWidth", conv: Conv::AsIs },
        TagDef { id: 0x0101, name: "ImageHeight", conv: Conv::AsIs },
        TagDef { id: 0x010f, name: "Make", conv: Conv::AsIs },
        TagDef { id: 0x0110, name: "Model", conv: Conv::AsIs },
        TagDef { id: 0x0112, name: "Orientation", conv: Conv::Lookup(Lookup::Orientation) },
        TagDef { id: 0x011a, name: "XResolution", conv: Conv::AsIs },
        TagDef { id: 0x011b, name: "YResolution", conv: Conv::AsIs },
        TagDef { id: 0x0128, name: "ResolutionUnit", conv: Conv::Lookup(Lookup::ResolutionUnit) },
        TagDef { id: 0x0131, name: "Software", conv: Conv::AsIs },
        TagDef { id: 0x0132, name: "ModifyDate", conv: Conv::AsIs },
        TagDef { id: 0x013b, name: "Artist", conv: Conv::AsIs },
        TagDef { id: 0x8298, name: "Copyright", conv: Conv::AsIs },
        TagDef { id: 0x829a, name: "ExposureTime", conv: Conv::Fn(Formatter::ExposureTime) },
        TagDef { id: 0x829d, name: "FNumber", conv: Conv::Fn(Formatter::FNumber) },
        TagDef { id: 0x8822, name: "ExposureProgram", conv: Conv::Lookup(Lookup::ExposureProgram) },
        TagDef { id: 0x8827, name: "ISO", conv: Conv::AsIs },
        TagDef { id: 0x9003, name: "DateTimeOriginal", conv: Conv::AsIs },
        TagDef { id: 0x9004, name: "CreateDate", conv: Conv::AsIs },
        TagDef { id: 0x9204, name: "ExposureCompensation", conv: Conv::Fn(Formatter::Ev) },
        TagDef { id: 0x9207, name: "MeteringMode", conv: Conv::Lookup(Lookup::Metering) },
        TagDef { id: 0x9209, name: "Flash", conv: Conv::Lookup(Lookup::Flash) },
        TagDef { id: 0x920a, name: "FocalLength", conv: Conv::Fn(Formatter::FocalMm) },
        TagDef { id: 0x9291, name: "SubSecTimeOriginal", conv: Conv::AsIs },
        TagDef { id: 0xa001, name: "ColorSpace", conv: Conv::Lookup(Lookup::ColorSpace) },
        TagDef { id: 0xa002, name: "ExifImageWidth", conv: Conv::AsIs },
        TagDef { id: 0xa003, name: "ExifImageHeight", conv: Conv::AsIs },
        TagDef { id: 0xa402, name: "ExposureMode", conv: Conv::Lookup(Lookup::ExposureMode) },
        TagDef { id: 0xa403, name: "WhiteBalance", conv: Conv::Lookup(Lookup::WhiteBalance) },
        TagDef { id: 0xa405, name: "FocalLengthIn35mmFormat", conv: Conv::Fn(Formatter::FocalMmInt) },
        TagDef { id: 0xa406, name: "SceneCaptureType", conv: Conv::Lookup(Lookup::SceneCapture) },
        TagDef { id: 0xa433, name: "LensMake", conv: Conv::AsIs },
        TagDef { id: 0xa434, name: "LensModel", conv: Conv::AsIs },
    ]
}

fn exif_entries() -> (r: Vec<TagDef>)
    ensures
        r@ == exif_defs(),
{
    vec![
        TagDef { id: 0x00fe, name: "SubfileType", conv: Conv::Lookup(Lookup::SubfileType) },
        TagDef { id: 0x0100, name: "ImageWidth", conv: Conv::AsIs },
        TagDef { id: 0x0101, name: "ImageHeight", conv: Conv::AsIs },
        TagDef { id: 0x010f, name: "Make", conv: Conv::AsIs },
        TagDef { id: 0x0110, name: "Model", conv: Conv::AsIs },
        TagDef { id: 0x0112, name: "Orientation", conv: Conv::Lookup(Lookup::Orientation) },
        TagDef { id: 0x011a, name: "XResolution", conv: Conv::AsIs },
        TagDef { id: 0x011b, name: "YResolution", conv: Conv::AsIs },
        TagDef { id: 0x0128, name: "ResolutionUnit", conv: Conv::Lookup(Lookup::ResolutionUnit) },
        TagDef { id: 0x0131, name: "Software", conv: Conv::AsIs },
        TagDef { id: 0x0132, name: "ModifyDate", conv: Conv::AsIs },
        TagDef { id: 0x013b, name: "Artist", conv: Conv::AsIs },
        TagDef { id: 0x8298, name: "Copyright", conv: Conv::AsIs },
        TagDef { id: 0x829a, name: "ExposureTime", conv: Conv::Fn(Formatter::ExposureTime) },
        TagDef { id: 0x829d, name: "FNumber", conv: Conv::Fn(Formatter::FNumber) },
        TagDef { id: 0x8822, name: "ExposureProgram", conv: Conv::Lookup(Lookup::ExposureProgram) },
        TagDef { id: 0x8827, name: "ISO", conv: Conv::AsIs },
        TagDef { id: 0x9003, name: "DateTimeOriginal", conv: Conv::AsIs },
        TagDef { id: 0x9004, name: "CreateDate", conv: Conv::AsIs },
        TagDef { id: 0x9204, name: "ExposureCompensation", conv: Conv::Fn(Formatter::Ev) },
        TagDef { id: 0x9207, name: "MeteringMode", conv: Conv::Lookup(Lookup::Metering) },
        TagDef { id: 0x9209, name: "Flash", conv: Conv::Lookup(Lookup::Flash) },
        TagDef { id: 0x920a, name: "FocalLength", conv: Conv::Fn(Formatter::FocalMm) },
        TagDef { id: 0x9291, name: "SubSecTimeOriginal", conv: Conv::AsIs },
        TagDef { id: 0xa001, name: "ColorSpace", conv: Conv::Lookup(Lookup::ColorSpace) },
        TagDef { id: 0xa002, name: "ExifImageWidth", conv: Conv::AsIs },
        TagDef { id: 0xa003, name: "ExifImageHeight", conv: Conv::AsIs },
        TagDef { id: 0xa402, name: "ExposureMode", conv: Conv::Lookup(Lookup::ExposureMode) },
        TagDef { id: 0xa403, name: "WhiteBalance", conv: Conv::Lookup(Lookup::WhiteBalance) },
        TagDef { id: 0xa405, name: "FocalLengthIn35mmFormat", conv: Conv::Fn(Formatter::FocalMmInt) },
        TagDef { id: 0xa406, name: "SceneCaptureType", conv: Conv::Lookup(Lookup::SceneCapture) },
        TagDef { id: 0xa433, name: "LensMake", conv: Conv::AsIs },
        TagDef { id: 0xa434, name: "LensModel", conv: Conv::AsIs },
    ]
}

/// Fujifilm MakerNotes tags, sorted by tag id.
pub open spec fn fuji_defs() -> Seq<TagDef> {
    seq![
        TagDef { id: 0x1000, name: "Quality", conv: Conv::AsIs },
        TagDef { id: 0x1001, name: "Sharpness", conv: Conv::AsIs },
        TagDef { id: 0x1002, name: "WhiteBalance", conv: Conv::AsIs },
        TagDef { id: 0x1003, name: "Saturation", conv: Conv::AsIs },
        TagDef { id: 0x1004, name: "Contrast", conv: Conv::AsIs },
        TagDef { id: 0x1005, name: "ColorTemperature", conv: Conv::AsIs },
        TagDef { id: 0x1006, name: "Contrast", conv: Conv::AsIs },
        TagDef { id: 0x100a, name: "WhiteBalanceFineTune", conv: Conv::AsIs },
        TagDef { id: 0x100b, name: "NoiseReduction", conv: Conv::AsIs },
        TagDef { id: 0x100e, name: "NoiseReduction", conv: Conv::AsIs },
        TagDef { id: 0x100f, name: "Clarity", conv: Conv::AsIs },
        TagDef { id: 0x1010, name: "FujiFlashMode", conv: Conv::AsIs },
        TagDef { id: 0x1011, name: "FlashExposureComp", conv: Conv::AsIs },
        TagDef { id: 0x1020, name: "Macro", conv: Conv::AsIs },
        TagDef { id: 0x1021, name: "FocusMode", conv: Conv::AsIs },
        TagDef { id: 0x1023, name: "FocusPixel", conv: Conv::AsIs },
        TagDef { id: 0x1030, name: "SlowSync", conv: Conv::AsIs },
        TagDef { id: 0x1031, name: "PictureMode", conv: Conv::AsIs },
        TagDef { id: 0x1040, name: "ShadowTone", conv: Conv::AsIs },
        TagDef { id: 0x1041, name: "HighlightTone", conv: Conv::AsIs },
        TagDef { id: 0x1044, name: "DigitalZoom", conv: Conv::AsIs },
        TagDef { id: 0x1045, name: "LensModulationOptimizer", conv: Conv::AsIs },
        TagDef { id: 0x1047, name: "GrainEffectRoughness", conv: Conv::AsIs },
        TagDef { id: 0x1048, name: "ColorChromeEffect", conv: Conv::AsIs },
        TagDef { id: 0x104c, name: "GrainEffectSize", conv: Conv::AsIs },
        TagDef { id: 0x104d, name: "CropMode", conv: Conv::AsIs },
        TagDef { id: 0x104e, name: "ColorChromeFXBlue", conv: Conv::AsIs },
        TagDef { id: 0x1050, name: "ShutterType", conv: Conv::AsIs },
        TagDef { id: 0x1100, name: "AutoBracketing", conv: Conv::AsIs },
        TagDef { id: 0x1101, name: "SequenceNumber", conv: Conv::AsIs },
        TagDef { id: 0x1153, name: "PanoramaAngle", conv: Conv::AsIs },
        TagDef { id: 0x1400, name: "DynamicRange", conv: Conv::AsIs },
        TagDef { id: 0x1401, name: "FilmMode", conv: Conv::AsIs },
        TagDef { id: 0x1402, name: "DynamicRangeSetting", conv: Conv::AsIs },
        TagDef { id: 0x1403, name: "DevelopmentDynamicRange", conv: Conv::AsIs },
        TagDef { id: 0x1404, name: "MinFocalLength", conv: Conv::AsIs },
        TagDef { id: 0x1405, name: "MaxFocalLength", conv: Conv::AsIs },
        TagDef { id: 0x1406, name: "MaxApertureAtMinFocal", conv: Conv::AsIs },
        TagDef { id: 0x1407, name: "MaxApertureAtMaxFocal", conv: Conv::AsIs },
        TagDef { id: 0x140b, name: "AutoDynamicRange", conv: Conv::AsIs },
        TagDef { id: 0x1443, name: "DRangePriority", conv: Conv::AsIs },
        TagDef { id: 0x1444, name: "DRangePriorityAuto", conv: Conv::AsIs },
        TagDef { id: 0x1445, name: "DRangePriorityFixed", conv: Conv::AsIs },
    ]
}

pub fn fuji_entries() -> (r: Vec<TagDef>)
    ensures
        r@ == fuji_defs(),
{
    vec![
        TagDef { id: 0x1000, name: "Quality", conv: Conv::AsIs },
        TagDef { id: 0x1001, name: "Sharpness", conv: Conv::AsIs },
        TagDef { id: 0x1002, name: "WhiteBalance", conv: Conv::AsIs },
        TagDef { id: 0x1003, name: "Saturation", conv: Conv::AsIs },
        TagDef { id: 0x1004, name: "Contrast", conv: Conv::AsIs },
        TagDef { id: 0x1005, name: "ColorTemperature", conv: Conv::AsIs },
        TagDef { id: 0x1006, name: "Contrast", conv: Conv::AsIs },
        TagDef { id: 0x100a, name: "WhiteBalanceFineTune", conv: Conv::AsIs },
        TagDef { id: 0x100b, name: "NoiseReduction", conv: Conv::AsIs },
        TagDef { id: 0x100e, name: "NoiseReduction", conv: Conv::AsIs },
        TagDef { id: 0x100f, name: "Clarity", conv: Conv::AsIs },
        TagDef { id: 0x1010, name: "FujiFlashMode", conv: Conv::AsIs },
        TagDef { id: 0x1011, name: "FlashExposureComp", conv: Conv::AsIs },
        TagDef { id: 0x1020, name: "Macro", conv: Conv::AsIs },
        TagDef { id: 0x1021, name: "FocusMode", conv: Conv::AsIs },
        TagDef { id: 0x1023, name: "FocusPixel", conv: Conv::AsIs },
        TagDef { id: 0x1030, name: "SlowSync", conv: Conv::AsIs },
        TagDef { id: 0x1031, name: "PictureMode", conv: Conv::AsIs },
        TagDef { id: 0x1040, name: "ShadowTone", conv: Conv::AsIs },
        TagDef { id: 0x1041, name: "HighlightTone", conv: Conv::AsIs },
        TagDef { id: 0x1044, name: "DigitalZoom", conv: Conv::AsIs },
        TagDef { id: 0x1045, name: "LensModulationOptimizer", conv: Conv::AsIs },
        TagDef { id: 0x1047, name: "GrainEffectRoughness", conv: Conv::AsIs },
        TagDef { id: 0x1048, name: "ColorChromeEffect", conv: Conv::AsIs },
        TagDef { id: 0x104c, name: "GrainEffectSize", conv: Conv::AsIs },
        TagDef { id: 0x104d, name: "CropMode", conv: Conv::AsIs },
        TagDef { id: 0x104e, name: "ColorChromeFXBlue", conv: Conv::AsIs },
        TagDef { id: 0x1050, name: "ShutterType", conv: Conv::AsIs },
        TagDef { id: 0x1100, name: "AutoBracketing", conv: Conv::AsIs },
        TagDef { id: 0x1101, name: "SequenceNumber", conv: Conv::AsIs },
        TagDef { id: 0x1153, name: "PanoramaAngle", conv: Conv::AsIs },
        TagDef { id: 0x1400, name: "DynamicRange", conv: Conv::AsIs },
        TagDef { id: 0x1401, name: "FilmMode", conv: Conv::AsIs },
        TagDef { id: 0x1402, name: "DynamicRangeSetting", conv: Conv::AsIs },
        TagDef { id: 0x1403, name: "DevelopmentDynamicRange", conv: Conv::AsIs },
        TagDef { id: 0x1404, name: "MinFocalLength", conv: Conv::AsIs },
        TagDef { id: 0x1405, name: "MaxFocalLength", conv: Conv::AsIs },
        TagDef { id: 0x1406, name: "MaxApertureAtMinFocal", conv: Conv::AsIs },
        TagDef { id: 0x1407, name: "MaxApertureAtMaxFocal", conv: Conv::AsIs },
        TagDef { id: 0x140b, name: "AutoDynamicRange", conv: Conv::AsIs },
        TagDef { id: 0x1443, name: "DRangePriority", conv: Conv::AsIs },
        TagDef { id: 0x1444, name: "DRangePriorityAuto", conv: Conv::AsIs },
        TagDef { id: 0x1445, name: "DRangePriorityFixed", conv: Conv::AsIs },
    ]
}

pub open spec fn table_defs(t: Table) -> Seq<TagDef> {
    match t {
        Table::Exif => exif_defs(),
        Table::Fuji => fuji_defs(),
    }
}

/// The first entry of a table with tag id `id`.
pub open spec fn find_def(s: Seq<TagDef>, id: u16) -> Option<TagDef>
    decreases s.len(),
{
    if s.len() == 0 {
        None
    } else if s[0].id == id {
        Some(s[0])
    } else {
        find_def(s.drop_first(), id)
    }
}

/// The first entry of a lookup table with key `k`.
pub open spec fn find_key(s: Seq<(i64, &'static str)>, k: i64) -> Option<&'static str>
    decreases s.len(),
{
    if s.len() == 0 {
        None
    } else if s[0].0 == k {
        Some(s[0].1)
    } else {
        find_key(s.drop_first(), k)
    }
}

/// The definition of tag `id` in `table`.
pub fn find(table: Table, id: u16) -> (r: Option<TagDef>)
    ensures
        r == find_def(table_defs(table), id),
{
    let t = match table {
        Table::Exif => exif_entries(),
        Table::Fuji => fuji_entries(),
    };
    let ghost s = t@;
    let mut i: usize = 0;
    assert(s.subrange(0, s.len() as int) =~= s);
    while i < t.len()
        invariant
            0 <= i <= t.len(),
            s == t@,
            s == table_defs(table),
            find_def(s, id) == find_def(s.subrange(i as int, s.len() as int), id),
        decreases t.len() - i,
    {
        assert(s.subrange(i + 1, s.len() as int) =~= s.subrange(i as int, s.len() as int).drop_first());
        if t[i].id == id {
            return Some(t[i]);
        }
        i += 1;
    }
    None
}

/// Look a number up in a lookup table.
pub fn lookup(l: Lookup, k: i64) -> (r: Option<&'static str>)
    ensures
        r == find_key(lookup_table(l), k),
{
    let t = lookup_entries(l);
    let ghost s = t@;
    let mut i: usize = 0;
    assert(s.subrange(0, s.len() as int) =~= s);
    while i < t.len()
        invariant
            0 <= i <= t.len(),
            s == t@,
            s == lookup_table(l),
            find_key(s, k) == find_key(s.subrange(i as int, s.len() as int), k),
        decreases t.len() - i,
    {
        assert(s.subrange(i + 1, s.len() as int) =~= s.subrange(i as int, s.len() as int).drop_first());
        if t[i].0 == k {
            return Some(t[i].1);
        }
        i += 1;
    }
    None
}

/// Whether the value reads as a single number, which is when a formatter that
/// works on numbers has something to work on.
pub open spec fn is_number(v: ValueV) -> bool {
    match v {
        ValueV::U32(_) | ValueV::I32(_) | ValueV::F32(_) | ValueV::F64(_) => true,
        ValueV::Ratio(_, d) => d != 0,
        _ => false,
    }
}

/// An integer with its sign always written: `+5`, `-3`, `+0`.
pub open spec fn dec_signed(i: int) -> Seq<char> {
    if i < 0 {
        dec_int(i)
    } else {
        seq!['+'] + dec_nat(i as nat)
    }
}

/// A 32-bit unsigned integer read as the signed one with the same bits.
pub open spec fn as_i32(v: u32) -> i32 {
    if v >= 0x8000_0000 {
        (v - 0x1_0000_0000) as i32
    } else {
        v as i32
    }
}

/// The white balance shift as `Red +40, Blue -100`, printed undivided; a
/// value that is not a pair has no such reading.
pub open spec fn wb_fine_tune(v: ValueV) -> Option<Seq<char>> {
    let pair: Option<(i32, i32)> = match v {
        ValueV::I32s(a) => if a.len() == 2 {
            Some((a[0], a[1]))
        } else {
            None
        },
        ValueV::U32s(a) => if a.len() == 2 {
            Some((as_i32(a[0]), as_i32(a[1])))
        } else {
            None
        },
        _ => None,
    };
    match pair {
        Some((r, b)) => Some("Red "@ + dec_signed(r as int) + ", Blue "@ + dec_signed(b as int)),
        None => None,
    }
}

/// What a formatter prints, where that needs no floating-point formatting.
///
/// `Some(Some(s))` is the text; `Some(None)` is a reading that is a
/// floating-point rendering of the number; `None` means the formatter has no
/// reading of this value and the default rendering stands.
pub open spec fn formatted(f: Formatter, v: ValueV) -> Option<Option<Seq<char>>> {
    match f {
        Formatter::WbFineTune => match wb_fine_tune(v) {
            Some(s) => Some(Some(s)),
            None => None,
        },
        Formatter::FNumber => if v matches ValueV::Ratio(_, 0) {
            Some(Some("undef"@))
        } else if is_number(v) {
            Some(None)
        } else {
            None
        },
        _ => if is_number(v) {
            Some(None)
        } else {
            None
        },
    }
}

/// How a tag with conversion `conv` prints `v`, where that needs no
/// floating-point formatting; `None` where it does.
pub open spec fn print_exact(conv: Conv, v: ValueV) -> Option<Seq<char>> {
    match conv {
        Conv::AsIs => display_exact(v),
        Conv::Lookup(l) => match as_i64(v) {
            Some(k) => match find_key(lookup_table(l), k) {
                Some(s) => Some(s@),
                None => display_exact(v),
            },
            None => display_exact(v),
        },
        Conv::Fn(f) => match formatted(f, v) {
            Some(r) => r,
            None => display_exact(v),
        },
    }
}

/// Append `n` with its sign always written.
fn push_signed(out: &mut String, n: i32)
    ensures
        final(out)@ == old(out)@ + dec_signed(n as int),
{
    if n < 0 {
        push_int(out, n as i64);
    } else {
        push_char(out, '+');
        push_dec(out, n as u64);
        assert(old(out)@.push('+') + dec_nat(n as nat) =~= old(out)@ + (seq!['+'] + dec_nat(
            n as nat,
        )));
    }
}

fn to_i32(v: u32) -> (r: i32)
    ensures
        r == as_i32(v),
{
    if v >= 0x8000_0000 {
        (v - 0x8000_0000) as i32 - 0x4000_0000 - 0x4000_0000
    } else {
        v as i32
    }
}

/// Fujifilm writes the white balance shift as two signed longs.
///
/// Printed undivided: `Red +40, Blue -100`. Newer bodies step it in units of
/// 20 per menu click, and a caller who wants menu units can divide.
pub fn wb_fine_tune_text(v: &Value) -> (r: Option<String>)
    ensures
        match r {
            Some(s) => wb_fine_tune(v@) == Some(s@),
            None => wb_fine_tune(v@) is None,
        },
{
    let (r, b) = match v {
        Value::I32s(a) if a.len() == 2 => (a[0], a[1]),
        Value::U32s(a) if a.len() == 2 => (to_i32(a[0]), to_i32(a[1])),
        _ => return None,
    };
    let mut s = String::from_str("Red ");
    push_signed(&mut s, r);
    s.append(", Blue ");
    push_signed(&mut s, b);
    Some(s)
}

/// The Fujifilm tags that print through a formatter on top of the table.
pub open spec fn override_of(id: u16) -> Option<Formatter> {
    if id == 0x100a {
        Some(Formatter::WbFineTune)
    } else {
        None
    }
}

/// Fujifilm tags needing a formatter rather than a lookup, applied on top of
/// the table.
pub fn fuji_override(id: u16) -> (r: Option<Formatter>)
    ensures
        r == override_of(id),
{
    if id == 0x100a {
        Some(Formatter::WbFineTune)
    } else {
        None
    }
}

/// What formatter `f` makes of `v`, in the terms of `formatted`.
pub fn format_with(f: Formatter, v: &Value) -> (r: Option<Option<String>>)
    ensures
        match r {
            Some(Some(s)) => formatted(f, v@) == Some(Some(s@)),
            Some(None) => formatted(f, v@) == Some(None::<Seq<char>>),
            None => formatted(f, v@) is None,
        },
{
    let number = match v {
        Value::U32(_) | Value::I32(_) | Value::F32(_) | Value::F64(_) => true,
        Value::Ratio(_, d) => *d != 0,
        _ => false,
    };
    match f {
        Formatter::WbFineTune => match wb_fine_tune_text(v) {
            Some(s) => Some(Some(s)),
            None => None,
        },
        Formatter::FNumber => {
            if let Value::Ratio(_, d) = v {
                if *d == 0 {
                    return Some(Some(String::from_str("undef")));
                }
            }
            if number {
                Some(None)
            } else {
                None
            }
        },
        _ => if number {
            Some(None)
        } else {
            None
        },
    }
}

impl TagDef {
    /// How this tag prints `v`, where that needs no floating-point formatting.
    ///
    /// An unknown code prints as a number rather than as a guess.
    pub fn print(&self, v: &Value) -> (r: Option<String>)
        requires
            v.ok(),
        ensures
            match r {
                Some(s) => print_exact(self.conv, v@) == Some(s@),
                None => print_exact(self.conv, v@) is None,
            },
    {
        match self.conv {
            Conv::AsIs => v.display_exact(),
            Conv::Lookup(m) => match v.as_i64() {
                Some(k) => match lookup(m, k) {
                    Some(s) => Some(String::from_str(s)),
                    None => v.display_exact(),
                },
                None => v.display_exact(),
            },
            Conv::Fn(f) => match format_with(f, v) {
                Some(r) => r,
                None => v.display_exact(),
            },
        }
    }
}

} // verus!
