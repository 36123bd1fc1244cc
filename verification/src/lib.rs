//! Read camera metadata out of straight-out-of-camera files.
//!
//! Built for a specific job: pull the fields a photographer cares about, and
//! the whole Fujifilm film recipe, out of JPEG, HEIF, RAF and DNG files without
//! reading gigabytes to do it. This crate is the part that decides: the
//! container walks, the TIFF and MakerNotes decoding, the tag tables, the
//! segment surgery that strips or grafts JPEG metadata, and the keyed record
//! merge. Opening files and formatting floating-point numbers happen around it.

use vstd::prelude::*;

pub mod bmff;
pub mod bytes;
pub mod compare;
pub mod float;
pub mod fuji;
pub mod fuji_gen;
pub mod jpeg;
pub mod json;
pub mod output;
pub mod raf;
pub mod site;
pub mod tags;
pub mod text;
pub mod tiff;
pub mod value;
pub mod walk;
pub mod write;

pub use value::Value;

use crate::tags::Conv;
use crate::value::ValueV;

verus! {

#[derive(Debug, Clone, Copy, PartialEq, Eq, Structural)]
pub enum Format {
    Jpeg,
    Heif,
    Raf,
    /// A TIFF-family file, which is what a Leica DNG is.
    Dng,
}

pub open spec fn format_name(f: Format) -> Seq<char> {
    match f {
        Format::Jpeg => "JPEG"@,
        Format::Heif => "HEIF"@,
        Format::Raf => "RAF"@,
        Format::Dng => "DNG"@,
    }
}

impl Format {
    pub fn as_str(self) -> (r: &'static str)
        ensures
            r@ == format_name(self),
    {
        match self {
            Format::Jpeg => "JPEG",
            Format::Heif => "HEIF",
            Format::Raf => "RAF",
            Format::Dng => "DNG",
        }
    }
}

#[derive(Debug, Clone, Copy, PartialEq, Eq, Structural)]
pub enum Group {
    /// Facts about the file rather than about the exposure.
    File,
    Exif,
    /// Fujifilm MakerNotes.
    Fuji,
}

pub open spec fn group_name(g: Group) -> Seq<char> {
    match g {
        Group::File => "File"@,
        Group::Exif => "EXIF"@,
        Group::Fuji => "FujiFilm"@,
    }
}

impl Group {
    pub fn as_str(self) -> (r: &'static str)
        ensures
            r@ == group_name(self),
    {
        match self {
            Group::File => "File",
            Group::Exif => "EXIF",
            Group::Fuji => "FujiFilm",
        }
    }
}

#[derive(Debug, Clone)]
pub struct Tag {
    pub group: Group,
    pub name: &'static str,
    /// The value as the file stores it.
    pub value: Value,
    /// The value as a person reads it.
    pub print: String,
}

pub struct TagV {
    pub group: Group,
    pub name: Seq<char>,
    pub value: ValueV,
    pub print: Seq<char>,
}

impl View for Tag {
    type V = TagV;

    open spec fn view(&self) -> TagV {
        TagV { group: self.group, name: self.name@, value: self.value@, print: self.print@ }
    }
}

/// A decoded tag whose printed form may still be owed.
///
/// `print` is `None` exactly where the reading needs floating-point
/// formatting; `conv` is the conversion that reading goes through.
#[derive(Debug)]
pub struct Reading {
    pub group: Group,
    pub name: &'static str,
    pub value: Value,
    pub print: Option<String>,
    pub conv: Conv,
}

pub struct ReadingV {
    pub group: Group,
    pub name: Seq<char>,
    pub value: ValueV,
    pub print: Option<Seq<char>>,
    pub conv: Conv,
}

pub open spec fn opt_view(o: Option<String>) -> Option<Seq<char>> {
    match o {
        Some(s) => Some(s@),
        None => None,
    }
}

impl View for Reading {
    type V = ReadingV;

    open spec fn view(&self) -> ReadingV {
        ReadingV {
            group: self.group,
            name: self.name@,
            value: self.value@,
            print: opt_view(self.print),
            conv: self.conv,
        }
    }
}

pub fn copy_opt_string(o: &Option<String>) -> (r: Option<String>)
    ensures
        opt_view(r) == opt_view(*o),
{
    match o {
        Some(s) => Some(s.clone()),
        None => None,
    }
}

impl Reading {
    /// A copy with the same view.
    pub fn duplicate(&self) -> (r: Reading)
        ensures
            r@ == self@,
    {
        Reading {
            group: self.group,
            name: self.name,
            value: self.value.duplicate(),
            print: copy_opt_string(&self.print),
            conv: self.conv,
        }
    }
}

pub open spec fn readings_view(s: Seq<Reading>) -> Seq<ReadingV> {
    s.map_values(|r: Reading| r@)
}

pub open spec fn tags_view(s: Seq<Tag>) -> Seq<TagV> {
    s.map_values(|t: Tag| t@)
}

} // verus!

verus! {

// ------------------------------------------------------------ the containers

/// JPEG SOI.
pub open spec fn sig_soi() -> Seq<u8> {
    seq![0xFFu8, 0xD8]
}

/// "ftyp"
pub open spec fn sig_ftyp() -> Seq<u8> {
    seq![0x66u8, 0x74, 0x79, 0x70]
}

/// TIFF magic, little-endian and big-endian.
pub open spec fn sig_tiff_le() -> Seq<u8> {
    seq![0x49u8, 0x49, 0x2A, 0x00]
}

pub open spec fn sig_tiff_be() -> Seq<u8> {
    seq![0x4Du8, 0x4D, 0x00, 0x2A]
}

/// Which container the first bytes of a file announce.
pub open spec fn sniff_spec(head: Seq<u8>) -> Option<Format> {
    if crate::bytes::starts_with(head, sig_soi()) {
        Some(Format::Jpeg)
    } else if crate::bytes::starts_with(head, crate::fuji::sig_fujifilm()) {
        Some(Format::Raf)
    } else if head.len() < 8 {
        None
    } else if head.subrange(4, 8) == sig_ftyp() {
        Some(Format::Heif)
    } else if crate::bytes::starts_with(head, sig_tiff_le()) || crate::bytes::starts_with(
        head,
        sig_tiff_be(),
    ) {
        // A DNG is a TIFF, which is why Leica raw needs no container
        // handling of its own.
        Some(Format::Dng)
    } else {
        None
    }
}

/// Which container the first bytes of a file announce.
pub fn sniff(head: &[u8]) -> (r: Option<Format>)
    ensures
        r == sniff_spec(head@),
{
    let soi = [0xFFu8, 0xD8];
    let raf = [0x46u8, 0x55, 0x4a, 0x49, 0x46, 0x49, 0x4c, 0x4d];
    let ftyp = [0x66u8, 0x74, 0x79, 0x70];
    let le = [0x49u8, 0x49, 0x2A, 0x00];
    let be = [0x4Du8, 0x4D, 0x00, 0x2A];
    assert(soi@ == sig_soi());
    assert(raf@ == crate::fuji::sig_fujifilm());
    assert(ftyp@ == sig_ftyp());
    assert(le@ == sig_tiff_le());
    assert(be@ == sig_tiff_be());
    if crate::bytes::has_prefix(head, &soi) {
        return Some(Format::Jpeg);
    }
    if crate::bytes::has_prefix(head, &raf) {
        return Some(Format::Raf);
    }
    if head.len() < 8 {
        return None;
    }
    if crate::bytes::bytes_at(head, 4, &ftyp) {
        return Some(Format::Heif);
    }
    if crate::bytes::has_prefix(head, &le) || crate::bytes::has_prefix(head, &be) {
        return Some(Format::Dng);
    }
    None
}

pub open spec fn mime_spec(f: Format) -> Seq<char> {
    match f {
        Format::Jpeg => "image/jpeg"@,
        Format::Heif => "image/heif"@,
        Format::Raf => "image/x-fujifilm-raf"@,
        Format::Dng => "image/x-adobe-dng"@,
    }
}

pub fn mime(f: Format) -> (r: &'static str)
    ensures
        r@ == mime_spec(f),
{
    match f {
        Format::Jpeg => "image/jpeg",
        Format::Heif => "image/heif",
        Format::Raf => "image/x-fujifilm-raf",
        Format::Dng => "image/x-adobe-dng",
    }
}

// ------------------------------------------------------- which files to read

/// The extensions of the files a directory scan picks up.
pub open spec fn image_exts() -> Seq<Seq<char>> {
    seq!["jpg"@, "jpeg"@, "heif"@, "heic"@, "hif"@, "raf"@]
}

// ----------------------------------------------------------- the File group

pub open spec fn text_reading(group: Group, name: Seq<char>, s: Seq<char>) -> ReadingV {
    ReadingV {
        group: group,
        name: name,
        value: ValueV::Text(s),
        print: Some(s),
        conv: Conv::AsIs,
    }
}

/// The File group: what the filesystem and the container say, rather than
/// what the camera wrote. `size_text` is the readable form of the size,
/// "10 MB" for 10438475 bytes.
pub open spec fn file_tags_spec(
    name: Option<Seq<char>>,
    dir: Option<Seq<char>>,
    bytes: u64,
    size_text: Seq<char>,
    format: Format,
) -> Seq<ReadingV> {
    let a: Seq<ReadingV> = match name {
        Some(n) => seq![text_reading(Group::File, "FileName"@, n)],
        None => Seq::empty(),
    };
    let b: Seq<ReadingV> = match dir {
        Some(d) => seq![
            text_reading(
                Group::File,
                "Directory"@,
                if d.len() == 0 {
                    "."@
                } else {
                    d
                },
            ),
        ],
        None => Seq::empty(),
    };
    a + b + seq![
        ReadingV {
            group: Group::File,
            name: "FileSize"@,
            value: ValueV::U32(bytes as u32),
            print: Some(size_text),
            conv: Conv::AsIs,
        },
        text_reading(Group::File, "FileType"@, format_name(format)),
        text_reading(Group::File, "MIMEType"@, mime_spec(format)),
    ]
}

fn text_tag(group: Group, name: &'static str, s: String) -> (r: Reading)
    ensures
        r@ == text_reading(group, name@, s@),
{
    let p = s.clone();
    Reading { group, name, value: Value::Text(s), print: Some(p), conv: Conv::AsIs }
}

/// The File group, for a file called `name` in directory `dir`, `bytes`
/// long, whose size reads as `size_text`.
pub fn file_tags(
    name: Option<String>,
    dir: Option<String>,
    bytes: u64,
    size_text: String,
    format: Format,
) -> (r: Vec<Reading>)
    ensures
        readings_view(r@) == file_tags_spec(
            opt_view(name),
            opt_view(dir),
            bytes,
            size_text@,
            format,
        ),
{
    let mut out: Vec<Reading> = Vec::new();
    if let Some(n) = name {
        out.push(text_tag(Group::File, "FileName", n));
    }
    if let Some(d) = dir {
        let d = if d.as_str().is_empty() {
            String::from_str(".")
        } else {
            d
        };
        out.push(text_tag(Group::File, "Directory", d));
    }
    out.push(
        Reading {
            group: Group::File,
            name: "FileSize",
            value: Value::U32(bytes as u32),
            print: Some(size_text),
            conv: Conv::AsIs,
        },
    );
    out.push(text_tag(Group::File, "FileType", String::from_str(format.as_str())));
    out.push(text_tag(Group::File, "MIMEType", String::from_str(mime(format))));
    assert(readings_view(out@) =~= file_tags_spec(
        opt_view(name),
        opt_view(dir),
        bytes,
        size_text@,
        format,
    ));
    out
}

} // verus!

verus! {

// ----------------------------------------------------------------- the tags

impl Tag {
    /// A copy with the same view.
    pub fn duplicate(&self) -> (r: Tag)
        ensures
            r@ == self@,
    {
        Tag {
            group: self.group,
            name: self.name,
            value: self.value.duplicate(),
            print: self.print.clone(),
        }
    }
}

pub open spec fn has_name(s: Seq<TagV>, name: Seq<char>) -> bool {
    exists|i: int| 0 <= i < s.len() && #[trigger] s[i].name == name
}

/// The first tag named `name`, whatever its group.
pub open spec fn first_named(s: Seq<TagV>, name: Seq<char>) -> Option<TagV>
    decreases s.len(),
{
    if s.len() == 0 {
        None
    } else if s[0].name == name {
        Some(s[0])
    } else {
        first_named(s.drop_first(), name)
    }
}

/// The first tag named `name` in group `g`.
pub open spec fn first_in(s: Seq<TagV>, g: Group, name: Seq<char>) -> Option<TagV>
    decreases s.len(),
{
    if s.len() == 0 {
        None
    } else if s[0].group == g && s[0].name == name {
        Some(s[0])
    } else {
        first_in(s.drop_first(), g, name)
    }
}

pub open spec fn matches_tag(t: TagV, g: Option<Group>, name: Seq<char>) -> bool {
    t.name == name && match g {
        Some(g) => t.group == g,
        None => true,
    }
}

/// The first of `s` that `matches_tag`.
pub open spec fn first_match(s: Seq<TagV>, g: Option<Group>, name: Seq<char>) -> Option<TagV> {
    match g {
        Some(g) => first_in(s, g, name),
        None => first_named(s, name),
    }
}

/// The index of the first tag named `name` (in group `g`, when given).
pub fn find_tag(tags: &Vec<Tag>, g: Option<Group>, name: &str) -> (r: Option<usize>)
    ensures
        match r {
            Some(i) => i < tags@.len() && first_match(tags_view(tags@), g, name@) == Some(
                tags@[i as int]@,
            ),
            None => first_match(tags_view(tags@), g, name@) is None,
        },
        r is None <==> !exists|i: int|
            0 <= i < tags@.len() && matches_tag(#[trigger] tags@[i]@, g, name@),
{
    let ghost tv = tags_view(tags@);
    let mut i: usize = 0;
    assert(tv.subrange(0, tv.len() as int) =~= tv);
    while i < tags.len()
        invariant
            0 <= i <= tags@.len(),
            tv == tags_view(tags@),
            first_match(tv, g, name@) == first_match(tv.subrange(i as int, tv.len() as int), g, name@),
            forall|j: int| 0 <= j < i ==> !matches_tag(#[trigger] tags@[j]@, g, name@),
        decreases tags.len() - i,
    {
        assert(tv.subrange(i + 1, tv.len() as int) =~= tv.subrange(
            i as int,
            tv.len() as int,
        ).drop_first());
        let hit = crate::text::str_eq(tags[i].name, name) && match g {
            Some(g) => tags[i].group == g,
            None => true,
        };
        if hit {
            return Some(i);
        }
        i += 1;
    }
    assert(tv.subrange(i as int, tv.len() as int) =~= Seq::<TagV>::empty());
    None
}

pub open spec fn file_size_tag(name: Seq<char>, v: u32) -> TagV {
    TagV {
        group: Group::File,
        name: name,
        value: ValueV::U32(v),
        print: crate::text::dec_nat(v as nat),
    }
}

/// The image size from the JPEG frame header, where the tags hold none yet.
pub open spec fn push_size_spec(s: Seq<TagV>, w: u32, h: u32) -> Seq<TagV> {
    let s1 = if has_name(s, "ImageWidth"@) {
        s
    } else {
        s.push(file_size_tag("ImageWidth"@, w))
    };
    if has_name(s1, "ImageHeight"@) {
        s1
    } else {
        s1.push(file_size_tag("ImageHeight"@, h))
    }
}

fn push_tag(tags: &mut Vec<Tag>, t: Tag)
    ensures
        tags_view(final(tags)@) == tags_view(old(tags)@).push(t@),
{
    tags.push(t);
    assert(tags_view(tags@) =~= tags_view(old(tags)@).push(t@));
}

pub fn push_size(tags: &mut Vec<Tag>, w: u32, h: u32)
    ensures
        tags_view(final(tags)@) == push_size_spec(tags_view(old(tags)@), w, h),
{
    if find_tag(tags, None, "ImageWidth").is_none() {
        assert(!has_name(tags_view(tags@), "ImageWidth"@)) by {
            if has_name(tags_view(tags@), "ImageWidth"@) {
                let i = choose|i: int|
                    0 <= i < tags_view(tags@).len() && #[trigger] tags_view(tags@)[i].name
                        == "ImageWidth"@;
                assert(matches_tag(tags@[i]@, None, "ImageWidth"@));
            }
        }
        push_tag(
            tags,
            Tag {
                group: Group::File,
                name: "ImageWidth",
                value: Value::U32(w),
                print: crate::text::dec_string(w as u64),
            },
        );
    } else {
        assert(has_name(tags_view(tags@), "ImageWidth"@)) by {
            let i = choose|i: int|
                0 <= i < tags@.len() && matches_tag(#[trigger] tags@[i]@, None, "ImageWidth"@);
            assert(tags_view(tags@)[i].name == "ImageWidth"@);
        }
    }
    let ghost s1 = tags_view(tags@);
    if find_tag(tags, None, "ImageHeight").is_none() {
        assert(!has_name(s1, "ImageHeight"@)) by {
            if has_name(s1, "ImageHeight"@) {
                let i = choose|i: int| 0 <= i < s1.len() && #[trigger] s1[i].name == "ImageHeight"@;
                assert(matches_tag(tags@[i]@, None, "ImageHeight"@));
            }
        }
        push_tag(
            tags,
            Tag {
                group: Group::File,
                name: "ImageHeight",
                value: Value::U32(h),
                print: crate::text::dec_string(h as u64),
            },
        );
    } else {
        assert(has_name(s1, "ImageHeight"@)) by {
            let i = choose|i: int|
                0 <= i < tags@.len() && matches_tag(#[trigger] tags@[i]@, None, "ImageHeight"@);
            assert(s1[i].name == "ImageHeight"@);
        }
    }
}

/// The File-group copy of tag `from` under name `to`, when `to` is not there
/// yet and `from` is.
pub open spec fn mirror(s: Seq<TagV>, from: Seq<char>, to: Seq<char>) -> Seq<TagV> {
    if has_name(s, to) {
        Seq::empty()
    } else {
        match first_named(s, from) {
            Some(t) => seq![TagV { group: Group::File, name: to, value: t.value, print: t.print }],
            None => Seq::empty(),
        }
    }
}

/// ExifTool reports ImageWidth and ImageHeight in the File group, taken from
/// the image data. Where the frame header is not read, the EXIF pair is
/// mirrored.
pub open spec fn add_image_size_spec(s: Seq<TagV>) -> Seq<TagV> {
    s + mirror(s, "ExifImageWidth"@, "ImageWidth"@) + mirror(s, "ExifImageHeight"@, "ImageHeight"@)
}

fn mirror_tag(tags: &Vec<Tag>, from: &str, to: &'static str) -> (r: Option<Tag>)
    ensures
        match r {
            Some(t) => mirror(tags_view(tags@), from@, to@) == seq![t@],
            None => mirror(tags_view(tags@), from@, to@) == Seq::<TagV>::empty(),
        },
{
    let ghost tv = tags_view(tags@);
    if find_tag(tags, None, to).is_some() {
        assert(has_name(tv, to@)) by {
            let i = choose|i: int| 0 <= i < tags@.len() && matches_tag(#[trigger] tags@[i]@, None, to@);
            assert(tv[i].name == to@);
        }
        return None;
    }
    assert(!has_name(tv, to@)) by {
        if has_name(tv, to@) {
            let i = choose|i: int| 0 <= i < tv.len() && #[trigger] tv[i].name == to@;
            assert(matches_tag(tags@[i]@, None, to@));
        }
    }
    match find_tag(tags, None, from) {
        Some(i) => Some(
            Tag {
                group: Group::File,
                name: to,
                value: tags[i].value.duplicate(),
                print: tags[i].print.clone(),
            },
        ),
        None => None,
    }
}

pub fn add_image_size(tags: &mut Vec<Tag>)
    ensures
        tags_view(final(tags)@) == add_image_size_spec(tags_view(old(tags)@)),
{
    let w = mirror_tag(tags, "ExifImageWidth", "ImageWidth");
    let h = mirror_tag(tags, "ExifImageHeight", "ImageHeight");
    let ghost s = tags_view(tags@);
    if let Some(t) = w {
        push_tag(tags, t);
    }
    let ghost s1 = tags_view(tags@);
    assert(s1 =~= s + mirror(s, "ExifImageWidth"@, "ImageWidth"@));
    if let Some(t) = h {
        push_tag(tags, t);
    }
    assert(tags_view(tags@) =~= add_image_size_spec(s));
}

/// A RAF writes its model into the container header as well as into the
/// embedded EXIF, which is the only source if the embedded JPEG is short.
pub open spec fn add_model_spec(s: Seq<TagV>, model: Option<Seq<char>>) -> Seq<TagV> {
    match model {
        Some(m) => if m.len() > 0 && !has_name(s, "Model"@) {
            s.push(TagV { group: Group::Exif, name: "Model"@, value: ValueV::Text(m), print: m })
        } else {
            s
        },
        None => s,
    }
}

/// What the frame header and the container header add to the tags walked out
/// of the EXIF: the JPEG frame size, the mirrored EXIF size where the frame is
/// not read (not for RAF, whose EXIF describes the preview), and a RAF's
/// header model.
pub open spec fn complete_spec(
    s: Seq<TagV>,
    format: Format,
    sof: Option<(u32, u32)>,
    model: Option<Seq<char>>,
) -> Seq<TagV> {
    let s1 = match sof {
        Some((w, h)) => if format == Format::Jpeg {
            push_size_spec(s, w, h)
        } else {
            s
        },
        None => s,
    };
    let s2 = if format != Format::Raf {
        add_image_size_spec(s1)
    } else {
        s1
    };
    add_model_spec(s2, model)
}

pub fn complete_tags(
    tags: &mut Vec<Tag>,
    format: Format,
    sof: Option<(u32, u32)>,
    model: Option<String>,
)
    ensures
        tags_view(final(tags)@) == complete_spec(tags_view(old(tags)@), format, sof, opt_view(model)),
{
    // The SOF is authoritative for a JPEG and is the only source when the
    // file carries no EXIF dimensions.
    if format == Format::Jpeg {
        if let Some((w, h)) = sof {
            push_size(tags, w, h);
        }
    }
    // Not for RAF. ExifTool reports the RAW frame size there, read out of the
    // RAF header's CFA block, while the EXIF inside describes the embedded
    // JPEG preview. Mirroring the preview's size would put a confidently
    // wrong number under the name a caller trusts.
    if format != Format::Raf {
        add_image_size(tags);
    }
    if let Some(m) = model {
        if !m.as_str().is_empty() {
            let ghost s = tags_view(tags@);
            if find_tag(tags, None, "Model").is_none() {
                assert(!has_name(s, "Model"@)) by {
                    if has_name(s, "Model"@) {
                        let i = choose|i: int| 0 <= i < s.len() && #[trigger] s[i].name == "Model"@;
                        assert(matches_tag(tags@[i]@, None, "Model"@));
                    }
                }
                let p = m.clone();
                push_tag(tags, Tag { group: Group::Exif, name: "Model", value: Value::Text(m), print: p });
            } else {
                assert(has_name(s, "Model"@)) by {
                    let i = choose|i: int|
                        0 <= i < tags@.len() && matches_tag(#[trigger] tags@[i]@, None, "Model"@);
                    assert(s[i].name == "Model"@);
                }
            }
        }
    }
}

} // verus!

verus! {

// ---------------------------------------------------------------- the photo

#[derive(Debug, Clone)]
pub struct Photo {
    pub path: String,
    pub format: Format,
    pub tags: Vec<Tag>,
}

/// The in-camera settings that make a Fujifilm JPEG look the way it does.
///
/// Every field is optional and nothing is invented: a body that does not write
/// grain leaves grain `None` rather than reporting "Off".
#[derive(Debug, Clone, Default)]
pub struct Recipe {
    pub film_simulation: Option<String>,
    pub dynamic_range: Option<String>,
    pub grain: Option<String>,
    pub grain_size: Option<String>,
    pub color_chrome: Option<String>,
    pub color_chrome_fx_blue: Option<String>,
    pub white_balance: Option<String>,
    pub white_balance_shift: Option<String>,
    pub color_temperature: Option<u32>,
    pub highlight: Option<String>,
    pub shadow: Option<String>,
    pub color: Option<String>,
    pub sharpness: Option<String>,
    pub noise_reduction: Option<String>,
    pub clarity: Option<String>,
}

pub struct RecipeV {
    pub film_simulation: Option<Seq<char>>,
    pub dynamic_range: Option<Seq<char>>,
    pub grain: Option<Seq<char>>,
    pub grain_size: Option<Seq<char>>,
    pub color_chrome: Option<Seq<char>>,
    pub color_chrome_fx_blue: Option<Seq<char>>,
    pub white_balance: Option<Seq<char>>,
    pub white_balance_shift: Option<Seq<char>>,
    pub color_temperature: Option<u32>,
    pub highlight: Option<Seq<char>>,
    pub shadow: Option<Seq<char>>,
    pub color: Option<Seq<char>>,
    pub sharpness: Option<Seq<char>>,
    pub noise_reduction: Option<Seq<char>>,
    pub clarity: Option<Seq<char>>,
}

impl View for Recipe {
    type V = RecipeV;

    open spec fn view(&self) -> RecipeV {
        RecipeV {
            film_simulation: opt_view(self.film_simulation),
            dynamic_range: opt_view(self.dynamic_range),
            grain: opt_view(self.grain),
            grain_size: opt_view(self.grain_size),
            color_chrome: opt_view(self.color_chrome),
            color_chrome_fx_blue: opt_view(self.color_chrome_fx_blue),
            white_balance: opt_view(self.white_balance),
            white_balance_shift: opt_view(self.white_balance_shift),
            color_temperature: self.color_temperature,
            highlight: opt_view(self.highlight),
            shadow: opt_view(self.shadow),
            color: opt_view(self.color),
            sharpness: opt_view(self.sharpness),
            noise_reduction: opt_view(self.noise_reduction),
            clarity: opt_view(self.clarity),
        }
    }
}

/// Every value can be asked for its integer reading.
/// A tag, where there is one, whose integer reading does not overflow.
pub open spec fn int_readable(t: Option<TagV>) -> bool {
    t matches Some(x) ==> crate::value::value_ok(x.value)
}

/// The integer readings `Photo::dimensions` takes do not overflow: the
/// EXIF width; the EXIF height where the width reads as a number; the
/// Orientation where both do.
pub open spec fn dimensions_readable(s: Seq<TagV>) -> bool {
    let w = first_named(s, "ExifImageWidth"@);
    let h = first_named(s, "ExifImageHeight"@);
    &&& int_readable(w)
    &&& (int_of(w) is Some ==> int_readable(h))
    &&& (int_of(w) is Some && int_of(h) is Some ==> int_readable(first_named(s, "Orientation"@)))
}

/// The integer reading `Photo::recipe` takes, the Fujifilm colour
/// temperature, does not overflow.
pub open spec fn recipe_readable(s: Seq<TagV>) -> bool {
    int_readable(first_in(s, Group::Fuji, "ColorTemperature"@))
}

pub open spec fn print_of(t: Option<TagV>) -> Option<Seq<char>> {
    match t {
        Some(t) => Some(t.print),
        None => None,
    }
}

/// "FUJIFILM X-T50": the Make, then the Model when there is one.
pub open spec fn camera_spec(s: Seq<TagV>) -> Option<Seq<char>> {
    match first_in(s, Group::Exif, "Make"@) {
        None => None,
        Some(make) => match first_in(s, Group::Exif, "Model"@) {
            Some(m) => Some(make.print + " "@ + m.print),
            None => Some(make.print),
        },
    }
}

/// The lens name, when one is recorded and is not empty.
pub open spec fn lens_spec(s: Seq<TagV>) -> Option<Seq<char>> {
    match first_named(s, "LensModel"@) {
        Some(t) => if t.print.len() > 0 {
            Some(t.print)
        } else {
            None
        },
        None => None,
    }
}

pub open spec fn int_of(t: Option<TagV>) -> Option<i64> {
    match t {
        Some(t) => crate::value::as_i64(t.value),
        None => None,
    }
}

/// Orientations 5 to 8 turn the frame a quarter.
pub open spec fn rotated(s: Seq<TagV>) -> bool {
    match int_of(first_named(s, "Orientation"@)) {
        Some(o) => 5 <= o <= 8,
        None => false,
    }
}

/// Pixel dimensions as a viewer shows them: the EXIF pair, swapped when the
/// Orientation turns the frame a quarter.
pub open spec fn dimensions_spec(s: Seq<TagV>) -> Option<(u32, u32)> {
    match (int_of(first_named(s, "ExifImageWidth"@)), int_of(first_named(s, "ExifImageHeight"@))) {
        (Some(w), Some(h)) => if rotated(s) {
            Some((h as u32, w as u32))
        } else {
            Some((w as u32, h as u32))
        },
        _ => None,
    }
}

/// A viewer's dimensions are the stored EXIF pair, width first, except
/// under the four Orientation values 5 to 8 that turn the frame a quarter,
/// where they are the same pair swapped. Any other Orientation (a mirror, a
/// half turn), or none, keeps the stored pair.
pub proof fn law_only_a_quarter_turn_swaps_the_dimensions(s: Seq<TagV>, w: i64, h: i64)
    requires
        int_of(first_named(s, "ExifImageWidth"@)) == Some(w),
        int_of(first_named(s, "ExifImageHeight"@)) == Some(h),
    ensures
        (int_of(first_named(s, "Orientation"@)) matches Some(o) && 5 <= o <= 8) ==> dimensions_spec(s)
            == Some((h as u32, w as u32)),
        !(int_of(first_named(s, "Orientation"@)) matches Some(o) && 5 <= o <= 8) ==> dimensions_spec(s)
            == Some((w as u32, h as u32)),
{
}

pub open spec fn has_group(s: Seq<TagV>, g: Group) -> bool {
    exists|i: int| 0 <= i < s.len() && #[trigger] s[i].group == g
}

pub open spec fn fuji_text(s: Seq<TagV>, name: Seq<char>) -> Option<Seq<char>> {
    print_of(first_in(s, Group::Fuji, name))
}

/// The Fujifilm recipe: each line the printed form of its MakerNotes tag, and
/// no recipe at all for a frame with no Fujifilm tags.
pub open spec fn recipe_spec(s: Seq<TagV>) -> Option<RecipeV> {
    if !has_group(s, Group::Fuji) {
        None
    } else {
        Some(
            RecipeV {
                film_simulation: fuji_text(s, "FilmMode"@),
                dynamic_range: fuji_text(s, "DynamicRange"@),
                grain: fuji_text(s, "GrainEffectRoughness"@),
                grain_size: fuji_text(s, "GrainEffectSize"@),
                color_chrome: fuji_text(s, "ColorChromeEffect"@),
                color_chrome_fx_blue: fuji_text(s, "ColorChromeFXBlue"@),
                white_balance: fuji_text(s, "WhiteBalance"@),
                white_balance_shift: fuji_text(s, "WhiteBalanceFineTune"@),
                color_temperature: match int_of(first_in(s, Group::Fuji, "ColorTemperature"@)) {
                    Some(v) => Some(v as u32),
                    None => None,
                },
                highlight: fuji_text(s, "HighlightTone"@),
                shadow: fuji_text(s, "ShadowTone"@),
                color: fuji_text(s, "Saturation"@),
                sharpness: fuji_text(s, "Sharpness"@),
                noise_reduction: fuji_text(s, "NoiseReduction"@),
                clarity: fuji_text(s, "Clarity"@),
            },
        )
    }
}

pub(crate) fn tag_readable(t: Option<&Tag>) -> (r: bool)
    ensures
        r == int_readable(match t {
            Some(x) => Some(x@),
            None => None,
        }),
{
    match t {
        Some(x) => match &x.value {
            Value::Ratio(n, d) => !(*n == i64::MIN && *d == -1),
            _ => true,
        },
        None => true,
    }
}

impl Photo {
    /// Whether `dimensions` can read this photo: false only where a tag it
    /// reads as an integer is a rational whose quotient overflows,
    /// `i64::MIN / -1`.
    pub fn dimensions_readable(&self) -> (r: bool)
        ensures
            r == dimensions_readable(tags_view(self.tags@)),
    {
        if !tag_readable(self.get("ExifImageWidth")) {
            return false;
        }
        if self.number("ExifImageWidth").is_none() {
            return true;
        }
        if !tag_readable(self.get("ExifImageHeight")) {
            return false;
        }
        if self.number("ExifImageHeight").is_none() {
            return true;
        }
        tag_readable(self.get("Orientation"))
    }

    /// Whether `recipe` can read this photo: false only where the Fujifilm
    /// colour temperature is a rational whose quotient overflows.
    pub fn recipe_readable(&self) -> (r: bool)
        ensures
            r == recipe_readable(tags_view(self.tags@)),
    {
        tag_readable(self.get_in(Group::Fuji, "ColorTemperature"))
    }

    pub fn get(&self, name: &str) -> (r: Option<&Tag>)
        ensures
            match r {
                Some(t) => first_named(tags_view(self.tags@), name@) == Some(t@),
                None => first_named(tags_view(self.tags@), name@) is None,
            },
    {
        match find_tag(&self.tags, None, name) {
            Some(i) => Some(&self.tags[i]),
            None => None,
        }
    }

    pub fn get_in(&self, group: Group, name: &str) -> (r: Option<&Tag>)
        ensures
            match r {
                Some(t) => first_in(tags_view(self.tags@), group, name@) == Some(t@),
                None => first_in(tags_view(self.tags@), group, name@) is None,
            },
    {
        match find_tag(&self.tags, Some(group), name) {
            Some(i) => Some(&self.tags[i]),
            None => None,
        }
    }

    pub fn text(&self, name: &str) -> (r: Option<String>)
        ensures
            opt_view(r) == print_of(first_named(tags_view(self.tags@), name@)),
    {
        match self.get(name) {
            Some(t) => Some(t.print.clone()),
            None => None,
        }
    }

    pub fn fuji(&self, name: &str) -> (r: Option<String>)
        ensures
            opt_view(r) == fuji_text(tags_view(self.tags@), name@),
    {
        match self.get_in(Group::Fuji, name) {
            Some(t) => Some(t.print.clone()),
            None => None,
        }
    }

    /// "FUJIFILM X-T50", or whatever the two tags say together.
    pub fn camera(&self) -> (r: Option<String>)
        ensures
            opt_view(r) == camera_spec(tags_view(self.tags@)),
    {
        let mut make = match self.get_in(Group::Exif, "Make") {
            Some(t) => t.print.clone(),
            None => return None,
        };
        match self.get_in(Group::Exif, "Model") {
            Some(m) => {
                make.append(" ");
                make.append(m.print.as_str());
                Some(make)
            },
            None => Some(make),
        }
    }

    pub fn lens(&self) -> (r: Option<String>)
        ensures
            opt_view(r) == lens_spec(tags_view(self.tags@)),
    {
        match self.text("LensModel") {
            Some(s) => if s.as_str().is_empty() {
                None
            } else {
                Some(s)
            },
            None => None,
        }
    }

    pub fn number(&self, name: &str) -> (r: Option<i64>)
        requires
            int_readable(first_named(tags_view(self.tags@), name@)),
        ensures
            r == int_of(first_named(tags_view(self.tags@), name@)),
    {
        match find_tag(&self.tags, None, name) {
            Some(i) => {
                assert(tags_view(self.tags@)[i as int] == self.tags@[i as int]@);
                self.tags[i].value.as_i64()
            },
            None => None,
        }
    }

    /// The integer reading of the first tag named `name` in `group`.
    pub fn number_in(&self, group: Group, name: &str) -> (r: Option<i64>)
        requires
            int_readable(first_in(tags_view(self.tags@), group, name@)),
        ensures
            r == int_of(first_in(tags_view(self.tags@), group, name@)),
    {
        match find_tag(&self.tags, Some(group), name) {
            Some(i) => {
                assert(tags_view(self.tags@)[i as int] == self.tags@[i as int]@);
                self.tags[i].value.as_i64()
            },
            None => None,
        }
    }

    /// Pixel dimensions as a viewer shows them.
    ///
    /// Cameras write sensor-native landscape dimensions plus an Orientation
    /// tag, so a portrait frame is stored 7728x5152 and displayed 5152x7728.
    /// Reporting the stored pair is how a photo grid ends up with the wrong
    /// aspect ratio on every vertical shot.
    pub fn dimensions(&self) -> (r: Option<(u32, u32)>)
        requires
            dimensions_readable(tags_view(self.tags@)),
        ensures
            r == dimensions_spec(tags_view(self.tags@)),
    {
        let w = match self.number("ExifImageWidth") {
            Some(w) => w as u32,
            None => return None,
        };
        let h = match self.number("ExifImageHeight") {
            Some(h) => h as u32,
            None => return None,
        };
        let rotated = match self.number("Orientation") {
            Some(o) => 5 <= o && o <= 8,
            None => false,
        };
        Some(
            if rotated {
                (h, w)
            } else {
                (w, h)
            },
        )
    }

    /// The Fujifilm recipe, when the file has one.
    pub fn recipe(&self) -> (r: Option<Recipe>)
        requires
            recipe_readable(tags_view(self.tags@)),
        ensures
            match r {
                Some(rc) => recipe_spec(tags_view(self.tags@)) == Some(rc@),
                None => recipe_spec(tags_view(self.tags@)) is None,
            },
    {
        let ghost tv = tags_view(self.tags@);
        let mut any = false;
        let mut i: usize = 0;
        while i < self.tags.len()
            invariant
                0 <= i <= self.tags@.len(),
                tv == tags_view(self.tags@),
                any == exists|j: int| 0 <= j < i && #[trigger] tv[j].group == Group::Fuji,
            decreases self.tags.len() - i,
        {
            if self.tags[i].group == Group::Fuji {
                assert(tv[i as int].group == Group::Fuji);
                any = true;
            }
            i += 1;
        }
        if !any {
            return None;
        }
        let temperature = match find_tag(&self.tags, Some(Group::Fuji), "ColorTemperature") {
            Some(k) => {
                assert(tv[k as int] == self.tags@[k as int]@);
                match self.tags[k].value.as_i64() {
                    Some(v) => Some(v as u32),
                    None => None,
                }
            },
            None => None,
        };
        Some(
            Recipe {
                film_simulation: self.fuji("FilmMode"),
                dynamic_range: self.fuji("DynamicRange"),
                grain: self.fuji("GrainEffectRoughness"),
                grain_size: self.fuji("GrainEffectSize"),
                color_chrome: self.fuji("ColorChromeEffect"),
                color_chrome_fx_blue: self.fuji("ColorChromeFXBlue"),
                white_balance: self.fuji("WhiteBalance"),
                white_balance_shift: self.fuji("WhiteBalanceFineTune"),
                color_temperature: temperature,
                highlight: self.fuji("HighlightTone"),
                shadow: self.fuji("ShadowTone"),
                color: self.fuji("Saturation"),
                sharpness: self.fuji("Sharpness"),
                noise_reduction: self.fuji("NoiseReduction"),
                clarity: self.fuji("Clarity"),
            },
        )
    }
}

} // verus!

verus! {

// ---------------------------------------------------------------- the errors

/// `std::io::Error`, carried through untouched.
#[verifier::external_type_specification]
#[verifier::external_body]
pub struct ExIoError(std::io::Error);

#[derive(Debug)]
pub enum Error {
    Io(std::io::Error),
    /// The file is not one of the containers this reads.
    Unsupported,
    /// The container parsed but carries no EXIF.
    NoExif,
}

impl From<std::io::Error> for Error {
    fn from(e: std::io::Error) -> (r: Self) {
        Error::Io(e)
    }
}

impl vstd::std_specs::convert::FromSpecImpl<std::io::Error> for Error {
    open spec fn obeys_from_spec() -> bool {
        true
    }

    open spec fn from_spec(e: std::io::Error) -> Self {
        Error::Io(e)
    }
}

/// The message of an I/O error.
///
/// Wraps `<std::io::Error as ToString>::to_string`. The text comes from the
/// operating system's description of the error, so nothing is stated of it.
#[verifier::external_body]
fn io_message(e: &std::io::Error) -> String {
    e.to_string()
}

impl Error {
    /// The error as a person reads it.
    pub fn message(&self) -> (r: String)
        ensures
            self is Unsupported ==> r@ == "not a JPEG, HEIF or RAF"@,
            self is NoExif ==> r@ == "no EXIF found"@,
    {
        match self {
            Error::Io(e) => io_message(e),
            Error::Unsupported => String::from_str("not a JPEG, HEIF or RAF"),
            Error::NoExif => String::from_str("no EXIF found"),
        }
    }
}

// ------------------------------------------------------------- the DNG span

/// Where an entry's out-of-line value ends, for a value too large to sit in
/// the entry.
pub open spec fn value_end(e: crate::tiff::Entry) -> Option<nat> {
    match crate::tiff::format_size(e.format) {
        Some(size) => if size == 0 || size * e.count <= 4 {
            None
        } else {
            Some((e.value + size * e.count) as nat)
        },
        None => None,
    }
}

pub open spec fn max_nat(a: nat, b: nat) -> nat {
    if a >= b {
        a
    } else {
        b
    }
}

/// How far the first `n` entries of IFD0 reach: the EXIF directory they point
/// at (with 64 KB to hold it), and every out-of-line value.
pub open spec fn reach(es: Seq<crate::tiff::Entry>, n: nat, base: nat) -> nat
    decreases n,
{
    if n == 0 || n > es.len() {
        base
    } else {
        let e = es[n - 1];
        let r = reach(es, (n - 1) as nat, base);
        let r1 = if e.tag == crate::tags::EXIF_IFD {
            max_nat(r, (e.value + 65536) as nat)
        } else {
            r
        };
        match value_end(e) {
            Some(end) => max_nat(r1, end),
            None => r1,
        }
    }
}

/// The window step: 128 KB.
pub open spec fn step() -> nat {
    131072
}

/// One round of sizing a TIFF's resident window, given the `want` bytes
/// already resident in `data`: `Ok(None)` when they cover IFD0 and what it
/// points at, or the next, larger `want` rounded up to the step.
pub open spec fn span_step_spec(data: Seq<u8>, want: u64) -> Result<Option<u64>, ()> {
    match crate::tiff::header_of(data) {
        None => Err(()),
        Some((first, le)) => {
            let es = crate::tiff::entries_of(data, le, first as int);
            let need = reach(es, es.len(), (first + 6) as nat);
            if need <= want {
                Ok(None)
            } else {
                Ok(Some((((need + step() - 1) as int / step() as int) * step()) as u64))
            }
        },
    }
}

fn value_end_of(e: &crate::tiff::Entry) -> (r: Option<u64>)
    ensures
        match r {
            Some(v) => value_end(*e) == Some(v as nat),
            None => value_end(*e) is None,
        },
        r matches Some(v) ==> v <= 9 * 0x1_0000_0000,
{
    let f = e.format;
    let size: u64 = if f == 0 {
        0
    } else if f == 1 || f == 2 || f == 6 || f == 7 {
        1
    } else if f == 3 || f == 8 {
        2
    } else if f == 4 || f == 9 || f == 11 || f == 13 {
        4
    } else if f == 5 || f == 10 || f == 12 {
        8
    } else {
        return None;
    };
    assert(size * (e.count as u64) <= 8 * 0x1_0000_0000) by (nonlinear_arith)
        requires
            size <= 8,
            e.count <= 0xffff_ffff,
    ;
    let total = size * e.count as u64;
    if size == 0 || total <= 4 {
        None
    } else {
        Some(e.value as u64 + total)
    }
}

/// How much of a TIFF has to be resident to walk IFD0 and its EXIF
/// directory: one round of the sizing, as `span_step_spec` says.
///
/// Two passes over a handful of entries, which is cheaper than reading a
/// 40 MB raw file to find a lens name 900 bytes in.
pub fn tiff_span_step(data: &[u8], want: u64) -> (r: Result<Option<u64>, Error>)
    ensures
        match r {
            Ok(o) => span_step_spec(data@, want) == Ok::<Option<u64>, ()>(o),
            Err(e) => span_step_spec(data@, want) is Err && e is NoExif,
        },
{
    let (first, le) = match crate::tiff::header(data) {
        Some(h) => h,
        None => return Err(Error::NoExif),
    };
    let dir = crate::tiff::Dir::new(data, le);
    let es = dir.entries(first);
    let ghost ges = es@;
    let mut need: u64 = first as u64 + 6;
    let mut i: usize = 0;
    while i < es.len()
        invariant
            0 <= i <= ges.len(),
            es@ == ges,
            need == reach(ges, i as nat, (first + 6) as nat),
            need <= 0x10_0000_0000,
        decreases es.len() - i,
    {
        let e = es[i];
        if e.tag == crate::tags::EXIF_IFD {
            let cand = e.value as u64 + 65536;
            if cand > need {
                need = cand;
            }
        }
        match value_end_of(&e) {
            Some(end) => {
                if end > need {
                    need = end;
                }
            },
            None => {},
        }
        i += 1;
    }
    if need <= want {
        Ok(None)
    } else {
        Ok(Some(((need + 131071) / 131072) * 131072))
    }
}

} // verus!
