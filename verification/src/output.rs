//! What the command line prints for the photos it read: one JSON object per
//! file with group-qualified keys, a recipe card per file, or a
//! tab-separated row per file.

use crate::compare::pad;
use crate::json::{escape, quoted, scalar, scalar_text};
use crate::text::{dec_nat, file_name, push_dec};
use crate::{
    camera_spec, dimensions_spec, first_named, format_name, group_name, lens_spec, print_of,
    recipe_spec, tags_view, Format, Photo, TagV,
};
use vstd::prelude::*;

verus! {

// ------------------------------------------------------------ JSON

/// One tag as a line of a JSON object: its group-qualified name, and its
/// printed value as a scalar.
pub open spec fn tag_member(t: TagV) -> Seq<char> {
    ",\n    "@ + quoted(group_name(t.group) + ":"@ + t.name) + ": "@ + scalar_text(t.print)
}

pub open spec fn tag_members(s: Seq<TagV>) -> Seq<char>
    decreases s.len(),
{
    if s.len() == 0 {
        Seq::empty()
    } else {
        tag_members(s.drop_last()) + tag_member(s.last())
    }
}

/// The dimensions a viewer shows, where the photo has them.
pub open spec fn display_members(d: Option<(u32, u32)>) -> Seq<char> {
    match d {
        Some((w, h)) => ",\n    \"Computed:DisplayWidth\": "@ + dec_nat(w as nat)
            + ",\n    \"Computed:DisplayHeight\": "@ + dec_nat(h as nat),
        None => Seq::empty(),
    }
}

/// A photo as a JSON object: its path, its file type, every tag, and the
/// dimensions a viewer shows.
pub open spec fn json_object(path: Seq<char>, format: Format, tags: Seq<TagV>) -> Seq<char> {
    "  {\n    \"SourceFile\": "@ + quoted(path) + ",\n    \"File:FileType\": "@ + quoted(
        format_name(format),
    ) + tag_members(tags) + display_members(dimensions_spec(tags)) + "\n  }"@
}

/// Append a photo as a JSON object.
#[verifier::spinoff_prover]
#[verifier::rlimit(40)]
pub fn emit_json(p: &Photo, out: &mut String)
    requires
        crate::dimensions_readable(tags_view(p.tags@)),
    ensures
        final(out)@ == old(out)@ + json_object(p.path@, p.format, tags_view(p.tags@)),
{
    let ghost start = out@;
    let ghost tv = tags_view(p.tags@);
    out.append("  {\n    \"SourceFile\": ");
    escape(p.path.as_str(), out);
    out.append(",\n    \"File:FileType\": ");
    escape(p.format.as_str(), out);
    let ghost head = out@;
    let mut i: usize = 0;
    while i < p.tags.len()
        invariant
            i <= p.tags@.len(),
            tv == tags_view(p.tags@),
            out@ == head + tag_members(tv.take(i as int)),
        decreases p.tags@.len() - i,
    {
        assert(tv.take(i + 1).drop_last() =~= tv.take(i as int));
        let t = &p.tags[i];
        assert(tv[i as int] == t@);
        out.append(",\n    ");
        let mut key = String::new();
        key.append(t.group.as_str());
        key.append(":");
        key.append(t.name);
        escape(key.as_str(), out);
        out.append(": ");
        scalar(t.print.as_str(), out);
        i += 1;
        assert(out@ =~= head + tag_members(tv.take(i as int)));
    }
    assert(tv.take(p.tags@.len() as int) =~= tv);
    let ghost mid = out@;
    if let Some((w, h)) = p.dimensions() {
        out.append(",\n    \"Computed:DisplayWidth\": ");
        push_dec(out, w as u64);
        out.append(",\n    \"Computed:DisplayHeight\": ");
        push_dec(out, h as u64);
    }
    assert(out@ =~= mid + display_members(dimensions_spec(tv)));
    out.append("\n  }");
    assert(out@ =~= start + json_object(p.path@, p.format, tv));
}

// ------------------------------------------------------------ the card

/// One line of a recipe card: the label padded to 22, then the value; no
/// line where there is no value or it is empty.
pub open spec fn card_line(k: Seq<char>, v: Option<Seq<char>>) -> Seq<char> {
    match v {
        Some(x) => if x.len() > 0 {
            "  "@ + pad(k, 22) + " "@ + x + "\n"@
        } else {
            Seq::empty()
        },
        None => Seq::empty(),
    }
}

/// Grain as the card shows it: the roughness, with the size after a comma
/// when both are known.
pub open spec fn grain_text(a: Option<Seq<char>>, b: Option<Seq<char>>) -> Option<Seq<char>> {
    match (a, b) {
        (Some(x), Some(y)) => Some(x + ", "@ + y),
        (x, _) => x,
    }
}

/// White balance as the card shows it: with the temperature in Kelvin when
/// it is known.
pub open spec fn balance_text(w: Option<Seq<char>>, k: Option<u32>) -> Option<Seq<char>> {
    match (w, k) {
        (Some(x), Some(t)) => Some(x + " ("@ + dec_nat(t as nat) + "K)"@),
        (x, _) => x,
    }
}

/// The recipe part of a card.
pub open spec fn recipe_lines(tags: Seq<TagV>) -> Seq<char> {
    match recipe_spec(tags) {
        Some(r) => recipe_card_lines(r),
        None => "  (no Fujifilm recipe)\n"@,
    }
}

/// A recipe's lines on a card.
pub open spec fn recipe_card_lines(r: crate::RecipeV) -> Seq<char> {
    look_lines(r) + balance_lines(r) + tone_lines(r)
}

/// Film, dynamic range, grain and colour chrome.
pub open spec fn look_lines(r: crate::RecipeV) -> Seq<char> {
    card_line("Film Simulation"@, r.film_simulation) + card_line("Dynamic Range"@, r.dynamic_range)
        + card_line("Grain"@, grain_text(r.grain, r.grain_size)) + card_line(
        "Color Chrome"@,
        r.color_chrome,
    ) + card_line("Color Chrome FX Blue"@, r.color_chrome_fx_blue)
}

/// White balance and its shift.
pub open spec fn balance_lines(r: crate::RecipeV) -> Seq<char> {
    card_line("White Balance"@, balance_text(r.white_balance, r.color_temperature)) + card_line(
        "WB Shift"@,
        r.white_balance_shift,
    )
}

/// Tone, colour, sharpness, noise reduction and clarity.
pub open spec fn tone_lines(r: crate::RecipeV) -> Seq<char> {
    card_line("Highlight"@, r.highlight) + card_line("Shadow"@, r.shadow) + card_line(
        "Color"@,
        r.color,
    ) + card_line("Sharpness"@, r.sharpness) + card_line("Noise Reduction"@, r.noise_reduction)
        + card_line("Clarity"@, r.clarity)
}

/// A photo's card, headed by the file's name: camera, lens and exposure,
/// then the recipe, then a blank line.
pub open spec fn card(name: Seq<char>, tags: Seq<TagV>) -> Seq<char> {
    name + "\n"@ + shot_lines(tags) + recipe_lines(tags) + "\n"@
}

/// Camera, lens and exposure on a card.
pub open spec fn shot_lines(tags: Seq<TagV>) -> Seq<char> {
    card_line("Camera"@, camera_spec(tags)) + card_line("Lens"@, lens_spec(tags)) + card_line(
        "Exposure"@,
        print_of(first_named(tags, "ExposureTime"@)),
    ) + card_line("Aperture"@, print_of(first_named(tags, "FNumber"@))) + card_line(
        "ISO"@,
        print_of(first_named(tags, "ISO"@)),
    )
}

fn push_line(out: &mut String, k: &str, v: Option<String>)
    ensures
        final(out)@ == old(out)@ + card_line(k@, crate::opt_view(v)),
{
    let ghost start = out@;
    if let Some(x) = v {
        if !x.as_str().is_empty() {
            out.append("  ");
            crate::compare::push_padded(out, k, 22);
            out.append(" ");
            out.append(x.as_str());
            out.append("\n");
        }
    }
    assert(out@ =~= start + card_line(k@, crate::opt_view(v)));
}

fn printed(p: &Photo, name: &str) -> (r: Option<String>)
    ensures
        crate::opt_view(r) == print_of(first_named(tags_view(p.tags@), name@)),
{
    match p.get(name) {
        Some(t) => Some(t.print.clone()),
        None => None,
    }
}

#[verifier::spinoff_prover]
#[verifier::rlimit(40)]
fn push_shot(p: &Photo, out: &mut String)
    ensures
        final(out)@ == old(out)@ + shot_lines(tags_view(p.tags@)),
{
    let ghost s0 = out@;
    push_line(out, "Camera", p.camera());
    let ghost s1 = out@;
    push_line(out, "Lens", p.lens());
    let ghost s2 = out@;
    push_line(out, "Exposure", printed(p, "ExposureTime"));
    let ghost s3 = out@;
    push_line(out, "Aperture", printed(p, "FNumber"));
    let ghost s4 = out@;
    push_line(out, "ISO", printed(p, "ISO"));
    assert(out@ =~= s0 + shot_lines(tags_view(p.tags@)));
}

#[verifier::spinoff_prover]
#[verifier::rlimit(40)]
fn push_look(r: &crate::Recipe, out: &mut String)
    ensures
        final(out)@ == old(out)@ + look_lines(r@),
{
    let ghost s0 = out@;
    push_line(out, "Film Simulation", crate::copy_opt_string(&r.film_simulation));
    push_line(out, "Dynamic Range", crate::copy_opt_string(&r.dynamic_range));
    let grain = match (&r.grain, &r.grain_size) {
        (Some(a), Some(b)) => {
            let mut g = a.clone();
            g.append(", ");
            g.append(b.as_str());
            Some(g)
        },
        (a, _) => a.clone(),
    };
    assert(crate::opt_view(grain) == grain_text(r@.grain, r@.grain_size));
    push_line(out, "Grain", grain);
    push_line(out, "Color Chrome", crate::copy_opt_string(&r.color_chrome));
    push_line(out, "Color Chrome FX Blue", crate::copy_opt_string(&r.color_chrome_fx_blue));
    assert(out@ =~= s0 + look_lines(r@));
}

#[verifier::spinoff_prover]
#[verifier::rlimit(40)]
fn push_balance(r: &crate::Recipe, out: &mut String)
    ensures
        final(out)@ == old(out)@ + balance_lines(r@),
{
    let ghost s0 = out@;
    let balance = match (&r.white_balance, r.color_temperature) {
        (Some(w), Some(k)) => {
            let mut b = w.clone();
            b.append(" (");
            push_dec(&mut b, k as u64);
            b.append("K)");
            Some(b)
        },
        (w, _) => w.clone(),
    };
    assert(crate::opt_view(balance) == balance_text(r@.white_balance, r@.color_temperature));
    push_line(out, "White Balance", balance);
    push_line(out, "WB Shift", crate::copy_opt_string(&r.white_balance_shift));
    assert(out@ =~= s0 + balance_lines(r@));
}

#[verifier::spinoff_prover]
#[verifier::rlimit(40)]
fn push_tone(r: &crate::Recipe, out: &mut String)
    ensures
        final(out)@ == old(out)@ + tone_lines(r@),
{
    let ghost s0 = out@;
    push_line(out, "Highlight", crate::copy_opt_string(&r.highlight));
    push_line(out, "Shadow", crate::copy_opt_string(&r.shadow));
    push_line(out, "Color", crate::copy_opt_string(&r.color));
    push_line(out, "Sharpness", crate::copy_opt_string(&r.sharpness));
    push_line(out, "Noise Reduction", crate::copy_opt_string(&r.noise_reduction));
    push_line(out, "Clarity", crate::copy_opt_string(&r.clarity));
    assert(out@ =~= s0 + tone_lines(r@));
}

#[verifier::spinoff_prover]
#[verifier::rlimit(40)]
fn push_recipe(r: &crate::Recipe, out: &mut String)
    ensures
        final(out)@ == old(out)@ + recipe_card_lines(r@),
{
    let ghost s0 = out@;
    push_look(r, out);
    push_balance(r, out);
    push_tone(r, out);
    assert(out@ =~= s0 + recipe_card_lines(r@));
}

/// Append the card of a photo whose file is called `name`.
#[verifier::spinoff_prover]
#[verifier::rlimit(40)]
pub fn card_text(name: &str, p: &Photo, out: &mut String)
    requires
        crate::recipe_readable(tags_view(p.tags@)),
    ensures
        final(out)@ == old(out)@ + card(name@, tags_view(p.tags@)),
{
    let ghost start = out@;
    let ghost tv = tags_view(p.tags@);
    out.append(name);
    out.append("\n");
    push_shot(p, out);
    let ghost mid = out@;
    match p.recipe() {
        Some(r) => {
            push_recipe(&r, out);
        },
        None => {
            out.append("  (no Fujifilm recipe)\n");
        },
    }
    assert(out@ == mid + recipe_lines(tv));
    out.append("\n");
    assert(out@ =~= start + card(name@, tv));
}

// ------------------------------------------------------------ the row

/// The header of the tab-separated table.
pub open spec fn tsv_header() -> Seq<char> {
    "file\tcamera\tlens\tshutter\taperture\tiso\tfilm\n"@
}

pub open spec fn or_empty(v: Option<Seq<char>>) -> Seq<char> {
    match v {
        Some(x) => x,
        None => Seq::empty(),
    }
}

/// A photo as a row: file name, camera, lens, shutter, aperture, ISO and
/// film simulation, each empty where unknown.
pub open spec fn tsv_row(name: Seq<char>, tags: Seq<TagV>) -> Seq<char> {
    name + "\t"@ + or_empty(camera_spec(tags)) + "\t"@ + or_empty(lens_spec(tags)) + "\t"@
        + or_empty(print_of(first_named(tags, "ExposureTime"@))) + "\t"@ + or_empty(
        print_of(first_named(tags, "FNumber"@)),
    ) + "\t"@ + or_empty(print_of(first_named(tags, "ISO"@))) + "\t"@ + or_empty(
        match recipe_spec(tags) {
            Some(r) => r.film_simulation,
            None => None,
        },
    ) + "\n"@
}

fn push_opt(out: &mut String, v: Option<String>)
    ensures
        final(out)@ == old(out)@ + or_empty(crate::opt_view(v)),
{
    let ghost start = out@;
    if let Some(x) = v {
        out.append(x.as_str());
    }
    assert(out@ =~= start + or_empty(crate::opt_view(v)));
}

fn film_of(p: &Photo) -> (r: Option<String>)
    requires
        crate::recipe_readable(tags_view(p.tags@)),
    ensures
        crate::opt_view(r) == match recipe_spec(tags_view(p.tags@)) {
            Some(rc) => rc.film_simulation,
            None => None,
        },
{
    match p.recipe() {
        Some(r) => r.film_simulation,
        None => None,
    }
}

/// Append the row of a photo whose file is called `name`.
#[verifier::spinoff_prover]
#[verifier::rlimit(40)]
pub fn row_text(name: &str, p: &Photo, out: &mut String)
    requires
        crate::recipe_readable(tags_view(p.tags@)),
    ensures
        final(out)@ == old(out)@ + tsv_row(name@, tags_view(p.tags@)),
{
    let ghost start = out@;
    out.append(name);
    out.append("\t");
    push_opt(out, p.camera());
    out.append("\t");
    push_opt(out, p.lens());
    out.append("\t");
    push_opt(out, printed(p, "ExposureTime"));
    out.append("\t");
    push_opt(out, printed(p, "FNumber"));
    out.append("\t");
    push_opt(out, printed(p, "ISO"));
    out.append("\t");
    push_opt(out, film_of(p));
    out.append("\n");
    assert(out@ =~= start + tsv_row(name@, tags_view(p.tags@)));
}

/// The name a card or row is headed by: the file name of the photo's path,
/// or nothing where the path has none.
pub fn shown_name(p: &Photo) -> (r: String)
    ensures
        r@.len() == 0 || exists|i: int, j: int|
            0 <= i <= j <= p.path@.len() && r@ == p.path@.subrange(i, j),
        crate::text::plain_path(p.path@) ==> r@ == crate::text::last_part(p.path@),
{
    match file_name(p.path.as_str()) {
        Some(n) => n,
        None => String::new(),
    }
}


// ------------------------------------------------------------ the whole run

/// How the photos are printed.
pub enum Mode {
    /// One JSON object per file, in a JSON array.
    Json,
    /// The Fujifilm recipe, as a card.
    Recipe,
    /// One tab-separated row per file.
    Tsv,
}

/// A photo as plain values: its path, its file type and its tags.
pub type PhotoV = (Seq<char>, Format, Seq<TagV>);

/// What reading one file gave: its path as shown, and the photo or the
/// reason it could not be read.
pub open spec fn result_view(r: (String, Result<Photo, String>)) -> (Seq<char>, Result<PhotoV, Seq<char>>) {
    (
        r.0@,
        match r.1 {
            Ok(p) => Ok((p.path@, p.format, tags_view(p.tags@))),
            Err(e) => Err(e@),
        },
    )
}

pub open spec fn results_view(rs: Seq<(String, Result<Photo, String>)>) -> Seq<(Seq<char>, Result<PhotoV, Seq<char>>)> {
    rs.map_values(|r: (String, Result<Photo, String>)| result_view(r))
}

/// Parts joined with `sep` between them.
pub open spec fn joined(parts: Seq<Seq<char>>, sep: Seq<char>) -> Seq<char>
    decreases parts.len(),
{
    if parts.len() == 0 {
        Seq::empty()
    } else if parts.len() == 1 {
        parts[0]
    } else {
        joined(parts.drop_last(), sep) + sep + parts.last()
    }
}

/// The text of each photo that was read, in order; `names[i]` is the name
/// the `i`th file is shown under.
pub open spec fn photo_texts(mode: Mode, rs: Seq<(Seq<char>, Result<PhotoV, Seq<char>>)>, names: Seq<Seq<char>>) -> Seq<Seq<char>>
    decreases rs.len(),
{
    if rs.len() == 0 {
        Seq::empty()
    } else {
        let prev = photo_texts(mode, rs.drop_last(), names.drop_last());
        match rs.last().1 {
            Ok(p) => prev.push(
                match mode {
                    Mode::Json => json_object(p.0, p.1, p.2),
                    Mode::Recipe => card(names.last(), p.2),
                    Mode::Tsv => tsv_row(names.last(), p.2),
                },
            ),
            Err(_) => prev,
        }
    }
}

/// All of `parts`, one after the other.
pub open spec fn concat(parts: Seq<Seq<char>>) -> Seq<char>
    decreases parts.len(),
{
    if parts.len() == 0 {
        Seq::empty()
    } else {
        concat(parts.drop_last()) + parts.last()
    }
}

/// What goes to standard output.
pub open spec fn document(mode: Mode, rs: Seq<(Seq<char>, Result<PhotoV, Seq<char>>)>, names: Seq<Seq<char>>) -> Seq<char> {
    let parts = photo_texts(mode, rs, names);
    match mode {
        Mode::Json => "[\n"@ + joined(parts, ",\n"@) + "\n]\n"@,
        Mode::Recipe => concat(parts),
        Mode::Tsv => tsv_header() + concat(parts),
    }
}

/// One line on standard error per file that could not be read.
pub open spec fn failures(rs: Seq<(Seq<char>, Result<PhotoV, Seq<char>>)>) -> Seq<Seq<char>>
    decreases rs.len(),
{
    if rs.len() == 0 {
        Seq::empty()
    } else {
        match rs.last().1 {
            Err(e) => failures(rs.drop_last()).push(rs.last().0 + ": "@ + e),
            Ok(_) => failures(rs.drop_last()),
        }
    }
}

/// The integer readings a mode takes of a photo do not overflow: the
/// dimensions for JSON, the recipe for cards and rows.
pub open spec fn mode_readable(mode: Mode, s: Seq<TagV>) -> bool {
    match mode {
        Mode::Json => crate::dimensions_readable(s),
        _ => crate::recipe_readable(s),
    }
}

/// Whether `render` can read `p` in `mode`: false only where a tag the mode
/// reads as an integer is a rational whose quotient overflows.
pub fn is_readable_in(mode: &Mode, p: &Photo) -> (r: bool)
    ensures
        r == mode_readable(*mode, tags_view(p.tags@)),
{
    match mode {
        Mode::Json => p.dimensions_readable(),
        _ => p.recipe_readable(),
    }
}

/// What the command line prints for the files it read, and whether it
/// fails: it does when there were files and none of them could be read.
/// `names[i]` is the name the `i`th file is shown under on a card or row.
pub fn render(mode: &Mode, results: &Vec<(String, Result<Photo, String>)>, names: &Vec<String>) -> (r: (
    String,
    Vec<String>,
    bool,
))
    requires
        names@.len() == results@.len(),
        forall|i: int| 0 <= i < results@.len() ==> ((#[trigger] results@[i]).1 matches Ok(p) ==> mode_readable(*mode, tags_view(p.tags@))),
    ensures
        r.0@ == document(*mode, results_view(results@), names.deep_view()),
        r.1.deep_view() == failures(results_view(results@)),
        r.2 == (r.1@.len() > 0 && r.1@.len() == results@.len()),
{
    let ghost rv = results_view(results@);
    let ghost nv = names.deep_view();
    let mut out = String::new();
    match mode {
        Mode::Json => out.append("[\n"),
        Mode::Recipe => {},
        Mode::Tsv => out.append("file\tcamera\tlens\tshutter\taperture\tiso\tfilm\n"),
    }
    let ghost head = out@;
    let mut errors: Vec<String> = Vec::new();
    let mut shown: usize = 0;
    let mut i: usize = 0;
    while i < results.len()
        invariant
            i <= results@.len() == names@.len(),
            rv == results_view(results@),
            nv == names.deep_view(),
            forall|j: int| 0 <= j < results@.len() ==> ((#[trigger] results@[j]).1 matches Ok(p) ==> mode_readable(*mode, tags_view(p.tags@))),
            shown == photo_texts(*mode, rv.take(i as int), nv.take(i as int)).len(),
            errors@.len() + shown == i,
            out@ == head + match *mode {
                Mode::Json => joined(photo_texts(*mode, rv.take(i as int), nv.take(i as int)), ",\n"@),
                _ => concat(photo_texts(*mode, rv.take(i as int), nv.take(i as int))),
            },
            errors.deep_view() == failures(rv.take(i as int)),
        decreases results@.len() - i,
    {
        assert(rv.take(i + 1).drop_last() =~= rv.take(i as int));
        assert(nv.take(i + 1).drop_last() =~= nv.take(i as int));
        assert(rv.take(i + 1).last() == result_view(results@[i as int]));
        assert(nv.take(i + 1).last() == names@[i as int]@);
        let ghost prev = photo_texts(*mode, rv.take(i as int), nv.take(i as int));
        let ghost before = out@;
        match &results[i].1 {
            Ok(p) => {
                match mode {
                    Mode::Json => {
                        if shown > 0 {
                            out.append(",\n");
                        }
                        emit_json(p, &mut out);
                    },
                    Mode::Recipe => card_text(names[i].as_str(), p, &mut out),
                    Mode::Tsv => row_text(names[i].as_str(), p, &mut out),
                }
                shown += 1;
                proof {
                    let now = photo_texts(*mode, rv.take(i + 1), nv.take(i + 1));
                    assert(now.drop_last() =~= prev);
                    if shown == 1 {
                        assert(prev.len() == 0);
                    }
                }
            },
            Err(e) => {
                let mut line = results[i].0.clone();
                line.append(": ");
                line.append(e.as_str());
                let ghost ev = errors.deep_view();
                errors.push(line);
                assert(errors.deep_view() =~= ev.push(results@[i as int].0@ + ": "@ + e@));
            },
        }
        i += 1;
    }
    assert(rv.take(results@.len() as int) =~= rv);
    assert(nv.take(results@.len() as int) =~= nv);
    match mode {
        Mode::Json => out.append("\n]\n"),
        _ => {},
    }
    proof {
        reveal_strlit("file\tcamera\tlens\tshutter\taperture\tiso\tfilm\n");
    }
    let failed = errors.len();
    let all = failed > 0 && failed == results.len();
    (out, errors, all)
}

} // verus!
