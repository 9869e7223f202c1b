//! The order and the pattern that are used where none is given.
//!
//! The order is written down as families of classes: a prefix, the values
//! that may follow it, and the tails that may follow a value. The classes of
//! a family are ranked in the order of its values, and the families in the
//! order in which they stand here.
use vstd::prelude::*;
use vstd::string::*;

use crate::class_wrapping::unwrap_wrapped_classes;
use crate::class_wrapping::ClassWrapping;
use crate::text::bytes_equal;
use crate::text::push_bytes;
use crate::text::views_of;

verus! {

/// The pattern that finds class lists: `class=` or `className=`, then a quoted
/// value of letters, digits, `_`, `-`, `:`, `.`, `/` and whitespace. Its first
/// group is the value.
pub const DEFAULT_PATTERN: &'static str =
    "\\b(?:class(?:Name)?\\s*=\\s*[\"'])([_a-zA-Z0-9\\.\\s\\-:/]+)[\"']";

/// The value that stands for the bare prefix: `rounded` beside `rounded-sm`.
pub const BARE: &'static str = "DEFAULT";

/// The value that has no negative form.
pub const ZERO: &'static str = "0";

/// A family of classes: a prefix, its values, its tails, and whether the
/// family is negative. Its classes are `prefix-value`, or `prefix-value-tail`
/// where the family has tails, for each of its values and tails in their
/// order. Values and tails are written with spaces between them. In a
/// negative family each class has a `-` in front, and the value `0` is left
/// out.
pub type Family = (&'static str, &'static str, &'static str, bool);


/// The steps of the spacing scale.
pub const SPACING: &'static str =
    "0 px 0.5 1 1.5 2 2.5 3 3.5 4 5 6 7 8 9 10 11 12 14 16 20 24 28 32 36 40 44 48 52 56 60 64 72 80 96";

/// Halves, thirds and quarters.
pub const PARTS: &'static str = "1/2 1/3 2/3 1/4 2/4 3/4";

/// Fifths and sixths.
pub const FIFTHS: &'static str = "1/5 2/5 3/5 4/5 1/6 2/6 3/6 4/6 5/6";

/// Twelfths.
pub const TWELFTHS: &'static str = "1/12 2/12 3/12 4/12 5/12 6/12 7/12 8/12 9/12 10/12 11/12";

/// The names of the colours.
pub const COLORS: &'static str =
    "slate gray zinc neutral stone red orange amber yellow lime green emerald teal cyan sky blue indigo violet purple fuchsia pink rose";

/// The shades of a colour, light to dark.
pub const SHADES: &'static str = "50 100 200 300 400 500 600 700 800 900 950";

/// The colours that have no shades.
pub const PLAIN_COLORS: &'static str = "inherit current transparent black white";

/// The steps of opacity, in percent.
pub const OPACITIES: &'static str = "0 5 10 20 25 30 40 50 60 70 75 80 90 95 100";

/// The numbers of grid tracks.
pub const TRACKS: &'static str = "1 2 3 4 5 6 7 8 9 10 11 12";

/// The numbers of grid lines.
pub const LINES: &'static str = "1 2 3 4 5 6 7 8 9 10 11 12 13 auto";

/// The widths of a line.
pub const WIDTHS: &'static str = "DEFAULT 0 2 4 8";

/// The sizes of a rounded corner.
pub const RADII: &'static str = "none sm DEFAULT md lg xl 2xl 3xl full";

/// Durations, in milliseconds.
pub const TIMES: &'static str = "0 75 100 150 200 300 500 700 1000";

/// Factors of scaling, in percent.
pub const SCALES: &'static str = "0 50 75 90 95 100 105 110 125 150";

/// Small angles, in degrees.
pub const ANGLES: &'static str = "0 1 2 3 6 12";

/// The styles of a line.
pub const STYLES: &'static str = "solid dashed dotted double";

/// The edges and corners of a box.
pub const EDGES: &'static str =
    "bottom center left left-bottom left-top right right-bottom right-top top";

/// Sizes that follow the content.
pub const FITS: &'static str = "min max fit";

/// Display, position and stacking.
pub const LAYOUT: [Family; 56] = [
    ("", "container block inline-block inline flex inline-flex grid inline-grid table inline-table table-caption table-cell table-column table-column-group table-footer-group table-header-group table-row-group table-row flow-root contents list-item hidden", "", false),
    ("", "visible invisible collapse", "", false),
    ("", "static fixed absolute relative sticky", "", false),
    ("inset", SPACING, "", false),
    ("inset", PARTS, "", false),
    ("inset", "full", "", false),
    ("inset", SPACING, "", true),
    ("inset", PARTS, "", true),
    ("inset", "full", "", true),
    ("inset", "auto", "", false),
    ("inset-y", SPACING, "", false),
    ("inset-y", PARTS, "", false),
    ("inset-y", "full", "", false),
    ("inset-y", SPACING, "", true),
    ("inset-y", PARTS, "", true),
    ("inset-y", "full", "", true),
    ("inset-y", "auto", "", false),
    ("inset-x", SPACING, "", false),
    ("inset-x", PARTS, "", false),
    ("inset-x", "full", "", false),
    ("inset-x", SPACING, "", true),
    ("inset-x", PARTS, "", true),
    ("inset-x", "full", "", true),
    ("inset-x", "auto", "", false),
    ("top", SPACING, "", false),
    ("top", PARTS, "", false),
    ("top", "full", "", false),
    ("top", SPACING, "", true),
    ("top", PARTS, "", true),
    ("top", "full", "", true),
    ("top", "auto", "", false),
    ("right", SPACING, "", false),
    ("right", PARTS, "", false),
    ("right", "full", "", false),
    ("right", SPACING, "", true),
    ("right", PARTS, "", true),
    ("right", "full", "", true),
    ("right", "auto", "", false),
    ("bottom", SPACING, "", false),
    ("bottom", PARTS, "", false),
    ("bottom", "full", "", false),
    ("bottom", SPACING, "", true),
    ("bottom", PARTS, "", true),
    ("bottom", "full", "", true),
    ("bottom", "auto", "", false),
    ("left", SPACING, "", false),
    ("left", PARTS, "", false),
    ("left", "full", "", false),
    ("left", SPACING, "", true),
    ("left", PARTS, "", true),
    ("left", "full", "", true),
    ("left", "auto", "", false),
    ("", "isolate isolation-auto", "", false),
    ("z", "0 10 20 30 40 50 auto", "", false),
    ("order", TRACKS, "", false),
    ("order", "first last none", "", false),
];

/// Grid tracks and flex direction.
pub const GRID: [Family; 22] = [
    ("grid-cols", TRACKS, "", false),
    ("grid-cols", "none subgrid", "", false),
    ("col", "auto", "", false),
    ("col-span", TRACKS, "", false),
    ("col-span", "full", "", false),
    ("col-start", LINES, "", false),
    ("col-end", LINES, "", false),
    ("grid-rows", TRACKS, "", false),
    ("grid-rows", "none subgrid", "", false),
    ("row", "auto", "", false),
    ("row-span", TRACKS, "", false),
    ("row-span", "full", "", false),
    ("row-start", LINES, "", false),
    ("row-end", LINES, "", false),
    ("grid-flow", "row col dense row-dense col-dense", "", false),
    ("auto-cols", "auto min max fr", "", false),
    ("auto-rows", "auto min max fr", "", false),
    ("flex", "row row-reverse col col-reverse", "", false),
    ("flex", "wrap wrap-reverse nowrap", "", false),
    ("gap", SPACING, "", false),
    ("gap-y", SPACING, "", false),
    ("gap-x", SPACING, "", false),
];

/// Alignment, growth and floats.
pub const ALIGNMENT: [Family; 22] = [
    ("place-content", "center start end between around evenly baseline stretch", "", false),
    ("place-items", "start end center baseline stretch", "", false),
    ("place-self", "auto start end center stretch", "", false),
    ("items", "start end center baseline stretch", "", false),
    ("content", "normal center start end between around evenly baseline stretch", "", false),
    ("self", "auto start end center stretch baseline", "", false),
    ("justify-items", "start end center stretch", "", false),
    ("justify", "normal start end center between around evenly stretch", "", false),
    ("justify-self", "auto start end center stretch", "", false),
    ("flex", "1 auto initial none", "", false),
    ("flex-grow", "DEFAULT 0", "", false),
    ("grow", "DEFAULT 0", "", false),
    ("flex-shrink", "DEFAULT 0", "", false),
    ("shrink", "DEFAULT 0", "", false),
    ("basis", SPACING, "", false),
    ("basis", PARTS, "", false),
    ("basis", FIFTHS, "", false),
    ("basis", TWELFTHS, "", false),
    ("basis", "auto full", "", false),
    ("float", "right left none", "", false),
    ("clear", "left right both none", "", false),
    ("box", "border content", "", false),
];

/// Width, height, object fit and overflow.
pub const SIZING: [Family; 32] = [
    ("w", SPACING, "", false),
    ("w", "auto", "", false),
    ("w", PARTS, "", false),
    ("w", FIFTHS, "", false),
    ("w", TWELFTHS, "", false),
    ("w", "full screen", "", false),
    ("w", FITS, "", false),
    ("min-w", "0 full", "", false),
    ("min-w", FITS, "", false),
    ("max-w", "0 none xs sm md lg xl 2xl 3xl 4xl 5xl 6xl 7xl full", "", false),
    ("max-w", FITS, "", false),
    ("max-w", "prose screen-sm screen-md screen-lg screen-xl screen-2xl", "", false),
    ("h", SPACING, "", false),
    ("h", "auto", "", false),
    ("h", PARTS, "", false),
    ("h", FIFTHS, "", false),
    ("h", "full screen", "", false),
    ("h", FITS, "", false),
    ("min-h", "0 full screen", "", false),
    ("min-h", FITS, "", false),
    ("max-h", SPACING, "", false),
    ("max-h", "none full screen", "", false),
    ("max-h", FITS, "", false),
    ("aspect", "auto square video", "", false),
    ("object", "contain cover fill none scale-down", "", false),
    ("object", EDGES, "", false),
    ("overflow", "auto hidden clip visible scroll", "", false),
    ("overflow-x", "auto hidden clip visible scroll", "", false),
    ("overflow-y", "auto hidden clip visible scroll", "", false),
    ("overscroll", "auto contain none", "", false),
    ("overscroll-y", "auto contain none", "", false),
    ("overscroll-x", "auto contain none", "", false),
];

/// Padding, margin and the space between children.
pub const SPACE: [Family; 34] = [
    ("p", SPACING, "", false),
    ("py", SPACING, "", false),
    ("px", SPACING, "", false),
    ("pt", SPACING, "", false),
    ("pr", SPACING, "", false),
    ("pb", SPACING, "", false),
    ("pl", SPACING, "", false),
    ("m", SPACING, "", false),
    ("m", SPACING, "", true),
    ("m", "auto", "", false),
    ("my", SPACING, "", false),
    ("my", SPACING, "", true),
    ("my", "auto", "", false),
    ("mx", SPACING, "", false),
    ("mx", SPACING, "", true),
    ("mx", "auto", "", false),
    ("mt", SPACING, "", false),
    ("mt", SPACING, "", true),
    ("mt", "auto", "", false),
    ("mr", SPACING, "", false),
    ("mr", SPACING, "", true),
    ("mr", "auto", "", false),
    ("mb", SPACING, "", false),
    ("mb", SPACING, "", true),
    ("mb", "auto", "", false),
    ("ml", SPACING, "", false),
    ("ml", SPACING, "", true),
    ("ml", "auto", "", false),
    ("space-y", SPACING, "", false),
    ("space-y", SPACING, "", true),
    ("space-y", "reverse", "", false),
    ("space-x", SPACING, "", false),
    ("space-x", SPACING, "", true),
    ("space-x", "reverse", "", false),
];

/// Font, size, colour and decoration of text.
pub const TYPOGRAPHY: [Family; 25] = [
    ("font", "sans serif mono", "", false),
    ("text", "xs sm base lg xl 2xl 3xl 4xl 5xl 6xl 7xl 8xl 9xl", "", false),
    ("font", "thin extralight light normal medium semibold bold extrabold black", "", false),
    ("leading", "3 4 5 6 7 8 9 10 none tight snug normal relaxed loose", "", false),
    ("tracking", "tighter tight normal wide wider widest", "", false),
    ("text", "left center right justify start end", "", false),
    ("align", "baseline top middle bottom text-top text-bottom sub super", "", false),
    ("whitespace", "normal nowrap pre pre-line pre-wrap break-spaces", "", false),
    ("break", "normal words all keep", "", false),
    ("", "truncate overflow-ellipsis text-ellipsis text-clip", "", false),
    ("list", "inside outside none disc decimal", "", false),
    ("text", PLAIN_COLORS, "", false),
    ("text", COLORS, SHADES, false),
    ("text-opacity", OPACITIES, "", false),
    ("", "underline overline line-through no-underline", "", false),
    ("decoration", STYLES, "", false),
    ("decoration", "wavy auto from-font 0 1 2 4 8", "", false),
    ("underline-offset", "auto 0 1 2 4 8", "", false),
    ("", "italic not-italic uppercase lowercase capitalize normal-case", "", false),
    ("", "antialiased subpixel-antialiased", "", false),
    ("", "normal-nums ordinal slashed-zero lining-nums oldstyle-nums proportional-nums tabular-nums diagonal-fractions stacked-fractions", "", false),
    ("indent", SPACING, "", false),
    ("placeholder", PLAIN_COLORS, "", false),
    ("placeholder", COLORS, SHADES, false),
    ("placeholder-opacity", OPACITIES, "", false),
];

/// Backgrounds and gradients.
pub const BACKGROUNDS: [Family; 16] = [
    ("bg", "fixed local scroll", "", false),
    ("bg-clip", "border padding content text", "", false),
    ("bg", PLAIN_COLORS, "", false),
    ("bg", COLORS, SHADES, false),
    ("bg-opacity", OPACITIES, "", false),
    ("bg-origin", "border padding content", "", false),
    ("bg", EDGES, "", false),
    ("bg", "repeat no-repeat repeat-x repeat-y repeat-round repeat-space", "", false),
    ("bg", "auto cover contain none", "", false),
    ("bg-gradient-to", "t tr r br b bl l tl", "", false),
    ("from", PLAIN_COLORS, "", false),
    ("from", COLORS, SHADES, false),
    ("via", PLAIN_COLORS, "", false),
    ("via", COLORS, SHADES, false),
    ("to", PLAIN_COLORS, "", false),
    ("to", COLORS, SHADES, false),
];

/// Corners, borders, dividing lines and rings.
pub const BORDERS: [Family; 37] = [
    ("rounded", RADII, "", false),
    ("rounded-t", RADII, "", false),
    ("rounded-r", RADII, "", false),
    ("rounded-b", RADII, "", false),
    ("rounded-l", RADII, "", false),
    ("rounded-tl", RADII, "", false),
    ("rounded-tr", RADII, "", false),
    ("rounded-br", RADII, "", false),
    ("rounded-bl", RADII, "", false),
    ("border", WIDTHS, "", false),
    ("border-y", WIDTHS, "", false),
    ("border-x", WIDTHS, "", false),
    ("border-t", WIDTHS, "", false),
    ("border-r", WIDTHS, "", false),
    ("border-b", WIDTHS, "", false),
    ("border-l", WIDTHS, "", false),
    ("border", PLAIN_COLORS, "", false),
    ("border", COLORS, SHADES, false),
    ("border-opacity", OPACITIES, "", false),
    ("border", STYLES, "", false),
    ("border", "hidden none", "", false),
    ("divide-y", WIDTHS, "", false),
    ("divide-y", "reverse", "", false),
    ("divide-x", WIDTHS, "", false),
    ("divide-x", "reverse", "", false),
    ("divide", PLAIN_COLORS, "", false),
    ("divide", COLORS, SHADES, false),
    ("divide-opacity", OPACITIES, "", false),
    ("divide", STYLES, "", false),
    ("divide", "none", "", false),
    ("ring", "DEFAULT 0 1 2 4 8 inset", "", false),
    ("ring", PLAIN_COLORS, "", false),
    ("ring", COLORS, SHADES, false),
    ("ring-opacity", OPACITIES, "", false),
    ("ring-offset", "0 1 2 4 8", "", false),
    ("ring-offset", PLAIN_COLORS, "", false),
    ("ring-offset", COLORS, SHADES, false),
];

/// Shadows, opacity, transitions and transforms.
pub const EFFECTS: [Family; 35] = [
    ("shadow", "sm DEFAULT md lg xl 2xl inner none", "", false),
    ("opacity", OPACITIES, "", false),
    ("mix-blend", "normal multiply screen overlay darken lighten color-dodge color-burn hard-light soft-light difference exclusion hue saturation color luminosity", "", false),
    ("border", "collapse separate", "", false),
    ("table", "auto fixed", "", false),
    ("transition", "none all DEFAULT colors opacity shadow transform", "", false),
    ("duration", TIMES, "", false),
    ("ease", "linear in out in-out", "", false),
    ("delay", TIMES, "", false),
    ("animate", "none spin ping pulse bounce", "", false),
    ("transform", "DEFAULT gpu none", "", false),
    ("origin", "center top top-right right bottom-right bottom bottom-left left top-left", "", false),
    ("scale", SCALES, "", false),
    ("scale-x", SCALES, "", false),
    ("scale-y", SCALES, "", false),
    ("rotate", ANGLES, "", false),
    ("rotate", "45 90 180", "", false),
    ("rotate", ANGLES, "", true),
    ("rotate", "45 90 180", "", true),
    ("translate-x", SPACING, "", false),
    ("translate-x", PARTS, "", false),
    ("translate-x", "full", "", false),
    ("translate-x", SPACING, "", true),
    ("translate-x", PARTS, "", true),
    ("translate-x", "full", "", true),
    ("translate-y", SPACING, "", false),
    ("translate-y", PARTS, "", false),
    ("translate-y", "full", "", false),
    ("translate-y", SPACING, "", true),
    ("translate-y", PARTS, "", true),
    ("translate-y", "full", "", true),
    ("skew-x", ANGLES, "", false),
    ("skew-x", ANGLES, "", true),
    ("skew-y", ANGLES, "", false),
    ("skew-y", ANGLES, "", true),
];

/// Cursors, outlines, selection and what only screen readers see.
pub const INTERACTION: [Family; 9] = [
    ("appearance", "none", "", false),
    ("cursor", "auto default pointer wait text move help not-allowed none progress grab grabbing", "", false),
    ("outline", "none DEFAULT dashed dotted double white black", "", false),
    ("pointer-events", "none auto", "", false),
    ("resize", "none y x DEFAULT", "", false),
    ("select", "none text all auto", "", false),
    ("fill", "current", "", false),
    ("stroke", "current 0 1 2", "", false),
    ("", "sr-only not-sr-only", "", false),
];

/// The words of a text: what stands between its spaces.
pub open spec fn words(text: &str) -> Seq<Seq<u8>> {
    ClassWrapping::NoWrapping.unwrapped(text.spec_bytes())
}

/// `head-tail`; the tail alone after an empty head, and the head alone
/// before the bare value.
pub open spec fn joined(head: Seq<u8>, tail: Seq<u8>) -> Seq<u8> {
    if head.len() == 0 {
        tail
    } else if tail == BARE.spec_bytes() {
        head
    } else {
        head + seq![45u8] + tail
    }
}

/// The start of a class of a family: the prefix and a value, behind a `-`
/// in a negative family.
pub open spec fn stem(prefix: Seq<u8>, value: Seq<u8>, negative: bool) -> Seq<u8> {
    if negative {
        seq![45u8] + joined(prefix, value)
    } else {
        joined(prefix, value)
    }
}

/// The classes that start with `stem`: one for each tail, or the stem alone
/// where there are no tails.
pub open spec fn stem_names(stem: Seq<u8>, tails: Seq<Seq<u8>>) -> Seq<Seq<u8>> {
    if tails.len() == 0 {
        seq![stem]
    } else {
        Seq::new(tails.len(), |i: int| joined(stem, tails[i]))
    }
}

/// The classes of the given values of a family, value by value.
pub open spec fn value_names(
    prefix: Seq<u8>,
    values: Seq<Seq<u8>>,
    tails: Seq<Seq<u8>>,
    negative: bool,
) -> Seq<Seq<u8>>
    decreases values.len(),
{
    if values.len() == 0 {
        Seq::empty()
    } else if negative && values.last() == ZERO.spec_bytes() {
        value_names(prefix, values.drop_last(), tails, negative)
    } else {
        value_names(prefix, values.drop_last(), tails, negative) + stem_names(
            stem(prefix, values.last(), negative),
            tails,
        )
    }
}

/// The classes of a family, in their order.
pub open spec fn family_names(family: Family) -> Seq<Seq<u8>> {
    value_names(
        family.0.spec_bytes(),
        words(family.1),
        words(family.2),
        family.3,
    )
}

/// The classes of a list of families, family by family.
pub open spec fn families_names(families: Seq<Family>) -> Seq<Seq<u8>>
    decreases families.len(),
{
    if families.len() == 0 {
        Seq::empty()
    } else {
        families_names(families.drop_last()) + family_names(families.last())
    }
}

/// The classes of the default order, first to last: the groups above, one
/// after the other.
pub closed spec fn default_class_names() -> Seq<Seq<u8>> {
    families_names(LAYOUT@) + families_names(GRID@) + families_names(ALIGNMENT@) + families_names(SIZING@) + families_names(SPACE@) + families_names(TYPOGRAPHY@) + families_names(BACKGROUNDS@) + families_names(BORDERS@) + families_names(EFFECTS@) + families_names(INTERACTION@)
}

/// The default order is made of the groups of families above, in this
/// order: layout, grid, alignment, sizing, space, typography, backgrounds,
/// borders, effects, interaction.
pub proof fn lemma_default_class_names()
    ensures
        default_class_names() == families_names(LAYOUT@) + families_names(GRID@)
            + families_names(ALIGNMENT@) + families_names(SIZING@) + families_names(SPACE@)
            + families_names(TYPOGRAPHY@) + families_names(BACKGROUNDS@) + families_names(
            BORDERS@,
        ) + families_names(EFFECTS@) + families_names(INTERACTION@),
{
}

/// `head-tail`; the tail alone after an empty head, and the head alone
/// before the bare value.
pub fn join_parts(head: &[u8], tail: &[u8]) -> (name: Vec<u8>)
    ensures
        name@ == joined(head@, tail@),
{
    let mut name: Vec<u8> = Vec::new();
    if head.len() == 0 {
        push_bytes(&mut name, tail);
        assert(name@ =~= tail@);
    } else if bytes_equal(tail, BARE.as_bytes()) {
        push_bytes(&mut name, head);
        assert(name@ =~= head@);
    } else {
        push_bytes(&mut name, head);
        name.push(45u8);
        push_bytes(&mut name, tail);
        assert(name@ =~= head@ + seq![45u8] + tail@);
    }
    name
}

/// Appends the classes that start with `stem` to `list`.
pub fn push_stem_names(list: &mut Vec<Vec<u8>>, stem: Vec<u8>, tails: &Vec<&[u8]>)
    ensures
        views_of(final(list)@) == views_of(old(list)@) + stem_names(stem@, views_of(tails@)),
{
    let ghost start = views_of(list@);
    if tails.len() == 0 {
        list.push(stem);
        assert(views_of(list@) =~= start + stem_names(stem@, views_of(tails@)));
    } else {
        let mut i: usize = 0;
        while i < tails.len()
            invariant
                i <= tails.len(),
                tails.len() > 0,
                start == views_of(old(list)@),
                views_of(list@) == start + stem_names(stem@, views_of(tails@)).take(i as int),
            decreases tails.len() - i,
        {
            let ghost names = stem_names(stem@, views_of(tails@));
            let ghost before = list@;
            let name = join_parts(stem.as_slice(), tails[i]);
            proof {
                assert(name@ == names[i as int]);
                assert(names.take(i + 1) =~= names.take(i as int).push(names[i as int]));
                assert(views_of(before.push(name)) =~= views_of(before).push(name@));
            }
            list.push(name);
            assert(views_of(list@) =~= start + names.take(i + 1));
            i += 1;
        }
        assert(stem_names(stem@, views_of(tails@)).take(tails.len() as int) =~= stem_names(
            stem@,
            views_of(tails@),
        ));
    }
}

/// Appends the classes of a family to `list`.
pub fn push_family(list: &mut Vec<Vec<u8>>, family: &Family)
    ensures
        views_of(final(list)@) == views_of(old(list)@) + family_names(*family),
{
    let ghost start = views_of(list@);
    let prefix = family.0.as_bytes();
    let values = unwrap_wrapped_classes(ClassWrapping::NoWrapping, family.1.as_bytes());
    let tails = unwrap_wrapped_classes(ClassWrapping::NoWrapping, family.2.as_bytes());
    let negative = family.3;
    let ghost all = views_of(values@);
    let mut i: usize = 0;
    proof {
        assert(all.take(0) =~= Seq::<Seq<u8>>::empty());
        assert(start + Seq::<Seq<u8>>::empty() =~= start);
    }
    while i < values.len()
        invariant
            i <= values.len(),
            start == views_of(old(list)@),
            all == views_of(values@),
            views_of(list@) == start + value_names(
                prefix@,
                all.take(i as int),
                views_of(tails@),
                negative,
            ),
        decreases values.len() - i,
    {
        let value = values[i];
        let ghost before = value_names(prefix@, all.take(i as int), views_of(tails@), negative);
        proof {
            assert(all.take(i + 1).drop_last() =~= all.take(i as int));
            assert(all.take(i + 1).last() == value@);
        }
        if negative && bytes_equal(value, ZERO.as_bytes()) {
        } else {
            let mut name: Vec<u8> = Vec::new();
            if negative {
                name.push(45u8);
            }
            let rest = join_parts(prefix, value);
            push_bytes(&mut name, rest.as_slice());
            proof {
                assert(name@ =~= stem(prefix@, value@, negative));
            }
            push_stem_names(list, name, &tails);
            proof {
                assert((start + before) + stem_names(
                    stem(prefix@, value@, negative),
                    views_of(tails@),
                ) =~= start + (before + stem_names(
                    stem(prefix@, value@, negative),
                    views_of(tails@),
                )));
            }
        }
        i += 1;
    }
    proof {
        assert(all.take(values.len() as int) =~= all);
    }
}

/// Appends the classes of a list of families to `list`.
pub fn push_families(list: &mut Vec<Vec<u8>>, families: &[Family])
    ensures
        views_of(final(list)@) == views_of(old(list)@) + families_names(families@),
{
    let ghost start = views_of(list@);
    let mut i: usize = 0;
    proof {
        assert(families@.take(0) =~= Seq::<Family>::empty());
        assert(start + Seq::<Seq<u8>>::empty() =~= start);
    }
    while i < families.len()
        invariant
            i <= families.len(),
            start == views_of(old(list)@),
            views_of(list@) == start + families_names(families@.take(i as int)),
        decreases families.len() - i,
    {
        let ghost before = families_names(families@.take(i as int));
        proof {
            assert(families@.take(i + 1).drop_last() =~= families@.take(i as int));
            assert(families@.take(i + 1).last() == families@[i as int]);
        }
        push_family(list, &families[i]);
        proof {
            assert((start + before) + family_names(families@[i as int]) =~= start + (before
                + family_names(families@[i as int])));
        }
        i += 1;
    }
    proof {
        assert(families@.take(families.len() as int) =~= families@);
    }
}

/// The classes of the default order, first to last.
pub fn default_class_list() -> (names: Vec<Vec<u8>>)
    ensures
        views_of(names@) == default_class_names(),
{
    let mut names: Vec<Vec<u8>> = Vec::new();
    push_families(&mut names, LAYOUT.as_slice());
    assert(views_of(names@) =~= families_names(LAYOUT@));
    push_families(&mut names, GRID.as_slice());
    push_families(&mut names, ALIGNMENT.as_slice());
    push_families(&mut names, SIZING.as_slice());
    push_families(&mut names, SPACE.as_slice());
    push_families(&mut names, TYPOGRAPHY.as_slice());
    push_families(&mut names, BACKGROUNDS.as_slice());
    push_families(&mut names, BORDERS.as_slice());
    push_families(&mut names, EFFECTS.as_slice());
    push_families(&mut names, INTERACTION.as_slice());
    names
}

} // verus!
