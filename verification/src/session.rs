//! What the app decides from one frame to the next: what is on screen, what is
//! saved under which name, when a map is generated and whether a result that
//! comes back is still wanted.

use vstd::prelude::*;
use vstd::string::StringExecFns;

use crate::normalmap::MapKind;
use crate::relief::{Relief, Side, Tool};
use crate::text::{same_word, words_match};

verus! {

/// How long the settings have to sit still before a regeneration starts, in
/// nanoseconds.
pub const DEBOUNCE: u64 = 80_000_000;

/// What is on screen.
#[derive(Clone, Copy, PartialEq, Eq, Debug, Structural)]
pub enum Screen {
    Source,
    Kind(MapKind),
    /// Painting one side's height canvas.
    Paint(Side),
    /// The normal map baked from the four side canvases.
    Relief,
}

impl Screen {
    /// Is this one of the relief's views?
    pub open spec fn of_relief(self) -> bool {
        self is Paint || self is Relief
    }

    pub fn is_paint(self) -> (r: bool)
        ensures
            r == (self is Paint),
    {
        matches!(self, Screen::Paint(_))
    }

    pub fn is_relief(self) -> (r: bool)
        ensures
            r == self.of_relief(),
            r == !(self is Source || self is Kind),
    {
        matches!(self, Screen::Paint(_) | Screen::Relief)
    }

    /// Whether the view on screen is texels rather than pixels. The relief
    /// canvases always are: a paint canvas you cannot aim at is no use, so they
    /// get the ladder and the magnifying fit whatever the mode says.
    pub fn pixel_view(self, pixel_mode: bool) -> (r: bool)
        ensures
            r == (pixel_mode || self.of_relief()),
            self is Paint || self is Relief ==> r,
            self is Source || self is Kind ==> r == pixel_mode,
    {
        pixel_mode || self.is_relief()
    }

    /// How big the thing on screen is, in its own pixels. The relief canvases
    /// exist whether or not an image is loaded and have their own size; the
    /// image tabs are measured in source pixels.
    pub fn native(self, relief: (u32, u32), source: Option<(u32, u32)>) -> (size: Option<
        (u32, u32),
    >)
        ensures
            size == (if self.of_relief() {
                Some(relief)
            } else {
                source
            }),
            self is Paint || self is Relief ==> size == Some(relief),
            self is Source || self is Kind ==> size == source,
    {
        if self.is_relief() {
            Some(relief)
        } else {
            source
        }
    }

    /// What saving this view means.
    pub open spec fn saving(self, loaded: bool) -> Saving {
        match self {
            Screen::Kind(kind) => if loaded {
                Saving::Kind(kind)
            } else {
                Saving::Nothing
            },
            Screen::Paint(side) => Saving::Side(side),
            Screen::Relief => Saving::Baked,
            Screen::Source => Saving::Unclear,
        }
    }

    /// Whatever is on screen is what gets saved, including one side's heights,
    /// which is the only way to hand a relief to another tool.
    pub fn to_save(self, loaded: bool) -> (s: Saving)
        ensures
            s == self.saving(loaded),
    {
        match self {
            Screen::Kind(kind) => if loaded {
                Saving::Kind(kind)
            } else {
                Saving::Nothing
            },
            Screen::Paint(side) => Saving::Side(side),
            Screen::Relief => Saving::Baked,
            Screen::Source => Saving::Unclear,
        }
    }
}

/// What there is to save.
#[derive(Clone, Copy, PartialEq, Eq, Debug, Structural)]
pub enum Saving {
    /// A map of the loaded image.
    Kind(MapKind),
    /// One side's heights.
    Side(Side),
    /// The relief's normals.
    Baked,
    /// A map, but of no image.
    Nothing,
    /// The source itself: the user has to say which map is meant.
    Unclear,
}

impl Saving {
    /// The end of the file's name, where there is something to save.
    pub open spec fn ending(self) -> Option<Seq<char>> {
        match self {
            Saving::Kind(kind) => Some(kind.named()),
            Saving::Side(side) => Some("relief_"@ + side.named()),
            Saving::Baked => Some("relief_normal"@),
            Saving::Nothing => None,
            Saving::Unclear => None,
        }
    }

    pub fn suffix(self) -> (s: Option<String>)
        ensures
            s.is_some() == self.ending().is_some(),
            s.is_some() ==> s.unwrap()@ == self.ending().unwrap(),
    {
        match self {
            Saving::Kind(kind) => Some(String::from_str(kind.suffix())),
            Saving::Side(side) => {
                let mut s: String = String::from_str("relief_");
                s.append(side.suffix());
                Some(s)
            },
            Saving::Baked => Some(String::from_str("relief_normal")),
            Saving::Nothing => None,
            Saving::Unclear => None,
        }
    }

    /// Saving a normal map as JPEG destroys it: does this call for a word of
    /// warning?
    pub fn spoiled_by(self, extension: &str) -> (r: bool)
        ensures
            r == ((self == Saving::Kind(MapKind::Normal) || self == Saving::Baked) && (same_word(
                extension@,
                "jpg"@,
            ) || same_word(extension@, "jpeg"@))),
    {
        let normal: bool = match self {
            Saving::Kind(MapKind::Normal) => true,
            Saving::Baked => true,
            _ => false,
        };
        normal && (words_match(extension, "jpg") || words_match(extension, "jpeg"))
    }
}

/// A file's name: `brick` and `normal` make `brick_normal.png`.
pub open spec fn named(stem: Seq<char>, suffix: Seq<char>) -> Seq<char> {
    stem + "_"@ + suffix + ".png"@
}

pub fn file_name(stem: &str, suffix: &str) -> (s: String)
    ensures
        s@ == named(stem@, suffix@),
{
    let mut s: String = String::from_str(stem);
    s.append("_");
    s.append(suffix);
    s.append(".png");
    s
}

/// The names that everything is exported under: the four maps, and if there is
/// a painted relief its own pair, under its own names.
pub fn export_names(stem: &str, relief: bool) -> (names: Vec<String>)
    ensures
        names@.len() == (if relief {
            6int
        } else {
            4
        }),
        names@[0]@ == named(stem@, MapKind::Height.named()),
        names@[1]@ == named(stem@, MapKind::Normal.named()),
        names@[2]@ == named(stem@, MapKind::Ao.named()),
        names@[3]@ == named(stem@, MapKind::Roughness.named()),
        relief ==> names@[4]@ == named(stem@, "relief_normal"@),
        relief ==> names@[5]@ == named(stem@, "relief_height"@),
{
    let mut names: Vec<String> = Vec::new();
    names.push(file_name(stem, MapKind::Height.suffix()));
    names.push(file_name(stem, MapKind::Normal.suffix()));
    names.push(file_name(stem, MapKind::Ao.suffix()));
    names.push(file_name(stem, MapKind::Roughness.suffix()));
    if relief {
        names.push(file_name(stem, "relief_normal"));
        names.push(file_name(stem, "relief_height"));
    }
    names
}

/// Two maps of an image are never exported under one name.
pub proof fn law_exports_do_not_collide(stem: Seq<char>, a: Seq<char>, b: Seq<char>)
    ensures
        named(stem, a) == named(stem, b) ==> a == b,
{
    if named(stem, a) == named(stem, b) {
        let x = named(stem, a);
        let from = stem.len() + "_"@.len();
        assert(x.len() == from + a.len() + ".png"@.len());
        assert(x.len() == from + b.len() + ".png"@.len());
        assert(x.subrange(from as int, (from + a.len()) as int) =~= a);
        assert(named(stem, b).subrange(from as int, (from + b.len()) as int) =~= b);
    }
}

// ---------------------------------------------------------------- the stage

/// What is on screen, and whether it is framed.
pub struct Stage {
    pub screen: Screen,
    pub fit: bool,
}

impl Default for Stage {
    fn default() -> (s: Stage)
        ensures
            s == (Stage { screen: Screen::Kind(MapKind::Normal), fit: true }),
    {
        Stage { screen: Screen::Kind(MapKind::Normal), fit: true }
    }
}

impl Stage {
    /// Show one side's canvas, framed: the canvas is rarely the size of the
    /// image, so arriving at last frame's zoom would land you off the edge.
    pub fn show_side(&mut self, relief: &mut Relief, side: Side)
        ensures
            *final(self) == (Stage { screen: Screen::Paint(side), fit: true }),
            *final(relief) == (Relief { side, ..*old(relief) }),
    {
        relief.side = side;
        self.screen = Screen::Paint(side);
        self.fit = true;
    }

    /// Show what the canvases bake to, framed.
    pub fn show_baked(&mut self)
        ensures
            *final(self) == (Stage { screen: Screen::Relief, fit: true }),
    {
        self.screen = Screen::Relief;
        self.fit = true;
    }

    /// Pick up a tool. That means you want to draw, so the canvas it would
    /// draw on is opened unless one is open already.
    pub fn pick_tool(&mut self, relief: &mut Relief, tool: Tool)
        ensures
            *final(relief) == (Relief { tool, ..*old(relief) }),
            *final(self) == (if old(self).screen is Paint {
                *old(self)
            } else {
                Stage { screen: Screen::Paint(old(relief).side), fit: true }
            }),
    {
        relief.tool = tool;
        if !self.screen.is_paint() {
            let side: Side = relief.side;
            self.show_side(relief, side);
        }
    }

    /// Undo the last stroke, and show a side it was on: undoing something you
    /// cannot see is worse than not undoing it.
    pub fn undo(&mut self, relief: &mut Relief)
        requires
            old(relief).wf(),
        ensures
            final(relief).wf(),
            final(relief).board@ == old(relief).board@.undone(),
            final(relief).side == (if old(relief).board@.undo.len() == 0 {
                old(relief).side
            } else {
                old(relief).board@.undo.last()[0].side
            }),
            *final(relief) == (Relief {
                board: final(relief).board,
                side: final(relief).side,
                ..*old(relief)
            }),
            *final(self) == (Stage { screen: Screen::Paint(final(relief).side), fit: true }),
    {
        relief.undo();
        let side: Side = relief.side;
        self.show_side(relief, side);
    }

    /// Put the last stroke undone back, and show a side it was on.
    pub fn redo(&mut self, relief: &mut Relief)
        requires
            old(relief).wf(),
        ensures
            final(relief).wf(),
            final(relief).board@ == old(relief).board@.redone(),
            final(relief).side == (if old(relief).board@.redo.len() == 0 {
                old(relief).side
            } else {
                old(relief).board@.redo.last()[0].side
            }),
            *final(relief) == (Relief {
                board: final(relief).board,
                side: final(relief).side,
                ..*old(relief)
            }),
            *final(self) == (Stage { screen: Screen::Paint(final(relief).side), fit: true }),
    {
        relief.redo();
        let side: Side = relief.side;
        self.show_side(relief, side);
    }
}

// -------------------------------------------------------------- generating

/// What is to be done about settings that moved.
#[derive(Clone, Copy, PartialEq, Eq, Debug, Structural)]
pub enum Dispatch {
    /// They have not.
    Idle,
    /// Look again after so many nanoseconds.
    Wait(u64),
    /// There is nothing to generate from.
    Forget,
    /// Send a request with this number.
    Request(u64),
}

/// Which request is in flight, and how many have come back.
pub struct Pipeline {
    /// The number of the newest request.
    pub generation: u64,
    /// Is it still to come back?
    pub pending: bool,
    /// Bumped on every finished generation, so the lit preview can tell.
    pub map_revision: u64,
}

impl Default for Pipeline {
    fn default() -> (p: Pipeline)
        ensures
            p == (Pipeline { generation: 0, pending: false, map_revision: 0 }),
    {
        Pipeline { generation: 0, pending: false, map_revision: 0 }
    }
}

impl Pipeline {
    /// `waited` is how long the settings have been still since they moved.
    pub open spec fn dispatching(self, waited: Option<u64>, loaded: bool) -> Dispatch {
        match waited {
            None => Dispatch::Idle,
            Some(t) => if t < DEBOUNCE {
                Dispatch::Wait((DEBOUNCE - t) as u64)
            } else if !loaded {
                Dispatch::Forget
            } else {
                Dispatch::Request((self.generation + 1) as u64)
            },
        }
    }

    /// A burst of slider events makes one request, once it stops.
    pub fn dispatch(&mut self, waited: Option<u64>, loaded: bool) -> (d: Dispatch)
        requires
            waited.is_some() && waited.unwrap() >= DEBOUNCE && loaded ==> old(self).generation
                < u64::MAX,
        ensures
            d == old(self).dispatching(waited, loaded),
            *final(self) == (match d {
                Dispatch::Request(g) => Pipeline { generation: g, pending: true, ..*old(self) },
                _ => *old(self),
            }),
    {
        match waited {
            None => Dispatch::Idle,
            Some(t) => if t < DEBOUNCE {
                Dispatch::Wait(DEBOUNCE - t)
            } else if !loaded {
                Dispatch::Forget
            } else {
                self.generation = self.generation + 1;
                self.pending = true;
                Dispatch::Request(self.generation)
            },
        }
    }

    /// A result has come back. One that a newer request has outrun is stale,
    /// and not wanted.
    pub fn accept(&mut self, generation: u64) -> (wanted: bool)
        requires
            generation == old(self).generation ==> old(self).map_revision < u64::MAX,
        ensures
            wanted == (generation == old(self).generation),
            *final(self) == (if wanted {
                Pipeline {
                    pending: false,
                    map_revision: (old(self).map_revision + 1) as u64,
                    ..*old(self)
                }
            } else {
                *old(self)
            }),
    {
        if generation != self.generation {
            return false;
        }
        self.pending = false;
        self.map_revision = self.map_revision + 1;
        true
    }
}

/// Every request has a number of its own, so once a second one is out, the
/// first one's result is stale.
pub proof fn law_stale_results_are_discarded(
    first: Pipeline,
    second: Pipeline,
    waited: Option<u64>,
    again: Option<u64>,
    a: u64,
    b: u64,
)
    requires
        first.generation < u64::MAX - 1,
        first.dispatching(waited, true) == Dispatch::Request(a),
        second.generation == a,
        second.dispatching(again, true) == Dispatch::Request(b),
    ensures
        a != b,
{
}

/// Nothing is generated while the settings are still moving.
pub proof fn law_debounce(p: Pipeline, t: u64, loaded: bool, g: u64)
    requires
        p.dispatching(Some(t), loaded) == Dispatch::Request(g),
    ensures
        t >= DEBOUNCE,
        loaded,
{
}

// ------------------------------------------------------------ the lit preview

/// What the lit preview was last handed, so it knows when that changed.
pub struct Lit {
    pub key: (bool, u64, u64),
    pub revision: u64,
}

impl Default for Lit {
    fn default() -> (l: Lit)
        ensures
            l == (Lit { key: (false, u64::MAX, u64::MAX), revision: 0 }),
    {
        Lit { key: (false, u64::MAX, u64::MAX), revision: 0 }
    }
}

/// What the lit preview goes by: whether anything is painted, and how often the
/// maps and the canvases have changed.
pub open spec fn lit_key(relief: Relief, map_revision: u64) -> (bool, u64, u64) {
    (exists|side: Side| relief.board@.drawn(side), map_revision, relief.board@.revision)
}

impl Lit {
    /// The relief is a deliberate statement about depth and the image maps are
    /// a guess, so once anything has been painted the light shows the relief.
    /// An empty relief keeps out of the way entirely.
    pub fn feed(&mut self, relief: &Relief, map_revision: u64) -> (from_relief: bool)
        requires
            relief.wf(),
            old(self).key != lit_key(*relief, map_revision) ==> old(self).revision < u64::MAX,
        ensures
            from_relief == exists|side: Side| relief.board@.drawn(side),
            final(self).key == lit_key(*relief, map_revision),
            final(self).key.0 == from_relief,
            final(self).key.1 == map_revision,
            final(self).key.2 == relief.board@.revision,
            final(self).revision == (if final(self).key == old(self).key {
                old(self).revision
            } else {
                (old(self).revision + 1) as u64
            }),
    {
        let from_relief: bool = relief.has_content();
        let revision: u64 = relief.revision();
        if self.key.0 != from_relief || self.key.1 != map_revision || self.key.2 != revision {
            self.key = (from_relief, map_revision, revision);
            self.revision = self.revision + 1;
        }
        from_relief
    }
}

/// Which of the two feeds the lit preview: say which one is talking.
pub fn lit_source(from_relief: bool) -> (s: &'static str)
    ensures
        s@ == (if from_relief {
            "painted relief"@
        } else {
            "image"@
        }),
{
    if from_relief {
        "painted relief"
    } else {
        "image"
    }
}

// ------------------------------------------------------------------ the laws

/// Whatever is on screen is what gets saved: a map only of a loaded image, a
/// canvas and the baked normals always, and the source never.
pub proof fn law_what_is_on_screen_is_saved(kind: MapKind, side: Side, loaded: bool)
    ensures
        Screen::Kind(kind).saving(true) == Saving::Kind(kind),
        Screen::Kind(kind).saving(false) == Saving::Nothing,
        Screen::Paint(side).saving(loaded) == Saving::Side(side),
        Screen::Relief.saving(loaded) == Saving::Baked,
        Screen::Source.saving(loaded) == Saving::Unclear,
{
}

/// No two things on screen are saved under one name, and nothing is saved
/// under none.
pub proof fn law_each_screen_has_its_own_name(a: Screen, b: Screen, loaded: bool)
    ensures
        a.saving(loaded).ending() is Some <==> a is Paint || a is Relief || (a is Kind && loaded),
        a.saving(loaded).ending() is Some && a.saving(loaded).ending() == b.saving(loaded).ending()
            ==> a == b,
{
    reveal_strlit("relief_");
    reveal_strlit("relief_normal");
    reveal_strlit("height");
    reveal_strlit("normal");
    reveal_strlit("ao");
    reveal_strlit("roughness");
    reveal_strlit("top");
    reveal_strlit("left");
    reveal_strlit("right");
    reveal_strlit("bottom");
    let p = "relief_"@;
    let names = |side: Side| p + side.named();
    assert(names(Side::Top).len() == 10 && names(Side::Left).len() == 11 && names(Side::Right).len()
        == 12 && names(Side::Bottom).len() == 13);
    assert("relief_normal"@.len() == 13);
    assert(names(Side::Bottom)[7] == "bottom"@[0]);
    assert("relief_normal"@[7] == 'n');
    assert("height"@.len() == 6 && "normal"@.len() == 6 && "ao"@.len() == 2 && "roughness"@.len()
        == 9);
    assert("height"@[0] == 'h' && "normal"@[0] == 'n');
}

/// A file is named after its image and what it holds.
pub proof fn law_names_begin_with_the_image_and_end_in_png(stem: Seq<char>, suffix: Seq<char>)
    ensures
        named(stem, suffix).len() == stem.len() + suffix.len() + 5,
        named(stem, suffix).take(stem.len() as int) == stem,
        named(stem, suffix)[stem.len() as int] == '_',
        named(stem, suffix).subrange(
            (stem.len() + 1) as int,
            (stem.len() + 1 + suffix.len()) as int,
        ) == suffix,
        named(stem, suffix).skip((stem.len() + 1 + suffix.len()) as int) == seq!['.', 'p', 'n', 'g'],
{
    reveal_strlit("_");
    reveal_strlit(".png");
    let x = named(stem, suffix);
    assert(x.take(stem.len() as int) =~= stem);
    assert(x.subrange(
            (stem.len() + 1) as int,
            (stem.len() + 1 + suffix.len()) as int,
        ) =~= suffix);
    assert(x.skip((stem.len() + 1 + suffix.len()) as int) =~= seq!['.', 'p', 'n', 'g']);
}

/// Settings that have not moved ask for nothing. Those that moved wait until
/// they have been still for 80 milliseconds, and no longer; then a loaded image
/// is asked for under the next number, and without one the move is forgotten.
pub proof fn law_a_request_goes_out_after_80_milliseconds(p: Pipeline, t: u64)
    requires
        p.generation < u64::MAX,
    ensures
        p.dispatching(None, true) == Dispatch::Idle,
        p.dispatching(None, false) == Dispatch::Idle,
        t < 80_000_000 ==> {
            let left = (80_000_000 - t) as u64;
            &&& p.dispatching(Some(t), true) == Dispatch::Wait(left)
            &&& p.dispatching(Some(t), false) == Dispatch::Wait(left)
        },
        t >= 80_000_000 ==> {
            let next = (p.generation + 1) as u64;
            &&& p.dispatching(Some(t), true) == Dispatch::Request(next)
            &&& p.dispatching(Some(t), false) == Dispatch::Forget
        },
{
}

/// The lit preview is shaded anew when, and only when, the maps or the canvases
/// have changed, or the first texel is painted or the last one taken off.
pub proof fn law_the_light_goes_by_what_changed(a: Relief, b: Relief, m: u64, n: u64)
    ensures
        lit_key(a, m) == lit_key(b, n) <==> {
            &&& m == n
            &&& a.board@.revision == b.board@.revision
            &&& (exists|side: Side| a.board@.drawn(side)) == (exists|side: Side|
                b.board@.drawn(side))
        },
        lit_key(a, m).0 == exists|side: Side| a.board@.drawn(side),
{
}

} // verus!
