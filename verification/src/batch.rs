//! Apply the current settings to a whole folder of images.

use vstd::prelude::*;
use vstd::string::StringExecFns;

use crate::normalmap::MapKind;
use crate::text::{decimal, digits, join_lines, lines, same_word, words_match};

verus! {

/// The endings of the files that are taken for images.
pub const IMAGE_EXTENSIONS: [&'static str; 9] = [
    "png",
    "jpg",
    "jpeg",
    "bmp",
    "tga",
    "tif",
    "tiff",
    "webp",
    "gif",
];

/// Is this the ending of an image, in whatever case it is written?
pub open spec fn image_ending(ext: Seq<char>) -> bool {
    exists|i: int|
        0 <= i < 9 && same_word(ext, (#[trigger] IMAGE_EXTENSIONS@[i])@)
}

/// Is this the ending of an image, in whatever case it is written?
pub fn is_image(extension: Option<&str>) -> (r: bool)
    ensures
        r == (extension.is_some() && image_ending(extension.unwrap()@)),
{
    let Some(ext) = extension else {
        return false;
    };
    let known: [&'static str; 9] = IMAGE_EXTENSIONS;
    let mut i: usize = 0;
    while i < 9
        invariant
            i <= 9,
            extension == Some(ext),
            known == IMAGE_EXTENSIONS,
            forall|j: int| 0 <= j < i ==> !same_word(ext@, (#[trigger] IMAGE_EXTENSIONS@[j])@),
        decreases 9 - i,
    {
        if words_match(ext, known[i]) {
            assert(same_word(ext@, IMAGE_EXTENSIONS@[i as int]@));
            return true;
        }
        i += 1;
    }
    false
}

/// The batch window. `P` is what a folder is named by.
pub struct Batch<P> {
    pub open: bool,
    pub input: Option<P>,
    pub output: Option<P>,
    /// Which maps to write, in the order of [`MapKind::ALL`].
    pub selected: [bool; 4],
    /// How many images the run in flight has.
    pub total: Option<usize>,
    pub report: Option<String>,
}

impl<P> Default for Batch<P> {
    fn default() -> (b: Batch<P>)
        ensures
            !b.open,
            b.input.is_none(),
            b.output.is_none(),
            b.selected@ == seq![false, true, false, false],
            b.total.is_none(),
            b.report.is_none(),
    {
        // Normal only, matching what most people came for.
        let selected: [bool; 4] = [false, true, false, false];
        assert(selected@ =~= seq![false, true, false, false]);
        Batch { open: false, input: None, output: None, selected, total: None, report: None }
    }
}

/// The first `n` kinds, in order, of those that are selected.
pub open spec fn chosen(selected: Seq<bool>, n: int) -> Seq<MapKind>
    decreases n,
{
    if n <= 0 {
        seq![]
    } else if selected[n - 1] {
        chosen(selected, n - 1).push(kind_at(n - 1))
    } else {
        chosen(selected, n - 1)
    }
}

pub open spec fn kind_at(i: int) -> MapKind {
    if i == 0 {
        MapKind::Height
    } else if i == 1 {
        MapKind::Normal
    } else if i == 2 {
        MapKind::Ao
    } else {
        MapKind::Roughness
    }
}

impl<P> Batch<P> {
    /// A folder to read from. Until one is picked to write to, it is that one
    /// too: `same` is the folder again.
    pub fn pick_input(&mut self, dir: P, same: P)
        ensures
            *final(self) == (Batch {
                input: Some(dir),
                output: if old(self).output.is_none() {
                    Some(same)
                } else {
                    old(self).output
                },
                ..*old(self)
            }),
    {
        if self.output.is_none() {
            self.output = Some(same);
        }
        self.input = Some(dir);
    }

    pub fn pick_output(&mut self, dir: P)
        ensures
            *final(self) == (Batch { output: Some(dir), ..*old(self) }),
    {
        self.output = Some(dir);
    }

    /// The maps to write.
    pub fn kinds(&self) -> (kinds: Vec<MapKind>)
        ensures
            kinds@ == chosen(self.selected@, 4),
    {
        let mut kinds: Vec<MapKind> = Vec::new();
        if self.selected[0] {
            kinds.push(MapKind::Height);
        }
        if self.selected[1] {
            kinds.push(MapKind::Normal);
        }
        if self.selected[2] {
            kinds.push(MapKind::Ao);
        }
        if self.selected[3] {
            kinds.push(MapKind::Roughness);
        }
        reveal_with_fuel(chosen, 5);
        assert(kinds@ =~= chosen(self.selected@, 4));
        kinds
    }

    /// A run needs both folders and at least one map.
    pub fn ready(&self) -> (r: bool)
        ensures
            r == (self.input.is_some() && self.output.is_some() && exists|i: int|
                0 <= i < 4 && #[trigger] self.selected@[i]),
    {
        let any: bool = self.selected[0] || self.selected[1] || self.selected[2]
            || self.selected[3];
        assert(any == exists|i: int| 0 <= i < 4 && #[trigger] self.selected@[i]) by {
            if exists|i: int| 0 <= i < 4 && #[trigger] self.selected@[i] {
                let i = choose|i: int| 0 <= i < 4 && #[trigger] self.selected@[i];
                assert(i == 0 || i == 1 || i == 2 || i == 3);
            }
        }
        self.input.is_some() && self.output.is_some() && any
    }

    /// Begin a run over so many files, found in the folder called `name`.
    /// Without a folder on either end nothing happens; without a file there is
    /// nothing to run, and that is reported.
    pub fn begin(&mut self, files: usize, name: &str) -> (started: bool)
        ensures
            started == (old(self).input.is_some() && old(self).output.is_some() && files > 0),
            started ==> *final(self) == (Batch { total: Some(files), report: None, ..*old(self) }),
            !started && (old(self).input.is_none() || old(self).output.is_none()) ==> *final(self)
                == *old(self),
            !started && old(self).input.is_some() && old(self).output.is_some() ==> {
                &&& *final(self) == (Batch { report: final(self).report, ..*old(self) })
                &&& final(self).report.is_some()
                &&& final(self).report.unwrap()@ == "No images found in "@ + name@
            },
    {
        if self.input.is_none() || self.output.is_none() {
            return false;
        }
        if files == 0 {
            let mut report: String = String::from_str("No images found in ");
            report.append(name);
            self.report = Some(report);
            return false;
        }
        self.report = None;
        self.total = Some(files);
        true
    }

    /// The run in flight has finished.
    pub fn finish(&mut self, report: String)
        ensures
            *final(self) == (if old(self).total.is_some() {
                Batch { total: None, report: Some(report), ..*old(self) }
            } else {
                *old(self)
            }),
    {
        if self.total.is_some() {
            self.report = Some(report);
            self.total = None;
        }
    }
}

/// What is said of one file that could not be converted.
pub fn failure(file: &str, error: &str) -> (s: String)
    ensures
        s@ == file@ + ": "@ + error@,
{
    let mut s: String = String::from_str(file);
    s.append(": ");
    s.append(error);
    s
}

/// What is said when a run has finished.
pub fn summary(files: usize, kinds: usize, errors: &Vec<String>) -> (s: String)
    ensures
        s@ == (if errors@.len() == 0 {
            "Done — "@ + digits(files as nat) + " image(s), "@ + digits(kinds as nat)
                + " map(s) each."@
        } else {
            "Finished with "@ + digits(errors@.len()) + " error(s):\n"@ + lines(errors@)
        }),
{
    if errors.len() == 0 {
        let mut s: String = String::from_str("Done — ");
        s.append(decimal(files as u64).as_str());
        s.append(" image(s), ");
        s.append(decimal(kinds as u64).as_str());
        s.append(" map(s) each.");
        s
    } else {
        let mut s: String = String::from_str("Finished with ");
        s.append(decimal(errors.len() as u64).as_str());
        s.append(" error(s):\n");
        s.append(join_lines(errors).as_str());
        s
    }
}

/// How far a run has got.
pub fn progress(done: usize, total: usize) -> (s: String)
    ensures
        s@ == digits(done as nat) + " / "@ + digits(total as nat),
{
    let mut s: String = decimal(done as u64);
    s.append(" / ");
    s.append(decimal(total as u64).as_str());
    s
}

// ------------------------------------------------------------------ the laws

/// The files taken for images are those with one of nine endings, in whatever
/// case they are written.
pub proof fn law_images_are_known_by_nine_endings(ext: Seq<char>)
    ensures
        image_ending(ext) <==> {
            ||| same_word(ext, "png"@)
            ||| same_word(ext, "jpg"@)
            ||| same_word(ext, "jpeg"@)
            ||| same_word(ext, "bmp"@)
            ||| same_word(ext, "tga"@)
            ||| same_word(ext, "tif"@)
            ||| same_word(ext, "tiff"@)
            ||| same_word(ext, "webp"@)
            ||| same_word(ext, "gif"@)
        },
{
    assert(IMAGE_EXTENSIONS@[0]@ == "png"@);
    assert(IMAGE_EXTENSIONS@[1]@ == "jpg"@);
    assert(IMAGE_EXTENSIONS@[2]@ == "jpeg"@);
    assert(IMAGE_EXTENSIONS@[3]@ == "bmp"@);
    assert(IMAGE_EXTENSIONS@[4]@ == "tga"@);
    assert(IMAGE_EXTENSIONS@[5]@ == "tif"@);
    assert(IMAGE_EXTENSIONS@[6]@ == "tiff"@);
    assert(IMAGE_EXTENSIONS@[7]@ == "webp"@);
    assert(IMAGE_EXTENSIONS@[8]@ == "gif"@);
    if image_ending(ext) {
        let i = choose|i: int|
            0 <= i < 9 && same_word(ext, (#[trigger] IMAGE_EXTENSIONS@[i])@);
        assert(i == 0 || i == 1 || i == 2 || i == 3 || i == 4 || i == 5 || i == 6 || i == 7 || i
            == 8);
    }
}

/// Where a map stands in the list of them.
pub open spec fn rank(kind: MapKind) -> int {
    match kind {
        MapKind::Height => 0,
        MapKind::Normal => 1,
        MapKind::Ao => 2,
        MapKind::Roughness => 3,
    }
}

/// The maps written are those that are ticked, each once, in the order they are
/// listed in.
pub proof fn law_the_maps_ticked_are_written(selected: Seq<bool>, kind: MapKind)
    requires
        selected.len() == 4,
    ensures
        chosen(selected, 4).contains(kind) <==> selected[rank(kind)],
        forall|j: int, k: int|
            0 <= j < k < chosen(selected, 4).len() ==> rank(#[trigger] chosen(selected, 4)[j])
                < rank(#[trigger] chosen(selected, 4)[k]),
{
    lemma_chosen(selected, 4, kind);
}

proof fn lemma_chosen(selected: Seq<bool>, n: int, kind: MapKind)
    requires
        0 <= n <= 4,
        selected.len() == 4,
    ensures
        chosen(selected, n).contains(kind) <==> rank(kind) < n && selected[rank(kind)],
        forall|j: int|
            0 <= j < chosen(selected, n).len() ==> rank(#[trigger] chosen(selected, n)[j]) < n,
        forall|j: int, k: int|
            0 <= j < k < chosen(selected, n).len() ==> rank(#[trigger] chosen(selected, n)[j])
                < rank(#[trigger] chosen(selected, n)[k]),
    decreases n,
{
    if n > 0 {
        lemma_chosen(selected, n - 1, kind);
        let rest = chosen(selected, n - 1);
        let all = chosen(selected, n);
        let last = kind_at(n - 1);
        assert(n == 1 || n == 2 || n == 3 || n == 4);
        assert(rank(last) == n - 1);
        if selected[n - 1] {
            if rest.contains(kind) {
                let j = choose|j: int| 0 <= j < rest.len() && rest[j] == kind;
                assert(all[j] == kind);
            }
            if kind == last {
                assert(all[rest.len() as int] == kind);
            }
            if all.contains(kind) && kind != last {
                let j = choose|j: int| 0 <= j < all.len() && all[j] == kind;
                assert(rest[j] == kind);
            }
        }
    } else {
        assert(chosen(selected, n).len() == 0);
    }
}

} // verus!
