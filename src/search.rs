//! Finding an icon's file: through the themes in search order, then through the
//! pixmap directories.
use vstd::prelude::*;

use crate::text::join_spec;
use crate::text::join_path;
use crate::theme::{dirs_with_overlays, matching_dirs_of, overlay_dirs_of, IconTheme, ThemeView};

verus! {

/// The directories that the search starts from.
pub struct BaseDirs {
    /// The personal data directory (`$XDG_DATA_HOME`).
    pub data_home: String,
    /// The system data directories in their configured order (`$XDG_DATA_DIRS`).
    pub data_dirs: Vec<String>,
}

/// What the search needs next from the file system, or its result.
pub enum Probe {
    /// Whether this path exists; answer with `IconSearch::answer`.
    Exists(String),
    /// The icon's file.
    Found(String),
    /// No theme and no pixmap directory has the icon.
    NotFound,
}

/// `<dir>/<name>.svg`, `.png` and `.xpm`, in this order of preference.
pub open spec fn icon_files(dir: Seq<char>, name: Seq<char>) -> Seq<Seq<char>> {
    seq![
        join_spec(dir, name + ".svg"@),
        join_spec(dir, name + ".png"@),
        join_spec(dir, name + ".xpm"@),
    ]
}

/// The candidate files of a list of directories, directory by directory.
pub open spec fn files_in(dirs: Seq<Seq<char>>, name: Seq<char>) -> Seq<Seq<char>>
    decreases dirs.len(),
{
    if dirs.len() == 0 {
        Seq::empty()
    } else {
        icon_files(dirs[0], name) + files_in(dirs.drop_first(), name)
    }
}

/// The first of `cands` that exists in `fs`.
pub open spec fn first_present(cands: Seq<Seq<char>>, fs: Set<Seq<char>>) -> Option<Seq<char>>
    decreases cands.len(),
{
    if cands.len() == 0 {
        None
    } else if fs.contains(cands[0]) {
        Some(cands[0])
    } else {
        first_present(cands.drop_first(), fs)
    }
}

/// Which overlay directories of a theme exist in `fs`.
pub open spec fn overlay_flags(v: ThemeView, home: Seq<char>, size: nat, scale: nat, fs: Set<Seq<char>>) -> Seq<bool> {
    overlay_dirs_of(v, home, matching_dirs_of(v, size, scale)).map_values(|p: Seq<char>| fs.contains(p))
}

/// The directories searched in theme `v` when `fs` holds the existing paths.
pub open spec fn theme_dirs(v: ThemeView, home: Seq<char>, size: nat, scale: nat, fs: Set<Seq<char>>) -> Seq<Seq<char>> {
    dirs_with_overlays(v, home, matching_dirs_of(v, size, scale), overlay_flags(v, home, size, scale, fs))
}

/// The candidate files of the themes from index `i` on.
pub open spec fn theme_cands(
    themes: Seq<ThemeView>,
    i: int,
    home: Seq<char>,
    name: Seq<char>,
    size: nat,
    scale: nat,
    fs: Set<Seq<char>>,
) -> Seq<Seq<char>>
    decreases themes.len() - i,
{
    if i < 0 || i >= themes.len() {
        Seq::empty()
    } else {
        files_in(theme_dirs(themes[i], home, size, scale, fs), name) + theme_cands(themes, i + 1, home, name, size, scale, fs)
    }
}

/// `<base>/pixmaps`.
pub open spec fn pixmap_dir(base: Seq<char>) -> Seq<char> {
    join_spec(base, "pixmaps"@)
}

/// The candidate files of the existing pixmap directories from index `j` on.
pub open spec fn pixmap_cands(bases: Seq<Seq<char>>, j: int, name: Seq<char>, fs: Set<Seq<char>>) -> Seq<Seq<char>>
    decreases bases.len() - j,
{
    if j < 0 || j >= bases.len() {
        Seq::empty()
    } else if fs.contains(pixmap_dir(bases[j])) {
        icon_files(pixmap_dir(bases[j]), name) + pixmap_cands(bases, j + 1, name, fs)
    } else {
        pixmap_cands(bases, j + 1, name, fs)
    }
}

/// The file that a lookup finds when `fs` holds the existing paths: the first
/// existing candidate of the themes in search order, else of the pixmap directories.
pub open spec fn lookup_spec(
    themes: Seq<ThemeView>,
    home: Seq<char>,
    bases: Seq<Seq<char>>,
    name: Seq<char>,
    size: nat,
    scale: nat,
    fs: Set<Seq<char>>,
) -> Option<Seq<char>> {
    first_present(theme_cands(themes, 0, home, name, size, scale, fs) + pixmap_cands(bases, 0, name, fs), fs)
}

/// `fs` agrees with every answer given so far.
pub open spec fn consistent(fs: Set<Seq<char>>, log: Seq<(Seq<char>, bool)>) -> bool {
    forall|i: int| 0 <= i < log.len() ==> fs.contains(#[trigger] log[i].0) == log[i].1
}

proof fn lemma_skip_absent(before: Seq<Seq<char>>, rest: Seq<Seq<char>>, fs: Set<Seq<char>>)
    requires
        forall|i: int| 0 <= i < before.len() ==> !fs.contains(#[trigger] before[i]),
    ensures
        first_present(before + rest, fs) == first_present(rest, fs),
    decreases before.len(),
{
    if before.len() > 0 {
        assert((before + rest)[0] == before[0]);
        assert((before + rest).drop_first() =~= before.drop_first() + rest);
        assert forall|i: int| 0 <= i < before.drop_first().len() implies !fs.contains(#[trigger] before.drop_first()[i]) by {
            assert(before.drop_first()[i] == before[i + 1]);
        }
        lemma_skip_absent(before.drop_first(), rest, fs);
    } else {
        assert(before + rest =~= rest);
    }
}

proof fn lemma_none_present(cands: Seq<Seq<char>>, fs: Set<Seq<char>>)
    requires
        forall|i: int| 0 <= i < cands.len() ==> !fs.contains(#[trigger] cands[i]),
    ensures
        first_present(cands, fs) is None,
{
    lemma_skip_absent(cands, Seq::empty(), fs);
    assert(cands + Seq::<Seq<char>>::empty() =~= cands);
}

/// Within one directory the vector file is preferred to the PNG file, and the
/// PNG file to the XPM file: when no earlier candidate exists, the first of
/// `<dir>/<name>.svg`, `.png`, `.xpm` that exists is the result.
pub proof fn lemma_format_preference(
    before: Seq<Seq<char>>,
    dir: Seq<char>,
    name: Seq<char>,
    after: Seq<Seq<char>>,
    fs: Set<Seq<char>>,
)
    requires
        forall|i: int| 0 <= i < before.len() ==> !fs.contains(#[trigger] before[i]),
    ensures
        ({
            let r = first_present(before + icon_files(dir, name) + after, fs);
            let files = icon_files(dir, name);
            &&& fs.contains(files[0]) ==> r == Some(files[0])
            &&& !fs.contains(files[0]) && fs.contains(files[1]) ==> r == Some(files[1])
            &&& !fs.contains(files[0]) && !fs.contains(files[1]) && fs.contains(files[2]) ==> r == Some(files[2])
        }),
{
    let files = icon_files(dir, name);
    assert(before + files + after =~= before + (files + after));
    lemma_skip_absent(before, files + after, fs);
    let w = files + after;
    assert(w[0] == files[0]);
    assert(w.drop_first()[0] == files[1]);
    assert(w.drop_first().drop_first()[0] == files[2]);
    let w1 = w.drop_first();
    let w2 = w1.drop_first();
    assert(first_present(w2, fs) == if fs.contains(files[2]) {
        Some(files[2])
    } else {
        first_present(w2.drop_first(), fs)
    });
    assert(first_present(w1, fs) == if fs.contains(files[1]) {
        Some(files[1])
    } else {
        first_present(w2, fs)
    });
    assert(first_present(w, fs) == if fs.contains(files[0]) {
        Some(files[0])
    } else {
        first_present(w1, fs)
    });
}

/// When no theme in the search order has the icon, the lookup's result is what
/// the pixmap directories give.
pub proof fn lemma_pixmap_fallback(
    themes: Seq<ThemeView>,
    home: Seq<char>,
    bases: Seq<Seq<char>>,
    name: Seq<char>,
    size: nat,
    scale: nat,
    fs: Set<Seq<char>>,
)
    requires
        forall|c: Seq<char>| #[trigger] theme_cands(themes, 0, home, name, size, scale, fs).contains(c) ==> !fs.contains(c),
    ensures
        lookup_spec(themes, home, bases, name, size, scale, fs) == first_present(pixmap_cands(bases, 0, name, fs), fs),
{
    let t = theme_cands(themes, 0, home, name, size, scale, fs);
    assert forall|i: int| 0 <= i < t.len() implies !fs.contains(#[trigger] t[i]) by {
        assert(t.contains(t[i]));
    }
    lemma_skip_absent(t, pixmap_cands(bases, 0, name, fs), fs);
}

proof fn lemma_skip_pixmap_dirs(bases: Seq<Seq<char>>, i: int, j: int, name: Seq<char>, fs: Set<Seq<char>>)
    requires
        0 <= i <= j <= bases.len(),
        forall|k: int, e: int| i <= k < j && 0 <= e < 3 ==> !fs.contains(#[trigger] icon_files(pixmap_dir(bases[k]), name)[e]),
    ensures
        first_present(pixmap_cands(bases, i, name, fs), fs) == first_present(pixmap_cands(bases, j, name, fs), fs),
    decreases j - i,
{
    if i < j {
        lemma_skip_pixmap_dirs(bases, i + 1, j, name, fs);
        if fs.contains(pixmap_dir(bases[i])) {
            let files = icon_files(pixmap_dir(bases[i]), name);
            assert forall|e: int| 0 <= e < files.len() implies !fs.contains(#[trigger] files[e]) by {
                assert(!fs.contains(icon_files(pixmap_dir(bases[i]), name)[e]));
            }
            lemma_skip_absent(files, pixmap_cands(bases, i + 1, name, fs), fs);
        }
    }
}

/// When no theme has the icon, the first pixmap directory that exists and holds
/// one of its files gives the result; a `<name>.png` there is returned unless a
/// `<name>.svg` stands beside it.
pub proof fn lemma_pixmap_png(
    themes: Seq<ThemeView>,
    home: Seq<char>,
    bases: Seq<Seq<char>>,
    name: Seq<char>,
    size: nat,
    scale: nat,
    fs: Set<Seq<char>>,
    j: int,
)
    requires
        forall|c: Seq<char>| #[trigger] theme_cands(themes, 0, home, name, size, scale, fs).contains(c) ==> !fs.contains(c),
        0 <= j < bases.len(),
        forall|k: int, e: int| 0 <= k < j && 0 <= e < 3 ==> !fs.contains(#[trigger] icon_files(pixmap_dir(bases[k]), name)[e]),
        fs.contains(pixmap_dir(bases[j])),
        !fs.contains(icon_files(pixmap_dir(bases[j]), name)[0]),
        fs.contains(icon_files(pixmap_dir(bases[j]), name)[1]),
    ensures
        lookup_spec(themes, home, bases, name, size, scale, fs) == Some(join_spec(pixmap_dir(bases[j]), name + ".png"@)),
{
    lemma_pixmap_fallback(themes, home, bases, name, size, scale, fs);
    lemma_skip_pixmap_dirs(bases, 0, j, name, fs);
    let dir = pixmap_dir(bases[j]);
    lemma_format_preference(Seq::empty(), dir, name, pixmap_cands(bases, j + 1, name, fs), fs);
    assert(Seq::<Seq<char>>::empty() + icon_files(dir, name) + pixmap_cands(bases, j + 1, name, fs)
        =~= pixmap_cands(bases, j, name, fs));
}

/// When neither a theme nor a pixmap directory has the icon, the lookup finds
/// nothing.
pub proof fn lemma_not_found(
    themes: Seq<ThemeView>,
    home: Seq<char>,
    bases: Seq<Seq<char>>,
    name: Seq<char>,
    size: nat,
    scale: nat,
    fs: Set<Seq<char>>,
)
    requires
        forall|c: Seq<char>| #[trigger] theme_cands(themes, 0, home, name, size, scale, fs).contains(c) ==> !fs.contains(c),
        forall|c: Seq<char>| #[trigger] pixmap_cands(bases, 0, name, fs).contains(c) ==> !fs.contains(c),
    ensures
        lookup_spec(themes, home, bases, name, size, scale, fs) is None,
{
    lemma_pixmap_fallback(themes, home, bases, name, size, scale, fs);
    let p = pixmap_cands(bases, 0, name, fs);
    assert forall|i: int| 0 <= i < p.len() implies !fs.contains(#[trigger] p[i]) by {
        assert(p.contains(p[i]));
    }
    lemma_none_present(p, fs);
}

/// The candidate files of one directory.
pub fn icon_files_of(dir: &str, name: &str) -> (r: Vec<String>)
    ensures
        r@.map_values(|s: String| s@) == icon_files(dir@, name@),
{
    let mut svg = String::from_str(name);
    svg.append(".svg");
    let mut png = String::from_str(name);
    png.append(".png");
    let mut xpm = String::from_str(name);
    xpm.append(".xpm");
    let mut r: Vec<String> = Vec::new();
    r.push(join_path(dir, svg.as_str()));
    r.push(join_path(dir, png.as_str()));
    r.push(join_path(dir, xpm.as_str()));
    proof {
        assert(r@.map_values(|s: String| s@) =~= icon_files(dir@, name@));
    }
    r
}

proof fn lemma_files_in_push(dirs: Seq<Seq<char>>, d: Seq<char>, name: Seq<char>)
    ensures
        files_in(dirs.push(d), name) == files_in(dirs, name) + icon_files(d, name),
    decreases dirs.len(),
{
    if dirs.len() == 0 {
        assert(dirs.push(d).drop_first() =~= Seq::<Seq<char>>::empty());
        assert(files_in(dirs.push(d).drop_first(), name) == Seq::<Seq<char>>::empty());
        assert(dirs.push(d)[0] == d);
        assert(files_in(dirs.push(d), name) =~= icon_files(d, name) + Seq::<Seq<char>>::empty());
        assert(files_in(dirs.push(d), name) =~= files_in(dirs, name) + icon_files(d, name));
    } else {
        assert(dirs.push(d).drop_first() =~= dirs.drop_first().push(d));
        lemma_files_in_push(dirs.drop_first(), d, name);
        assert(files_in(dirs.push(d), name) =~= files_in(dirs, name) + icon_files(d, name));
    }
}

/// The candidate files of a list of directories.
pub fn files_of(dirs: &Vec<String>, name: &str) -> (r: Vec<String>)
    ensures
        r@.map_values(|s: String| s@) == files_in(dirs@.map_values(|s: String| s@), name@),
{
    let ghost dv = dirs@.map_values(|s: String| s@);
    let mut r: Vec<String> = Vec::new();
    let mut i: usize = 0;
    proof {
        assert(dv.subrange(0, 0) =~= Seq::<Seq<char>>::empty());
        assert(r@.map_values(|s: String| s@) =~= Seq::<Seq<char>>::empty());
    }
    while i < dirs.len()
        invariant
            i <= dirs.len(),
            dv == dirs@.map_values(|s: String| s@),
            r@.map_values(|s: String| s@) == files_in(dv.subrange(0, i as int), name@),
        decreases dirs.len() - i,
    {
        let fs = icon_files_of(dirs[i].as_str(), name);
        let ghost before = r@.map_values(|s: String| s@);
        let mut k: usize = 0;
        while k < fs.len()
            invariant
                k <= fs.len(),
                fs.len() == 3,
                r@.map_values(|s: String| s@) == before + fs@.map_values(|s: String| s@).subrange(0, k as int),
            decreases fs.len() - k,
        {
            let ghost mid = r@.map_values(|s: String| s@);
            r.push(fs[k].clone());
            proof {
                assert(r@.map_values(|s: String| s@) =~= mid.push(fs@[k as int]@));
                assert(before + fs@.map_values(|s: String| s@).subrange(0, k + 1) =~= (before + fs@.map_values(|s: String| s@).subrange(0, k as int)).push(fs@[k as int]@));
            }
            k = k + 1;
        }
        proof {
            assert(fs@.map_values(|s: String| s@).subrange(0, 3) =~= fs@.map_values(|s: String| s@));
            assert(dv.subrange(0, i + 1) =~= dv.subrange(0, i as int).push(dv[i as int]));
            lemma_files_in_push(dv.subrange(0, i as int), dv[i as int], name@);
        }
        i = i + 1;
    }
    proof {
        assert(dv.subrange(0, i as int) =~= dv);
    }
    r
}

/// At most how many questions a theme's directories take: one overlay check
/// and up to six candidate files for each matching directory.
pub open spec fn theme_probe_bound(v: ThemeView, size: nat, scale: nat) -> nat {
    7 * matching_dirs_of(v, size, scale).len()
}

/// At most how many questions the themes from index `i` on take.
pub open spec fn themes_probe_bound(themes: Seq<ThemeView>, i: int, size: nat, scale: nat) -> nat
    decreases themes.len() - i,
{
    if i < 0 || i >= themes.len() {
        0
    } else {
        theme_probe_bound(themes[i], size, scale) + themes_probe_bound(themes, i + 1, size, scale)
    }
}

proof fn lemma_files_len(dirs: Seq<Seq<char>>, name: Seq<char>)
    ensures
        files_in(dirs, name).len() == 3 * dirs.len(),
    decreases dirs.len(),
{
    if dirs.len() > 0 {
        lemma_files_len(dirs.drop_first(), name);
    }
}

proof fn lemma_dirs_len(v: ThemeView, home: Seq<char>, ms: Seq<Seq<char>>, present: Seq<bool>)
    ensures
        dirs_with_overlays(v, home, ms, present).len() <= 2 * ms.len(),
    decreases ms.len(),
{
    if ms.len() > 0 {
        lemma_dirs_len(v, home, ms.drop_last(), present.subrange(0, ms.len() - 1));
    }
}

enum Tier {
    Theme { index: usize },
    Pixmap { index: usize },
}

enum Stage {
    /// Asking which overlay directories of theme `theme` exist.
    Overlays { theme: usize, paths: Vec<String>, present: Vec<bool> },
    /// Asking for candidate files one by one; then on to `next`.
    Files { cands: Vec<String>, pos: usize, next: Tier },
    /// Asking whether the pixmap directory of base directory `base` exists.
    PixmapDir { base: usize },
    Done { found: Option<String> },
}

/// One icon lookup. The caller answers each `Probe::Exists` that `next` gives
/// with `answer`, until `next` gives the result.
pub struct IconSearch {
    themes: Vec<IconTheme>,
    home: String,
    bases: Vec<String>,
    icon: String,
    size: u32,
    scale: u8,
    stage: Stage,
    log: Ghost<Seq<(Seq<char>, bool)>>,
}

impl IconSearch {
    pub closed spec fn themes_view(&self) -> Seq<ThemeView> {
        self.themes@.map_values(|t: IconTheme| t@)
    }

    pub closed spec fn home_view(&self) -> Seq<char> {
        self.home@
    }

    pub closed spec fn bases_view(&self) -> Seq<Seq<char>> {
        self.bases@.map_values(|s: String| s@)
    }

    pub closed spec fn icon_view(&self) -> Seq<char> {
        self.icon@
    }

    pub closed spec fn size_view(&self) -> nat {
        self.size as nat
    }

    pub closed spec fn scale_view(&self) -> nat {
        self.scale as nat
    }

    /// The paths asked about so far, each with its answer.
    pub closed spec fn log(&self) -> Seq<(Seq<char>, bool)> {
        self.log@
    }

    /// The result of this lookup when `fs` holds the existing paths.
    pub open spec fn lookup(&self, fs: Set<Seq<char>>) -> Option<Seq<char>> {
        lookup_spec(
            self.themes_view(),
            self.home_view(),
            self.bases_view(),
            self.icon_view(),
            self.size_view(),
            self.scale_view(),
            fs,
        )
    }

    pub closed spec fn done(&self) -> bool {
        self.stage is Done
    }

    /// The path that the search is asking about.
    pub closed spec fn probe_path(&self) -> Seq<char> {
        match self.stage {
            Stage::Overlays { paths, present, .. } => paths@[present@.len() as int]@,
            Stage::Files { cands, pos, .. } => cands@[pos as int]@,
            Stage::PixmapDir { base } => pixmap_dir(self.bases@[base as int]@),
            Stage::Done { .. } => Seq::empty(),
        }
    }

    closed spec fn pix(&self, j: int, fs: Set<Seq<char>>) -> Seq<Seq<char>> {
        pixmap_cands(self.bases_view(), j, self.icon@, fs)
    }

    closed spec fn tcands(&self, i: int, fs: Set<Seq<char>>) -> Seq<Seq<char>> {
        theme_cands(self.themes_view(), i, self.home@, self.icon@, self.size as nat, self.scale as nat, fs)
    }

    /// What is left of the lookup from the current stage.
    closed spec fn outcome(&self, fs: Set<Seq<char>>) -> Option<Seq<char>> {
        match self.stage {
            Stage::Overlays { theme, .. } => first_present(
                files_in(theme_dirs(self.themes_view()[theme as int], self.home@, self.size as nat, self.scale as nat, fs), self.icon@)
                    + self.tcands(theme + 1, fs) + self.pix(0, fs),
                fs,
            ),
            Stage::Files { cands, pos, next } => match next {
                Tier::Theme { index } => first_present(
                    cands@.map_values(|s: String| s@).subrange(pos as int, cands@.len() as int)
                        + self.tcands(index as int, fs) + self.pix(0, fs),
                    fs,
                ),
                Tier::Pixmap { index } => first_present(
                    cands@.map_values(|s: String| s@).subrange(pos as int, cands@.len() as int)
                        + self.pix(index as int, fs),
                    fs,
                ),
            },
            Stage::PixmapDir { base } => first_present(self.pix(base as int, fs), fs),
            Stage::Done { found } => match found {
                Some(p) => Some(p@),
                None => None,
            },
        }
    }

    closed spec fn rank(&self) -> int {
        let t = self.themes@.len() as int;
        let b = self.bases@.len() as int;
        let p = 2 * b + 3;
        match self.stage {
            Stage::Overlays { theme, .. } => p + 2 * (t - theme) - 1,
            Stage::Files { next, .. } => match next {
                Tier::Theme { index } => p + 2 * (t - index),
                Tier::Pixmap { index } => 2 * (b - index) + 3,
            },
            Stage::PixmapDir { base } => 2 * (b - base) + 2,
            Stage::Done { .. } => 0,
        }
    }

    closed spec fn shape(&self) -> bool {
        match self.stage {
            Stage::Overlays { theme, paths, present } => {
                &&& theme < self.themes@.len()
                &&& paths@.map_values(|s: String| s@) == overlay_dirs_of(
                    self.themes@[theme as int]@,
                    self.home@,
                    matching_dirs_of(self.themes@[theme as int]@, self.size as nat, self.scale as nat),
                )
                &&& present@.len() <= paths@.len()
                &&& forall|fs: Set<Seq<char>>| #[trigger] consistent(fs, self.log@) ==> present@ == overlay_flags(
                    self.themes@[theme as int]@,
                    self.home@,
                    self.size as nat,
                    self.scale as nat,
                    fs,
                ).subrange(0, present@.len() as int)
            },
            Stage::Files { cands, pos, next } => {
                &&& pos <= cands@.len()
                &&& match next {
                    Tier::Theme { index } => index <= self.themes@.len(),
                    Tier::Pixmap { index } => index <= self.bases@.len(),
                }
            },
            Stage::PixmapDir { base } => base <= self.bases@.len(),
            Stage::Done { .. } => true,
        }
    }

    closed spec fn settled(&self) -> bool {
        match self.stage {
            Stage::Overlays { paths, present, .. } => present@.len() < paths@.len(),
            Stage::Files { cands, pos, .. } => pos < cands@.len(),
            Stage::PixmapDir { base } => base < self.bases@.len(),
            Stage::Done { .. } => true,
        }
    }

    closed spec fn tracks(&self) -> bool {
        forall|fs: Set<Seq<char>>| #[trigger] consistent(fs, self.log@) ==> self.lookup(fs) == self.outcome(fs)
    }

    pub closed spec fn wf(&self) -> bool {
        self.shape() && self.settled() && self.tracks()
    }

    /// A bound on the questions left before the result is known.
    #[verifier::opaque]
    pub closed spec fn steps_left(&self) -> nat {
        let b = self.bases@.len() as int;
        let sz = self.size as nat;
        let sc = self.scale as nat;
        (match self.stage {
            Stage::Overlays { theme, paths, present } => paths@.len() - present@.len() + 6 * matching_dirs_of(
                self.themes@[theme as int]@,
                sz,
                sc,
            ).len() + themes_probe_bound(self.themes_view(), theme + 1, sz, sc) + 4 * b,
            Stage::Files { cands, pos, next } => match next {
                Tier::Theme { index } => cands@.len() - pos + themes_probe_bound(self.themes_view(), index as int, sz, sc) + 4 * b,
                Tier::Pixmap { index } => cands@.len() - pos + 4 * (b - index),
            },
            Stage::PixmapDir { base } => 4 * (b - base),
            Stage::Done { .. } => 0,
        }) as nat
    }

    /// One answer leaves fewer questions than before.
    proof fn lemma_answer_shrinks(before: IconSearch, after: IconSearch)
        requires
            before.shape(),
            before.settled(),
            !before.done(),
            after.themes == before.themes,
            after.bases == before.bases,
            after.size == before.size,
            after.scale == before.scale,
            match before.stage {
                Stage::Overlays { theme, paths, present } => after.stage matches Stage::Overlays { theme: t2, paths: p2, present: q2 }
                    && t2 == theme && p2@ == paths@ && q2@.len() == present@.len() + 1,
                Stage::Files { cands, pos, next } => match after.stage {
                    Stage::Files { cands: c2, pos: p2, next: n2 } => c2@.len() == cands@.len() && p2 == pos + 1 && n2 == next,
                    Stage::Done { .. } => true,
                    _ => false,
                },
                Stage::PixmapDir { base } => match after.stage {
                    Stage::Files { cands: c2, pos: p2, next: n2 } => c2@.len() == 3 && p2 == 0 && (n2 matches Tier::Pixmap { index } && index == base + 1),
                    Stage::PixmapDir { base: b2 } => b2 == base + 1,
                    _ => false,
                },
                Stage::Done { .. } => false,
            },
        ensures
            after.steps_left() < before.steps_left(),
    {
        reveal(IconSearch::steps_left);
        assert(after.themes_view() == before.themes_view());
        let b = before.bases@.len() as int;
        match before.stage {
            Stage::Overlays { theme, paths, present } => {
                if let Stage::Overlays { theme: t2, paths: p2, present: q2 } = after.stage {
                    assert(present@.len() < paths@.len());
                    assert(after.steps_left() + 1 == before.steps_left());
                }
            },
            Stage::Files { cands, pos, next } => {
                assert(pos < cands@.len());
                match after.stage {
                    Stage::Files { cands: c2, pos: p2, next: n2 } => {
                        assert(after.steps_left() + 1 == before.steps_left());
                    },
                    _ => {
                        assert(after.steps_left() == 0);
                        assert(before.steps_left() >= 1);
                    },
                }
            },
            Stage::PixmapDir { base } => {
                assert(base < b);
                match after.stage {
                    Stage::Files { cands: c2, pos: p2, next: n2 } => {
                        assert(after.steps_left() == 4 * (b - base) - 1);
                    },
                    _ => {
                        assert(after.steps_left() == 4 * (b - base) - 4);
                    },
                }
                assert(before.steps_left() == 4 * (b - base));
            },
            Stage::Done { .. } => {},
        }
    }

    /// Moves past stages that need no answer.
    fn settle(&mut self)
        requires
            old(self).shape(),
            old(self).tracks(),
        ensures
            final(self).wf(),
            final(self).themes == old(self).themes,
            final(self).home == old(self).home,
            final(self).bases == old(self).bases,
            final(self).icon == old(self).icon,
            final(self).size == old(self).size,
            final(self).scale == old(self).scale,
            final(self).log == old(self).log,
            final(self).steps_left() <= old(self).steps_left(),
    {
        loop
            invariant
                self.shape(),
                self.tracks(),
                self.steps_left() <= old(self).steps_left(),
                self.themes == old(self).themes,
                self.home == old(self).home,
                self.bases == old(self).bases,
                self.icon == old(self).icon,
                self.size == old(self).size,
                self.scale == old(self).scale,
                self.log == old(self).log,
            decreases self.rank(),
        {
            let ghost before = *self;
            match &self.stage {
                Stage::Overlays { theme, paths, present } => {
                    if present.len() < paths.len() {
                        return;
                    }
                    let t = *theme;
                    let count = self.themes.len();
                    proof {
                        assert(t < count);
                    }
                    let dirs = self.themes[t].icon_dirs(self.home.as_str(), self.size, self.scale, present);
                    let cands = files_of(&dirs, self.icon.as_str());
                    let ghost tv = self.themes@[t as int]@;
                    let ghost pres = present@;
                    self.stage = Stage::Files { cands, pos: 0, next: Tier::Theme { index: t + 1 } };
                    proof {
                        assert(self.themes_view()[t as int] == tv);
                        assert forall|fs: Set<Seq<char>>| #[trigger] consistent(fs, self.log@) implies self.lookup(fs) == self.outcome(fs) by {
                            assert(before.lookup(fs) == before.outcome(fs));
                            let fl = overlay_flags(tv, self.home@, self.size as nat, self.scale as nat, fs);
                            assert(fl.subrange(0, pres.len() as int) =~= fl);
                            assert(pres == fl);
                            let cv = files_in(theme_dirs(tv, self.home@, self.size as nat, self.scale as nat, fs), self.icon@);
                            assert(cands@.map_values(|s: String| s@) == cv);
                            assert(cands@.map_values(|s: String| s@).subrange(0, cands@.len() as int) =~= cv);
                        }
                        reveal(IconSearch::steps_left);
                        let ms = matching_dirs_of(tv, self.size as nat, self.scale as nat);
                        lemma_dirs_len(tv, self.home@, ms, pres);
                        lemma_files_len(dirs@.map_values(|s: String| s@), self.icon@);
                        assert(cands@.len() <= 6 * ms.len());
                        assert(self.steps_left() <= before.steps_left());
                    }
                },
                Stage::Files { cands, pos, next } => {
                    if *pos < cands.len() {
                        return;
                    }
                    let ghost rest = cands@.map_values(|s: String| s@).subrange(*pos as int, cands@.len() as int);
                    proof {
                        assert(rest =~= Seq::<Seq<char>>::empty());
                    }
                    match next {
                        Tier::Theme { index } => {
                            let i = *index;
                            if i < self.themes.len() {
                                let paths = self.themes[i].overlay_dirs(self.home.as_str(), self.size, self.scale);
                                self.stage = Stage::Overlays { theme: i, paths, present: Vec::new() };
                                proof {
                                    let tv = self.themes@[i as int]@;
                                    assert(self.themes_view()[i as int] == tv);
                                    assert forall|fs: Set<Seq<char>>| #[trigger] consistent(fs, self.log@) implies self.lookup(fs) == self.outcome(fs) by {
                                        assert(before.lookup(fs) == before.outcome(fs));
                                        let x = self.tcands(i as int, fs);
                                        assert(rest + x =~= x);
                                    }
                                    assert forall|fs: Set<Seq<char>>| #[trigger] consistent(fs, self.log@) implies overlay_flags(
                                        tv, self.home@, self.size as nat, self.scale as nat, fs,
                                    ).subrange(0, 0) =~= Seq::<bool>::empty() by {}
                                    reveal(IconSearch::steps_left);
                                    assert(themes_probe_bound(self.themes_view(), i as int, self.size as nat, self.scale as nat)
                                        == theme_probe_bound(tv, self.size as nat, self.scale as nat)
                                            + themes_probe_bound(self.themes_view(), i + 1, self.size as nat, self.scale as nat));
                                    assert(self.steps_left() <= before.steps_left());
                                }
                            } else {
                                self.stage = Stage::PixmapDir { base: 0 };
                                proof {
                                    assert forall|fs: Set<Seq<char>>| #[trigger] consistent(fs, self.log@) implies self.lookup(fs) == self.outcome(fs) by {
                                        assert(before.lookup(fs) == before.outcome(fs));
                                        assert(self.tcands(i as int, fs) == Seq::<Seq<char>>::empty());
                                        assert(rest + Seq::<Seq<char>>::empty() + self.pix(0, fs) =~= self.pix(0, fs));
                                    }
                                    reveal(IconSearch::steps_left);
                                    assert(self.steps_left() <= before.steps_left());
                                }
                            }
                        },
                        Tier::Pixmap { index } => {
                            let j = *index;
                            self.stage = Stage::PixmapDir { base: j };
                            proof {
                                assert forall|fs: Set<Seq<char>>| #[trigger] consistent(fs, self.log@) implies self.lookup(fs) == self.outcome(fs) by {
                                    assert(before.lookup(fs) == before.outcome(fs));
                                    assert(rest + self.pix(j as int, fs) =~= self.pix(j as int, fs));
                                }
                                reveal(IconSearch::steps_left);
                                assert(self.steps_left() <= before.steps_left());
                            }
                        },
                    }
                },
                Stage::PixmapDir { base } => {
                    if *base < self.bases.len() {
                        return;
                    }
                    let ghost j = *base;
                    self.stage = Stage::Done { found: None };
                    proof {
                        assert forall|fs: Set<Seq<char>>| #[trigger] consistent(fs, self.log@) implies self.lookup(fs) == self.outcome(fs) by {
                            assert(before.lookup(fs) == before.outcome(fs));
                            assert(self.pix(j as int, fs) == Seq::<Seq<char>>::empty());
                        }
                        reveal(IconSearch::steps_left);
                        assert(self.steps_left() <= before.steps_left());
                    }
                },
                Stage::Done { .. } => {
                    return;
                },
            }
        }
    }

    /// Starts a lookup of `icon` at `size` and `scale` through `themes`, in the
    /// given order, and then through the pixmap directories of `dirs`.
    pub fn new(themes: Vec<IconTheme>, dirs: &BaseDirs, icon: &str, size: u32, scale: u8) -> (r: IconSearch)
        ensures
            r.wf(),
            r.themes_view() == themes@.map_values(|t: IconTheme| t@),
            r.home_view() == dirs.data_home@,
            r.bases_view() == dirs.data_dirs@.map_values(|s: String| s@),
            r.icon_view() == icon@,
            r.size_view() == size as nat,
            r.scale_view() == scale as nat,
            r.log() == Seq::<(Seq<char>, bool)>::empty(),
    {
        let mut r = IconSearch {
            themes,
            home: dirs.data_home.clone(),
            bases: dirs.data_dirs.clone(),
            icon: String::from_str(icon),
            size,
            scale,
            stage: Stage::Files { cands: Vec::new(), pos: 0, next: Tier::Theme { index: 0 } },
            log: Ghost(Seq::empty()),
        };
        proof {
            assert forall|fs: Set<Seq<char>>| #[trigger] consistent(fs, r.log@) implies r.lookup(fs) == r.outcome(fs) by {
                if let Stage::Files { cands, pos, next } = r.stage {
                    assert(cands@.map_values(|s: String| s@).subrange(0, 0) + r.tcands(0, fs) =~= r.tcands(0, fs));
                }
            }
        }
        r.settle();
        r
    }

    /// What the lookup needs next, or its result.
    pub fn next(&self) -> (r: Probe)
        requires
            self.wf(),
        ensures
            match r {
                Probe::Exists(p) => !self.done() && p@ == self.probe_path(),
                Probe::Found(p) => self.done() && forall|fs: Set<Seq<char>>| #[trigger] consistent(fs, self.log())
                    ==> self.lookup(fs) == Some(p@),
                Probe::NotFound => self.done() && forall|fs: Set<Seq<char>>| #[trigger] consistent(fs, self.log())
                    ==> self.lookup(fs) is None,
            },
    {
        match &self.stage {
            Stage::Overlays { paths, present, .. } => Probe::Exists(paths[present.len()].clone()),
            Stage::Files { cands, pos, .. } => Probe::Exists(cands[*pos].clone()),
            Stage::PixmapDir { base } => Probe::Exists(join_path(self.bases[*base].as_str(), "pixmaps")),
            Stage::Done { found } => match found {
                Some(p) => {
                    proof {
                        assert forall|fs: Set<Seq<char>>| #[trigger] consistent(fs, self.log()) implies self.lookup(fs) == Some(p@) by {
                            assert(self.lookup(fs) == self.outcome(fs));
                        }
                    }
                    Probe::Found(p.clone())
                },
                None => {
                    proof {
                        assert forall|fs: Set<Seq<char>>| #[trigger] consistent(fs, self.log()) implies self.lookup(fs) is None by {
                            assert(self.lookup(fs) == self.outcome(fs));
                        }
                    }
                    Probe::NotFound
                },
            },
        }
    }

    /// Answers the path that `next` asked about: whether it exists.
    #[verifier::rlimit(100)]
    pub fn answer(&mut self, is_there: bool)
        requires
            old(self).wf(),
        ensures
            final(self).wf(),
            final(self).themes_view() == old(self).themes_view(),
            final(self).home_view() == old(self).home_view(),
            final(self).bases_view() == old(self).bases_view(),
            final(self).icon_view() == old(self).icon_view(),
            final(self).size_view() == old(self).size_view(),
            final(self).scale_view() == old(self).scale_view(),
            old(self).done() ==> final(self).log() == old(self).log(),
            !old(self).done() ==> final(self).log() == old(self).log().push((old(self).probe_path(), is_there)),
            !old(self).done() ==> final(self).steps_left() < old(self).steps_left(),
            old(self).done() ==> final(self).steps_left() == old(self).steps_left(),
    {
        if let Stage::Done { .. } = &self.stage {
            return;
        }
        let ghost before = *self;
        let ghost path = self.probe_path();
        proof {
            self.log@ = self.log@.push((path, is_there));
            assert forall|fs: Set<Seq<char>>| #[trigger] consistent(fs, self.log@) implies consistent(fs, before.log@)
                && fs.contains(path) == is_there by {
                assert forall|i: int| 0 <= i < before.log@.len() implies fs.contains(#[trigger] before.log@[i].0) == before.log@[i].1 by {
                    assert(self.log@[i] == before.log@[i]);
                    assert(fs.contains(self.log@[i].0) == self.log@[i].1);
                }
                let n = before.log@.len() as int;
                assert(self.log@[n] == (path, is_there));
                assert(fs.contains(self.log@[n].0) == self.log@[n].1);
            }
        }
        let mut replacement: Option<Stage> = None;
        match &self.stage {
            Stage::Files { cands, pos, .. } => {
                if is_there {
                    replacement = Some(Stage::Done { found: Some(cands[*pos].clone()) });
                }
            },
            Stage::PixmapDir { base } => {
                let j = *base;
                let count = self.bases.len();
                proof {
                    assert(j < count);
                }
                if is_there {
                    let dir = join_path(self.bases[j].as_str(), "pixmaps");
                    let cands = icon_files_of(dir.as_str(), self.icon.as_str());
                    replacement = Some(Stage::Files { cands, pos: 0, next: Tier::Pixmap { index: j + 1 } });
                } else {
                    replacement = Some(Stage::PixmapDir { base: j + 1 });
                }
            },
            _ => {},
        }
        match replacement {
            Some(st) => {
                self.stage = st;
            },
            None => {
                match &mut self.stage {
                    Stage::Overlays { present, .. } => {
                        present.push(is_there);
                    },
                    Stage::Files { cands, pos, .. } => {
                        let count = cands.len();
                        proof {
                            assert(*pos < count);
                        }
                        *pos = *pos + 1;
                    },
                    _ => {},
                }
            },
        }
        proof {
            match &before.stage {
                Stage::Overlays { theme, paths, present } => {
                    let tv = self.themes@[*theme as int]@;
                    let k = present@.len() as int;
                    if let Stage::Overlays { present: now, .. } = &self.stage {
                        assert(now@ == present@.push(is_there));
                        assert forall|fs: Set<Seq<char>>| #[trigger] consistent(fs, self.log@) implies now@ == overlay_flags(
                            tv, self.home@, self.size as nat, self.scale as nat, fs,
                        ).subrange(0, now@.len() as int) by {
                            assert(consistent(fs, before.log@));
                            let fl = overlay_flags(tv, self.home@, self.size as nat, self.scale as nat, fs);
                            assert(present@ == fl.subrange(0, k));
                            assert(paths@.map_values(|s: String| s@)[k] == paths@[k]@);
                            assert(fl[k] == fs.contains(path));
                            assert(fl.subrange(0, k + 1) =~= fl.subrange(0, k).push(fl[k]));
                        }
                    }
                    assert forall|fs: Set<Seq<char>>| #[trigger] consistent(fs, self.log@) implies self.lookup(fs) == self.outcome(fs) by {
                        assert(consistent(fs, before.log@));
                        assert(before.lookup(fs) == before.outcome(fs));
                    }
                },
                Stage::Files { cands, pos, next } => {
                    let cv = cands@.map_values(|s: String| s@);
                    assert(cv[*pos as int] == path);
                    assert forall|fs: Set<Seq<char>>| #[trigger] consistent(fs, self.log@) implies self.lookup(fs) == self.outcome(fs) by {
                        assert(consistent(fs, before.log@));
                        assert(before.lookup(fs) == before.outcome(fs));
                        let tail = match *next {
                            Tier::Theme { index } => self.tcands(index as int, fs) + self.pix(0, fs),
                            Tier::Pixmap { index } => self.pix(index as int, fs),
                        };
                        let whole = cv.subrange(*pos as int, cv.len() as int) + tail;
                        assert(whole[0] == path);
                        if !is_there {
                            assert(whole.drop_first() =~= cv.subrange(*pos + 1, cv.len() as int) + tail);
                            match *next {
                                Tier::Theme { index } => {
                                    assert(cv.subrange(*pos as int, cv.len() as int) + self.tcands(index as int, fs) + self.pix(0, fs) =~= whole);
                                    assert(cv.subrange(*pos + 1, cv.len() as int) + self.tcands(index as int, fs) + self.pix(0, fs) =~= whole.drop_first());
                                },
                                Tier::Pixmap { index } => {},
                            }
                        } else {
                            match *next {
                                Tier::Theme { index } => {
                                    assert(cv.subrange(*pos as int, cv.len() as int) + self.tcands(index as int, fs) + self.pix(0, fs) =~= whole);
                                },
                                Tier::Pixmap { index } => {},
                            }
                        }
                    }
                },
                Stage::PixmapDir { base } => {
                    let j = *base as int;
                    assert(self.bases_view()[j] == self.bases@[j]@);
                    assert forall|fs: Set<Seq<char>>| #[trigger] consistent(fs, self.log@) implies self.lookup(fs) == self.outcome(fs) by {
                        assert(consistent(fs, before.log@));
                        assert(before.lookup(fs) == before.outcome(fs));
                        if is_there {
                            if let Stage::Files { cands, .. } = &self.stage {
                                assert(cands@.map_values(|s: String| s@).subrange(0, 3) =~= cands@.map_values(|s: String| s@));
                            }
                        }
                    }
                },
                Stage::Done { .. } => {},
            }
        }
        proof {
            Self::lemma_answer_shrinks(before, *self);
        }
        self.settle();
    }
}

} // verus!
