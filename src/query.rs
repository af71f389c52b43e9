//! Finding themes by name, the current theme's name, and whole icon queries.
use vstd::prelude::*;

use crate::config::{ini_parsed, ini_value, lookup_in, parse_ini};
use crate::resolve::{agrees, graph_of, mentioned, resolution_order, ThemeGraph, ThemeResolution};
use crate::search::{consistent, first_present, lookup_spec, pixmap_cands, BaseDirs, IconSearch, Probe};
use crate::text::{join_path, join_spec};
use crate::theme::{
    default_size_of, descriptor_sections, overlay_root, IconTheme, ThemeView, DESCRIPTOR_FILE,
    FALLBACK_SIZE,
};

verus! {

/// The theme used when the settings name none, and the one every lookup may
/// fall back to.
pub const FALLBACK_THEME: &'static str = "hicolor";

/// The section of a settings file that names the icon theme.
pub const SETTINGS_SECTION: &'static str = "Settings";

/// The key that names the icon theme.
pub const ICON_THEME_KEY: &'static str = "gtk-icon-theme-name";

/// Where a theme of this name would have its root: the personal data directory
/// first, then each system data directory in order.
pub open spec fn root_candidates(home: Seq<char>, bases: Seq<Seq<char>>, name: Seq<char>) -> Seq<Seq<char>> {
    seq![overlay_root(home, name)] + bases.map_values(|b: Seq<char>| overlay_root(b, name))
}

/// The descriptor file of a theme root.
pub open spec fn descriptor_of(root: Seq<char>) -> Seq<char> {
    join_spec(root, DESCRIPTOR_FILE@)
}

/// Finding a theme by name. The caller answers, root by root, whether the
/// descriptor that `next` names exists: `absent` where not; where it does, `load`
/// builds the theme from the descriptor's text. The first root with a
/// descriptor is the theme's.
pub struct ThemeLocator {
    name: String,
    roots: Vec<String>,
    pos: usize,
}

impl ThemeLocator {
    pub closed spec fn name_view(&self) -> Seq<char> {
        self.name@
    }

    pub closed spec fn roots_view(&self) -> Seq<Seq<char>> {
        self.roots@.map_values(|s: String| s@)
    }

    /// How many roots were found without a descriptor so far.
    pub closed spec fn position(&self) -> nat {
        self.pos as nat
    }

    pub closed spec fn wf(&self) -> bool {
        self.pos <= self.roots@.len()
    }

    pub fn new(dirs: &BaseDirs, name: &str) -> (r: ThemeLocator)
        ensures
            r.wf(),
            r.name_view() == name@,
            r.roots_view() == root_candidates(dirs.data_home@, dirs.data_dirs@.map_values(|s: String| s@), name@),
            r.position() == 0,
    {
        let ghost want = root_candidates(dirs.data_home@, dirs.data_dirs@.map_values(|s: String| s@), name@);
        let mut roots: Vec<String> = Vec::new();
        let icons = join_path(dirs.data_home.as_str(), "icons");
        roots.push(join_path(icons.as_str(), name));
        let mut i: usize = 0;
        proof {
            assert(roots@.map_values(|s: String| s@) =~= want.subrange(0, 1));
        }
        while i < dirs.data_dirs.len()
            invariant
                i <= dirs.data_dirs@.len(),
                want == root_candidates(dirs.data_home@, dirs.data_dirs@.map_values(|s: String| s@), name@),
                want.len() == dirs.data_dirs@.len() + 1,
                roots@.map_values(|s: String| s@) == want.subrange(0, i + 1),
            decreases dirs.data_dirs.len() - i,
        {
            let icons = join_path(dirs.data_dirs[i].as_str(), "icons");
            let root = join_path(icons.as_str(), name);
            let ghost before = roots@.map_values(|s: String| s@);
            roots.push(root);
            proof {
                let bv = dirs.data_dirs@.map_values(|s: String| s@);
                assert(bv[i as int] == dirs.data_dirs@[i as int]@);
                assert(want[i + 1] == bv.map_values(|b: Seq<char>| overlay_root(b, name@))[i as int]);
                assert(want[i + 1] == root@);
                assert(roots@.map_values(|s: String| s@) =~= before.push(root@));
                assert(roots@.map_values(|s: String| s@) =~= want.subrange(0, i + 2));
            }
            i = i + 1;
        }
        proof {
            assert(want.subrange(0, i + 1) =~= want);
        }
        ThemeLocator { name: String::from_str(name), roots, pos: 0 }
    }

    /// The descriptor to check next, or `None` when no root is left: the theme
    /// is not installed.
    pub fn next(&self) -> (r: Option<String>)
        requires
            self.wf(),
        ensures
            r is Some <==> self.position() < self.roots_view().len(),
            r matches Some(p) ==> p@ == descriptor_of(self.roots_view()[self.position() as int]),
    {
        if self.pos < self.roots.len() {
            Some(join_path(self.roots[self.pos].as_str(), DESCRIPTOR_FILE))
        } else {
            None
        }
    }

    /// The descriptor that `next` named does not exist.
    pub fn absent(&mut self)
        requires
            old(self).wf(),
        ensures
            final(self).wf(),
            final(self).name_view() == old(self).name_view(),
            final(self).roots_view() == old(self).roots_view(),
            final(self).position() == if old(self).position() < old(self).roots_view().len() {
                old(self).position() + 1
            } else {
                old(self).position()
            },
    {
        if self.pos < self.roots.len() {
            self.pos = self.pos + 1;
        }
    }

    /// The descriptor that `next` named exists, with this text (`None` where it
    /// could not be read): the theme found there.
    pub fn load(&self, text: Option<String>) -> (r: Option<IconTheme>)
        requires
            self.wf(),
        ensures
            r is Some <==> self.position() < self.roots_view().len(),
            r matches Some(t) ==> t@.name == self.name_view() && t@.root == self.roots_view()[self.position() as int]
                && t@.sections == descriptor_sections(match text {
                    Some(s) => Some(s@),
                    None => None,
                }),
    {
        if self.pos < self.roots.len() {
            Some(IconTheme::from_descriptor(self.name.as_str(), self.roots[self.pos].as_str(), text))
        } else {
            None
        }
    }
}

/// The icon theme that one settings text names, if it parses and names one.
pub open spec fn setting_of(text: Option<Seq<char>>) -> Option<Seq<char>> {
    match text {
        Some(t) => match ini_parsed(t) {
            Some(m) => lookup_in(m, SETTINGS_SECTION@, ICON_THEME_KEY@),
            None => None,
        },
        None => None,
    }
}

/// The theme named by the first settings text, from index `i` on, that names one.
pub open spec fn first_setting(texts: Seq<Option<Seq<char>>>, i: int) -> Option<Seq<char>>
    decreases texts.len() - i,
{
    if i < 0 || i >= texts.len() {
        None
    } else {
        match setting_of(texts[i]) {
            Some(n) => Some(n),
            None => first_setting(texts, i + 1),
        }
    }
}

/// The settings files to read, in order: the configuration directory's GTK 4
/// and GTK 3 files, then those under the home directory.
pub fn settings_paths(config_home: &str, home: &str) -> (r: Vec<String>)
    ensures
        r@.len() == 4,
        r@[0]@ == join_spec(join_spec(config_home@, "gtk-4.0"@), "settings.ini"@),
        r@[1]@ == join_spec(join_spec(config_home@, "gtk-3.0"@), "settings.ini"@),
        r@[2]@ == join_spec(join_spec(home@, "gtk-4.0"@), "settings.ini"@),
        r@[3]@ == join_spec(join_spec(home@, "gtk-3.0"@), "settings.ini"@),
{
    let mut r: Vec<String> = Vec::new();
    r.push(join_path(join_path(config_home, "gtk-4.0").as_str(), "settings.ini"));
    r.push(join_path(join_path(config_home, "gtk-3.0").as_str(), "settings.ini"));
    r.push(join_path(join_path(home, "gtk-4.0").as_str(), "settings.ini"));
    r.push(join_path(join_path(home, "gtk-3.0").as_str(), "settings.ini"));
    r
}

/// The name of the current theme from the texts of the settings files, in the
/// order of `settings_paths` (`None` for a file that is missing or unreadable):
/// the first that parses and names a theme, else the fallback theme.
pub fn current_theme_name(texts: &Vec<Option<String>>) -> (r: String)
    ensures
        r@ == match first_setting(texts@.map_values(|t: Option<String>| match t {
            Some(s) => Some(s@),
            None => None,
        }), 0) {
            Some(n) => n,
            None => FALLBACK_THEME@,
        },
{
    let ghost tv = texts@.map_values(|t: Option<String>| match t {
        Some(s) => Some(s@),
        None => None,
    });
    let mut i: usize = 0;
    while i < texts.len()
        invariant
            i <= texts@.len(),
            tv == texts@.map_values(|t: Option<String>| match t {
                Some(s) => Some(s@),
                None => None,
            }),
            first_setting(tv, 0) == first_setting(tv, i as int),
        decreases texts.len() - i,
    {
        match &texts[i] {
            Some(t) => match parse_ini(t.as_str()) {
                Ok(c) => match ini_value(&c, SETTINGS_SECTION, ICON_THEME_KEY) {
                    Some(n) => {
                        return n;
                    },
                    None => {},
                },
                Err(_) => {},
            },
            None => {},
        }
        i = i + 1;
    }
    String::from_str(FALLBACK_THEME)
}

/// Choosing the current theme: the theme that the settings name, then, where it
/// is not installed, the fallback theme. The caller finds each theme that `next`
/// names and calls `not_installed` where there is none; when `next` gives `None`
/// even the fallback theme is missing.
pub struct CurrentThemeChoice {
    names: Vec<String>,
    pos: usize,
}

impl CurrentThemeChoice {
    /// The names to try, in order.
    pub closed spec fn candidates(&self) -> Seq<Seq<char>> {
        views(self.names@)
    }

    /// How many of them were found not installed.
    pub closed spec fn position(&self) -> nat {
        self.pos as nat
    }

    pub closed spec fn wf(&self) -> bool {
        self.pos <= self.names@.len()
    }

    /// Starts from the texts of the settings files, as `current_theme_name` takes them.
    pub fn new(texts: &Vec<Option<String>>) -> (r: CurrentThemeChoice)
        ensures
            r.wf(),
            r.position() == 0,
            r.candidates() == seq![
                match first_setting(texts@.map_values(|t: Option<String>| match t {
                    Some(s) => Some(s@),
                    None => None,
                }), 0) {
                    Some(n) => n,
                    None => FALLBACK_THEME@,
                },
                FALLBACK_THEME@,
            ],
    {
        let mut names: Vec<String> = Vec::new();
        names.push(current_theme_name(texts));
        names.push(String::from_str(FALLBACK_THEME));
        let r = CurrentThemeChoice { names, pos: 0 };
        proof {
            assert(r.candidates() =~= seq![r.names@[0]@, r.names@[1]@]);
        }
        r
    }

    /// The theme to look for next, or `None` when no candidate is installed.
    pub fn next(&self) -> (r: Option<String>)
        requires
            self.wf(),
        ensures
            r is Some <==> self.position() < self.candidates().len(),
            r matches Some(n) ==> n@ == self.candidates()[self.position() as int],
    {
        if self.pos < self.names.len() {
            Some(self.names[self.pos].clone())
        } else {
            None
        }
    }

    /// The theme that `next` named is not installed.
    pub fn not_installed(&mut self)
        requires
            old(self).wf(),
        ensures
            final(self).wf(),
            final(self).candidates() == old(self).candidates(),
            final(self).position() == if old(self).position() < old(self).candidates().len() {
                old(self).position() + 1
            } else {
                old(self).position()
            },
    {
        if self.pos < self.names.len() {
            self.pos = self.pos + 1;
        }
    }
}

/// What an icon query needs next, or its result.
pub enum Step {
    /// Find the theme of this name (with a `ThemeLocator`) and hand it to
    /// `IconQuery::theme_loaded`, or `None` where it is not installed.
    Load(String),
    /// Whether this path exists; answer with `IconQuery::path_exists`.
    Exists(String),
    /// The icon's file.
    Found(String),
    /// Neither a theme nor a pixmap directory has the icon.
    NotFound,
}

/// The size a lookup searches for: the requested one, else the theme's
/// declared default, else the conventional default.
pub open spec fn search_size(requested: Option<nat>, start: ThemeView) -> nat {
    match requested {
        Some(n) => n,
        None => match default_size_of(start) {
            Some(n) => n,
            None => FALLBACK_SIZE as nat,
        },
    }
}

/// The views of a list of strings.
pub open spec fn views(v: Seq<String>) -> Seq<Seq<char>> {
    v.map_values(|s: String| s@)
}

/// One icon lookup from a starting theme: first the themes it inherits from are
/// loaded in search order, then the file system is asked about candidates.
pub struct IconQuery {
    resolution: Option<ThemeResolution>,
    search: Option<IconSearch>,
    icon: String,
    size: u32,
    dirs: BaseDirs,
    start: Ghost<ThemeView>,
    loaded: Ghost<Map<Seq<char>, ThemeView>>,
    asked: Ghost<Set<Seq<char>>>,
}

impl IconQuery {
    pub closed spec fn start_view(&self) -> ThemeView {
        self.start@
    }

    pub closed spec fn icon_view(&self) -> Seq<char> {
        self.icon@
    }

    pub closed spec fn size_view(&self) -> nat {
        self.size as nat
    }

    pub closed spec fn home_view(&self) -> Seq<char> {
        self.dirs.data_home@
    }

    pub closed spec fn bases_view(&self) -> Seq<Seq<char>> {
        views(self.dirs.data_dirs@)
    }

    /// Whether all themes are loaded and the file system is being asked.
    pub closed spec fn searching(&self) -> bool {
        self.search is Some
    }

    /// The themes handed in, by the name they were asked for under.
    pub closed spec fn loaded(&self) -> Map<Seq<char>, ThemeView> {
        match self.resolution {
            Some(r) => r.loaded(),
            None => self.loaded@,
        }
    }

    /// The theme names asked for so far, the start's included.
    pub closed spec fn asked(&self) -> Set<Seq<char>> {
        match self.resolution {
            Some(r) => r.asked(),
            None => self.asked@,
        }
    }

    /// A bound on the existence questions left before the result is known.
    pub closed spec fn steps_left(&self) -> nat {
        match self.search {
            Some(s) => s.steps_left(),
            None => 0,
        }
    }

    /// The themes in search order, once all are loaded.
    pub open spec fn order(&self) -> Seq<ThemeView> {
        resolution_order(graph_of(self.loaded()), self.start_view().name).map_values(|n: Seq<char>| self.loaded()[n])
    }

    /// The paths asked about so far, each with its answer.
    pub closed spec fn log(&self) -> Seq<(Seq<char>, bool)> {
        match self.search {
            Some(s) => s.log(),
            None => Seq::empty(),
        }
    }

    /// The file that this query finds, once all themes are loaded, when `fs`
    /// holds the existing paths.
    pub open spec fn lookup(&self, fs: Set<Seq<char>>) -> Option<Seq<char>> {
        lookup_spec(self.order(), self.home_view(), self.bases_view(), self.icon_view(), self.size_view(), 1, fs)
    }

    pub closed spec fn waiting_for(&self, n: Seq<char>) -> bool {
        match self.resolution {
            Some(r) => r.waiting_for(n),
            None => false,
        }
    }

    /// Whether the result is known.
    pub closed spec fn finished(&self) -> bool {
        match self.search {
            Some(s) => s.done(),
            None => false,
        }
    }

    pub closed spec fn probe_path(&self) -> Seq<char> {
        match self.search {
            Some(s) => s.probe_path(),
            None => Seq::empty(),
        }
    }

    pub closed spec fn wf(&self) -> bool {
        match self.resolution {
            Some(r) => {
                &&& self.search is None
                &&& r.wf()
                &&& r.start_name() == self.start@.name
            },
            None => match self.search {
                Some(s) => {
                    &&& s.wf()
                    &&& s.themes_view() == self.order()
                    &&& self.loaded@.dom().subset_of(self.asked@)
                    &&& forall|m: Seq<char>| #[trigger] self.asked@.contains(m) ==> mentioned(self.start@.name, self.loaded@, m)
                    &&& forall|g: ThemeGraph| #![trigger agrees(g, graph_of(self.loaded@), self.asked@)]
                        g.dom().finite() && agrees(g, graph_of(self.loaded@), self.asked@)
                            ==> resolution_order(g, self.start@.name) == resolution_order(graph_of(self.loaded@), self.start@.name)
                    &&& s.home_view() == self.dirs.data_home@
                    &&& s.bases_view() == views(self.dirs.data_dirs@)
                    &&& s.icon_view() == self.icon@
                    &&& s.size_view() == self.size as nat
                    &&& s.scale_view() == 1
                },
                None => false,
            },
        }
    }

    fn start(theme: &IconTheme, icon: &str, size: u32, dirs: &BaseDirs) -> (r: IconQuery)
        ensures
            r.wf(),
            !r.searching(),
            r.start_view() == theme@,
            r.icon_view() == icon@,
            r.size_view() == size as nat,
            r.home_view() == dirs.data_home@,
            r.bases_view() == views(dirs.data_dirs@),
            r.loaded() == Map::<Seq<char>, ThemeView>::empty().insert(theme@.name, theme@),
            r.asked() == Set::<Seq<char>>::empty().insert(theme@.name),
    {
        let first = theme.copy();
        IconQuery {
            resolution: Some(ThemeResolution::new(first)),
            search: None,
            icon: String::from_str(icon),
            size,
            dirs: BaseDirs { data_home: dirs.data_home.clone(), data_dirs: dirs.data_dirs.clone() },
            start: Ghost(theme@),
            loaded: Ghost(Map::empty()),
            asked: Ghost(Set::empty()),
        }
    }

    /// What the query needs next, or its result.
    pub fn next(&mut self) -> (r: Step)
        requires
            old(self).wf(),
        ensures
            final(self).wf(),
            final(self).start_view() == old(self).start_view(),
            final(self).icon_view() == old(self).icon_view(),
            final(self).size_view() == old(self).size_view(),
            final(self).home_view() == old(self).home_view(),
            final(self).bases_view() == old(self).bases_view(),
            final(self).loaded() == old(self).loaded(),
            final(self).asked() == old(self).asked(),
            final(self).log() == old(self).log(),
            old(self).searching() ==> final(self).steps_left() == old(self).steps_left(),
            final(self).searching() ==> final(self).loaded().dom().subset_of(final(self).asked()),
            final(self).searching() ==> forall|m: Seq<char>| #[trigger] final(self).asked().contains(m)
                ==> mentioned(final(self).start_view().name, final(self).loaded(), m),
            final(self).searching() ==> forall|g: ThemeGraph| #![trigger agrees(g, graph_of(final(self).loaded()), final(self).asked())]
                g.dom().finite() && agrees(g, graph_of(final(self).loaded()), final(self).asked())
                    ==> resolution_order(g, final(self).start_view().name)
                        == resolution_order(graph_of(final(self).loaded()), final(self).start_view().name),
            match r {
                Step::Load(n) => !final(self).searching() && final(self).waiting_for(n@) && !final(self).asked().contains(n@),
                Step::Exists(p) => final(self).searching() && !final(self).finished() && p@ == final(self).probe_path(),
                Step::Found(p) => final(self).finished() && forall|fs: Set<Seq<char>>| #[trigger] consistent(fs, final(self).log())
                    ==> final(self).lookup(fs) == Some(p@),
                Step::NotFound => final(self).finished() && forall|fs: Set<Seq<char>>| #[trigger] consistent(fs, final(self).log())
                    ==> final(self).lookup(fs) is None,
            },
    {
        if self.resolution.is_some() {
            let mut r = self.resolution.take().unwrap();
            match r.next_theme() {
                Some(n) => {
                    self.resolution = Some(r);
                    return Step::Load(n);
                },
                None => {
                    let ghost loaded = r.loaded();
                    let ghost asked = r.asked();
                    let ghost walked = r;
                    proof {
                        r.lemma_asked_mentioned();
                    }
                    let themes = r.into_order();
                    let search = IconSearch::new(themes, &self.dirs, self.icon.as_str(), self.size, 1);
                    self.search = Some(search);
                    proof {
                        self.loaded@ = loaded;
                        self.asked@ = asked;
                        assert(walked.start_name() == self.start@.name);
                    }
                },
            }
        }
        match &self.search {
            Some(s) => match s.next() {
                Probe::Exists(p) => Step::Exists(p),
                Probe::Found(p) => Step::Found(p),
                Probe::NotFound => Step::NotFound,
            },
            None => Step::NotFound,
        }
    }

    /// Hands in the theme that `Step::Load` named, or `None` where it is not
    /// installed.
    pub fn theme_loaded(&mut self, theme: Option<IconTheme>)
        requires
            old(self).wf(),
        ensures
            final(self).wf(),
            final(self).start_view() == old(self).start_view(),
            final(self).icon_view() == old(self).icon_view(),
            final(self).size_view() == old(self).size_view(),
            final(self).home_view() == old(self).home_view(),
            final(self).bases_view() == old(self).bases_view(),
            final(self).searching() == old(self).searching(),
            final(self).log() == old(self).log(),
            !old(self).searching() ==> old(self).asked().subset_of(final(self).asked()),
            old(self).searching() ==> final(self).asked() == old(self).asked() && final(self).loaded() == old(self).loaded(),
            forall|n: Seq<char>| old(self).waiting_for(n) ==> !old(self).asked().contains(n)
                && final(self).asked() == old(self).asked().insert(n),
            forall|n: Seq<char>| #[trigger] old(self).waiting_for(n) ==> match theme {
                Some(t) => final(self).loaded() == old(self).loaded().insert(n, t@),
                None => final(self).loaded() == old(self).loaded(),
            },
    {
        if self.resolution.is_some() {
            let mut r = self.resolution.take().unwrap();
            r.supply(theme);
            self.resolution = Some(r);
        }
    }

    /// Answers the path that `Step::Exists` named: whether it exists.
    pub fn path_exists(&mut self, present: bool)
        requires
            old(self).wf(),
        ensures
            final(self).wf(),
            final(self).start_view() == old(self).start_view(),
            final(self).icon_view() == old(self).icon_view(),
            final(self).size_view() == old(self).size_view(),
            final(self).home_view() == old(self).home_view(),
            final(self).bases_view() == old(self).bases_view(),
            final(self).loaded() == old(self).loaded(),
            final(self).searching() == old(self).searching(),
            old(self).searching() && !old(self).finished() ==> final(self).log() == old(self).log().push(
                (old(self).probe_path(), present),
            ),
            !old(self).searching() || old(self).finished() ==> final(self).log() == old(self).log(),
            final(self).asked() == old(self).asked(),
            old(self).searching() && !old(self).finished() ==> final(self).steps_left() < old(self).steps_left(),
    {
        if self.search.is_some() {
            let mut s = self.search.take().unwrap();
            s.answer(present);
            self.search = Some(s);
        }
    }
}

impl IconTheme {
    /// Starts finding the theme of this name in the given directories.
    pub fn from_name(name: &str, dirs: &BaseDirs) -> (r: ThemeLocator)
        ensures
            r.wf(),
            r.name_view() == name@,
            r.roots_view() == root_candidates(dirs.data_home@, views(dirs.data_dirs@), name@),
            r.position() == 0,
    {
        ThemeLocator::new(dirs, name)
    }

    /// Starts looking `icon_name` up at the theme's default size (or the
    /// conventional one) and scale 1, through this theme and those it inherits
    /// from, then the pixmap directories.
    pub fn get(&self, icon_name: &str, dirs: &BaseDirs) -> (r: IconQuery)
        ensures
            r.wf(),
            !r.searching(),
            r.start_view() == self@,
            r.icon_view() == icon_name@,
            r.size_view() == search_size(None, self@),
            r.home_view() == dirs.data_home@,
            r.bases_view() == views(dirs.data_dirs@),
            r.loaded() == Map::<Seq<char>, ThemeView>::empty().insert(self@.name, self@),
            r.asked() == Set::<Seq<char>>::empty().insert(self@.name),
    {
        let size = match self.default_size() {
            Some(n) => n,
            None => FALLBACK_SIZE,
        };
        IconQuery::start(self, icon_name, size, dirs)
    }

    /// Starts looking `icon_name` up at `size` and scale 1.
    pub fn get_with_size(&self, icon_name: &str, size: u32, dirs: &BaseDirs) -> (r: IconQuery)
        ensures
            r.wf(),
            !r.searching(),
            r.start_view() == self@,
            r.icon_view() == icon_name@,
            r.size_view() == search_size(Some(size as nat), self@),
            r.home_view() == dirs.data_home@,
            r.bases_view() == views(dirs.data_dirs@),
            r.loaded() == Map::<Seq<char>, ThemeView>::empty().insert(self@.name, self@),
            r.asked() == Set::<Seq<char>>::empty().insert(self@.name),
    {
        IconQuery::start(self, icon_name, size, dirs)
    }
}

/// The pixmap directories: the last resort of a lookup.
pub struct Pixmap;

impl Pixmap {
    /// Starts looking `icon_name` up in the pixmap directories alone.
    pub fn get(icon_name: &str, dirs: &BaseDirs) -> (r: IconSearch)
        ensures
            r.wf(),
            r.log() == Seq::<(Seq<char>, bool)>::empty(),
            forall|fs: Set<Seq<char>>| #[trigger] r.lookup(fs) == first_present(
                pixmap_cands(views(dirs.data_dirs@), 0, icon_name@, fs),
                fs,
            ),
    {
        let r = IconSearch::new(Vec::new(), dirs, icon_name, FALLBACK_SIZE, 1);
        proof {
            assert forall|fs: Set<Seq<char>>| #[trigger] r.lookup(fs) == first_present(
                pixmap_cands(views(dirs.data_dirs@), 0, icon_name@, fs),
                fs,
            ) by {
                let t = crate::search::theme_cands(r.themes_view(), 0, r.home_view(), r.icon_view(), r.size_view(), r.scale_view(), fs);
                assert(t == Seq::<Seq<char>>::empty());
                assert(t + pixmap_cands(views(dirs.data_dirs@), 0, icon_name@, fs) =~= pixmap_cands(views(dirs.data_dirs@), 0, icon_name@, fs));
            }
        }
        r
    }
}

/// Starts looking `name` up through the current theme, at its default size.
pub fn get_icon(current: &IconTheme, name: &str, dirs: &BaseDirs) -> (r: IconQuery)
    ensures
        r.wf(),
        !r.searching(),
        r.start_view() == current@,
        r.icon_view() == name@,
        r.size_view() == search_size(None, current@),
        r.home_view() == dirs.data_home@,
        r.bases_view() == views(dirs.data_dirs@),
        r.loaded() == Map::<Seq<char>, ThemeView>::empty().insert(current@.name, current@),
        r.asked() == Set::<Seq<char>>::empty().insert(current@.name),
{
    current.get(name, dirs)
}

/// Starts looking `name` up through the current theme, at `size`.
pub fn get_icon_with_size(current: &IconTheme, name: &str, size: u32, dirs: &BaseDirs) -> (r: IconQuery)
    ensures
        r.wf(),
        !r.searching(),
        r.start_view() == current@,
        r.icon_view() == name@,
        r.size_view() == size as nat,
        r.home_view() == dirs.data_home@,
        r.bases_view() == views(dirs.data_dirs@),
        r.loaded() == Map::<Seq<char>, ThemeView>::empty().insert(current@.name, current@),
        r.asked() == Set::<Seq<char>>::empty().insert(current@.name),
{
    current.get_with_size(name, size, dirs)
}

} // verus!
