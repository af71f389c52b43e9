//! One installed icon theme and what its descriptor declares.
use vstd::prelude::*;

use crate::config::{empty_ini, ini_parsed, ini_sections, ini_value, lookup_in, no_sections, parse_ini};
use crate::text::{join_path, join_spec, list_spec, parse_u32, parse_u8, parse_unsigned, split_list};

verus! {

/// The name of the descriptor file in a theme's root directory.
pub const DESCRIPTOR_FILE: &'static str = "index.theme";

/// The section of the descriptor that describes the theme as a whole.
pub const THEME_SECTION: &'static str = "Icon Theme";

/// The size searched for when neither the caller nor the theme names one.
pub const FALLBACK_SIZE: u32 = 48;

/// A theme as the library reasons about it.
pub struct ThemeView {
    pub name: Seq<char>,
    pub root: Seq<char>,
    pub sections: Map<Seq<char>, Map<Seq<char>, Seq<char>>>,
}

/// An icon theme found on disk: its name, its root directory, and its parsed descriptor.
pub struct IconTheme {
    name: String,
    path: String,
    config: ini::Ini,
}

impl View for IconTheme {
    type V = ThemeView;

    closed spec fn view(&self) -> ThemeView {
        ThemeView { name: self.name@, root: self.path@, sections: ini_sections(self.config) }
    }
}

/// The sections of a descriptor text: parsed when it parses, none otherwise.
pub open spec fn descriptor_sections(text: Option<Seq<char>>) -> Map<Seq<char>, Map<Seq<char>, Seq<char>>> {
    match text {
        Some(t) => match ini_parsed(t) {
            Some(m) => m,
            None => no_sections(),
        },
        None => no_sections(),
    }
}

pub open spec fn config_lookup(v: ThemeView, section: Seq<char>, key: Seq<char>) -> Option<Seq<char>> {
    lookup_in(v.sections, section, key)
}

/// A comma-separated value: absent or empty gives nothing.
pub open spec fn comma_list(value: Option<Seq<char>>) -> Seq<Seq<char>> {
    match value {
        Some(s) => list_spec(s, ','),
        None => Seq::empty(),
    }
}

/// The names of the themes that `v` inherits from, in declared order.
pub open spec fn inherits_of(v: ThemeView) -> Seq<Seq<char>> {
    comma_list(config_lookup(v, THEME_SECTION@, "Inherits"@))
}

/// The icon directories that `v` declares, in declared order.
pub open spec fn directories_of(v: ThemeView) -> Seq<Seq<char>> {
    comma_list(config_lookup(v, THEME_SECTION@, "Directories"@))
}

/// The pixel size of a declared directory: 0 where missing or unreadable.
pub open spec fn dir_size_of(v: ThemeView, d: Seq<char>) -> nat {
    match config_lookup(v, d, "Size"@) {
        Some(s) => match parse_unsigned(s, u32::MAX as nat) {
            Some(n) => n,
            None => 0,
        },
        None => 0,
    }
}

/// The scale of a declared directory: 1 where missing or unreadable.
pub open spec fn dir_scale_of(v: ThemeView, d: Seq<char>) -> nat {
    match config_lookup(v, d, "Scale"@) {
        Some(s) => match parse_unsigned(s, u8::MAX as nat) {
            Some(n) => n,
            None => 1,
        },
        None => 1,
    }
}

/// The default pixel size that the theme declares, if it declares a readable one.
pub open spec fn default_size_of(v: ThemeView) -> Option<nat> {
    match config_lookup(v, THEME_SECTION@, "DesktopDefault"@) {
        Some(s) => parse_unsigned(s, u32::MAX as nat),
        None => None,
    }
}

/// Whether a declared directory is recorded for exactly this size and scale.
pub open spec fn dir_matches(v: ThemeView, d: Seq<char>, size: nat, scale: nat) -> bool {
    dir_size_of(v, d) == size && dir_scale_of(v, d) == scale
}

/// The directories among `ds` that match, in their order.
pub open spec fn matching_among(v: ThemeView, ds: Seq<Seq<char>>, size: nat, scale: nat) -> Seq<Seq<char>>
    decreases ds.len(),
{
    if ds.len() == 0 {
        Seq::empty()
    } else {
        let pre = matching_among(v, ds.drop_last(), size, scale);
        if dir_matches(v, ds.last(), size, scale) {
            pre.push(ds.last())
        } else {
            pre
        }
    }
}

/// The declared directories of `v` that match the size and scale exactly.
pub open spec fn matching_dirs_of(v: ThemeView, size: nat, scale: nat) -> Seq<Seq<char>> {
    matching_among(v, directories_of(v), size, scale)
}

/// `<data_home>/icons/<theme>`: the personal overlay root of a theme.
pub open spec fn overlay_root(home: Seq<char>, theme: Seq<char>) -> Seq<char> {
    join_spec(join_spec(home, "icons"@), theme)
}

/// The overlay directories of the matching declared directories, in their order.
pub open spec fn overlay_dirs_of(v: ThemeView, home: Seq<char>, ms: Seq<Seq<char>>) -> Seq<Seq<char>> {
    ms.map_values(|d: Seq<char>| join_spec(overlay_root(home, v.name), d))
}

/// The directories searched for `ms` with the given overlay answers: for each
/// directory its overlay first, where the overlay exists, then the installed one.
pub open spec fn dirs_with_overlays(
    v: ThemeView,
    home: Seq<char>,
    ms: Seq<Seq<char>>,
    present: Seq<bool>,
) -> Seq<Seq<char>>
    decreases ms.len(),
{
    if ms.len() == 0 {
        Seq::empty()
    } else {
        let pre = dirs_with_overlays(v, home, ms.drop_last(), present.subrange(0, ms.len() - 1));
        let d = ms.last();
        let installed = join_spec(v.root, d);
        if present[ms.len() - 1] {
            pre.push(join_spec(overlay_root(home, v.name), d)).push(installed)
        } else {
            pre.push(installed)
        }
    }
}

proof fn lemma_matching_among(v: ThemeView, ds: Seq<Seq<char>>, size: nat, scale: nat)
    ensures
        forall|d: Seq<char>| #[trigger] matching_among(v, ds, size, scale).contains(d) <==> ds.contains(d)
            && dir_matches(v, d, size, scale),
    decreases ds.len(),
{
    if ds.len() > 0 {
        let pre = ds.drop_last();
        lemma_matching_among(v, pre, size, scale);
        let m = matching_among(v, ds, size, scale);
        let mp = matching_among(v, pre, size, scale);
        assert forall|d: Seq<char>| #[trigger] m.contains(d) <==> ds.contains(d) && dir_matches(v, d, size, scale) by {
            if m.contains(d) {
                let k = choose|k: int| 0 <= k < m.len() && m[k] == d;
                if k < mp.len() {
                    assert(mp[k] == d);
                    assert(mp.contains(d));
                    let j = choose|j: int| 0 <= j < pre.len() && pre[j] == d;
                    assert(ds[j] == d);
                } else {
                    assert(ds[ds.len() - 1] == d);
                }
            }
            if ds.contains(d) && dir_matches(v, d, size, scale) {
                let j = choose|j: int| 0 <= j < ds.len() && ds[j] == d;
                if j < ds.len() - 1 {
                    assert(pre[j] == d);
                    assert(mp.contains(d));
                    let k = choose|k: int| 0 <= k < mp.len() && mp[k] == d;
                    assert(m[k] == d);
                } else {
                    assert(m[m.len() - 1] == d);
                }
            }
        }
    }
}

proof fn lemma_dirs_with_overlays(v: ThemeView, home: Seq<char>, ms: Seq<Seq<char>>, present: Seq<bool>)
    requires
        present.len() == ms.len(),
    ensures
        forall|p: Seq<char>| #[trigger] dirs_with_overlays(v, home, ms, present).contains(p) ==> exists|d: Seq<char>|
            #[trigger] ms.contains(d) && (p == join_spec(v.root, d) || p == join_spec(overlay_root(home, v.name), d)),
        forall|k: int| 0 <= k < ms.len() && #[trigger] present[k] ==> exists|i: int|
            0 <= i && i + 1 < dirs_with_overlays(v, home, ms, present).len()
                && dirs_with_overlays(v, home, ms, present)[i] == join_spec(overlay_root(home, v.name), ms[k])
                && #[trigger] dirs_with_overlays(v, home, ms, present)[i + 1] == join_spec(v.root, ms[k]),
    decreases ms.len(),
{
    if ms.len() > 0 {
        let n = ms.len() - 1;
        let pre_ms = ms.drop_last();
        let pre_present = present.subrange(0, n);
        lemma_dirs_with_overlays(v, home, pre_ms, pre_present);
        let r = dirs_with_overlays(v, home, ms, present);
        let pre = dirs_with_overlays(v, home, pre_ms, pre_present);
        let d = ms.last();
        assert forall|p: Seq<char>| #[trigger] r.contains(p) implies exists|e: Seq<char>|
            #[trigger] ms.contains(e) && (p == join_spec(v.root, e) || p == join_spec(overlay_root(home, v.name), e)) by {
            let k = choose|k: int| 0 <= k < r.len() && r[k] == p;
            if k < pre.len() {
                assert(r[k] == pre[k]);
                assert(pre.contains(p));
                let e = choose|e: Seq<char>| #[trigger] pre_ms.contains(e) && (p == join_spec(v.root, e) || p == join_spec(overlay_root(home, v.name), e));
                let j = choose|j: int| 0 <= j < pre_ms.len() && pre_ms[j] == e;
                assert(ms[j] == e);
                assert(ms.contains(e));
            } else {
                assert(ms[n] == d);
                assert(ms.contains(d));
            }
        }
        assert forall|k: int| 0 <= k < ms.len() && #[trigger] present[k] implies exists|i: int|
            0 <= i && i + 1 < r.len() && r[i] == join_spec(overlay_root(home, v.name), ms[k])
                && #[trigger] r[i + 1] == join_spec(v.root, ms[k]) by {
            if k < n {
                assert(pre_present[k]);
                assert(pre_ms[k] == ms[k]);
                let i = choose|i: int| 0 <= i && i + 1 < pre.len() && pre[i] == join_spec(overlay_root(home, v.name), pre_ms[k])
                    && #[trigger] pre[i + 1] == join_spec(v.root, pre_ms[k]);
                assert(r[i] == pre[i]);
                assert(r[i + 1] == pre[i + 1]);
            } else {
                let i = pre.len() as int;
                assert(r[i] == join_spec(overlay_root(home, v.name), ms[k]));
                assert(r[i + 1] == join_spec(v.root, ms[k]));
            }
        }
    }
}

/// A declared directory is searched for a size and scale only where its
/// recorded size and scale are exactly those: no other size stands in for it.
/// Every directory searched is the installed or the overlay form of such a
/// directory.
pub proof fn lemma_exact_matches_only(v: ThemeView, home: Seq<char>, size: nat, scale: nat, present: Seq<bool>)
    requires
        present.len() == matching_dirs_of(v, size, scale).len(),
    ensures
        forall|d: Seq<char>| #[trigger] matching_dirs_of(v, size, scale).contains(d) <==> directories_of(v).contains(d)
            && dir_size_of(v, d) == size && dir_scale_of(v, d) == scale,
        forall|p: Seq<char>| #[trigger] dirs_with_overlays(v, home, matching_dirs_of(v, size, scale), present).contains(p)
            ==> exists|d: Seq<char>| #[trigger] directories_of(v).contains(d) && dir_size_of(v, d) == size
                && dir_scale_of(v, d) == scale && (p == join_spec(v.root, d) || p == join_spec(overlay_root(home, v.name), d)),
{
    let ms = matching_dirs_of(v, size, scale);
    lemma_matching_among(v, directories_of(v), size, scale);
    lemma_dirs_with_overlays(v, home, ms, present);
    assert forall|p: Seq<char>| #[trigger] dirs_with_overlays(v, home, ms, present).contains(p)
        implies exists|d: Seq<char>| #[trigger] directories_of(v).contains(d) && dir_size_of(v, d) == size
            && dir_scale_of(v, d) == scale && (p == join_spec(v.root, d) || p == join_spec(overlay_root(home, v.name), d)) by {
        let d = choose|d: Seq<char>| #[trigger] ms.contains(d) && (p == join_spec(v.root, d) || p == join_spec(overlay_root(home, v.name), d));
        assert(directories_of(v).contains(d));
    }
}

/// Where the personal overlay of a matching directory exists, it is searched
/// immediately before the installed directory of the same name.
pub proof fn lemma_overlay_first(v: ThemeView, home: Seq<char>, size: nat, scale: nat, present: Seq<bool>)
    requires
        present.len() == matching_dirs_of(v, size, scale).len(),
    ensures
        forall|k: int| 0 <= k < present.len() && #[trigger] present[k] ==> exists|i: int|
            0 <= i && i + 1 < dirs_with_overlays(v, home, matching_dirs_of(v, size, scale), present).len()
                && dirs_with_overlays(v, home, matching_dirs_of(v, size, scale), present)[i]
                    == join_spec(overlay_root(home, v.name), matching_dirs_of(v, size, scale)[k])
                && #[trigger] dirs_with_overlays(v, home, matching_dirs_of(v, size, scale), present)[i + 1]
                    == join_spec(v.root, matching_dirs_of(v, size, scale)[k]),
{
    lemma_dirs_with_overlays(v, home, matching_dirs_of(v, size, scale), present);
}

impl IconTheme {
    /// A copy of this theme.
    pub fn copy(&self) -> (r: IconTheme)
        ensures
            r@ == self@,
    {
        IconTheme { name: self.name.clone(), path: self.path.clone(), config: self.config.clone() }
    }

    /// Builds the theme found at `root` from its descriptor's text; a descriptor
    /// that could not be read (`None`) or does not parse gives an empty one.
    pub fn from_descriptor(name: &str, root: &str, text: Option<String>) -> (r: IconTheme)
        ensures
            r@.name == name@,
            r@.root == root@,
            r@.sections == descriptor_sections(match text {
                Some(t) => Some(t@),
                None => None,
            }),
    {
        let config = match text {
            Some(t) => match parse_ini(t.as_str()) {
                Ok(c) => c,
                Err(_) => empty_ini(),
            },
            None => empty_ini(),
        };
        IconTheme { name: String::from_str(name), path: String::from_str(root), config }
    }

    pub fn name(&self) -> (r: &str)
        ensures
            r@ == self@.name,
    {
        self.name.as_str()
    }

    pub fn path(&self) -> (r: String)
        ensures
            r@ == self@.root,
    {
        self.path.clone()
    }

    /// The value of `key` in the descriptor's section `section_name`.
    pub fn config_value(&self, section_name: &str, key: &str) -> (r: Option<String>)
        ensures
            r matches Some(s) ==> config_lookup(self@, section_name@, key@) == Some(s@),
            r is None ==> config_lookup(self@, section_name@, key@) is None,
    {
        ini_value(&self.config, section_name, key)
    }

    /// The names of the themes this one inherits from, in declared order.
    pub fn inherits(&self) -> (r: Vec<String>)
        ensures
            r@.map_values(|s: String| s@) == inherits_of(self@),
    {
        match self.config_value(THEME_SECTION, "Inherits") {
            Some(s) => split_list(s.as_str(), ','),
            None => {
                let r: Vec<String> = Vec::new();
                proof {
                    assert(r@.map_values(|s: String| s@) =~= Seq::<Seq<char>>::empty());
                }
                r
            },
        }
    }

    /// The declared icon directories, in declared order.
    pub fn directories(&self) -> (r: Vec<String>)
        ensures
            r@.map_values(|s: String| s@) == directories_of(self@),
    {
        match self.config_value(THEME_SECTION, "Directories") {
            Some(s) => split_list(s.as_str(), ','),
            None => {
                let r: Vec<String> = Vec::new();
                proof {
                    assert(r@.map_values(|s: String| s@) =~= Seq::<Seq<char>>::empty());
                }
                r
            },
        }
    }

    /// The default pixel size that the descriptor declares.
    pub fn default_size(&self) -> (r: Option<u32>)
        ensures
            r matches Some(n) ==> default_size_of(self@) == Some(n as nat),
            r is None ==> default_size_of(self@) is None,
    {
        match self.config_value(THEME_SECTION, "DesktopDefault") {
            Some(s) => parse_u32(s.as_str()),
            None => None,
        }
    }

    fn dir_size(&self, d: &str) -> (r: u32)
        ensures
            r as nat == dir_size_of(self@, d@),
    {
        match self.config_value(d, "Size") {
            Some(s) => match parse_u32(s.as_str()) {
                Some(n) => n,
                None => 0,
            },
            None => 0,
        }
    }

    fn dir_scale(&self, d: &str) -> (r: u8)
        ensures
            r as nat == dir_scale_of(self@, d@),
    {
        match self.config_value(d, "Scale") {
            Some(s) => match parse_u8(s.as_str()) {
                Some(n) => n,
                None => 1,
            },
            None => 1,
        }
    }

    /// The declared directories recorded for exactly this size and scale, in
    /// declared order.
    pub fn matching_dirs(&self, size: u32, scale: u8) -> (r: Vec<String>)
        ensures
            r@.map_values(|s: String| s@) == matching_dirs_of(self@, size as nat, scale as nat),
    {
        let dirs = self.directories();
        let ghost ds = dirs@.map_values(|s: String| s@);
        let mut out: Vec<String> = Vec::new();
        let mut i: usize = 0;
        proof {
            assert(ds.subrange(0, 0) =~= Seq::<Seq<char>>::empty());
            assert(out@.map_values(|s: String| s@) =~= Seq::<Seq<char>>::empty());
        }
        while i < dirs.len()
            invariant
                i <= dirs.len(),
                ds == dirs@.map_values(|s: String| s@),
                ds == directories_of(self@),
                out@.map_values(|s: String| s@) == matching_among(
                    self@,
                    ds.subrange(0, i as int),
                    size as nat,
                    scale as nat,
                ),
            decreases dirs.len() - i,
        {
            let d = &dirs[i];
            proof {
                assert(ds.subrange(0, i + 1).drop_last() =~= ds.subrange(0, i as int));
                assert(ds.subrange(0, i + 1).last() == d@);
            }
            if self.dir_size(d.as_str()) == size && self.dir_scale(d.as_str()) == scale {
                let ghost before = out@.map_values(|s: String| s@);
                out.push(d.clone());
                proof {
                    assert(out@.map_values(|s: String| s@) =~= before.push(d@));
                }
            }
            i = i + 1;
        }
        proof {
            assert(ds.subrange(0, i as int) =~= ds);
        }
        out
    }

    /// The personal overlay directories of the matching declared directories:
    /// the places whose existence `icon_dirs` needs to know.
    pub fn overlay_dirs(&self, data_home: &str, size: u32, scale: u8) -> (r: Vec<String>)
        ensures
            r@.map_values(|s: String| s@) == overlay_dirs_of(
                self@,
                data_home@,
                matching_dirs_of(self@, size as nat, scale as nat),
            ),
    {
        let ms = self.matching_dirs(size, scale);
        let icons = join_path(data_home, "icons");
        let root = join_path(icons.as_str(), self.name.as_str());
        let ghost want = overlay_dirs_of(self@, data_home@, matching_dirs_of(self@, size as nat, scale as nat));
        let mut out: Vec<String> = Vec::new();
        let mut i: usize = 0;
        while i < ms.len()
            invariant
                i <= ms.len(),
                ms@.map_values(|s: String| s@) == matching_dirs_of(self@, size as nat, scale as nat),
                root@ == overlay_root(data_home@, self@.name),
                want == overlay_dirs_of(self@, data_home@, matching_dirs_of(self@, size as nat, scale as nat)),
                out@.map_values(|s: String| s@) == want.subrange(0, i as int),
            decreases ms.len() - i,
        {
            let p = join_path(root.as_str(), ms[i].as_str());
            let ghost before = out@.map_values(|s: String| s@);
            out.push(p);
            proof {
                let msv = ms@.map_values(|s: String| s@);
                assert(msv[i as int] == ms@[i as int]@);
                assert(want[i as int] == p@);
                assert(out@.map_values(|s: String| s@) =~= before.push(p@));
                assert(out@.map_values(|s: String| s@) =~= want.subrange(0, i + 1));
            }
            i = i + 1;
        }
        proof {
            assert(want.subrange(0, i as int) =~= want);
        }
        out
    }

    /// The directories to search for this size and scale, in order: for each
    /// matching declared directory its overlay, where `overlay_present` says that
    /// it exists, then the installed directory. `overlay_present` answers, in
    /// order, for the paths that `overlay_dirs` gives.
    pub fn icon_dirs(&self, data_home: &str, size: u32, scale: u8, overlay_present: &Vec<bool>) -> (r: Vec<String>)
        requires
            overlay_present@.len() == matching_dirs_of(self@, size as nat, scale as nat).len(),
        ensures
            r@.map_values(|s: String| s@) == dirs_with_overlays(
                self@,
                data_home@,
                matching_dirs_of(self@, size as nat, scale as nat),
                overlay_present@,
            ),
    {
        let ms = self.matching_dirs(size, scale);
        let ghost msv = ms@.map_values(|s: String| s@);
        let icons = join_path(data_home, "icons");
        let root = join_path(icons.as_str(), self.name.as_str());
        let mut out: Vec<String> = Vec::new();
        let mut i: usize = 0;
        proof {
            assert(msv.subrange(0, 0) =~= Seq::<Seq<char>>::empty());
            assert(out@.map_values(|s: String| s@) =~= Seq::<Seq<char>>::empty());
        }
        while i < ms.len()
            invariant
                i <= ms.len(),
                msv == ms@.map_values(|s: String| s@),
                msv == matching_dirs_of(self@, size as nat, scale as nat),
                overlay_present@.len() == msv.len(),
                root@ == overlay_root(data_home@, self@.name),
                out@.map_values(|s: String| s@) == dirs_with_overlays(
                    self@,
                    data_home@,
                    msv.subrange(0, i as int),
                    overlay_present@.subrange(0, i as int),
                ),
            decreases ms.len() - i,
        {
            let ghost before = out@.map_values(|s: String| s@);
            proof {
                let sub = msv.subrange(0, i + 1);
                assert(sub.drop_last() =~= msv.subrange(0, i as int));
                assert(sub.last() == ms@[i as int]@);
                assert(overlay_present@.subrange(0, i + 1).subrange(0, i as int) =~= overlay_present@.subrange(0, i as int));
            }
            if overlay_present[i] {
                let o = join_path(root.as_str(), ms[i].as_str());
                out.push(o);
                let ghost mid = out@.map_values(|s: String| s@);
                proof {
                    assert(mid =~= before.push(o@));
                }
                let p = join_path(self.path.as_str(), ms[i].as_str());
                out.push(p);
                proof {
                    assert(out@.map_values(|s: String| s@) =~= mid.push(p@));
                }
            } else {
                let p = join_path(self.path.as_str(), ms[i].as_str());
                out.push(p);
                proof {
                    assert(out@.map_values(|s: String| s@) =~= before.push(p@));
                }
            }
            i = i + 1;
        }
        proof {
            assert(msv.subrange(0, i as int) =~= msv);
            assert(overlay_present@.subrange(0, i as int) =~= overlay_present@);
        }
        out
    }
}

} // verus!
