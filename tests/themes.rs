use std::collections::{HashMap, HashSet};

use freedesktop_icon::{
    current_theme_name, get_icon, CurrentThemeChoice, get_icon_with_size, settings_paths, BaseDirs, IconQuery,
    IconSearch, IconTheme, Pixmap, Probe, Step, ThemeResolution, FALLBACK_THEME,
};

/// A file system held in memory: existing paths, and the text of the files read.
struct Disk {
    paths: HashSet<String>,
    texts: HashMap<String, String>,
}

impl Disk {
    fn new() -> Disk {
        Disk { paths: HashSet::new(), texts: HashMap::new() }
    }

    fn add(&mut self, path: &str) {
        self.paths.insert(path.to_string());
    }

    fn theme(&mut self, root: &str, descriptor: &str) {
        let file = format!("{}/index.theme", root);
        self.add(root);
        self.add(&file);
        self.texts.insert(file, descriptor.to_string());
    }
}

fn dirs() -> BaseDirs {
    BaseDirs {
        data_home: "/home/u/.local/share".to_string(),
        data_dirs: vec!["/usr/local/share".to_string(), "/usr/share".to_string()],
    }
}

fn find_theme(name: &str, dirs: &BaseDirs, disk: &Disk) -> Option<IconTheme> {
    let mut loc = IconTheme::from_name(name, dirs);
    loop {
        match loc.next() {
            None => return None,
            Some(p) => {
                if disk.paths.contains(&p) {
                    return loc.load(disk.texts.get(&p).cloned());
                }
                loc.absent();
            }
        }
    }
}

fn run(mut q: IconQuery, dirs: &BaseDirs, disk: &Disk) -> (Option<String>, Vec<String>) {
    let mut asked = Vec::new();
    loop {
        match q.next() {
            Step::Load(n) => {
                asked.push(n.clone());
                q.theme_loaded(find_theme(&n, dirs, disk));
            }
            Step::Exists(p) => q.path_exists(disk.paths.contains(&p)),
            Step::Found(p) => return (Some(p), asked),
            Step::NotFound => return (None, asked),
        }
    }
}

fn run_search(mut s: IconSearch, disk: &Disk) -> Option<String> {
    loop {
        match s.next() {
            Probe::Exists(p) => s.answer(disk.paths.contains(&p)),
            Probe::Found(p) => return Some(p),
            Probe::NotFound => return None,
        }
    }
}

fn resolve(start: &str, dirs: &BaseDirs, disk: &Disk) -> Vec<String> {
    let mut r = ThemeResolution::new(find_theme(start, dirs, disk).unwrap());
    while let Some(n) = r.next_theme() {
        r.supply(find_theme(&n, dirs, disk));
    }
    r.into_order().iter().map(|t| t.name().to_string()).collect()
}

const HICOLOR: &str = "[Icon Theme]\nName=Hicolor\nDirectories=48x48/apps,scalable/apps\n\n[48x48/apps]\nSize=48\n\n[scalable/apps]\nSize=64\nScale=1\n";

#[test]
fn descriptor_fields_are_read() {
    let t = IconTheme::from_descriptor(
        "Custom",
        "/usr/share/icons/Custom",
        Some("[Icon Theme]\nInherits=Adwaita,hicolor\nDirectories=16x16,32x32@2\nDesktopDefault=32\n\n[16x16]\nSize=16\n\n[32x32@2]\nSize=32\nScale=2\n".to_string()),
    );
    assert_eq!(t.name(), "Custom");
    assert_eq!(t.path(), "/usr/share/icons/Custom");
    assert_eq!(t.inherits(), vec!["Adwaita".to_string(), "hicolor".to_string()]);
    assert_eq!(t.directories(), vec!["16x16".to_string(), "32x32@2".to_string()]);
    assert_eq!(t.default_size(), Some(32));
    assert_eq!(t.config_value("16x16", "Size"), Some("16".to_string()));
    assert_eq!(t.config_value("16x16", "Scale"), None);
    assert_eq!(t.config_value("Nope", "Size"), None);
    assert_eq!(t.matching_dirs(16, 1), vec!["16x16".to_string()]);
    assert_eq!(t.matching_dirs(32, 2), vec!["32x32@2".to_string()]);
    assert!(t.matching_dirs(32, 1).is_empty());
}

#[test]
fn unreadable_or_malformed_descriptor_gives_empty_metadata() {
    for text in [None, Some("[Icon Theme\nbroken".to_string())] {
        let t = IconTheme::from_descriptor("X", "/r/X", text);
        assert!(t.inherits().is_empty());
        assert!(t.directories().is_empty());
        assert_eq!(t.default_size(), None);
        assert_eq!(t.config_value("Icon Theme", "Directories"), None);
    }
}

#[test]
fn unreadable_sizes_default_to_zero_and_scale_to_one() {
    let t = IconTheme::from_descriptor(
        "X",
        "/r/X",
        Some("[Icon Theme]\nDirectories=a,b,c\nDesktopDefault=big\n\n[a]\nSize=big\n\n[b]\nScale=x\nSize=24\n\n[c]\nSize=24\nScale=300\n".to_string()),
    );
    assert_eq!(t.matching_dirs(0, 1), vec!["a".to_string()]);
    assert_eq!(t.matching_dirs(24, 1), vec!["b".to_string(), "c".to_string()]);
    assert_eq!(t.default_size(), None);
}

#[test]
fn nearest_size_is_never_substituted() {
    let t = IconTheme::from_descriptor("hicolor", "/usr/share/icons/hicolor", Some(HICOLOR.to_string()));
    assert!(t.matching_dirs(47, 1).is_empty());
    assert!(t.matching_dirs(48, 2).is_empty());
    assert!(t.icon_dirs("/home/u/.local/share", 47, 1, &vec![]).is_empty());
    assert_eq!(t.icon_dirs("/home/u/.local/share", 64, 1, &vec![false]), vec!["/usr/share/icons/hicolor/scalable/apps".to_string()]);
}

#[test]
fn overlay_directory_comes_before_installed_one() {
    let t = IconTheme::from_descriptor("hicolor", "/usr/share/icons/hicolor", Some(HICOLOR.to_string()));
    let overlays = t.overlay_dirs("/home/u/.local/share", 48, 1);
    assert_eq!(overlays, vec!["/home/u/.local/share/icons/hicolor/48x48/apps".to_string()]);
    assert_eq!(
        t.icon_dirs("/home/u/.local/share", 48, 1, &vec![true]),
        vec![
            "/home/u/.local/share/icons/hicolor/48x48/apps".to_string(),
            "/usr/share/icons/hicolor/48x48/apps".to_string(),
        ]
    );
    assert_eq!(t.icon_dirs("/home/u/.local/share", 48, 1, &vec![false]), vec!["/usr/share/icons/hicolor/48x48/apps".to_string()]);
}

#[test]
fn locator_prefers_personal_directory_then_data_dirs_in_order() {
    let d = dirs();
    let mut disk = Disk::new();
    disk.theme("/usr/share/icons/T", "[Icon Theme]\nDirectories=\n");
    disk.theme("/usr/local/share/icons/T", "[Icon Theme]\n");
    assert_eq!(find_theme("T", &d, &disk).unwrap().path(), "/usr/local/share/icons/T");
    disk.theme("/home/u/.local/share/icons/T", "[Icon Theme]\n");
    assert_eq!(find_theme("T", &d, &disk).unwrap().path(), "/home/u/.local/share/icons/T");
    disk.add("/usr/share/icons/U");
    assert!(find_theme("U", &d, &disk).is_none());
}

#[test]
fn locator_without_descriptor_text_still_finds_theme() {
    let d = dirs();
    let loc = IconTheme::from_name("V", &d);
    assert_eq!(loc.next(), Some("/home/u/.local/share/icons/V/index.theme".to_string()));
    let t = loc.load(None).unwrap();
    assert_eq!(t.name(), "V");
    assert!(t.inherits().is_empty());
}

#[test]
fn resolution_order_is_depth_first_with_each_theme_once() {
    let d = dirs();
    let mut disk = Disk::new();
    disk.theme("/usr/share/icons/A", "[Icon Theme]\nInherits=B,C\n");
    disk.theme("/usr/share/icons/B", "[Icon Theme]\nInherits=D,Missing\n");
    disk.theme("/usr/share/icons/C", "[Icon Theme]\nInherits=D,A\n");
    disk.theme("/usr/share/icons/D", "[Icon Theme]\nInherits=B\n");
    assert_eq!(resolve("A", &d, &disk), vec!["A", "B", "D", "C"]);
}

#[test]
fn self_inheritance_terminates() {
    let d = dirs();
    let mut disk = Disk::new();
    disk.theme("/usr/share/icons/S", "[Icon Theme]\nInherits=S,hicolor,S\n");
    disk.theme("/usr/share/icons/hicolor", HICOLOR);
    assert_eq!(resolve("S", &d, &disk), vec!["S", "hicolor"]);
}

#[test]
fn svg_preferred_over_png_over_xpm() {
    let d = dirs();
    let mut disk = Disk::new();
    disk.theme("/usr/share/icons/hicolor", HICOLOR);
    let t = find_theme("hicolor", &d, &disk).unwrap();
    disk.add("/usr/share/icons/hicolor/48x48/apps/foo.xpm");
    assert_eq!(run(t.get("foo", &d), &d, &disk).0, Some("/usr/share/icons/hicolor/48x48/apps/foo.xpm".to_string()));
    disk.add("/usr/share/icons/hicolor/48x48/apps/foo.png");
    assert_eq!(run(t.get("foo", &d), &d, &disk).0, Some("/usr/share/icons/hicolor/48x48/apps/foo.png".to_string()));
    disk.add("/usr/share/icons/hicolor/48x48/apps/foo.svg");
    assert_eq!(run(t.get("foo", &d), &d, &disk).0, Some("/usr/share/icons/hicolor/48x48/apps/foo.svg".to_string()));
}

#[test]
fn overlay_file_shadows_installed_file() {
    let d = dirs();
    let mut disk = Disk::new();
    disk.theme("/usr/share/icons/hicolor", HICOLOR);
    disk.add("/usr/share/icons/hicolor/48x48/apps/foo.svg");
    disk.add("/home/u/.local/share/icons/hicolor/48x48/apps");
    disk.add("/home/u/.local/share/icons/hicolor/48x48/apps/foo.png");
    let t = find_theme("hicolor", &d, &disk).unwrap();
    assert_eq!(run(t.get("foo", &d), &d, &disk).0, Some("/home/u/.local/share/icons/hicolor/48x48/apps/foo.png".to_string()));
}

#[test]
fn pixmap_is_the_fallback() {
    let d = dirs();
    let mut disk = Disk::new();
    disk.theme("/usr/share/icons/hicolor", HICOLOR);
    disk.add("/usr/share/pixmaps");
    disk.add("/usr/share/pixmaps/foo.png");
    let t = find_theme("hicolor", &d, &disk).unwrap();
    assert_eq!(run(t.get("foo", &d), &d, &disk).0, Some("/usr/share/pixmaps/foo.png".to_string()));
    assert_eq!(run_search(Pixmap::get("foo", &d), &disk), Some("/usr/share/pixmaps/foo.png".to_string()));
}

#[test]
fn missing_icon_is_not_found() {
    let d = dirs();
    let mut disk = Disk::new();
    disk.theme("/usr/share/icons/hicolor", HICOLOR);
    disk.add("/usr/share/pixmaps");
    let t = find_theme("hicolor", &d, &disk).unwrap();
    assert_eq!(run(t.get("foo", &d), &d, &disk).0, None);
    assert_eq!(run_search(Pixmap::get("foo", &d), &disk), None);
}

#[test]
fn inherited_theme_supplies_missing_icon() {
    let d = dirs();
    let mut disk = Disk::new();
    disk.theme("/usr/share/icons/Custom", "[Icon Theme]\nInherits=hicolor\nDirectories=32x32/apps\n\n[32x32/apps]\nSize=32\n");
    disk.theme("/usr/share/icons/hicolor", HICOLOR);
    disk.add("/usr/share/icons/Custom/32x32/apps/foo.png");
    disk.add("/usr/share/icons/hicolor/48x48/apps/foo.png");
    let t = find_theme("Custom", &d, &disk).unwrap();
    let (found, asked) = run(t.get("foo", &d), &d, &disk);
    assert_eq!(found, Some("/usr/share/icons/hicolor/48x48/apps/foo.png".to_string()));
    assert_eq!(asked, vec!["hicolor".to_string()]);
    let (found, _) = run(get_icon_with_size(&t, "foo", 32, &d), &d, &disk);
    assert_eq!(found, Some("/usr/share/icons/Custom/32x32/apps/foo.png".to_string()));
    let (found, _) = run(get_icon(&t, "foo", &d), &d, &disk);
    assert_eq!(found, Some("/usr/share/icons/hicolor/48x48/apps/foo.png".to_string()));
}

#[test]
fn declared_default_size_is_used() {
    let d = dirs();
    let mut disk = Disk::new();
    disk.theme("/usr/share/icons/hicolor", "[Icon Theme]\nDirectories=48x48/apps,64x64/apps\nDesktopDefault=64\n\n[48x48/apps]\nSize=48\n\n[64x64/apps]\nSize=64\n");
    disk.add("/usr/share/icons/hicolor/48x48/apps/foo.png");
    disk.add("/usr/share/icons/hicolor/64x64/apps/foo.png");
    let t = find_theme("hicolor", &d, &disk).unwrap();
    assert_eq!(run(t.get("foo", &d), &d, &disk).0, Some("/usr/share/icons/hicolor/64x64/apps/foo.png".to_string()));
    assert_eq!(run(t.get_with_size("foo", 48, &d), &d, &disk).0, Some("/usr/share/icons/hicolor/48x48/apps/foo.png".to_string()));
}

#[test]
fn current_theme_name_takes_first_usable_settings_file() {
    let texts = vec![
        None,
        Some("[Settings]\ngtk-theme-name=Adwaita\n".to_string()),
        Some("[Settings]\ngtk-icon-theme-name=Papirus\n".to_string()),
        Some("[Settings]\ngtk-icon-theme-name=Other\n".to_string()),
    ];
    assert_eq!(current_theme_name(&texts), "Papirus");
}

#[test]
fn current_theme_name_falls_back_to_hicolor() {
    assert_eq!(current_theme_name(&vec![None, Some("[Settings\n".to_string())]), FALLBACK_THEME);
    assert_eq!(FALLBACK_THEME, "hicolor");
}

#[test]
fn settings_files_are_probed_in_priority_order() {
    assert_eq!(
        settings_paths("/home/u/.config", "/home/u"),
        vec![
            "/home/u/.config/gtk-4.0/settings.ini".to_string(),
            "/home/u/.config/gtk-3.0/settings.ini".to_string(),
            "/home/u/gtk-4.0/settings.ini".to_string(),
            "/home/u/gtk-3.0/settings.ini".to_string(),
        ]
    );
}

#[test]
fn copied_theme_keeps_its_descriptor() {
    let t = IconTheme::from_descriptor("hicolor", "/usr/share/icons/hicolor", Some(HICOLOR.to_string()));
    let c = t.copy();
    assert_eq!(c.name(), "hicolor");
    assert_eq!(c.path(), "/usr/share/icons/hicolor");
    assert_eq!(c.directories(), vec!["48x48/apps".to_string(), "scalable/apps".to_string()]);
    assert_eq!(c.config_value("scalable/apps", "Size"), Some("64".to_string()));
}

#[test]
fn current_theme_choice_tries_named_theme_then_fallback() {
    let texts = vec![Some("[Settings]\ngtk-icon-theme-name=Papirus\n".to_string())];
    let mut c = CurrentThemeChoice::new(&texts);
    assert_eq!(c.next(), Some("Papirus".to_string()));
    c.not_installed();
    assert_eq!(c.next(), Some("hicolor".to_string()));
    c.not_installed();
    assert_eq!(c.next(), None);
    let c = CurrentThemeChoice::new(&vec![None]);
    assert_eq!(c.next(), Some("hicolor".to_string()));
}

#[test]
fn query_asks_for_each_ancestor_once() {
    let d = dirs();
    let mut disk = Disk::new();
    disk.theme("/usr/share/icons/A", "[Icon Theme]\nInherits=B,C\n");
    disk.theme("/usr/share/icons/B", "[Icon Theme]\nInherits=D\n");
    disk.theme("/usr/share/icons/C", "[Icon Theme]\nInherits=D,A,X\n");
    disk.theme("/usr/share/icons/D", "[Icon Theme]\nInherits=A,D\nDirectories=48\n\n[48]\nSize=48\n");
    disk.theme("/usr/share/icons/C2", "[Icon Theme]\n");
    let t = find_theme("A", &d, &disk).unwrap();
    let (found, asked) = run(t.get("foo", &d), &d, &disk);
    assert_eq!(found, None);
    assert_eq!(asked, vec!["B".to_string(), "D".to_string(), "C".to_string(), "X".to_string()]);
    disk.add("/usr/share/icons/D/48/foo.svg");
    let (found, _) = run(t.get("foo", &d), &d, &disk);
    assert_eq!(found, Some("/usr/share/icons/D/48/foo.svg".to_string()));
}
