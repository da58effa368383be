use aura::icons::pick_themed_icon;
use aura::icons::first_found;
use aura::icons::lookup_icon;
use aura::command::clean_exec_command;
use aura::desktop::build_icon_index;
use aura::desktop::get_all_apps;
use aura::desktop::read_desktop_entry;
use aura::desktop::split_categories;
use aura::desktop::DescriptorFile;
use aura::icons::find_in_theme;
use aura::icons::is_usable_format;
use aura::icons::icon_candidates;
use aura::icons::IconFormat;
use aura::icons::IconIndex;
use aura::icons::ThemedIcon;
use std::path::PathBuf;

fn file(dir: &str, stem: &str, body: &str) -> DescriptorFile {
    DescriptorFile {
        path: PathBuf::from(format!("{}/{}.desktop", dir, stem)),
        extension: Some("desktop".to_string()),
        stem: Some(stem.to_string()),
        contents: Some(body.as_bytes().to_vec()),
    }
}

#[test]
fn command_field_codes_removed() {
    assert_eq!(clean_exec_command("app %u --flag %f"), "app --flag");
    assert_eq!(clean_exec_command("app %u"), "app");
    assert_eq!(clean_exec_command("%u"), "");
}

#[test]
fn command_whitespace_collapsed() {
    assert_eq!(clean_exec_command("  a \t b\n%F  c  "), "a b c");
    assert_eq!(clean_exec_command("%i%c%k"), "");
    assert_eq!(clean_exec_command("x %% y"), "x %% y");
}

#[test]
fn categories_split_on_semicolons() {
    assert_eq!(split_categories("Network;WebBrowser;"), vec!["Network", "WebBrowser"]);
    assert_eq!(split_categories(";;A;;B"), vec!["A", "B"]);
    assert!(split_categories("").is_empty());
}

#[test]
fn descriptor_keys_read() {
    let e = read_desktop_entry(b"[Desktop Entry]\nName=Firefox\nExec=firefox %u\nIcon=firefox\n")
        .expect("parses");
    assert_eq!(e.name.as_deref(), Some("Firefox"));
    assert_eq!(e.command.as_deref(), Some("firefox %u"));
    assert_eq!(e.icon.as_deref(), Some("firefox"));
    assert!(e.hidden.is_none());
}

#[test]
fn hidden_and_nodisplay_entries_are_not_listed() {
    let files = vec![
        file("/a", "one", "[Desktop Entry]\nName=One\nExec=one\nNoDisplay=true\n"),
        file("/a", "two", "[Desktop Entry]\nName=Two\nExec=two\nHidden=true\n"),
        file("/a", "three", "[Desktop Entry]\nName=Three\nExec=three\nNoDisplay=false\n"),
        file("/a", "four", "[Desktop Entry]\nName=Four\nExec=four\nType=Link\n"),
    ];
    let apps = get_all_apps(&files, "hicolor");
    let names: Vec<&str> = apps.iter().map(|a| a.name.as_str()).collect();
    assert_eq!(names, vec!["Three"]);
}

#[test]
fn duplicate_names_keep_earlier_directory() {
    let files = vec![
        file("/usr/share/applications", "ed", "[Desktop Entry]\nName=Editor\nExec=system-ed\n"),
        file("/home/u/.local/share/applications", "ed", "[Desktop Entry]\nName=Editor\nExec=user-ed\n"),
    ];
    let apps = get_all_apps(&files, "hicolor");
    assert_eq!(apps.len(), 1);
    assert_eq!(apps[0].command, "system-ed");
    assert_eq!(apps[0].desktop_file, PathBuf::from("/usr/share/applications/ed.desktop"));
}

#[test]
fn apps_sorted_without_case_and_fields_filled() {
    let files = vec![
        file("/a", "z", "[Desktop Entry]\nName=zeta\nExec=z %U\nCategories=Office;Text;\n"),
        file("/a", "b", "[Desktop Entry]\nName=Beta\nExec=b\nIcon=beta-icon\n"),
        file("/a", "e", "[Desktop Entry]\nName=Empty\nExec=%f\n"),
        DescriptorFile { path: PathBuf::from("/a/notes.txt"), extension: Some("txt".to_string()), stem: Some("notes".to_string()), contents: Some(b"[Desktop Entry]\nName=Alpha\nExec=a\n".to_vec()) },
    ];
    let apps = get_all_apps(&files, "hicolor");
    let names: Vec<&str> = apps.iter().map(|a| a.name.as_str()).collect();
    assert_eq!(names, vec!["Beta", "zeta"]);
    assert_eq!(apps[0].icon_name, "beta-icon");
    assert_eq!(apps[1].icon_name, "application-x-executable");
    assert_eq!(apps[1].command, "z");
    assert_eq!(apps[1].categories, vec!["Office", "Text"]);
}

#[test]
fn icon_index_maps_class_stem_and_name() {
    let files = vec![
        file("/a", "org.mozilla.firefox", "[Desktop Entry]\nName=Firefox Web\nIcon=firefox\nStartupWMClass=Navigator\nNoDisplay=true\n"),
        file("/a", "noicon", "[Desktop Entry]\nName=NoIcon\n"),
    ];
    let index = build_icon_index(&files);
    assert_eq!(index.get("Navigator").as_deref(), Some("firefox"));
    assert_eq!(index.get("navigator").as_deref(), Some("firefox"));
    assert_eq!(index.get("org.mozilla.firefox").as_deref(), Some("firefox"));
    assert_eq!(index.get("firefox web").as_deref(), Some("firefox"));
    assert!(index.get("NoIcon").is_none());
}

#[test]
fn icon_index_later_insert_wins() {
    let mut index = IconIndex::new();
    index.insert("k", "one");
    index.insert("k", "two");
    assert_eq!(index.get("k").as_deref(), Some("two"));
    assert!(index.get("K").is_none());
}

#[test]
fn candidates_mapped_first_then_class() {
    let mut index = IconIndex::new();
    index.insert("navigator", "firefox");
    let c = icon_candidates(&index, "Navigator");
    assert_eq!(c, vec!["firefox", "Navigator", "navigator"]);
    let c = icon_candidates(&index, "term");
    assert_eq!(c, vec!["term"]);
    let c = icon_candidates(&IconIndex::new(), "Term");
    assert_eq!(c, vec!["Term", "term"]);
}

#[test]
fn usable_formats_are_vector_and_png() {
    assert!(is_usable_format(IconFormat::Svg));
    assert!(is_usable_format(IconFormat::Png));
    assert!(!is_usable_format(IconFormat::Xpm));
}

#[test]
fn absolute_existing_icon_path_is_kept() {
    assert_eq!(find_in_theme("/", "hicolor").as_deref(), Some("/"));
}

#[test]
fn sort_is_stable_for_equal_lowercase_names() {
    let files = vec![
        file("/a", "x", "[Desktop Entry]\nName=beta\nExec=x\n"),
        file("/a", "y", "[Desktop Entry]\nName=Beta\nExec=y\n"),
        file("/a", "z", "[Desktop Entry]\nName=alpha\nExec=z\n"),
    ];
    let apps = get_all_apps(&files, "hicolor");
    let cmds: Vec<&str> = apps.iter().map(|a| a.command.as_str()).collect();
    assert_eq!(cmds, vec!["z", "x", "y"]);
}

#[test]
fn unparsable_or_unread_files_are_skipped() {
    let mut unread = file("/a", "u", "");
    unread.contents = None;
    let files = vec![
        unread,
        file("/a", "bad", "[Desktop Entry\nName=Bad\nExec=bad\n"),
        file("/a", "ok", "[Desktop Entry]\nExec=ok\n"),
    ];
    let apps = get_all_apps(&files, "hicolor");
    assert_eq!(apps.len(), 1);
    assert_eq!(apps[0].name, "Unknown");
}

#[test]
fn themed_pick_order() {
    let svg = |p: &str| Some(ThemedIcon { path: p.to_string(), format: IconFormat::Svg });
    let hit = Some("/abs.png".to_string());
    assert_eq!(pick_themed_icon(hit.clone(), svg("/t.svg"), svg("/f.svg")), hit);
    assert_eq!(pick_themed_icon(None, svg("/t.svg"), svg("/f.svg")).as_deref(), Some("/t.svg"));
    assert_eq!(pick_themed_icon(None, None, svg("/f.svg")).as_deref(), Some("/f.svg"));
    assert_eq!(pick_themed_icon(None, None, None), None);
}

#[test]
fn first_found_takes_first_path() {
    let found = vec![None, Some("/b".to_string()), Some("/c".to_string())];
    assert_eq!(first_found(&found).as_deref(), Some("/b"));
    assert_eq!(first_found(&vec![None, None]), None);
    assert_eq!(first_found(&Vec::new()), None);
}

#[test]
fn lookup_icon_finds_absolute_mapped_icon() {
    let mut index = IconIndex::new();
    index.insert("Root", "/");
    assert_eq!(lookup_icon(&index, "hicolor", "Root").as_deref(), Some("/"));
}
