use instance_sync::safe_path::{join, path_leads_into, SafePath};

fn normal_form(name: &str) -> Option<String> {
    SafePath::new(name).map(|p| p.as_str().to_string())
}

#[test]
fn plain_names_are_kept() {
    assert_eq!(normal_form("saves"), Some("saves".to_string()));
    assert_eq!(normal_form(".voxy"), Some(".voxy".to_string()));
    assert_eq!(normal_form("config/sub/file.toml"), Some("config/sub/file.toml".to_string()));
}

#[test]
fn empty_and_dot_parts_are_dropped() {
    assert_eq!(normal_form("a//b"), Some("a/b".to_string()));
    assert_eq!(normal_form("a/./b/"), Some("a/b".to_string()));
    assert_eq!(normal_form("./saves"), Some("saves".to_string()));
    assert_eq!(normal_form("saves/."), Some("saves".to_string()));
}

#[test]
fn names_that_name_nothing_are_rejected() {
    assert_eq!(normal_form(""), None);
    assert_eq!(normal_form("."), None);
    assert_eq!(normal_form("./"), None);
    assert_eq!(normal_form("././/"), None);
}

#[test]
fn parent_markers_are_rejected() {
    assert_eq!(normal_form(".."), None);
    assert_eq!(normal_form("../saves"), None);
    assert_eq!(normal_form("saves/.."), None);
    assert_eq!(normal_form("a/../b"), None);
    assert_eq!(normal_form("a..b"), None);
    assert_eq!(normal_form("..."), None);
}

#[test]
fn absolute_prefixes_are_rejected() {
    assert_eq!(normal_form("/etc/passwd"), None);
    assert_eq!(normal_form("/"), None);
    assert_eq!(normal_form("C:\\Users"), None);
    assert_eq!(normal_form("C:/Users"), None);
    assert_eq!(normal_form("\\\\server\\share"), None);
}

#[test]
fn other_markers_are_rejected() {
    assert_eq!(normal_form("a\\b"), None);
    assert_eq!(normal_form("a:b"), None);
    assert_eq!(normal_form("a\0b"), None);
}

#[test]
fn single_dots_inside_names_are_fine() {
    assert_eq!(normal_form("options.txt"), Some("options.txt".to_string()));
    assert_eq!(normal_form("a.b/c.d"), Some("a.b/c.d".to_string()));
}

#[test]
fn non_ascii_names_are_kept() {
    assert_eq!(normal_form("welt/ä/ö"), Some("welt/ä/ö".to_string()));
}

#[test]
fn to_path_puts_the_name_below_the_base() {
    let path = SafePath::new("saves//world").unwrap();
    assert_eq!(path.to_path("/inst/.minecraft"), "/inst/.minecraft/saves/world");
    assert_eq!(path.to_path(""), "saves/world");
    assert_eq!(path.to_path("rel"), "rel/saves/world");
}

#[test]
fn duplicate_keeps_the_text() {
    let path = SafePath::new("config").unwrap();
    assert_eq!(path.duplicate().as_str(), "config");
}

#[test]
fn join_adds_one_slash() {
    assert_eq!(join("/a", "b"), "/a/b");
    assert_eq!(join("", "b"), "b");
    assert_eq!(join("/a/", "b"), "/a//b");
}

#[test]
fn leads_into_goes_by_whole_parts() {
    assert!(path_leads_into("/store", "/store"));
    assert!(path_leads_into("/store/saves", "/store"));
    assert!(path_leads_into("/store/saves", "/store/"));
    assert!(!path_leads_into("/storeroom/saves", "/store"));
    assert!(!path_leads_into("/stor", "/store"));
    assert!(!path_leads_into("/other/store/saves", "/store"));
    assert!(!path_leads_into("anything", ""));
    assert!(!path_leads_into("/anything", ""));
    assert!(!path_leads_into("", ""));
}
