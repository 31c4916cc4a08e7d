use instance_sync::options::{
    create_options_txt, merge_options, read_options_txt, sort_by_stamp, Options, OptionsCopy,
};

fn pairs(options: &Options) -> Vec<(String, String)> {
    (0..options.len())
        .map(|i| (options.entry(i).key.clone(), options.entry(i).value.clone()))
        .collect()
}

fn pair(key: &str, value: &str) -> (String, String) {
    (key.to_string(), value.to_string())
}

fn copy(path: &str, stamp: u128, content: Option<&str>) -> OptionsCopy {
    OptionsCopy { path: path.to_string(), stamp, content: content.map(|c| c.to_string()) }
}

#[test]
fn lines_are_split_at_the_first_colon() {
    let options = Options::parse("fov:0.5\nkey_key.jump:key.keyboard.space\nlang:en:us");
    assert_eq!(
        pairs(&options),
        vec![pair("fov", "0.5"), pair("key_key.jump", "key.keyboard.space"), pair("lang", "en:us")]
    );
}

#[test]
fn lines_without_a_colon_are_passed_over() {
    let options = Options::parse("version\n\nfov:1\n   \nno colon here\n");
    assert_eq!(pairs(&options), vec![pair("fov", "1")]);
}

#[test]
fn whitespace_around_a_line_is_trimmed() {
    let options = Options::parse("  a:1 \r\n\tb: 2\t\r\n\x0Cc :3\x0C");
    assert_eq!(pairs(&options), vec![pair("a", "1"), pair("b", " 2"), pair("c ", "3")]);
}

#[test]
fn a_later_line_overwrites_in_place() {
    let options = Options::parse("a:1\nb:2\na:3");
    assert_eq!(pairs(&options), vec![pair("a", "3"), pair("b", "2")]);
}

#[test]
fn empty_key_and_value_are_allowed() {
    let options = Options::parse(":\nk:");
    assert_eq!(pairs(&options), vec![pair("", ""), pair("k", "")]);
}

#[test]
fn an_unreadable_file_holds_nothing() {
    assert_eq!(read_options_txt(None).len(), 0);
    assert_eq!(read_options_txt(Some("")).len(), 0);
    assert_eq!(read_options_txt(Some("a:b")).len(), 1);
}

#[test]
fn rendering_writes_one_line_per_entry() {
    let options = Options::parse("b:2\na:1");
    assert_eq!(create_options_txt(&options), "b:2\na:1\n");
    assert_eq!(create_options_txt(&Options::new()), "");
}

#[test]
fn get_insert_and_remove() {
    let mut options = Options::new();
    options.insert("a".to_string(), "1".to_string());
    options.insert("b".to_string(), "2".to_string());
    options.insert("a".to_string(), "3".to_string());
    assert_eq!(options.get("a").map(|v| v.as_str()), Some("3"));
    assert_eq!(options.get("c"), None);
    options.remove("a");
    options.remove("zzz");
    assert_eq!(pairs(&options), vec![pair("b", "2")]);
}

#[test]
fn sorting_is_by_stamp_and_keeps_ties_in_order() {
    let copies = vec![
        copy("c", 5, None),
        copy("a", 1, None),
        copy("d", 5, None),
        copy("b", 1, None),
        copy("e", 0, None),
    ];
    let sorted = sort_by_stamp(&copies);
    let order: Vec<&str> = sorted.iter().map(|c| c.path.as_str()).collect();
    assert_eq!(order, vec!["e", "a", "b", "c", "d"]);
}

#[test]
fn merge_three_instances_newest_is_current() {
    let copies = vec![
        copy("/i/new/options.txt", 30, Some("a:3\nresourcePacks:x")),
        copy("/i/old/options.txt", 10, Some("a:1")),
        copy("/i/mid/options.txt", 20, Some("a:2\nb:1")),
    ];
    let merged = merge_options(None, "/i/new/options.txt", Some(&copies));
    assert_eq!(merged.len(), 3);
    assert_eq!(merged.get("a").map(|v| v.as_str()), Some("3"));
    assert_eq!(merged.get("b").map(|v| v.as_str()), Some("1"));
    assert_eq!(merged.get("resourcePacks").map(|v| v.as_str()), Some("x"));
    assert_eq!(create_options_txt(&merged), "a:3\nb:1\nresourcePacks:x\n");
}

#[test]
fn merge_three_instances_newest_is_not_current() {
    let copies = vec![
        copy("/i/old/options.txt", 10, Some("a:1")),
        copy("/i/mid/options.txt", 20, Some("a:2\nb:1")),
        copy("/i/new/options.txt", 30, Some("a:3\nresourcePacks:x\nincompatibleResourcePacks:y")),
    ];
    let merged = merge_options(None, "/i/mid/options.txt", Some(&copies));
    assert_eq!(merged.get("a").map(|v| v.as_str()), Some("3"));
    assert_eq!(merged.get("b").map(|v| v.as_str()), Some("1"));
    assert_eq!(merged.get("resourcePacks"), None);
    assert_eq!(merged.get("incompatibleResourcePacks"), None);
    assert_eq!(merged.len(), 2);
}

#[test]
fn merge_keeps_resource_packs_of_the_baseline() {
    let copies = vec![copy("/i/other/options.txt", 10, Some("resourcePacks:theirs\na:1"))];
    let merged =
        merge_options(Some("resourcePacks:base\nz:9"), "/i/me/options.txt", Some(&copies));
    assert_eq!(merged.get("resourcePacks").map(|v| v.as_str()), Some("base"));
    assert_eq!(create_options_txt(&merged), "resourcePacks:base\nz:9\na:1\n");
}

#[test]
fn merge_without_a_listing_is_the_baseline() {
    let merged = merge_options(Some("a:1\nb:2"), "/i/me/options.txt", None);
    assert_eq!(create_options_txt(&merged), "a:1\nb:2\n");
    let nothing = merge_options(None, "/i/me/options.txt", None);
    assert_eq!(create_options_txt(&nothing), "");
}

#[test]
fn merge_counts_a_missing_copy_as_oldest() {
    let copies = vec![
        copy("/i/a/options.txt", 7, Some("k:a")),
        copy("/i/missing/options.txt", 0, None),
        copy("/i/b/options.txt", 7, Some("k:b")),
    ];
    let merged = merge_options(None, "/i/a/options.txt", Some(&copies));
    assert_eq!(merged.get("k").map(|v| v.as_str()), Some("b"));
}
