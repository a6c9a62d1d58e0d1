use mkwebfont::bloom::FilterParams;
use mkwebfont::download_cache::DownloadInfo;
use mkwebfont::hashing::hash_full;
use mkwebfont::paths::{get_relative_from, get_relative_fragment, is_child_of, path_to_string, request_path};

#[test]
fn paths_use_forward_slashes() {
    assert_eq!(path_to_string("a\\b\\c.css"), "a/b/c.css");
    assert_eq!(path_to_string("/x/y"), "/x/y");
}

#[test]
fn relative_fragment_of_child() {
    assert_eq!(get_relative_fragment("/web/root", "/web/root/css/a.css").ok().unwrap(), "/css/a.css");
    assert_eq!(get_relative_fragment("/a", "/a").ok().unwrap(), "");
}

#[test]
fn relative_fragment_outside_parent() {
    let e = get_relative_fragment("/web/root", "/other/a.css").err().unwrap();
    assert_eq!(e.parent, "/web/root");
    assert_eq!(e.child, "/other/a.css");
}

#[test]
fn download_names_from_url() {
    let data = b"payload".to_vec();
    let info = DownloadInfo::for_data("https://example.com/files/data.tar.zst", &data);
    assert_eq!(info.filename_prefix(), "data.tar");
    assert_eq!(info.filename_suffix(), ".zst");
    assert_eq!(info.url(), "https://example.com/files/data.tar.zst");
    assert_eq!(info.size(), 7);
    assert_eq!(info.cache_file_name(), format!("data.tar.{}.zst", hash_full(&data)));
    assert!(info.accepts(&data));
    assert!(!info.accepts(b"payloaX"));
    assert!(!info.accepts(b"short"));
}

#[test]
fn download_without_extension() {
    let info = DownloadInfo::for_data("plainname", b"");
    assert_eq!(info.filename_prefix(), "plainname");
    assert_eq!(info.filename_suffix(), ".dat");
}

#[test]
fn download_from_parts() {
    assert!(DownloadInfo::from_parts("a".into(), ".b".into(), "u".into(), 1, vec![0; 31]).is_none());
    let d = DownloadInfo::from_parts("a".into(), ".b".into(), "u".into(), 1, vec![7; 32]).unwrap();
    assert_eq!(d.hash(), &[7u8; 32][..]);
    assert_eq!(d.size(), 1);
}

#[test]
fn bloom_probes_stay_in_table() {
    let p = FilterParams::new("adjacency", 1024, 5);
    let probes = p.do_hash((0x41, 0x42));
    assert_eq!(probes.len(), 5);
    assert!(probes.iter().all(|&i| i < 1024));
    let again = FilterParams::new("adjacency", 1024, 5).do_hash((0x41, 0x42));
    assert_eq!(probes, again);
}

#[test]
fn bloom_seeds_depend_on_name() {
    let a = FilterParams::new("a", 16, 1);
    let b = FilterParams::new("b", 16, 1);
    assert_ne!((a.seed_a, a.seed_b), (b.seed_a, b.seed_b));
    assert_ne!(a.seed_a, a.seed_b);
    assert_eq!(a.mask, 15);
}

fn comps(v: &[&str]) -> Vec<String> {
    v.iter().map(|s| s.to_string()).collect()
}

#[test]
fn relative_path_from_parent_of_root() {
    assert_eq!(get_relative_from(&comps(&["a", "b"]), &comps(&["a", "b", "c"])).ok().unwrap(), "/b/c");
    assert_eq!(get_relative_from(&comps(&["a", "b"]), &comps(&["x", "y"])).ok().unwrap(), "../x/y");
    assert_eq!(get_relative_from(&comps(&["a"]), &comps(&["a", "z"])).ok().unwrap(), "a/z");
    assert_eq!(get_relative_from(&comps(&["a", "b", "c"]), &comps(&["a", "q"])).ok().unwrap(), "..//q");
}

#[test]
fn filesystem_root_has_no_parent() {
    let e = get_relative_from(&comps(&[]), &comps(&["a"])).err().unwrap();
    assert_eq!(e.root, "/");
    assert_eq!(e.target, "/a");
}

#[test]
fn request_path_from_webroot() {
    assert_eq!(request_path("/css/site.css?v=3", true), (true, "css/site.css".to_string()));
    assert_eq!(request_path("///fonts/a.woff2", true), (true, "fonts/a.woff2".to_string()));
    assert_eq!(request_path("img/x.png", false), (true, "img/x.png".to_string()));
}

#[test]
fn request_path_from_page_directory() {
    assert_eq!(request_path("img/x.png?a?b", true), (false, "img/x.png".to_string()));
    assert_eq!(request_path("../up.css", true), (false, "../up.css".to_string()));
    assert_eq!(request_path("?only", true), (false, String::new()));
}

#[test]
fn child_paths_by_component() {
    assert!(is_child_of(&comps(&["srv", "www"]), &comps(&["srv", "www", "index.html"])));
    assert!(is_child_of(&comps(&["srv", "www"]), &comps(&["srv", "www"])));
    assert!(!is_child_of(&comps(&["srv", "www"]), &comps(&["srv", "www2", "a"])));
    assert!(!is_child_of(&comps(&["srv", "www"]), &comps(&["srv"])));
    assert!(is_child_of(&comps(&[]), &comps(&["etc"])));
}
