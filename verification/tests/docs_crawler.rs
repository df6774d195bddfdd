use exercises::docs_crawler::{
    base64_encode, extract_all_links, has_image_ext, has_image_suffix, image_mime, is_image_response, mentions_image,
    normalize_path, resolve_link, vision_text_name, CrawlState,
};

fn strings(v: &[&str]) -> Vec<String> {
    v.iter().map(|s| s.to_string()).collect()
}

#[test]
fn extract_markdown_links_skips_external_and_anchors() {
    let text = "See [a](foo.md) and [b](http://x.pl) [c](#sec) [d](mailto:a@b) [e]( bar.md#frag ) [f](https://y)";
    assert_eq!(extract_all_links(text), strings(&["foo.md", "bar.md"]));
}

#[test]
fn extract_links_with_nested_parentheses() {
    assert_eq!(extract_all_links("[x](dir/x(y)z.md) tail"), strings(&["dir/x(y)z.md"]));
}

#[test]
fn extract_unclosed_link_takes_rest_of_text() {
    assert_eq!(extract_all_links("[a](abc.md"), strings(&["abc.md"]));
    assert_eq!(extract_all_links("[a](abc(d.md"), strings(&["abc(d.md"]));
}

#[test]
fn extract_skips_empty_and_fragment_only_targets() {
    assert_eq!(extract_all_links("[a]() [b](   ) [c](x#) [d](#)"), strings(&["x"]));
}

#[test]
fn extract_include_directives_after_links() {
    let text = "[include file=\" inc.md \"] [a](b.md) [include file=\"c.png\"] [include file=\"  \"] [include file=\"open";
    assert_eq!(extract_all_links(text), strings(&["b.md", "inc.md", "c.png"]));
}

#[test]
fn extract_no_links() {
    assert_eq!(extract_all_links(""), Vec::<String>::new());
    assert_eq!(extract_all_links("plain ] ( text"), Vec::<String>::new());
}

#[test]
fn normalize_path_matches_std_steps() {
    for p in [" ./a/./b ", "//x", "../x", "/./y", "a.md", "", ".//z", "./"] {
        let expected = p.trim().replace("./", "").trim_start_matches('/').to_string();
        assert_eq!(normalize_path(p), expected, "path {p:?}");
    }
    assert_eq!(normalize_path("../x"), ".x");
}

#[test]
fn resolve_link_relative_to_directory() {
    assert_eq!(resolve_link("dir/sub/a.md", "./b.md"), "dir/sub/b.md");
    assert_eq!(resolve_link("a.md", "/b.md"), "b.md");
    assert_eq!(resolve_link("dir/a.md", "c/d.md"), "dir/c/d.md");
    assert_eq!(resolve_link("/a.md", "b.md"), "b.md");
}

#[test]
fn image_extensions_ignore_case() {
    assert!(has_image_ext("X.PNG"));
    assert!(has_image_ext("dir/photo.JpEg"));
    assert!(has_image_ext("a.webp"));
    assert!(!has_image_ext("a.md"));
    assert!(!has_image_ext("png"));
    assert!(has_image_suffix("a.gif"));
    assert!(!has_image_suffix("a.GIF"));
}

#[test]
fn image_mime_is_case_sensitive() {
    assert_eq!(image_mime("a.png"), "image/png");
    assert_eq!(image_mime("a.PNG"), "image/jpeg");
    assert_eq!(image_mime("a.jpg"), "image/jpeg");
}

#[test]
fn base64_known_values() {
    assert_eq!(base64_encode(b""), "");
    assert_eq!(base64_encode(b"M"), "TQ==");
    assert_eq!(base64_encode(b"Ma"), "TWE=");
    assert_eq!(base64_encode(b"Man"), "TWFu");
    assert_eq!(base64_encode(&[0xff, 0xfe, 0xfd, 0x00]), "//79AA==");
}

#[test]
fn law_base64_length_on_values() {
    for n in 0..10usize {
        let data: Vec<u8> = (0..n as u8).collect();
        assert_eq!(base64_encode(&data).len(), 4 * ((n + 2) / 3));
    }
}

#[test]
fn crawl_visits_each_document_once() {
    let mut state = CrawlState::new();
    assert_eq!(state.queue, strings(&["index.md"]));
    assert_eq!(state.next_target(), Some("index.md".to_string()));
    state.enqueue_links("index.md", "[a](a.md) [self](index.md) [b](./b.md)");
    assert_eq!(state.queue, strings(&["a.md", "b.md"]));
    assert_eq!(state.next_target(), Some("b.md".to_string()));
    state.enqueue_links("b.md", "[a](a.md)");
    assert_eq!(state.next_target(), Some("a.md".to_string()));
    assert_eq!(state.next_target(), None);
    assert_eq!(state.visited, strings(&["index.md", "b.md", "a.md"]));
}

#[test]
fn crawl_skips_empty_paths() {
    let mut state = CrawlState { visited: Vec::new(), queue: strings(&["  ", "./"]) };
    assert_eq!(state.next_target(), None);
    assert!(state.queue.is_empty());
}

#[test]
fn image_responses() {
    assert!(is_image_response("IMAGE/PNG", "a.md"));
    assert!(is_image_response("text/plain", "a.Png"));
    assert!(!is_image_response("text/markdown; charset=utf-8", "a.md"));
    assert!(mentions_image("image/jpeg"));
    assert!(!mentions_image("Image/jpeg"));
    assert_eq!(vision_text_name("dir/trasy.png"), "dir/trasy.png.vision.txt");
}

#[test]
fn law_links_nonempty_on_values() {
    let text = "[a]( ) [b](#x) [c](y#) [include file=\"\"] [include file=\" z \"] [d](()) ";
    let links = extract_all_links(text);
    assert!(links.iter().all(|l| !l.is_empty()));
    assert_eq!(links, strings(&["y", "()", "z"]));
}
