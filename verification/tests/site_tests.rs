use fink_site::site::{
    all_current, dep_report, extract_field, extract_tag_name, github_repo_from_git_url, github_repo_from_url, meta_get,
    output_path, page_fields, parse_asset_deps, parse_frontmatter, parse_git_deps, replace_all, root_prefix, skipped_line,
};

fn s(x: &str) -> String {
    x.to_string()
}

fn pairs(v: &[(&str, &str)]) -> Vec<(String, String)> {
    v.iter().map(|(a, b)| (s(a), s(b))).collect()
}

#[test]
fn frontmatter_pairs_and_body() {
    let (meta, body) = parse_frontmatter("---\ntitle: Hello\ntemplate: doc\n---\nBody\n");
    assert_eq!(meta, pairs(&[("title", "Hello"), ("template", "doc")]));
    assert_eq!(body, "Body\n");
}

#[test]
fn frontmatter_lines_are_trimmed_and_need_a_separator() {
    let (meta, body) = parse_frontmatter("---\nfoo\n key :  spaced value  \nurl: a: b\r\n---\n# T\n");
    assert_eq!(meta, pairs(&[("key", "spaced value"), ("url", "a: b")]));
    assert_eq!(body, "# T\n");
}

#[test]
fn source_without_frontmatter_is_all_body() {
    let src = "# Just a page\n";
    let (meta, body) = parse_frontmatter(src);
    assert!(meta.is_empty());
    assert_eq!(body, src);
}

#[test]
fn unclosed_frontmatter_is_all_body() {
    let src = "---\ntitle: x\n";
    let (meta, body) = parse_frontmatter(src);
    assert!(meta.is_empty());
    assert_eq!(body, src);
}

#[test]
fn empty_frontmatter_block() {
    let (meta, body) = parse_frontmatter("---\n\n---\nrest");
    assert!(meta.is_empty());
    assert_eq!(body, "rest");
}

#[test]
fn later_key_wins() {
    let (meta, _) = parse_frontmatter("---\ntitle: One\ntitle: Two\n---\n");
    assert_eq!(meta_get(&meta, "title"), Some(s("Two")));
    assert_eq!(meta_get(&meta, "missing"), None);
}

#[test]
fn output_paths() {
    let none: Vec<String> = vec![];
    assert_eq!(output_path(&none, "index"), vec![s("index.html")]);
    assert_eq!(output_path(&none, "404"), vec![s("404.html")]);
    assert_eq!(output_path(&none, "foo"), vec![s("foo"), s("index.html")]);
    let docs = vec![s("docs")];
    assert_eq!(output_path(&docs, "bar"), vec![s("docs"), s("bar"), s("index.html")]);
    assert_eq!(output_path(&docs, "index"), vec![s("docs"), s("index.html")]);
}

#[test]
fn root_prefixes() {
    assert_eq!(root_prefix(0), "./");
    assert_eq!(root_prefix(1), "../");
    assert_eq!(root_prefix(3), "../../../");
}

#[test]
fn repo_of_release_urls() {
    assert_eq!(
        github_repo_from_url("https://github.com/fink-lang/playground/releases/download/v0.1.0/playground.tar.gz"),
        Some(s("fink-lang/playground"))
    );
    assert_eq!(github_repo_from_url("https://github.com/o/r/releases"), Some(s("o/r")));
    assert_eq!(github_repo_from_url("https://github.com/o/r/archive/x.tgz"), None);
    assert_eq!(github_repo_from_url("https://github.com/o/r"), None);
    assert_eq!(github_repo_from_url("http://example.com/o/r/releases/x"), None);
}

#[test]
fn repo_of_git_urls() {
    assert_eq!(github_repo_from_git_url("https://github.com/owner/repo.git"), Some(s("owner/repo")));
    assert_eq!(github_repo_from_git_url("https://github.com/owner/repo"), Some(s("owner/repo")));
    assert_eq!(github_repo_from_git_url("https://github.com/a/b/c.git"), Some(s("a/b")));
    assert_eq!(github_repo_from_git_url("https://github.com/owner"), None);
    assert_eq!(github_repo_from_git_url("git@github.com:a/b.git"), None);
}

#[test]
fn fields_of_inline_tables() {
    let v = "{ git = \"https://github.com/o/r.git\", tag = \"v1.0.0\" }";
    assert_eq!(extract_field(v, "tag"), Some(s("v1.0.0")));
    assert_eq!(extract_field(v, "git"), Some(s("https://github.com/o/r.git")));
    assert_eq!(extract_field(v, "branch"), None);
    assert_eq!(extract_field("{ tag = \"v1", "tag"), None);
    assert_eq!(extract_field("{ tag=\"v1\" }", "tag"), None);
}

#[test]
fn tag_name_of_release_json() {
    assert_eq!(extract_tag_name("{\"url\": \"x\", \"tag_name\": \"v1.2.3\", \"name\": \"y\"}"), Some(s("v1.2.3")));
    assert_eq!(extract_tag_name("{\"tag_name\":\"v2\"}"), Some(s("v2")));
    assert_eq!(extract_tag_name("{\"name\": \"y\"}"), None);
    assert_eq!(extract_tag_name("{\"tag_name\": \"v3"), None);
}

#[test]
fn asset_dependencies() {
    let toml = "[package]\nname = \"fink-site\"\n\n\
        [package.metadata.assets.playground]\n\
        url = \"https://github.com/fink-lang/playground/releases/download/{version}/playground.tar.gz\"\n\
        version = \"v0.3.0\"\n\
        dest = \".deps/playground\"\n\n\
        [package.metadata.assets.brand]\n\
        url = \"https://x/{version}.tgz\"\n\
        version = \"v1\"\n\n\
        [package.metadata.assets.docs]\n\
        url=\"u\"\n  version = v  \ndest = \"d\"\nother = \"z\"\n";
    let deps = parse_asset_deps(toml);
    let got: Vec<(String, String, String, String)> =
        deps.into_iter().map(|d| (d.name, d.url, d.version, d.dest)).collect();
    assert_eq!(
        got,
        vec![
            (
                s("playground"),
                s("https://github.com/fink-lang/playground/releases/download/{version}/playground.tar.gz"),
                s("v0.3.0"),
                s(".deps/playground")
            ),
            (s("docs"), s("u"), s("v"), s("d")),
        ]
    );
}

#[test]
fn no_asset_dependencies() {
    assert!(parse_asset_deps("[package]\nname = \"x\"\n").is_empty());
    assert!(parse_asset_deps("").is_empty());
}

#[test]
fn git_dependencies() {
    let toml = "[dependencies]\n\
        fink = { git = \"https://github.com/fink-lang/fink.git\", tag = \"v0.5.0\" }\n\
        serde = \"1\"\n\
        x = { git = \"https://gitlab.com/a/b.git\", tag = \"v1\" }\n\
        y = { git = \"https://github.com/a/b.git\", branch = \"main\" }\n";
    assert_eq!(parse_git_deps(toml), vec![(s("fink"), s("fink-lang/fink"), s("v0.5.0"))]);
}

#[test]
fn version_placeholders_are_replaced() {
    assert_eq!(replace_all("{version}/x/{version}.tgz", "{version}", "v1"), "v1/x/v1.tgz");
    assert_eq!(replace_all("none here", "{version}", "v1"), "none here");
    assert_eq!(replace_all("aaa", "aa", "b"), "ba");
}

#[test]
fn dependency_report_lines() {
    assert_eq!(dep_report("fink", "v1", &Some(s("v1"))), (s("  fink v1 \u{2713}"), false));
    assert_eq!(dep_report("fink", "v1", &Some(s("v2"))), (s("  fink v1 \u{2192} v2 available"), true));
    assert_eq!(dep_report("fink", "v1", &None), (s("  fink v1 (failed to query GitHub API)"), false));
    assert_eq!(skipped_line("brand", "v1"), "  brand v1 (skipped \u{2014} not a GitHub release URL)");
}

#[test]
fn all_dependencies_current() {
    assert!(all_current(&vec![false, false], Some(true)));
    assert!(all_current(&vec![], None));
    assert!(!all_current(&vec![false, true], Some(true)));
    assert!(!all_current(&vec![false], Some(false)));
}

#[test]
fn fields_of_a_page() {
    let (fm, _) =
        parse_frontmatter("---\ntitle: One\nlang: en\ntitle: Two\nfragment: f.html\nauthor: me\n---\nx");
    let f = page_fields(&fm);
    assert_eq!(f.title, Some(s("Two")));
    assert_eq!(f.template, "page");
    assert_eq!(f.fragment, Some(s("f.html")));
    assert_eq!(f.asset_dir, None);
    assert_eq!(f.meta, pairs(&[("lang", "en"), ("author", "me")]));
    let (pairs2, _) = parse_frontmatter("---\ntemplate: doc\nasset_dir: play\n---\n");
    let g = page_fields(&pairs2);
    assert_eq!(g.template, "doc");
    assert_eq!(g.asset_dir, Some(s("play")));
    assert!(g.meta.is_empty());
}
