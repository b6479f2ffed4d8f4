use reinda::{
    AssetDef, Builder, EmbeddedFile, ModifierContext, PathToIdMap, Setup, SplitGlob, Transform,
};

struct NoTransform;

impl Transform for NoTransform {
    fn transform(&self, content: Vec<u8>, _ctx: &ModifierContext) -> Vec<u8> {
        content
    }
}

fn def(path: &str) -> AssetDef {
    AssetDef {
        path: path.to_string(),
        serve: true,
        dynamic: false,
        hash: false,
        template: false,
        append: None,
        prepend: None,
    }
}

#[test]
fn split_glob_at_first_wildcard() {
    let g = SplitGlob::new("assets/img/*.png");
    assert_eq!(g.prefix, "assets/img/");
    assert_eq!(g.rest, "*.png");
    let g2 = SplitGlob::new("a?c");
    assert_eq!(g2.prefix, "a");
    assert_eq!(g2.rest, "?c");
    let g3 = SplitGlob::new("ab[cd]");
    assert_eq!(g3.prefix, "ab");
    assert_eq!(g3.rest, "[cd]");
}

#[test]
fn split_glob_without_wildcard_is_all_prefix() {
    let g = SplitGlob::new("plain/path.txt");
    assert_eq!(g.prefix, "plain/path.txt");
    assert_eq!(g.rest, "");
}

#[test]
fn render_hex_of_known_values() {
    assert_eq!(reinda::render_hex64(0), "0000000000000000");
    assert_eq!(reinda::render_hex64(u64::MAX), "ffffffffffffffff");
    assert_eq!(reinda::render_hex64(0x0123456789abcdef), "0123456789abcdef");
}

#[test]
fn digest_of_empty_input_is_offset_basis() {
    assert_eq!(reinda::compute_digest(&Vec::new()), 0xcbf2_9ce4_8422_2325);
    assert_eq!(reinda::compute_hash_segment(&Vec::new()), "cbf29ce484222325");
}

#[test]
fn substitution_is_leftmost_and_non_overlapping() {
    let out = reinda::substitute(&b"aaa".to_vec(), &b"aa".to_vec(), &b"b".to_vec());
    assert_eq!(out, b"ba");
    let out2 = reinda::substitute(&b"x.y x.y".to_vec(), &b"x.y".to_vec(), &b"z".to_vec());
    assert_eq!(out2, b"z z");
    let out3 = reinda::substitute(&b"abc".to_vec(), &b"".to_vec(), &b"q".to_vec());
    assert_eq!(out3, b"abc");
}

#[test]
fn auto_hash_without_extension_appends_segment() {
    let mut b: Builder<NoTransform> = Builder::new();
    let f = EmbeddedFile { path: "LICENSE".to_string(), content: b"abc".to_vec() };
    let i = b.add_embedded_file("LICENSE", &f);
    b.assets[i].with_hash();
    let a = b.build(&reinda::FileStore::new()).expect("build failed");
    assert_eq!(a.get("LICENSE.e71fa2190541574b").unwrap(), b"abc");
}

#[test]
fn auto_hash_ignores_dots_in_directories() {
    let mut b: Builder<NoTransform> = Builder::new();
    let f = EmbeddedFile { path: "v1.2/app".to_string(), content: b"abc".to_vec() };
    let i = b.add_embedded_file("v1.2/app", &f);
    b.assets[i].with_hash();
    let a = b.build(&reinda::FileStore::new()).expect("build failed");
    // the dot before the extensionless last segment is not an insertion point
    assert_eq!(a.get("v1.2/app.e71fa2190541574b").unwrap(), b"abc");
}

#[test]
fn entry_paths_are_reported() {
    let mut b: Builder<NoTransform> = Builder::new();
    let f = EmbeddedFile { path: "a.txt".to_string(), content: b"a".to_vec() };
    let i = b.add_embedded_file("a.txt", &f);
    assert_eq!(b.assets[i].http_paths(), vec!["a.txt".to_string()]);
    assert_eq!(b.assets[i].single_http_path(), Some("a.txt".to_string()));
    let glob = reinda::EmbeddedGlob {
        pattern: "d/*".to_string(),
        files: vec![
            EmbeddedFile { path: "d/x".to_string(), content: b"x".to_vec() },
            EmbeddedFile { path: "d/y".to_string(), content: b"y".to_vec() },
        ],
    };
    let j = b.add_embedded_glob("/d/", &glob);
    assert_eq!(b.assets[j].http_paths(), vec!["/d/x".to_string(), "/d/y".to_string()]);
    assert_eq!(b.assets[j].single_http_path(), None);
}

#[test]
fn setup_lookup_by_path() {
    let setup = Setup {
        assets: vec![def("index.html"), def("style.css")],
        path_map: PathToIdMap(vec!["index.html".to_string(), "style.css".to_string()]),
        base_path: "assets".to_string(),
    };
    let id = setup.path_to_id("style.css").expect("missing id");
    assert_eq!(id.0, 1);
    assert_eq!(setup.def(id).path, "style.css");
    assert_eq!(setup.asset_by_path("index.html").unwrap().path, "index.html");
    assert!(setup.path_to_id("missing").is_none());
    assert!(setup.asset_by_path("missing").is_none());
}

#[test]
fn modifier_context_resolves_first_match() {
    let ctx = ModifierContext {
        pairs: vec![
            ("a".to_string(), "a.1".to_string()),
            ("b".to_string(), "b.2".to_string()),
        ],
    };
    assert_eq!(ctx.resolve_path("a").unwrap(), "a.1");
    assert_eq!(ctx.resolve_path("b").unwrap(), "b.2");
    assert!(ctx.resolve_path("c").is_none());
}

#[test]
fn file_store_first_match() {
    let mut fs = reinda::FileStore::new();
    fs.add("p", b"one".to_vec());
    fs.add("q", b"two".to_vec());
    assert_eq!(fs.get("p").unwrap(), b"one");
    assert_eq!(fs.get("q").unwrap(), b"two");
    assert!(fs.get("r").is_none());
}

#[test]
fn resolve_path_joins_below_base() {
    assert_eq!(
        reinda::resolve_path("/proj", &Some("assets".to_string()), "style.css"),
        "/proj/assets/style.css"
    );
    assert_eq!(reinda::resolve_path("/proj", &None, "style.css"), "style.css");
}
