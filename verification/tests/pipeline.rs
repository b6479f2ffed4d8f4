use reinda::{
    Assets, BuildError, Builder, EmbeddedEntry, EmbeddedFile, EmbeddedGlob, FileStore,
    ModifierContext, Transform,
};

/// A transform used where no entry carries one.
struct NoTransform;

impl Transform for NoTransform {
    fn transform(&self, content: Vec<u8>, _ctx: &ModifierContext) -> Vec<u8> {
        content
    }
}

/// A transform that appends the resolved final path of one dependency.
struct EmbedDepPath(&'static str);

impl Transform for EmbedDepPath {
    fn transform(&self, content: Vec<u8>, ctx: &ModifierContext) -> Vec<u8> {
        let p = ctx.resolve_path(self.0).expect("dependency missing from context").clone();
        let mut out = content;
        out.extend_from_slice(p.as_bytes());
        out
    }
}

fn embedded(path: &str, content: &[u8]) -> EmbeddedFile {
    EmbeddedFile { path: path.to_string(), content: content.to_vec() }
}

fn get_string(a: &Assets, path: &str) -> String {
    String::from_utf8(a.get(path).expect("missing path").clone()).unwrap()
}

const H_COMMENT: &str = "3a8997ff2c745e4f"; // digest of `/* */`
const H_BUNDLE: &str = "03276282ee6dc4b1"; // digest of `var x=1;`

#[test]
fn style_auto_hash_and_fixup() {
    let mut b: Builder<NoTransform> = Builder::new();
    let style = embedded("style.css", b"/* */");
    let index = embedded("index.html", b"<link href=\"style.css\">");
    let i = b.add_embedded_file("style.css", &style);
    b.assets[i].with_hash();
    let j = b.add_embedded_file("index.html", &index);
    b.assets[j].with_path_fixup(vec!["style.css".to_string()]);
    let files = FileStore::new();
    let a = b.build(&files).expect("build failed");
    let hashed = format!("style.{}.css", H_COMMENT);
    assert_eq!(get_string(&a, &hashed), "/* */");
    assert_eq!(
        get_string(&a, "index.html"),
        format!("<link href=\"style.{}.css\">", H_COMMENT)
    );
    assert_eq!(a.resolved_path_of("style.css").unwrap(), &hashed);
}

#[test]
fn glob_expands_to_prefixed_paths() {
    let mut b: Builder<NoTransform> = Builder::new();
    let glob = EmbeddedGlob {
        pattern: "img/*.png".to_string(),
        files: vec![embedded("img/a.png", b"aa"), embedded("img/b.png", b"bb")],
    };
    b.add_embedded_glob("/static/img/", &glob);
    let files = FileStore::new();
    let a = b.build(&files).expect("build failed");
    assert_eq!(a.len(), 2);
    assert_eq!(a.get("/static/img/a.png").unwrap(), b"aa");
    assert_eq!(a.get("/static/img/b.png").unwrap(), b"bb");
}

#[test]
fn custom_modifier_sees_dependency_final_path() {
    let mut b: Builder<EmbedDepPath> = Builder::new();
    let bundle = embedded("bundle.js", b"var x=1;");
    let catalog = embedded("catalog.json", b"entry:");
    let i = b.add_embedded_file("bundle.js", &bundle);
    b.assets[i].with_hash();
    let j = b.add_embedded_file("catalog.json", &catalog);
    b.assets[j].with_modifier(vec!["bundle.js".to_string()], EmbedDepPath("bundle.js"));
    let files = FileStore::new();
    let a = b.build(&files).expect("build failed");
    assert_eq!(
        get_string(&a, "catalog.json"),
        format!("entry:bundle.{}.js", H_BUNDLE)
    );
}

#[test]
fn repeated_builds_are_identical() {
    let make = || {
        let mut b: Builder<NoTransform> = Builder::new();
        let style = embedded("style.css", b"/* */");
        let index = embedded("index.html", b"<link href=\"style.css\">");
        let i = b.add_embedded_file("style.css", &style);
        b.assets[i].with_hash();
        let j = b.add_embedded_file("index.html", &index);
        b.assets[j].with_path_fixup(vec!["style.css".to_string()]);
        b.build(&FileStore::new()).expect("build failed")
    };
    let a1 = make();
    let a2 = make();
    assert_eq!(a1.len(), a2.len());
    for i in 0..a1.len() {
        let r1 = a1.record(i);
        let r2 = a2.record(i);
        assert_eq!(r1.declared, r2.declared);
        assert_eq!(r1.path, r2.path);
        assert_eq!(r1.content, r2.content);
    }
}

#[test]
fn hash_is_pure_and_sensitive() {
    // identical content across independent builds yields identical segments
    let seg1 = reinda::compute_hash_segment(&b"abc".to_vec());
    let seg2 = reinda::compute_hash_segment(&b"abc".to_vec());
    assert_eq!(seg1, seg2);
    assert_eq!(seg1, "e71fa2190541574b");
    // changing one byte changes the segment
    let seg3 = reinda::compute_hash_segment(&b"abd".to_vec());
    assert_ne!(seg1, seg3);
    assert_eq!(seg3, "e71fa71905415fca");
}

#[test]
fn cycle_is_detected() {
    let mut b: Builder<NoTransform> = Builder::new();
    let fa = embedded("a.txt", b"see b.txt");
    let fb = embedded("b.txt", b"see a.txt");
    let i = b.add_embedded_file("a.txt", &fa);
    b.assets[i].with_path_fixup(vec!["b.txt".to_string()]);
    let j = b.add_embedded_file("b.txt", &fb);
    b.assets[j].with_path_fixup(vec!["a.txt".to_string()]);
    match b.build(&FileStore::new()) {
        Err(BuildError::CyclicDependency { cycle }) => {
            assert!(!cycle.is_empty());
            assert!(cycle.contains(&"a.txt".to_string()) || cycle.contains(&"b.txt".to_string()));
        }
        other => panic!("expected cycle error, got {:?}", other.map(|a| a.len())),
    }
}

#[test]
fn declared_path_collision_fails() {
    let mut b: Builder<NoTransform> = Builder::new();
    let f1 = embedded("one", b"1");
    let f2 = embedded("two", b"2");
    b.add_embedded_file("same.txt", &f1);
    b.add_embedded_file("same.txt", &f2);
    match b.build(&FileStore::new()) {
        Err(BuildError::PathCollision { path }) => assert_eq!(path, "same.txt"),
        other => panic!("expected collision, got {:?}", other.map(|a| a.len())),
    }
}

#[test]
fn final_path_collision_fails() {
    // same content under two in-between policies producing one final path
    let mut b: Builder<NoTransform> = Builder::new();
    let f1 = embedded("one", b"same");
    let f2 = embedded("two", b"same");
    let i = b.add_embedded_file("x-1", &f1);
    b.assets[i].with_hash_between("x-", "");
    let j = b.add_embedded_file("x-2", &f2);
    b.assets[j].with_hash_between("x-", "");
    match b.build(&FileStore::new()) {
        Err(BuildError::PathCollision { path }) => {
            // both entries resolve to the prefix plus the digest of `same`
            assert_eq!(path, "x-097b5e18bf93ef5b");
        }
        other => panic!("expected collision, got {:?}", other.map(|a| a.len())),
    }
}

#[test]
fn unresolved_dependency_fails() {
    let mut b: Builder<NoTransform> = Builder::new();
    let f = embedded("page.html", b"uses style.css");
    let i = b.add_embedded_file("page.html", &f);
    b.assets[i].with_path_fixup(vec!["style.css".to_string()]);
    match b.build(&FileStore::new()) {
        Err(BuildError::UnresolvedDependency { dependent, path }) => {
            assert_eq!(dependent, "page.html");
            assert_eq!(path, "style.css");
        }
        other => panic!("expected unresolved dependency, got {:?}", other.map(|a| a.len())),
    }
}

#[test]
fn missing_file_content_fails() {
    let mut b: Builder<NoTransform> = Builder::new();
    b.add_file("a.txt", "/srv/assets/a.txt");
    match b.build(&FileStore::new()) {
        Err(BuildError::ContentLoadFailure { fs_path }) => {
            assert_eq!(fs_path, "/srv/assets/a.txt")
        }
        other => panic!("expected load failure, got {:?}", other.map(|a| a.len())),
    }
}

#[test]
fn file_content_from_store() {
    let mut b: Builder<NoTransform> = Builder::new();
    b.add_file("a.txt", "/srv/assets/a.txt");
    let mut files = FileStore::new();
    files.add("/srv/assets/a.txt", b"hello".to_vec());
    let a = b.build(&files).expect("build failed");
    assert_eq!(a.get("a.txt").unwrap(), b"hello");
}

#[test]
fn malformed_hash_insertion_fails() {
    let mut b: Builder<NoTransform> = Builder::new();
    let f = embedded("style.css", b"x");
    let i = b.add_embedded_file("style.css", &f);
    b.assets[i].with_hash_between("other-", ".css");
    match b.build(&FileStore::new()) {
        Err(BuildError::MalformedHashInsertion { path }) => assert_eq!(path, "style.css"),
        other => panic!("expected malformed insertion, got {:?}", other.map(|a| a.len())),
    }
}

#[test]
fn glob_dependency_targets_whole_set() {
    // a dependency naming a glob's HTTP prefix depends on all expanded files
    let mut b: Builder<NoTransform> = Builder::new();
    let glob = EmbeddedGlob {
        pattern: "img/*.png".to_string(),
        files: vec![embedded("img/a.png", b"aa"), embedded("img/b.png", b"bb")],
    };
    b.add_embedded_glob("/img/", &glob);
    let page = embedded("page.html", b"gallery: /img/a.png /img/b.png");
    let i = b.add_embedded_file("page.html", &page);
    b.assets[i].with_path_fixup(vec!["/img/".to_string()]);
    let a = b.build(&FileStore::new()).expect("build failed");
    // no hashing: substitution leaves declared paths as they are
    assert_eq!(get_string(&a, "page.html"), "gallery: /img/a.png /img/b.png");
}

#[test]
fn add_embedded_dispatches_both_shapes() {
    let mut b: Builder<NoTransform> = Builder::new();
    let single = EmbeddedEntry::Single(embedded("a.txt", b"a"));
    let glob = EmbeddedEntry::Glob(EmbeddedGlob {
        pattern: "d/*".to_string(),
        files: vec![embedded("d/x", b"x")],
    });
    b.add_embedded("a.txt", &single);
    b.add_embedded("/d/", &glob);
    let a = b.build(&FileStore::new()).expect("build failed");
    assert_eq!(a.get("a.txt").unwrap(), b"a");
    assert_eq!(a.get("/d/x").unwrap(), b"x");
}
