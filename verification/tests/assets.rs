use pingcrm::vite::{Manifest, ManifestEntry, Vite};

fn entry(file: &str, css: &[&str]) -> ManifestEntry {
    ManifestEntry {
        file: file.to_string(),
        css: css.iter().map(|c| c.to_string()).collect(),
    }
}

#[test]
fn development_asset_points_at_dev_server() {
    let v = Vite::Development { dev_server: "http://localhost:5173".to_string() };
    assert_eq!(
        v.asset("src/index.tsx").unwrap(),
        r#"<script type="module" src="http://localhost:5173/src/index.tsx"></script>"#
    );
    // No manifest is consulted: any path resolves.
    assert_eq!(
        v.asset("not/in/any/manifest.ts").unwrap(),
        r#"<script type="module" src="http://localhost:5173/not/in/any/manifest.ts"></script>"#
    );
}

#[test]
fn production_asset_lists_css_then_script() {
    let m = Manifest::from_entries(vec![("src/index.tsx".to_string(), entry(
        "assets/index-abc.js",
        &["assets/one.css", "assets/two.css"],
    ))]);
    let v = Vite::Production { manifest: m };
    let markup = v.asset("src/index.tsx").unwrap();
    assert_eq!(
        markup,
        "<link rel=\"stylesheet\" href=\"/assets/one.css\" />\n<link rel=\"stylesheet\" href=\"/assets/two.css\" /><script type=\"module\" src=\"/assets/index-abc.js\"></script>"
    );
    assert_eq!(markup.matches("<link rel=\"stylesheet\"").count(), 2);
    assert_eq!(markup.matches("<script type=\"module\"").count(), 1);
}

#[test]
fn production_asset_absent_path_is_none() {
    let m = Manifest::from_entries(vec![("src/index.tsx".to_string(), entry("a.js", &[]))]);
    let v = Vite::Production { manifest: m };
    assert!(v.asset("src/other.tsx").is_none());
}

#[test]
fn production_asset_no_css() {
    let m = Manifest::from_entries(vec![("src/index.tsx".to_string(), entry("a.js", &[]))]);
    let v = Vite::Production { manifest: m };
    assert_eq!(
        v.asset("src/index.tsx").unwrap(),
        r#"<script type="module" src="/a.js"></script>"#
    );
}

#[test]
fn dev_scripts_only_in_development() {
    let dev = Vite::Development { dev_server: "http://localhost:5173".to_string() };
    let markup = dev.dev_scripts().unwrap();
    assert!(markup.starts_with(
        r#"<script type="module" src="http://localhost:5173/@vite/client"></script>"#
    ));
    assert!(markup.contains("import RefreshRuntime from 'http://localhost:5173/@react-refresh'"));
    assert!(markup.contains("window.__vite_plugin_react_preamble_installed__ = true"));

    let prod = Vite::Production { manifest: Manifest::from_entries(vec![]) };
    assert!(prod.dev_scripts().is_none());
}
