use modgen::{FeatureTable, LibGenerator, ManifestError};

fn table(entries: &[(&str, &[&str])]) -> FeatureTable {
    let mut t = FeatureTable::new();
    for (f, deps) in entries {
        let f = f.to_string();
        t.add_feature(&f);
        for d in deps.iter() {
            t.add_dependency(&f, &d.to_string());
        }
    }
    t
}

#[test]
fn scenario_manifest_fill() {
    let t = table(&[("f1", &["f3", "f2"]), ("f0", &[])]);
    let mut buf = String::new();
    let r = LibGenerator::generate_manifest("X {{ features }} Y", &t, &mut buf);
    assert_eq!(r, Ok(()));
    assert_eq!(buf, "X \"f0\" = []\n\"f1\" = [\"f2\", \"f3\"]\n Y");
}

#[test]
fn manifest_missing_placeholder() {
    let t = table(&[("f", &[])]);
    let mut buf = String::from("keep");
    let r = LibGenerator::generate_manifest("no token here {{ feature }}", &t, &mut buf);
    assert_eq!(r, Err(ManifestError::MissingPlaceholder));
    assert_eq!(buf, "keep");
}

#[test]
fn manifest_first_placeholder_only() {
    let t = table(&[("a", &["b"])]);
    let mut buf = String::new();
    let r = LibGenerator::generate_manifest("{{ features }}|{{ features }}", &t, &mut buf);
    assert_eq!(r, Ok(()));
    assert_eq!(buf, "\"a\" = [\"b\"]\n|{{ features }}");
}

#[test]
fn manifest_repeats_collapse() {
    let t = table(&[("z", &["y", "y", "x"]), ("z", &["w"]), ("m", &[])]);
    assert_eq!(t.render_entries(), "\"m\" = []\n\"z\" = [\"w\", \"x\", \"y\"]\n");
}

#[test]
fn manifest_lines_sorted_counts() {
    let t = table(&[("c", &["q", "p", "r"]), ("a", &["z", "y", "x"]), ("b", &["k", "j", "l"])]);
    let block = t.render_entries();
    let lines: Vec<&str> = block.lines().collect();
    assert_eq!(lines, vec![
        "\"a\" = [\"x\", \"y\", \"z\"]",
        "\"b\" = [\"j\", \"k\", \"l\"]",
        "\"c\" = [\"p\", \"q\", \"r\"]",
    ]);
}

#[test]
fn manifest_empty_table() {
    let t = FeatureTable::new();
    let mut buf = String::new();
    assert_eq!(LibGenerator::generate_manifest("[features]\n{{ features }}", &t, &mut buf), Ok(()));
    assert_eq!(buf, "[features]\n");
}

#[test]
fn manifest_non_ascii_template() {
    let t = table(&[("é", &["ü"])]);
    let mut buf = String::new();
    assert_eq!(LibGenerator::generate_manifest("ä{{ features }}ö", &t, &mut buf), Ok(()));
    assert_eq!(buf, "ä\"é\" = [\"ü\"]\nö");
}
