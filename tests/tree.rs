use modgen::{Config, LibGenerator, Mod, Module};

fn name(s: &str) -> Module {
    if s.is_empty() {
        return Vec::new();
    }
    s.split('.').map(|p| p.to_string()).collect()
}

fn tree(names: &[&str]) -> Mod {
    let mut m = Mod::default();
    for n in names {
        m.push(&name(n));
    }
    m
}

fn plain() -> Config {
    Config { file_descriptor_set_path: None, gen_dir: None, feature_gates: false }
}

fn render(m: &Mod, config: &Config) -> String {
    let mut buf = String::new();
    LibGenerator::generate_librs(config, m, &mut buf);
    buf
}

#[test]
fn scenario_nested_scopes() {
    let m = tree(&["a.b", "a.c", "x"]);
    assert_eq!(
        render(&m, &plain()),
        "pub mod a {\n    include!(\"a.b.rs\");\n    include!(\"a.c.rs\");\n}\ninclude!(\"x.rs\");\n"
    );
}

#[test]
fn scenario_split_prefix() {
    let m = tree(&["a.b", "a.c", "x"]);
    let config = Config { file_descriptor_set_path: None, gen_dir: Some("../gen/".to_string()), feature_gates: false };
    assert_eq!(
        render(&m, &config),
        "pub mod a {\n    include!(\"../gen/a.b.rs\");\n    include!(\"../gen/a.c.rs\");\n}\ninclude!(\"../gen/x.rs\");\n"
    );
}

#[test]
fn scenario_feature_guard() {
    let m = tree(&["a.b"]);
    let config = Config { file_descriptor_set_path: None, gen_dir: None, feature_gates: true };
    assert_eq!(
        render(&m, &config),
        "pub mod a {\n    #[cfg(feature = \"a_b\")]\n    include!(\"a.b.rs\");\n}\n"
    );
}

#[test]
fn scenario_empty_name() {
    let mut m = tree(&["a.b", "x"]);
    let before = format!("{:?}", m);
    m.push(&Vec::new());
    assert_eq!(format!("{:?}", m), before);
    let mut e = Mod::default();
    e.push(&name(""));
    assert_eq!(render(&e, &plain()), "");
}

#[test]
fn deep_nesting_indents() {
    let m = tree(&["a.b.c"]);
    assert_eq!(
        render(&m, &plain()),
        "pub mod a {\n    pub mod b {\n        include!(\"a.b.c.rs\");\n    }\n}\n"
    );
}

#[test]
fn scopes_then_names_in_order() {
    let m = tree(&["z.x", "b.z", "a", "b.a", "a.q", "c"]);
    assert_eq!(
        render(&m, &plain()),
        "pub mod a {\n    include!(\"a.q.rs\");\n}\npub mod b {\n    include!(\"b.a.rs\");\n    include!(\"b.z.rs\");\n}\npub mod z {\n    include!(\"z.x.rs\");\n}\ninclude!(\"a.rs\");\ninclude!(\"c.rs\");\n"
    );
}

#[test]
fn duplicate_name_kept_twice() {
    let m = tree(&["p.q", "p.q"]);
    assert_eq!(render(&m, &plain()), "pub mod p {\n    include!(\"p.q.rs\");\n    include!(\"p.q.rs\");\n}\n");
}

#[test]
fn escaped_keyword_feature() {
    let m = tree(&["r#type.r#mod.x"]);
    let config = Config { file_descriptor_set_path: None, gen_dir: None, feature_gates: true };
    let out = render(&m, &config);
    assert!(out.contains("        #[cfg(feature = \"type_mod_x\")]\n        include!(\"r#type.r#mod.x.rs\");\n"));
}

#[test]
fn descriptor_set_first() {
    let m = tree(&["x"]);
    let config = Config { file_descriptor_set_path: Some("fds".to_string()), gen_dir: None, feature_gates: false };
    assert_eq!(render(&m, &config), "include!(\"fds.rs\");\ninclude!(\"x.rs\");\n");
    let split = Config {
        file_descriptor_set_path: Some("fds".to_string()),
        gen_dir: Some("../gen/".to_string()),
        feature_gates: true,
    };
    assert_eq!(
        render(&m, &split),
        "include!(\"../gen/fds.rs\");\n#[cfg(feature = \"x\")]\ninclude!(\"../gen/x.rs\");\n"
    );
}

#[test]
fn render_appends_to_buffer() {
    let m = tree(&["x"]);
    let mut buf = String::from("// head\n");
    LibGenerator::generate_librs(&plain(), &m, &mut buf);
    assert_eq!(buf, "// head\ninclude!(\"x.rs\");\n");
}

#[test]
fn render_twice_identical() {
    let m = tree(&["a.b.c", "a.d", "e", "f.g"]);
    let config = Config { file_descriptor_set_path: Some("s".to_string()), gen_dir: None, feature_gates: true };
    assert_eq!(render(&m, &config), render(&m, &config));
}

#[test]
fn braces_balanced_deep() {
    let m = tree(&["a.b.c.d.e", "a.b.x", "a.y", "q.r.s", "t"]);
    let out = render(&m, &plain());
    let mut depth: i64 = 0;
    for c in out.chars() {
        if c == '{' {
            depth += 1;
        } else if c == '}' {
            depth -= 1;
        }
        assert!(depth >= 0);
    }
    assert_eq!(depth, 0);
}

#[test]
fn gating_keeps_inclusions() {
    let m = tree(&["a.b", "a.c.d", "x"]);
    let off = render(&m, &plain());
    let gated = Config { file_descriptor_set_path: None, gen_dir: None, feature_gates: true };
    let on = render(&m, &gated);
    let kept: Vec<&str> = on.lines().filter(|l| !l.trim_start().starts_with("#[cfg(")).collect();
    let plain_lines: Vec<&str> = off.lines().collect();
    assert_eq!(kept, plain_lines);
    assert_eq!(on.lines().count(), off.lines().count() + 3);
}

#[test]
fn every_name_included_once() {
    let names = ["a.b.c", "a.b", "a", "d.e", "f", "a.b.d"];
    let m = tree(&names);
    let out = render(&m, &plain());
    for n in names.iter() {
        let line = format!("include!(\"{}.rs\");", n);
        assert_eq!(out.matches(&line).count(), 1, "{}", n);
    }
    assert_eq!(out.matches("include!").count(), names.len());
}
