use docfmt::Config;
use docfmt::DataValue;
use docfmt::TemplateRegistry;
use docfmt::WalkEntry;

fn text(s: &str) -> DataValue {
    DataValue::Text(String::from(s))
}

fn mapping(pairs: Vec<(&str, DataValue)>) -> DataValue {
    DataValue::Mapping(pairs.into_iter().map(|(k, v)| (String::from(k), v)).collect())
}

fn base_config() -> Config {
    Config {
        template: String::from("tests/templates/main.hbs"),
        output: String::from("tests/output/main.md"),
        force: false,
        follow: false,
        strict: false,
        verbose: false,
        includes: vec![
            String::from("tests/templates/input1"),
            String::from("tests/templates/input2"),
            String::from("tests/templates/file.hbs"),
        ],
        extensions: vec![String::from("hbs"), String::from("md")],
        datafiles: vec![],
        data: mapping(vec![]),
    }
}

fn walk_to_fragments(cfg: &Config, entries: &[(&str, bool, &str)]) -> Vec<(String, String)> {
    // entries: (path relative to the include root's parent, is_file, content)
    let walk: Vec<WalkEntry> = entries
        .iter()
        .map(|(p, f, _)| WalkEntry {
            rel_path: String::from(*p),
            is_file: *f,
        })
        .collect();
    docfmt::collect(&walk, &cfg.extensions)
        .into_iter()
        .map(|(id, i)| (id, String::from(entries[i].2)))
        .collect()
}

fn render(reg: &TemplateRegistry, data: &DataValue, strict: bool) -> Result<String, String> {
    // the external rendering capability, driven from the registry
    let mut hb = handlebars::Handlebars::new();
    hb.set_strict_mode(strict);
    let mut i = 0;
    while i < reg.len() {
        let entry = reg.entry_at(i);
        hb.register_template_string(entry.name.as_str(), entry.content.as_str())
            .map_err(|e| e.to_string())?;
        i += 1;
    }
    hb.render("main", &to_json(data)).map_err(|e| e.to_string())
}

fn to_json(v: &DataValue) -> serde_json::Value {
    match v {
        DataValue::Null => serde_json::Value::Null,
        DataValue::Bool(b) => serde_json::Value::Bool(*b),
        DataValue::Int(i) => serde_json::Value::from(*i),
        DataValue::Text(s) => serde_json::Value::String(s.clone()),
        DataValue::Sequence(items) => serde_json::Value::Array(items.iter().map(to_json).collect()),
        DataValue::Mapping(pairs) => {
            let mut m = serde_json::Map::new();
            for (k, v) in pairs {
                m.insert(k.clone(), to_json(v));
            }
            serde_json::Value::Object(m)
        }
    }
}

#[test]
fn create_registry() {
    let cfg = base_config();
    let mut fragments = walk_to_fragments(
        &cfg,
        &[
            ("input1/file.hbs", true, "Goodbye!\n"),
            ("input1/.hidden.hbs", true, "never seen"),
            ("input1/subdir", false, ""),
            ("input1/subdir/file.hbs", true, "nested"),
            ("input2/file.hbs", true, "also here"),
            ("input2/.hidden.hbs", true, "never seen"),
        ],
    );
    // the explicitly included single file keeps its bare stem
    fragments.push((
        docfmt::single_file_name("tests/templates/file.hbs"),
        String::from("For now!"),
    ));
    let registry = cfg.new_registry(
        String::from("Hello World!\n{{> input1/file}}{{> file}}"),
        fragments,
    );
    assert!(registry.is_some());
    let registry = registry.unwrap();

    assert!(registry.get(&String::from("main")).is_some());
    assert!(registry.get(&String::from("input1/file")).is_some());
    assert!(registry.get(&String::from("input1/.hidden")).is_none());
    assert!(registry.get(&String::from("input1/subdir/file")).is_some());
    assert!(registry.get(&String::from("input2/file")).is_some());
    assert!(registry.get(&String::from("input2/.hidden")).is_none());
    assert!(registry.get(&String::from("file")).is_some());

    let data = cfg.read_data(vec![]);
    let content = render(&registry, &data, cfg.strict);
    assert!(content.is_ok());
    assert_eq!(content.unwrap(), "Hello World!\nGoodbye!\nFor now!");
}

#[test]
fn duplicate_identifier_fails_registration() {
    let cfg = base_config();
    // two distinct files normalize to the same identifier once the
    // extension is stripped
    let fragments = walk_to_fragments(
        &cfg,
        &[
            ("input1/file.hbs", true, "one"),
            ("input1/file.md", true, "two"),
        ],
    );
    assert_eq!(fragments.len(), 2);
    assert_eq!(fragments[0].0, fragments[1].0);
    let registry = cfg.new_registry(String::from("main text"), fragments);
    assert!(registry.is_none());

    // registering the reserved name is refused too
    let mut reg = TemplateRegistry::new(String::from("main text"));
    let dup = reg.register(String::from("main"), String::from("other"));
    assert_eq!(dup, Err(docfmt::RegistrationError::DuplicateIdentifier));
    let fresh = reg.register(String::from("other"), String::from("other"));
    assert_eq!(fresh, Ok(()));
}

#[test]
fn end_to_end_fragment_and_field() {
    let cfg = base_config();
    let fragments = walk_to_fragments(
        &cfg,
        &[
            ("input1/file.hbs", true, "Dear {{person.firstName}}"),
            ("input1/.hidden.hbs", true, "never seen"),
        ],
    );
    let registry = cfg
        .new_registry(String::from("{{> input1/file}}!"), fragments)
        .unwrap();
    assert!(registry.get(&String::from("input1/file")).is_some());
    assert!(registry.get(&String::from("input1/.hidden")).is_none());
    // the data file binds person.firstName = "Jane"
    let data1 = mapping(vec![("person", mapping(vec![("firstName", text("Jane"))]))]);
    let data = cfg.read_data(vec![data1]);
    let content = render(&registry, &data, cfg.strict).unwrap();
    assert!(content.contains("Jane"));
    assert_eq!(content, "Dear Jane!");
}

#[test]
fn strict_mode_rejects_undefined_fields() {
    let cfg = base_config();
    let registry = cfg
        .new_registry(String::from("Hello {{person.name}}!"), vec![])
        .unwrap();
    let data = cfg.read_data(vec![]);
    // permissive mode renders the absent field as empty
    let lax = render(&registry, &data, false);
    assert_eq!(lax.unwrap(), "Hello !");
    // strict mode fails instead
    let strict = render(&registry, &data, true);
    assert!(strict.is_err());
}

#[test]
fn write_guard_refuses_existing_without_force() {
    let mut cfg = base_config();
    cfg.force = false;
    assert!(!cfg.write_allowed(true));
    assert!(cfg.write_allowed(false));
    cfg.force = true;
    assert!(cfg.write_allowed(true));
    assert!(cfg.write_allowed(false));
}

#[test]
fn config_resolution_precedence() {
    let file = docfmt::ConfigRead {
        template: Some(String::from("from_file.hbs")),
        output: Some(String::from("out_file.md")),
        force: false,
        follow: false,
        strict: true,
        verbose: false,
        includes: vec![String::from("file_inc")],
        extensions: vec![String::from("md")],
        datafiles: vec![],
        data: None,
    };
    let cli = docfmt::CliArgs {
        template: Some(String::from("from_cli.hbs")),
        output: None,
        force: true,
        follow: false,
        strict: false,
        verbose: false,
        includes: vec![String::from("cli_inc")],
        extensions: vec![String::from("markdown")],
        datafiles: vec![],
    };
    let cfg = Config::resolve(file, cli).unwrap();
    assert_eq!(cfg.template, "from_cli.hbs");
    assert_eq!(cfg.output, "out_file.md");
    assert!(cfg.force);
    assert!(cfg.strict);
    assert_eq!(cfg.includes, vec!["file_inc", "cli_inc"]);
    assert_eq!(cfg.extensions, vec!["md", "markdown"]);
    assert_eq!(cfg.data, DataValue::Mapping(vec![]));
    assert_eq!(cfg.log_level(), docfmt::LogLevel::Warn);

    let missing = Config::resolve(
        docfmt::ConfigRead {
            template: None,
            output: None,
            force: false,
            follow: false,
            strict: false,
            verbose: false,
            includes: vec![],
            extensions: vec![],
            datafiles: vec![],
            data: None,
        },
        docfmt::CliArgs {
            template: None,
            output: Some(String::from("o")),
            force: false,
            follow: false,
            strict: false,
            verbose: false,
            includes: vec![],
            extensions: vec![],
            datafiles: vec![],
        },
    );
    assert_eq!(missing.err(), Some(docfmt::ConfigError::MissingTemplate));
}
