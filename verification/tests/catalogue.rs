use newerr::idgen::IdError;
use newerr::model::{
    default_end, parse_err_prop, parse_severity, Category, ErrProp, ErrorEntry, IdGenerator,
    Piece, Placeholder, ProjectConfig, ProjectErrors, Section, Severity, Template, UuidVersion,
};
use newerr::numeric::{format_u32, parse_u32, NumError};
use newerr::pattern::{check_len, find_outside, has_match, in_ranges_exec, parse_regex, PatternError};

fn cat(name: &str, description: &str) -> Category {
    Category { name: name.to_string(), description: description.to_string() }
}

fn entry(id: &str, name: &str, category: &str, severity: Severity) -> ErrorEntry {
    ErrorEntry {
        id: id.to_string(),
        name: name.to_string(),
        category_id: category.to_string(),
        severity,
        message: String::new(),
        hint: String::new(),
    }
}

fn config(id_generator: IdGenerator) -> ProjectConfig {
    ProjectConfig {
        generated_errors_file_path: "out.odin".to_string(),
        generated_docs_file_path: None,
        id_generator,
        package: None,
    }
}

#[test]
fn names_of_severities_and_properties() {
    assert_eq!(Severity::Info.as_str(), "info");
    assert_eq!(Severity::Warning.as_str(), "warning");
    assert_eq!(Severity::Error.as_str(), "error");
    assert_eq!(Severity::Critical.as_str(), "critical");
    assert_eq!(ErrProp::Name.as_str(), "name");
    assert_eq!(ErrProp::Message.as_str(), "message");
    assert_eq!(ErrProp::Hint.as_str(), "hint");
    assert_eq!(ErrProp::Category.as_str(), "category");
    assert_eq!(ErrProp::Severity.as_str(), "severity");
}

#[test]
fn severity_names_read_back() {
    for s in [Severity::Info, Severity::Warning, Severity::Error, Severity::Critical] {
        assert_eq!(parse_severity(s.as_str()), Some(s));
    }
    assert_eq!(parse_severity("Info"), None);
    assert_eq!(parse_severity(""), None);
}

#[test]
fn property_names() {
    assert_eq!(parse_err_prop("name"), Ok(ErrProp::Name));
    assert_eq!(parse_err_prop("message"), Ok(ErrProp::Message));
    assert_eq!(parse_err_prop("hint"), Ok(ErrProp::Hint));
    assert_eq!(parse_err_prop("category"), Ok(ErrProp::Category));
    assert_eq!(parse_err_prop("cathegory"), Ok(ErrProp::Category));
    assert_eq!(parse_err_prop("severity"), Ok(ErrProp::Severity));
    assert_eq!(parse_err_prop("colour"), Err("invalid property: colour".to_string()));
    assert_eq!(parse_err_prop(""), Err("invalid property: ".to_string()));
    for p in [ErrProp::Name, ErrProp::Message, ErrProp::Hint, ErrProp::Category, ErrProp::Severity] {
        assert_eq!(parse_err_prop(p.as_str()), Ok(p));
    }
}

#[test]
fn default_end_is_a_line_break() {
    assert_eq!(default_end(), "\n");
}

#[test]
fn numbers_parse_like_std() {
    assert_eq!(parse_u32("0042", 10), Ok(42));
    assert_eq!(parse_u32("+7", 10), Ok(7));
    assert_eq!(parse_u32("+", 10), Err(NumError::InvalidDigit));
    assert_eq!(parse_u32("-", 10), Err(NumError::InvalidDigit));
    assert_eq!(parse_u32("-1", 10), Err(NumError::InvalidDigit));
    assert_eq!(parse_u32("", 10), Err(NumError::Empty));
    assert_eq!(parse_u32("12a", 10), Err(NumError::InvalidDigit));
    assert_eq!(parse_u32("4294967295", 10), Ok(u32::MAX));
    assert_eq!(parse_u32("4294967296", 10), Err(NumError::PosOverflow));
    assert_eq!(parse_u32("1A", 16), Ok(26));
    assert_eq!(parse_u32("ff", 16), Ok(255));
    assert_eq!(parse_u32("fg", 16), Err(NumError::InvalidDigit));
    assert_eq!(parse_u32("100000000", 16), Err(NumError::PosOverflow));
    for (s, radix) in [("0042", 10u32), ("+7", 10), ("", 10), ("x", 16), ("1A", 16), ("99999999999", 10)] {
        let ours = parse_u32(s, radix).ok();
        let std = u32::from_str_radix(s, radix).ok();
        assert_eq!(ours, std, "{s}");
    }
}

#[test]
fn numbers_format_like_std() {
    assert_eq!(format_u32(26, 16, 4), "001a");
    assert_eq!(format_u32(5, 10, 0), "5");
    assert_eq!(format_u32(0, 10, 0), "0");
    assert_eq!(format_u32(123456, 10, 4), "123456");
    assert_eq!(format_u32(u32::MAX, 16, 0), "ffffffff");
    for n in [0u32, 1, 9, 10, 255, 4096, 99999, u32::MAX] {
        for w in [0usize, 1, 4, 12] {
            assert_eq!(format_u32(n, 10, w), format!("{:0w$}", n, w = w));
            assert_eq!(format_u32(n, 16, w), format!("{:0w$x}", n, w = w));
        }
    }
}

#[test]
fn written_numbers_read_back() {
    for n in [0u32, 7, 1234, u32::MAX] {
        assert_eq!(parse_u32(&format_u32(n, 10, 6), 10), Ok(n));
        assert_eq!(parse_u32(&format_u32(n, 16, 6), 16), Ok(n));
    }
}

#[test]
fn counters_give_the_next_number() {
    let g = IdGenerator::Sequential { digits: 4 };
    assert_eq!(g.generate_id("0"), Ok("0001".to_string()));
    assert_eq!(g.generate_id("0041"), Ok("0042".to_string()));
    assert_eq!(g.generate_id("99999"), Ok("100000".to_string()));
    assert_eq!(g.generate_id("x"), Err(IdError::Number(NumError::InvalidDigit)));
    assert_eq!(g.generate_id(""), Err(IdError::Number(NumError::Empty)));
    let h = IdGenerator::SequentialHex { digits: 4 };
    assert_eq!(h.generate_id("0"), Ok("0x0001".to_string()));
    assert_eq!(h.generate_id("0x0009"), Ok("0x000a".to_string()));
    assert_eq!(h.generate_id("0009"), Ok("0x000a".to_string()));
    assert_eq!(h.generate_id("0x00ff"), Ok("0x0100".to_string()));
    assert_eq!(h.generate_id("zz"), Err(IdError::Number(NumError::InvalidDigit)));
    assert_eq!(h.generate_id("0x"), Err(IdError::Number(NumError::Empty)));
    let h2 = IdGenerator::SequentialHex { digits: 2 };
    assert_eq!(h2.generate_id("0x1a"), Ok("0x1b".to_string()));
}

#[test]
fn successive_counter_ids_count_up() {
    let h = IdGenerator::SequentialHex { digits: 2 };
    let mut last = "0".to_string();
    for k in 1..=300u32 {
        last = h.generate_id(&last).unwrap();
        assert!(last.starts_with("0x"));
        assert_eq!(u32::from_str_radix(&last[2..], 16), Ok(k));
    }
}

fn custom(regex: &str) -> Result<String, IdError> {
    IdGenerator::Custom { regex: regex.to_string() }.generate_id("0")
}

#[test]
fn custom_ids_match_their_pattern() {
    for _ in 0..50 {
        let s = custom("E[0-9]{4}").unwrap();
        let cs: Vec<char> = s.chars().collect();
        assert_eq!(cs.len(), 5);
        assert_eq!(cs[0], 'E');
        assert!(cs[1..].iter().all(|c| c.is_ascii_digit()));
        let s = custom("^[a-cX_]{3}-\\d\\w$").unwrap();
        let cs: Vec<char> = s.chars().collect();
        assert_eq!(cs.len(), 6);
        assert!(cs[..3].iter().all(|c| ['a', 'b', 'c', 'X', '_'].contains(c)));
        assert_eq!(cs[3], '-');
        assert!(cs[4].is_ascii_digit());
        assert!(cs[5].is_ascii_alphanumeric() || cs[5] == '_');
        let s = custom("[\u{e000}-\u{e002}]{2}x{0}").unwrap();
        assert!(s.chars().count() == 2 && s.chars().all(|c| ('\u{e000}'..='\u{e002}').contains(&c)));
    }
    assert_eq!(custom(""), Ok(String::new()));
    assert_eq!(custom("^ab\\.$"), Ok("ab.".to_string()));
    for _ in 0..20 {
        let s = custom("[a-]").unwrap();
        assert!(s == "a" || s == "-");
    }
}

#[test]
fn custom_ids_from_alternation_groups_and_any_character() {
    let mut seen_a = false;
    let mut seen_b = false;
    for _ in 0..100 {
        let s = custom("a|b").unwrap();
        assert!(s == "a" || s == "b");
        seen_a |= s == "a";
        seen_b |= s == "b";
        let s = custom("(ab){2}").unwrap();
        assert_eq!(s, "abab");
        let s = custom("(?:x|yz|zy){3}");
        assert_eq!(s, Err(IdError::Pattern(PatternError::VariableLength)));
        let s = custom("E-(?:ab|cd)[0-9]{2}").unwrap();
        let cs: Vec<char> = s.chars().collect();
        assert_eq!(cs.len(), 6);
        assert!(s.starts_with("E-ab") || s.starts_with("E-cd"));
        assert!(cs[4].is_ascii_digit() && cs[5].is_ascii_digit());
        let s = custom(".").unwrap();
        assert_eq!(s.chars().count(), 1);
        assert_ne!(s, "\n");
        let s = custom("[^a]{3}").unwrap();
        assert_eq!(s.chars().count(), 3);
        assert!(!s.contains('a'));
        let s = custom("\\s\\S").unwrap();
        let cs: Vec<char> = s.chars().collect();
        assert_eq!(cs.len(), 2);
        assert!(cs[0].is_whitespace() && !cs[1].is_whitespace());
        let s = custom("[]a]").unwrap();
        assert!(s == "]" || s == "a");
        let s = custom("[a^]").unwrap();
        assert!(s == "a" || s == "^");
        assert_eq!(custom("x}]"), Ok("x}]".to_string()));
        assert_eq!(custom("\\t\\n"), Ok("\t\n".to_string()));
    }
    assert!(seen_a && seen_b);
    assert_eq!(custom("()"), Ok(String::new()));
    assert_eq!(custom("(){5}"), Ok(String::new()));
    assert_eq!(custom("a{1001}").map(|s| s.len()), Ok(1001));
    assert_eq!(custom("(ab){0}c"), Ok("c".to_string()));
    assert_eq!(custom("^^a$$"), Ok("a".to_string()));
    for _ in 0..20 {
        let s = custom("(^a|^b)c$").unwrap();
        assert!(s == "ac" || s == "bc");
    }
    assert_eq!(custom("(^a$){1}"), Ok("a".to_string()));
    assert_eq!(custom("(^){3}a"), Ok("a".to_string()));
    assert_eq!(custom("$^"), Ok(String::new()));
    assert_eq!(custom("\\Aab\\z"), Ok("ab".to_string()));
    assert_eq!(custom("a{3}?b"), Ok("aaab".to_string()));
    assert_eq!(custom("a{3,3}b{1,1}"), Ok("aaab".to_string()));
    assert_eq!(custom("a\\Ab"), Err(IdError::Pattern(PatternError::NoMatch)));
    assert_eq!(custom("a(b|$c)"), Ok("ab".to_string()));
    assert_eq!(custom("(?<pre>E)-(?P<num>7){2}"), Ok("E-77".to_string()));
    assert_eq!(custom("\\x41\\u0042\\U00000043\\x{44}\\u{1F600}"), Ok("ABCD\u{1F600}".to_string()));
    for _ in 0..20 {
        let s = custom("[\\x41-\\x43][\\.-/]").unwrap();
        let cs: Vec<char> = s.chars().collect();
        assert!(('A'..='C').contains(&cs[0]));
        assert!(cs[1] == '.' || cs[1] == '/');
    }
}

#[test]
fn custom_patterns_that_describe_no_id() {
    assert_eq!(custom("a*"), Err(IdError::Pattern(PatternError::VariableLength)));
    assert_eq!(custom("a+"), Err(IdError::Pattern(PatternError::VariableLength)));
    assert_eq!(custom("a?"), Err(IdError::Pattern(PatternError::VariableLength)));
    assert_eq!(custom("a{2,3}"), Err(IdError::Pattern(PatternError::VariableLength)));
    assert_eq!(custom("a{2,}"), Err(IdError::Pattern(PatternError::VariableLength)));
    assert_eq!(custom("a{3,2}"), Err(IdError::Pattern(PatternError::Malformed)));
    assert_eq!(custom("a|bc"), Err(IdError::Pattern(PatternError::VariableLength)));
    assert_eq!(custom("(?i)a"), Err(IdError::Pattern(PatternError::Unsupported)));
    assert_eq!(custom("(?<>a)"), Err(IdError::Pattern(PatternError::Malformed)));
    assert_eq!(custom("(?<n-1>a)"), Err(IdError::Pattern(PatternError::Unsupported)));
    assert_eq!(custom("(?<name"), Err(IdError::Pattern(PatternError::Malformed)));
    assert_eq!(custom("\\x{D800}"), Err(IdError::Pattern(PatternError::Malformed)));
    assert_eq!(custom("\\x{110000}"), Err(IdError::Pattern(PatternError::Malformed)));
    assert_eq!(custom("\\x4"), Err(IdError::Pattern(PatternError::Malformed)));
    assert_eq!(custom("\\x{}"), Err(IdError::Pattern(PatternError::Malformed)));
    assert_eq!(custom("[\\d-z]"), Err(IdError::Pattern(PatternError::Unsupported)));
    assert_eq!(custom("\\D"), Err(IdError::Pattern(PatternError::Unsupported)));
    assert_eq!(custom("a^b"), Err(IdError::Pattern(PatternError::NoMatch)));
    assert_eq!(custom("a$b"), Err(IdError::Pattern(PatternError::NoMatch)));
    assert_eq!(custom("(a^){2}"), Err(IdError::Pattern(PatternError::NoMatch)));
    assert_eq!(custom("[a&&b]"), Err(IdError::Pattern(PatternError::Unsupported)));
    assert_eq!(custom("[^\\d]"), Err(IdError::Pattern(PatternError::Unsupported)));
    assert_eq!(custom("[abc"), Err(IdError::Pattern(PatternError::Malformed)));
    assert_eq!(custom("[]"), Err(IdError::Pattern(PatternError::Malformed)));
    assert_eq!(custom("[z-a]"), Err(IdError::Pattern(PatternError::Malformed)));
    assert_eq!(custom("a{}"), Err(IdError::Pattern(PatternError::Malformed)));
    assert_eq!(custom("{2}"), Err(IdError::Pattern(PatternError::Malformed)));
    assert_eq!(custom("\\"), Err(IdError::Pattern(PatternError::Malformed)));
    assert_eq!(custom("(ab"), Err(IdError::Pattern(PatternError::Malformed)));
    assert_eq!(custom("ab)"), Err(IdError::Pattern(PatternError::Malformed)));
    assert_eq!(custom("a**"), Err(IdError::Pattern(PatternError::VariableLength)));
    assert_eq!(
        custom("a{99999999999999999999999}"),
        Err(IdError::Pattern(PatternError::TooLong))
    );
    assert_eq!(
        custom("(a{4294967296}){4294967296}"),
        Err(IdError::Pattern(PatternError::TooLong))
    );
    assert_eq!(
        custom("[^\u{0}-\u{10ffff}]"),
        Err(IdError::Pattern(PatternError::NoMatch))
    );
    assert_eq!(custom("a[^\u{0}-\u{10ffff}]{0}"), Ok("a".to_string()));
}

#[test]
fn random_generators_give_their_shape() {
    for length in [0u8, 1, 5, 8] {
        let s = IdGenerator::RandomHex { length }.generate_id("0").unwrap();
        assert_eq!(s.chars().count(), length as usize);
        assert!(s.chars().all(|c| c.is_ascii_digit() || ('a'..='f').contains(&c)));
        let s = IdGenerator::RandomHash { length }.generate_id("0").unwrap();
        assert_eq!(s.chars().count(), length as usize);
        assert!(s.chars().all(|c| c.is_ascii_alphanumeric()));
    }
    let u = IdGenerator::Uuid { version: UuidVersion::V4 }.generate_id("0").unwrap();
    let cs: Vec<char> = u.chars().collect();
    assert_eq!(cs.len(), 36);
    for i in [8, 13, 18, 23] {
        assert_eq!(cs[i], '-');
    }
    assert_eq!(cs[14], '4');
    assert!(['8', '9', 'a', 'b'].contains(&cs[19]));
}

#[test]
fn hex_ids_from_bytes() {
    assert_eq!(IdGenerator::hex_id_from_bytes(&vec![0xab, 0x01], 3), "ab0");
    assert_eq!(IdGenerator::hex_id_from_bytes(&vec![0x0f, 0xe0], 4), "0fe0");
    assert_eq!(IdGenerator::hex_id_from_bytes(&vec![], 0), "");
}

#[test]
fn a_new_project() {
    let c = ProjectConfig::initial();
    assert_eq!(c.generated_errors_file_path, "unknown");
    assert_eq!(c.generated_docs_file_path.as_deref(), Some("ERRORS.md"));
    assert!(matches!(c.id_generator, IdGenerator::SequentialHex { digits: 4 }));
    assert!(c.package.is_none());
    let e = ProjectErrors::initial();
    assert_eq!(e.categories.len(), 1);
    assert_eq!(e.categories[0].0, "0");
    assert_eq!(e.categories[0].1.name, "general");
    assert_eq!(e.categories[0].1.description, "Default category.");
    assert!(e.errors.is_empty() && e.banned_ids.is_empty() && e.last_id.is_none());
    assert_eq!(ProjectConfig::FOLDER_NAME, ".newerr");
    assert_eq!(ProjectConfig::TEMPLATE_FOLDER_NAME, "templates");
    assert_eq!(ProjectConfig::CONFIG_FILE_NAME, "config.toml");
    assert_eq!(ProjectConfig::ERRORS_FILE_NAME, "errors.toml");
}

#[test]
fn package_name_precedence() {
    let mut c = config(IdGenerator::Sequential { digits: 1 });
    assert_eq!(c.package_name(None), "errors");
    c.package = Some("app".to_string());
    assert_eq!(c.package_name(None), "app");
    assert_eq!(c.package_name(Some("cli".to_string())), "cli");
}

#[test]
fn new_errors_are_numbered_and_filed() {
    let c = config(IdGenerator::SequentialHex { digits: 4 });
    let mut e = ProjectErrors::initial();
    e.categories.push(("7".to_string(), cat("io", "Input and output.")));
    e.new_error(&c, "NotFound".into(), "7".into(), Severity::Error, "m".into(), "h".into()).unwrap();
    e.new_error(&c, "Denied".into(), "io".into(), Severity::Warning, String::new(), String::new()).unwrap();
    e.new_error(&c, "Odd".into(), "nowhere".into(), Severity::Info, String::new(), String::new()).unwrap();
    assert_eq!(e.errors.len(), 3);
    assert_eq!(e.errors[0].id, "0x0001");
    assert_eq!(e.errors[0].name, "NotFound");
    assert_eq!(e.errors[0].category_id, "7");
    assert_eq!(e.errors[0].message, "m");
    assert_eq!(e.errors[0].hint, "h");
    assert_eq!(e.errors[1].id, "0x0002");
    assert_eq!(e.errors[1].category_id, "7");
    assert_eq!(e.errors[2].id, "0x0003");
    assert_eq!(e.errors[2].category_id, "0");
    assert_eq!(e.get_last(), Some("0x0003".to_string()));
    assert_eq!(e.get_last(), Some(e.errors[e.errors.len() - 1].id.clone()));
}

#[test]
fn a_failed_generation_changes_nothing() {
    let c = config(IdGenerator::Custom { regex: "x*".to_string() });
    let mut e = ProjectErrors::initial();
    let r = e.new_error(&c, "X".into(), "0".into(), Severity::Info, String::new(), String::new());
    assert_eq!(r, Err(IdError::Pattern(PatternError::VariableLength)));
    assert!(e.errors.is_empty() && e.last_id.is_none());
    let c = config(IdGenerator::Sequential { digits: 2 });
    e.last_id = Some("abc".to_string());
    let r = e.new_error(&c, "X".into(), "0".into(), Severity::Info, String::new(), String::new());
    assert_eq!(r, Err(IdError::Number(NumError::InvalidDigit)));
    assert!(e.errors.is_empty());
    assert_eq!(e.get_last(), Some("abc".to_string()));
}

#[test]
fn add_error_with_given_id() {
    let mut e = ProjectErrors::initial();
    e.add_error("E9".into(), "N".into(), "general".into(), Severity::Critical, "m".into(), "h".into());
    assert_eq!(e.errors[0].id, "E9");
    assert_eq!(e.errors[0].category_id, "0");
    assert_eq!(e.last_id, Some("E9".to_string()));
}

#[test]
fn new_categories_get_fresh_numbers() {
    let mut e = ProjectErrors::initial();
    assert_eq!(e.new_cathegory("net".into(), String::new()), "1");
    assert_eq!(e.new_cathegory("db".into(), "Storage".into()), "2");
    assert_eq!(e.categories.len(), 3);
    assert_eq!(e.categories[2].0, "2");
    assert_eq!(e.categories[2].1.name, "db");
    assert_eq!(e.categories[2].1.description, "Storage");
    let mut f = ProjectErrors { categories: vec![], banned_ids: vec![], errors: vec![], last_id: None };
    assert_eq!(f.new_cathegory("a".into(), String::new()), "0");
    let mut g = ProjectErrors {
        categories: vec![("0005".into(), cat("x", "")), ("misc".into(), cat("y", "")), ("+6".into(), cat("z", ""))],
        banned_ids: vec![],
        errors: vec![],
        last_id: None,
    };
    assert_eq!(g.new_cathegory("w".into(), String::new()), "7");
    let mut h = ProjectErrors {
        categories: vec![("misc".into(), cat("y", ""))],
        banned_ids: vec![],
        errors: vec![],
        last_id: None,
    };
    assert_eq!(h.new_cathegory("w".into(), String::new()), "0");
}

#[test]
fn modifying_errors() {
    let mut e = ProjectErrors::initial();
    e.errors.push(entry("01", "A", "0", Severity::Info));
    e.errors.push(entry("02", "B", "0", Severity::Info));
    e.errors.push(entry("02", "C", "0", Severity::Info));
    e.modify_error(&"02".to_string(), ErrProp::Name, "B2".into());
    assert_eq!(e.errors[1].name, "B2");
    assert_eq!(e.errors[2].name, "C");
    e.modify_error(&"01".to_string(), ErrProp::Message, "msg".into());
    e.modify_error(&"01".to_string(), ErrProp::Hint, "hint".into());
    e.modify_error(&"01".to_string(), ErrProp::Category, "5".into());
    e.modify_error(&"01".to_string(), ErrProp::Severity, "critical".into());
    assert_eq!(e.errors[0].message, "msg");
    assert_eq!(e.errors[0].hint, "hint");
    assert_eq!(e.errors[0].category_id, "5");
    assert_eq!(e.errors[0].severity, Severity::Critical);
    e.modify_error(&"01".to_string(), ErrProp::Severity, "fatal".into());
    assert_eq!(e.errors[0].severity, Severity::Critical);
    e.modify_error(&"99".to_string(), ErrProp::Name, "Z".into());
    assert_eq!(e.errors.iter().map(|x| x.name.as_str()).collect::<Vec<_>>(), vec!["A", "B2", "C"]);
}

#[test]
fn banned_ids_and_last() {
    let mut e = ProjectErrors::initial();
    e.banned_ids.push("0bad".into());
    assert!(e.is_banned(&"0bad".to_string()));
    assert!(!e.is_banned(&"0ba".to_string()));
    assert_eq!(e.get_last(), None);
}

fn piece(text: &str, skip: Option<Placeholder>) -> Piece {
    Piece { text: text.to_string(), skip_if_empty: skip }
}

#[test]
fn rendering_a_catalogue() {
    let mut errors = ProjectErrors::initial();
    errors.categories.push(("1".into(), cat("io", "Input/output")));
    let mut a = entry("0001", "NotFound", "1", Severity::Error);
    a.message = "file missing".into();
    errors.errors.push(a);
    errors.errors.push(entry("0002", "Bad", "0", Severity::Warning));
    errors.errors.push(entry("0003", "Denied", "1", Severity::Critical));
    errors.errors.push(entry("0004", "Lost", "9", Severity::Info));
    let t = Template {
        header: "package {{package}}\n".into(),
        footer: "// end {{package}}{{id}}".into(),
        sections: vec![Section {
            prefix: "enum {\n".into(),
            suffix: "}\n".into(),
            end: String::new(),
            category_end: "[{{category_id_start}}..{{category_id_end}}]\n".into(),
            category: vec![
                piece("// {{category}}", None),
                piece(": {{category_description}}", Some(Placeholder::CategoryDescription)),
                piece("\n", None),
            ],
            error: vec![
                piece("  {{name}} = {{id}} ({{severity}})", None),
                piece(" -- {{message}}", Some(Placeholder::Message)),
                piece(" {{package}}\n", Some(Placeholder::Package)),
            ],
        }],
    };
    let out = t.write_down("app", &errors);
    let expected = "package app\n\
enum {\n\
// io: Input/output\n\
[0001..0003]\n  NotFound = 0001 (error) -- file missing app\n  Denied = 0003 (critical) app\n\
// general: Default category.\n\
[0002..0002]\n  Bad = 0002 (warning) app\n\
// \n\
[0004..0004]\n  Lost = 0004 (info) app\n\
}\n\
// end app";
    assert_eq!(out, expected);
}

#[test]
fn end_follows_every_emitted_piece() {
    let mut errors = ProjectErrors::initial();
    errors.errors.push(entry("a", "n", "0", Severity::Info));
    errors.errors.push(entry("b", "n", "0", Severity::Info));
    let t = Template {
        header: String::new(),
        footer: String::new(),
        sections: vec![Section {
            prefix: String::new(),
            suffix: String::new(),
            end: ";".into(),
            category_end: String::new(),
            category: vec![],
            error: vec![piece("{{id}}", None)],
        }],
    };
    assert_eq!(t.write_down("p", &errors), "a;b;");
    let mut t2 = t.clone();
    t2.sections[0].category = vec![piece("<{{category}}>", None), piece("{{hint}}", Some(Placeholder::Hint))];
    t2.sections[0].end = "{{category}};".into();
    assert_eq!(t2.write_down("p", &errors), "<general>general;ageneral;bgeneral;");
}

#[test]
fn plain_text_renders_verbatim() {
    let errors = ProjectErrors::initial();
    let t = Template { header: "just text }}".into(), footer: "!".into(), sections: vec![] };
    assert_eq!(t.write_down("pkg", &errors), "just text }}!");
}

#[test]
fn replacements_do_not_overlap() {
    let errors = ProjectErrors::initial();
    let t = Template { header: "{{{package}}}}{{package}}{{packag".into(), footer: String::new(), sections: vec![] };
    assert_eq!(t.write_down("x", &errors), "{{{package}}}}{{package}}{{packag".replace("{{package}}", "x"));
}

#[test]
fn empty_sections_render_prefix_and_suffix() {
    let errors = ProjectErrors::initial();
    let s = Section {
        prefix: "<".into(),
        suffix: ">".into(),
        end: default_end(),
        category_end: "#".into(),
        category: vec![piece("C", None)],
        error: vec![piece("E", None)],
    };
    let t = Template { header: String::new(), footer: String::new(), sections: vec![s.clone(), s] };
    assert_eq!(t.write_down("p", &errors), "<><>");
}

#[test]
fn each_error_is_rendered_once_in_its_group() {
    let mut errors = ProjectErrors::initial();
    for (i, c) in ["a", "b", "a", "c", "b", "a"].iter().enumerate() {
        errors.errors.push(entry(&format!("{i}"), "n", c, Severity::Info));
    }
    let t = Template {
        header: String::new(),
        footer: String::new(),
        sections: vec![Section {
            prefix: String::new(),
            suffix: String::new(),
            end: "|".into(),
            category_end: ":".into(),
            category: vec![piece("[", None)],
            error: vec![piece("{{id}}", None)],
        }],
    };
    assert_eq!(t.write_down("p", &errors), "[|:0|2|5|[|:1|4|[|:3|");
}

fn text(v: Vec<char>) -> String {
    v.into_iter().collect()
}

#[test]
fn unknown_placeholders_are_left_intact() {
    let e = entry("7", "n", "0", Severity::Info);
    let c = cat("io", "d");
    let errs = vec![e.clone()];
    let out = Template::replace_in_text("{{foo}} x {{ id }}", "p", Some(&c), &errs, Some(&e));
    assert_eq!(text(out), "{{foo}} x {{ id }}");
}

#[test]
fn placeholder_values_are_what_tokens_render_to() {
    let mut e = entry("0007", "Name", "0", Severity::Warning);
    e.message = "msg".into();
    e.hint = String::new();
    let c = cat("io", "desc");
    let errs = vec![entry("0001", "a", "0", Severity::Info), e.clone()];
    let cases = [
        (Placeholder::Id, "{{id}}"),
        (Placeholder::Name, "{{name}}"),
        (Placeholder::Message, "{{message}}"),
        (Placeholder::Hint, "{{hint}}"),
        (Placeholder::Severity, "{{severity}}"),
        (Placeholder::Category, "{{category}}"),
        (Placeholder::CategoryDescription, "{{category_description}}"),
        (Placeholder::CategoryIdStart, "{{category_id_start}}"),
        (Placeholder::CategoryIdEnd, "{{category_id_end}}"),
    ];
    for (ph, tok) in cases {
        for (cat_opt, err_opt) in [(Some(&c), Some(&e)), (None, None)] {
            let v = text(Template::placeholder_value(ph, cat_opt, &errs, err_opt));
            let r = text(Template::replace_in_text(tok, "pkg", cat_opt, &errs, err_opt));
            assert_eq!(v, r, "{tok}");
        }
    }
    assert_eq!(text(Template::placeholder_value(Placeholder::CategoryIdStart, None, &errs, None)), "0001");
    assert_eq!(text(Template::placeholder_value(Placeholder::CategoryIdEnd, None, &errs, None)), "0007");
}

#[test]
fn the_skip_rule() {
    let e = entry("1", "n", "0", Severity::Info);
    let errs = vec![e.clone()];
    let c = cat("io", " \t\n");
    assert!(!Template::should_skip(&piece("x", None), None, &errs, None));
    assert!(!Template::should_skip(&piece("x", Some(Placeholder::Package)), None, &errs, None));
    assert!(Template::should_skip(&piece("x", Some(Placeholder::Message)), Some(&c), &errs, Some(&e)));
    assert!(Template::should_skip(&piece("x", Some(Placeholder::CategoryDescription)), Some(&c), &errs, None));
    assert!(!Template::should_skip(&piece("x", Some(Placeholder::Category)), Some(&c), &errs, None));
    assert!(Template::should_skip(&piece("x", Some(Placeholder::Category)), None, &errs, None));
    assert!(!Template::should_skip(&piece("x", Some(Placeholder::Id)), None, &errs, Some(&e)));
}

#[test]
fn grouping_keeps_first_occurrence_order() {
    let mut errors = ProjectErrors::initial();
    for (i, c) in ["b", "a", "b", "c"].iter().enumerate() {
        errors.errors.push(entry(&format!("{i}"), "n", c, Severity::Info));
    }
    let g = Template::group_by_category(&errors);
    let shape: Vec<(String, Vec<String>)> =
        g.into_iter().map(|(k, es)| (k, es.into_iter().map(|e| e.id).collect())).collect();
    assert_eq!(
        shape,
        vec![
            ("b".to_string(), vec!["0".to_string(), "2".to_string()]),
            ("a".to_string(), vec!["1".to_string()]),
            ("c".to_string(), vec!["3".to_string()]),
        ]
    );
}

#[test]
fn rendering_decomposes_into_sections() {
    let mut errors = ProjectErrors::initial();
    errors.errors.push(entry("1", "n", "0", Severity::Info));
    errors.errors.push(entry("2", "m", "0", Severity::Error));
    let s1 = Section {
        prefix: "<{{package}}>".into(),
        suffix: "</>".into(),
        end: "|".into(),
        category_end: "#".into(),
        category: vec![piece("{{category}}", None)],
        error: vec![piece("{{name}}", None)],
    };
    let mut s2 = s1.clone();
    s2.prefix = "[".into();
    s2.suffix = "]".into();
    s2.error = vec![piece("{{severity}}", None)];
    let t = Template { header: "H{{package}}".into(), footer: "F".into(), sections: vec![s1.clone(), s2.clone()] };
    let bare = |s: &Section| {
        let mut b = s.clone();
        b.prefix = String::new();
        b.suffix = String::new();
        Template { header: String::new(), footer: String::new(), sections: vec![b] }.write_down("p", &errors)
    };
    let r = |x: &str| text(Template::replace_in_text(x, "p", None, &vec![], None));
    let expected = r("H{{package}}")
        + &r(&s1.prefix) + &bare(&s1) + &r(&s1.suffix)
        + &r(&s2.prefix) + &bare(&s2) + &r(&s2.suffix)
        + &r("F");
    assert_eq!(t.write_down("p", &errors), expected);
    assert_eq!(expected, "Hp<p>general|#n|m|</>[general|#info|error|]F");
}

#[test]
fn id_lines_list_each_error_once() {
    let mut errors = ProjectErrors::initial();
    for (i, c) in ["x", "y", "x"].iter().enumerate() {
        errors.errors.push(entry(&format!("e{i}"), "n", c, Severity::Info));
    }
    let t = Template {
        header: String::new(),
        footer: String::new(),
        sections: vec![Section {
            prefix: String::new(),
            suffix: String::new(),
            end: String::new(),
            category_end: String::new(),
            category: vec![],
            error: vec![piece("{{id}}\n", None)],
        }],
    };
    assert_eq!(t.write_down("p", &errors), "e0\ne2\ne1\n");
}

#[test]
fn category_identifiers_are_checked_distinct() {
    let mut e = ProjectErrors::initial();
    assert!(e.check_wf());
    e.categories.push(("0".into(), cat("dup", "")));
    assert!(!e.check_wf());
}

#[test]
fn overflowing_counters_are_detected() {
    let h = IdGenerator::SequentialHex { digits: 4 };
    assert!(h.next_would_overflow("0xffffffff"));
    assert!(h.next_would_overflow("ffffffff"));
    assert!(!h.next_would_overflow("0xfffffffe"));
    let d = IdGenerator::Sequential { digits: 4 };
    assert!(d.next_would_overflow("4294967295"));
    assert!(!d.next_would_overflow("0x1"));
    assert!(!IdGenerator::RandomHex { length: 2 }.next_would_overflow("4294967295"));
}

#[test]
fn pattern_lengths_and_matches() {
    let len = |p: &str| parse_regex(p).and_then(|t| check_len(&t));
    assert_eq!(len("a(bc){3}"), Ok(7));
    assert_eq!(len("^(?:ab|cd)x$"), Ok(3));
    assert_eq!(len("[^x].\\d"), Ok(3));
    assert_eq!(len("(a|b)(c|d){10}"), Ok(11));
    assert_eq!(len("a|"), Err(PatternError::VariableLength));
    assert_eq!(len("a(b"), Err(PatternError::Malformed));
    assert_eq!(len("\\pL"), Err(PatternError::Unsupported));
    let t = parse_regex("[^\u{0}-\u{10ffff}]").unwrap();
    assert!(!has_match(&t, true, true));
    let t = parse_regex("[^\u{0}-\u{10fffe}]").unwrap();
    assert!(has_match(&t, true, true));
    assert!(has_match(&parse_regex("a{0}").unwrap(), true, true));
    let t = parse_regex("^a").unwrap();
    assert!(has_match(&t, true, false) && !has_match(&t, false, true));
    let t = parse_regex("a$").unwrap();
    assert!(has_match(&t, false, true) && !has_match(&t, true, false));
    assert_eq!(find_outside(&vec![('\u{0}', 'b')]), Some('c'));
    assert_eq!(find_outside(&vec![('\u{0}', '\u{d7ff}'), ('\u{e000}', '\u{10ffff}')]), None);
    assert!(in_ranges_exec('k', &vec![('a', 'c'), ('j', 'l')]));
    assert!(!in_ranges_exec('d', &vec![('a', 'c'), ('j', 'l')]));
}
