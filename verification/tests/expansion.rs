use bombini::config::{expand_config, expand_value, parse_defs, parse_list_defs};
use bombini::error::ExpandError;
use bombini::macros::{expand_str, resolve, substitute_lists, substitute_macros};
use bombini::table::NameTable;
use bombini::text::is_valid_name;
use bombini::yaml::YamlValue;

fn s(text: &str) -> YamlValue {
    YamlValue::String(text.to_string())
}

fn map(entries: Vec<(&str, YamlValue)>) -> YamlValue {
    YamlValue::Mapping(entries.into_iter().map(|(k, v)| (k.to_string(), v)).collect())
}

fn table(entries: &[(&str, &str)]) -> NameTable {
    let mut t = NameTable::new();
    for (k, v) in entries {
        assert!(t.insert_new(k.to_string(), v.to_string()));
    }
    t
}

fn get<'a>(t: &'a NameTable, k: &str) -> Option<&'a str> {
    t.get(&k.to_string()).map(|v| v.as_str())
}

fn names(path: &[&str]) -> Vec<String> {
    path.iter().map(|p| p.to_string()).collect()
}

#[test]
fn valid_names() {
    assert!(is_valid_name("shell_binaries"));
    assert!(is_valid_name("A9_"));
    assert!(is_valid_name("x"));
    assert!(!is_valid_name(""));
    assert!(!is_valid_name("_x"));
    assert!(!is_valid_name("1a"));
    assert!(!is_valid_name("a-b"));
    assert!(!is_valid_name("é"));
}

#[test]
fn lists_replace_whole_words_outside_quotes() {
    let lists = table(&[("bins", "\"bash\", \"sh\"")]);
    assert_eq!(
        substitute_lists("binary in [bins] and name == \"bins\" or bins_x", &lists),
        "binary in [\"bash\", \"sh\"] and name == \"bins\" or bins_x"
    );
}

#[test]
fn lists_absent_leave_text_unchanged() {
    let lists = NameTable::new();
    let text = "a and \"b\" or c1 == 3";
    assert_eq!(substitute_lists(text, &lists), text);
    let other = table(&[("zzz", "1")]);
    assert_eq!(substitute_lists(text, &other), text);
}

#[test]
fn unterminated_quote_runs_to_end() {
    let lists = table(&[("a", "X")]);
    assert_eq!(substitute_lists("a \"a b", &lists), "X \"a b");
}

#[test]
fn names_match_whole_words_only() {
    let lists = table(&[("a", "X"), ("a1", "Y"), ("shells", "1"), ("x1f", "Z")]);
    assert_eq!(substitute_lists("1a a1 _a a", &lists), "1a Y _a X");
    assert_eq!(substitute_lists("_shells shells 0x1f x1f", &lists), "_shells 1 0x1f Z");
}

#[test]
fn macros_substituted_once_in_parentheses() {
    let resolved = table(&[("m", "x == 1 or n"), ("n", "y")]);
    assert_eq!(substitute_macros("m and \"m\" and q", &resolved), "(x == 1 or n) and \"m\" and q");
}

#[test]
fn resolve_expands_nested_macros() {
    let defs = table(&[("a", "b and c"), ("b", "x == 1"), ("c", "\"b\" or b")]);
    let mut resolved = NameTable::new();
    let mut stack = Vec::new();
    let out = resolve("a", &defs, &mut resolved, &mut stack).unwrap();
    assert_eq!(out, "(x == 1) and (\"b\" or (x == 1))");
    assert!(stack.is_empty());
    assert_eq!(get(&resolved, "a"), Some("(x == 1) and (\"b\" or (x == 1))"));
    assert_eq!(get(&resolved, "b"), Some("x == 1"));
    assert_eq!(get(&resolved, "c"), Some("\"b\" or (x == 1)"));
    assert_eq!(resolved.len(), 3);
}

#[test]
fn resolve_uses_the_memo() {
    let defs = table(&[("a", "b"), ("b", "x")]);
    let mut resolved = table(&[("b", "y")]);
    let mut stack = Vec::new();
    let out = resolve("a", &defs, &mut resolved, &mut stack).unwrap();
    assert_eq!(out, "(y)");
    let again = resolve("b", &defs, &mut resolved, &mut stack).unwrap();
    assert_eq!(again, "y");
}

#[test]
fn resolve_reports_a_cycle() {
    let defs = table(&[("a", "b or x"), ("b", "c"), ("c", "a")]);
    let mut resolved = NameTable::new();
    let mut stack = Vec::new();
    let err = resolve("a", &defs, &mut resolved, &mut stack).unwrap_err();
    assert_eq!(err, ExpandError::CyclicMacro(names(&["a", "b", "c", "a"])));
    assert_eq!(resolved.len(), 0);
}

#[test]
fn resolve_reports_a_self_reference() {
    let defs = table(&[("a", "a or x")]);
    let mut resolved = NameTable::new();
    let mut stack = Vec::new();
    let err = resolve("a", &defs, &mut resolved, &mut stack).unwrap_err();
    assert_eq!(err, ExpandError::CyclicMacro(names(&["a", "a"])));
}

#[test]
fn expand_str_of_plain_text() {
    let defs = table(&[("m", "k > 2")]);
    let mut resolved = NameTable::new();
    let mut stack = Vec::new();
    let out = expand_str("m or not m or \"m\"", &defs, &mut resolved, &mut stack).unwrap();
    assert_eq!(out, "(k > 2) or not (k > 2) or \"m\"");
    let err = expand_str(
        "z",
        &table(&[("z", "w"), ("w", "z")]),
        &mut NameTable::new(),
        &mut Vec::new(),
    )
    .unwrap_err();
    assert_eq!(err, ExpandError::CyclicMacro(names(&["z", "w", "z"])));
}

#[test]
fn list_defs_join_items() {
    let lists = s("x");
    assert_eq!(parse_list_defs(&lists).unwrap_err(), ExpandError::ListsNotSequence);
    let v = YamlValue::Sequence(vec![
        map(vec![
            ("list", s("mixed")),
            ("items", YamlValue::Sequence(vec![YamlValue::Integer(1), YamlValue::Integer(-2), s("a b"), YamlValue::Integer(i64::MIN)])),
        ]),
        map(vec![("items", YamlValue::Sequence(vec![s("bash")])), ("list", s("shells"))]),
    ]);
    let t = parse_list_defs(&v).unwrap();
    assert_eq!(t.len(), 2);
    assert_eq!(get(&t, "mixed"), Some("1, -2, \"a b\", -9223372036854775808"));
    assert_eq!(get(&t, "shells"), Some("\"bash\""));
}

#[test]
fn list_defs_errors() {
    let one = |e: YamlValue| parse_list_defs(&YamlValue::Sequence(vec![e])).unwrap_err();
    assert_eq!(one(s("x")), ExpandError::ListEntryNotMapping);
    assert_eq!(one(map(vec![("items", YamlValue::Sequence(vec![s("a")]))])), ExpandError::ListNameMissing);
    assert_eq!(one(map(vec![("list", YamlValue::Integer(3))])), ExpandError::ListNameMissing);
    assert_eq!(
        one(map(vec![("list", s("1bad")), ("items", YamlValue::Sequence(vec![s("a")]))])),
        ExpandError::InvalidListName("1bad".to_string())
    );
    assert_eq!(one(map(vec![("list", s("l"))])), ExpandError::ListItemsMissing("l".to_string()));
    assert_eq!(
        one(map(vec![("list", s("l")), ("items", s("a"))])),
        ExpandError::ListItemsMissing("l".to_string())
    );
    assert_eq!(
        one(map(vec![("list", s("l")), ("items", YamlValue::Sequence(vec![]))])),
        ExpandError::ListEmpty("l".to_string())
    );
    assert_eq!(
        one(map(vec![
            ("list", s("l")),
            ("items", YamlValue::Sequence(vec![s("a"), YamlValue::Float(1.5f64.to_bits()), YamlValue::Bool(true)])),
        ])),
        ExpandError::ListItemNotScalar("l".to_string())
    );
    let dup = YamlValue::Sequence(vec![
        map(vec![("list", s("l")), ("items", YamlValue::Sequence(vec![s("a")]))]),
        map(vec![("list", s("l")), ("items", YamlValue::Sequence(vec![s("b")]))]),
    ]);
    assert_eq!(parse_list_defs(&dup).unwrap_err(), ExpandError::DuplicateList("l".to_string()));
}

#[test]
fn macro_defs_errors() {
    assert_eq!(parse_defs(&s("x")).unwrap_err(), ExpandError::MacrosNotSequence);
    let one = |e: YamlValue| parse_defs(&YamlValue::Sequence(vec![e])).unwrap_err();
    assert_eq!(one(YamlValue::Null), ExpandError::MacroEntryNotMapping);
    assert_eq!(one(map(vec![("condition", s("a"))])), ExpandError::MacroNameMissing);
    assert_eq!(one(map(vec![("macro", s("m"))])), ExpandError::MacroConditionMissing("m".to_string()));
    assert_eq!(
        one(map(vec![("macro", s("bad name")), ("condition", s("a"))])),
        ExpandError::InvalidMacroName("bad name".to_string())
    );
    assert_eq!(
        one(map(vec![("macro", s("m")), ("condition", s(" \t\n\u{3000}"))])),
        ExpandError::EmptyCondition("m".to_string())
    );
    let dup = YamlValue::Sequence(vec![
        map(vec![("macro", s("m")), ("condition", s("a"))]),
        map(vec![("macro", s("m")), ("condition", s("b"))]),
    ]);
    assert_eq!(parse_defs(&dup).unwrap_err(), ExpandError::DuplicateMacro("m".to_string()));
    let ok = YamlValue::Sequence(vec![map(vec![("macro", s("m")), ("condition", s(" a "))])]);
    let t = parse_defs(&ok).unwrap();
    assert_eq!(get(&t, "m"), Some(" a "));
}

fn sample_config() -> YamlValue {
    map(vec![
        (
            "lists",
            YamlValue::Sequence(vec![map(vec![
                ("list", s("shells")),
                ("items", YamlValue::Sequence(vec![s("bash"), s("zsh")])),
            ])]),
        ),
        ("name", s("procmon")),
        (
            "macros",
            YamlValue::Sequence(vec![
                map(vec![("macro", s("is_shell")), ("condition", s("binary_name in [shells]"))]),
                map(vec![("macro", s("root_shell")), ("condition", s("is_shell and uid == 0"))]),
            ]),
        ),
        (
            "rules",
            YamlValue::Sequence(vec![map(vec![
                ("rule", s("root_shell")),
                ("event", s("root_shell or shells")),
                ("scope", s("\"is_shell\"")),
                ("description", s("is_shell")),
                ("nested", map(vec![("event", s("is_shell")), ("scope", YamlValue::Integer(4))])),
            ])]),
        ),
    ])
}

#[test]
fn config_expands_predicates() {
    let mut v = sample_config();
    expand_config(&mut v).unwrap();
    let expected = map(vec![
        ("name", s("procmon")),
        (
            "rules",
            YamlValue::Sequence(vec![map(vec![
                ("rule", s("root_shell")),
                (
                    "event",
                    s("((binary_name in [\"bash\", \"zsh\"]) and uid == 0) or \"bash\", \"zsh\""),
                ),
                ("scope", s("\"is_shell\"")),
                ("description", s("is_shell")),
                (
                    "nested",
                    map(vec![("event", s("(binary_name in [\"bash\", \"zsh\"])")), ("scope", YamlValue::Integer(4))]),
                ),
            ])]),
        ),
    ]);
    assert_eq!(v, expected);
}

#[test]
fn config_without_definitions_is_unchanged() {
    let original = map(vec![("rules", YamlValue::Sequence(vec![map(vec![("event", s("a and b"))])]))]);
    let mut v = map(vec![("rules", YamlValue::Sequence(vec![map(vec![("event", s("a and b"))])]))]);
    expand_config(&mut v).unwrap();
    assert_eq!(v, original);
    let mut scalar = s("text");
    expand_config(&mut scalar).unwrap();
    assert_eq!(scalar, s("text"));
    let mut empty_lists = map(vec![("lists", YamlValue::Sequence(vec![])), ("x", s("a"))]);
    expand_config(&mut empty_lists).unwrap();
    assert_eq!(empty_lists, map(vec![("x", s("a"))]));
}

#[test]
fn config_errors_keep_removed_keys_removed() {
    let mut v = map(vec![
        ("macros", YamlValue::Sequence(vec![])),
        ("lists", s("oops")),
        ("x", s("a")),
    ]);
    assert_eq!(expand_config(&mut v).unwrap_err(), ExpandError::ListsNotSequence);
    assert_eq!(v, map(vec![("macros", YamlValue::Sequence(vec![])), ("x", s("a"))]));
    let mut w = map(vec![("macros", s("oops")), ("x", s("a"))]);
    assert_eq!(expand_config(&mut w).unwrap_err(), ExpandError::MacrosNotSequence);
    assert_eq!(w, map(vec![("x", s("a"))]));
}

#[test]
fn config_rejects_cycles() {
    let mut v = map(vec![
        (
            "macros",
            YamlValue::Sequence(vec![
                map(vec![("macro", s("fine")), ("condition", s("x"))]),
                map(vec![("macro", s("p")), ("condition", s("q and fine"))]),
                map(vec![("macro", s("q")), ("condition", s("p"))]),
            ]),
        ),
        ("event", s("p")),
    ]);
    assert_eq!(expand_config(&mut v).unwrap_err(), ExpandError::CyclicMacro(names(&["p", "q", "p"])));
    assert_eq!(v, map(vec![("event", s("p"))]));
}

#[test]
fn lists_reach_macros_before_resolution() {
    let mut v = map(vec![
        (
            "lists",
            YamlValue::Sequence(vec![map(vec![("list", s("m")), ("items", YamlValue::Sequence(vec![YamlValue::Integer(7)]))])]),
        ),
        (
            "macros",
            YamlValue::Sequence(vec![
                map(vec![("macro", s("m")), ("condition", s("y"))]),
                map(vec![("macro", s("k")), ("condition", s("m + 1"))]),
            ]),
        ),
        ("scope", s("k")),
        ("event", YamlValue::Tagged("!t".to_string(), Box::new(s("k")))),
    ]);
    expand_config(&mut v).unwrap();
    assert_eq!(
        v,
        map(vec![
            ("scope", s("(7 + 1)")),
            ("event", YamlValue::Tagged("!t".to_string(), Box::new(s("k")))),
        ])
    );
}

#[test]
fn expand_value_walks_sequences() {
    let lists = table(&[("l", "1, 2")]);
    let resolved = table(&[("m", "a")]);
    let mut v = YamlValue::Sequence(vec![
        map(vec![("scope", s("m in [l]")), ("other", s("m"))]),
        YamlValue::Sequence(vec![map(vec![("event", s("l"))])]),
        YamlValue::Float(2.5f64.to_bits()),
    ]);
    expand_value(&mut v, &lists, &resolved);
    assert_eq!(
        v,
        YamlValue::Sequence(vec![
            map(vec![("scope", s("(a) in [1, 2]")), ("other", s("m"))]),
            YamlValue::Sequence(vec![map(vec![("event", s("1, 2"))])]),
            YamlValue::Float(2.5f64.to_bits()),
        ])
    );
}

#[test]
fn table_keeps_first_definition() {
    let mut t = NameTable::new();
    assert!(t.is_empty());
    assert!(t.insert_new("a".to_string(), "1".to_string()));
    assert!(!t.insert_new("a".to_string(), "2".to_string()));
    assert_eq!(get(&t, "a"), Some("1"));
    assert!(t.contains_key(&"a".to_string()));
    assert!(!t.contains_key(&"b".to_string()));
    let d = t.duplicate();
    assert_eq!(d.key_at(0), "a");
    assert_eq!(d.value_at(0), "1");
}

#[test]
fn lists_are_substituted_in_one_pass() {
    let lists = table(&[("a", "b"), ("b", "c")]);
    assert_eq!(substitute_lists("a b", &lists), "b c");
}

#[test]
fn quoted_literal_is_copied() {
    let lists = table(&[("a", "X")]);
    assert_eq!(substitute_lists("\"a and a\"", &lists), "\"a and a\"");
    let resolved = table(&[("a", "X")]);
    assert_eq!(substitute_macros("\"a\"a", &resolved), "\"a\"(X)");
}

#[test]
fn expanding_twice_changes_nothing_more() {
    let mut v = sample_config();
    expand_config(&mut v).unwrap();
    let once = format!("{:?}", v);
    expand_config(&mut v).unwrap();
    assert_eq!(format!("{:?}", v), once);
}

#[test]
fn resolve_returns_any_cached_text() {
    let defs = table(&[("a", "x")]);
    let mut resolved = table(&[("zz", "anything")]);
    let mut stack = names(&["zz"]);
    assert_eq!(resolve("zz", &defs, &mut resolved, &mut stack).unwrap(), "anything");
    assert_eq!(resolved.len(), 1);
    assert_eq!(stack, names(&["zz"]));
}

#[test]
fn resolve_of_a_name_in_progress_is_a_cycle() {
    let defs = table(&[("a", "x")]);
    let mut resolved = NameTable::new();
    let mut stack = names(&["p", "q"]);
    let err = resolve("q", &defs, &mut resolved, &mut stack).unwrap_err();
    assert_eq!(err, ExpandError::CyclicMacro(names(&["p", "q", "q"])));
    assert_eq!(resolved.len(), 0);
    let mut stack2 = names(&["p"]);
    let err2 = resolve("a", &table(&[("a", "p"), ("p", "z")]), &mut resolved, &mut stack2).unwrap_err();
    assert_eq!(err2, ExpandError::CyclicMacro(names(&["p", "a", "p"])));
}

#[test]
fn expand_str_memoizes_the_macros_it_meets() {
    let defs = table(&[("shell", "binary == 1"), ("other", "y")]);
    let mut resolved = NameTable::new();
    let mut stack = Vec::new();
    let out = expand_str("shell and uid == 0", &defs, &mut resolved, &mut stack).unwrap();
    assert_eq!(out, "(binary == 1) and uid == 0");
    assert_eq!(resolved.len(), 1);
    assert_eq!(get(&resolved, "shell"), Some("binary == 1"));
    assert!(stack.is_empty());
    let defs2 = table(&[("a", "b or c"), ("b", "x")]);
    let mut memo = NameTable::new();
    assert_eq!(expand_str("a", &defs2, &mut memo, &mut Vec::new()).unwrap(), "((x) or c)");
    assert_eq!(memo.len(), 2);
    assert_eq!(get(&memo, "a"), Some("(x) or c"));
    assert_eq!(get(&memo, "b"), Some("x"));
}

#[test]
fn resolve_order_gives_the_same_memo() {
    let defs = table(&[("m", "n and x"), ("n", "y"), ("o", "n")]);
    let mut first = NameTable::new();
    resolve("m", &defs, &mut first, &mut Vec::new()).unwrap();
    resolve("o", &defs, &mut first, &mut Vec::new()).unwrap();
    let mut second = NameTable::new();
    resolve("o", &defs, &mut second, &mut Vec::new()).unwrap();
    resolve("m", &defs, &mut second, &mut Vec::new()).unwrap();
    for k in ["m", "n", "o"] {
        assert_eq!(get(&first, k), get(&second, k));
    }
    assert_eq!(first.len(), 3);
    assert_eq!(second.len(), 3);
}

#[test]
fn substituting_joined_texts() {
    let lists = table(&[("l", "1, 2")]);
    let a = "x in [l] and \"l\"";
    let b = "l or \"q";
    assert_eq!(
        substitute_lists(&format!("{a} {b}"), &lists),
        format!("{} {}", substitute_lists(a, &lists), substitute_lists(b, &lists))
    );
}

#[test]
fn macro_names_after_underscore_or_digit_expand() {
    let defs = table(&[("m", "x")]);
    let mut resolved = NameTable::new();
    let mut stack = Vec::new();
    assert_eq!(expand_str("_m", &defs, &mut resolved, &mut stack).unwrap(), "_(x)");
    assert_eq!(expand_str("9m", &defs, &mut resolved, &mut stack).unwrap(), "9(x)");
    assert_eq!(expand_str("m_ m9", &defs, &mut resolved, &mut stack).unwrap(), "m_ m9");
    let resolved2 = table(&[("m", "x")]);
    assert_eq!(substitute_macros("_m 7m m7 \"_m\"", &resolved2), "_(x) 7(x) m7 \"_m\"");
}

#[test]
fn macro_after_underscore_can_close_a_cycle() {
    let defs = table(&[("a", "_a")]);
    let err = resolve("a", &defs, &mut NameTable::new(), &mut Vec::new()).unwrap_err();
    assert_eq!(err, ExpandError::CyclicMacro(names(&["a", "a"])));
    let defs2 = table(&[("a", "_b"), ("b", "x")]);
    let mut memo = NameTable::new();
    assert_eq!(resolve("a", &defs2, &mut memo, &mut Vec::new()).unwrap(), "_(x)");
    assert_eq!(get(&memo, "a"), Some("_(x)"));
}

#[test]
fn config_expands_names_after_underscore() {
    let mut v = map(vec![
        (
            "macros",
            YamlValue::Sequence(vec![map(vec![("macro", s("m")), ("condition", s("x"))])]),
        ),
        ("scope", s("_m and 2m")),
    ]);
    expand_config(&mut v).unwrap();
    assert_eq!(v, map(vec![("scope", s("_(x) and 2(x)"))]));
    let mut w = map(vec![(
        "macros",
        YamlValue::Sequence(vec![map(vec![("macro", s("a")), ("condition", s("_a"))])]),
    )]);
    assert_eq!(expand_config(&mut w).unwrap_err(), ExpandError::CyclicMacro(names(&["a", "a"])));
    let lists = NameTable::new();
    let resolved = table(&[("m", "x")]);
    let mut u = map(vec![("scope", s("_m"))]);
    expand_value(&mut u, &lists, &resolved);
    assert_eq!(u, map(vec![("scope", s("_(x)"))]));
}

#[test]
fn error_messages() {
    assert_eq!(
        ExpandError::CyclicMacro(names(&["a", "b", "a"])).message(),
        "cyclic macro reference: a -> b -> a"
    );
    assert_eq!(ExpandError::CyclicMacro(names(&["a"])).message(), "cyclic macro reference: a");
    assert_eq!(
        ExpandError::InvalidListName("1x".to_string()).message(),
        "invalid list name `1x`: expected an identifier like `shell_binaries`"
    );
    assert_eq!(ExpandError::ListEmpty("l".to_string()).message(), "list `l` has no items");
    assert_eq!(
        ExpandError::MacrosNotSequence.message(),
        "`macros` must be a list of `- macro: <name>` / `condition: <expr>` entries"
    );
    assert_eq!(
        ExpandError::EmptyCondition("m".to_string()).message(),
        "macro `m` has an empty `condition`"
    );
    assert_eq!(
        ExpandError::DuplicateMacro("m".to_string()).message(),
        "macro `m` is defined more than once"
    );
}

#[test]
fn cycle_reported_is_the_first_met_in_text_order() {
    let defs = table(&[("a", "x or c or b"), ("b", "b"), ("c", "d"), ("d", "c")]);
    let mut stack = Vec::new();
    let err = resolve("a", &defs, &mut NameTable::new(), &mut stack).unwrap_err();
    assert_eq!(err, ExpandError::CyclicMacro(names(&["a", "c", "d", "c"])));
    assert_eq!(stack, names(&["a", "c", "d", "c"]));
    let defs2 = table(&[("a", "b and c"), ("b", "y"), ("c", "d"), ("d", "a")]);
    let mut memo = NameTable::new();
    let mut stack2 = Vec::new();
    let err2 = expand_str("z a", &defs2, &mut memo, &mut stack2).unwrap_err();
    assert_eq!(err2, ExpandError::CyclicMacro(names(&["a", "c", "d", "a"])));
    assert_eq!(get(&memo, "b"), Some("y"));
    assert_eq!(memo.len(), 1);
    assert_eq!(stack2, names(&["a", "c", "d", "a"]));
    let mut v = map(vec![(
        "macros",
        YamlValue::Sequence(vec![
            map(vec![("macro", s("ok")), ("condition", s("q"))]),
            map(vec![("macro", s("p")), ("condition", s("ok and r or s"))]),
            map(vec![("macro", s("r")), ("condition", s("p"))]),
            map(vec![("macro", s("s")), ("condition", s("s"))]),
        ]),
    )]);
    assert_eq!(expand_config(&mut v).unwrap_err(), ExpandError::CyclicMacro(names(&["p", "r", "p"])));
}
