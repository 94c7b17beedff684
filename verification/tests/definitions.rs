use rslex::definitions::{
    build_rules, expand_definitions, expand_matches, expand_with, Definitions, ExpandError,
};
use rslex::lexspec::build_desc_from_lines;
use rslex::text::{chars_of, replace_all, string_of};

#[test]
fn test_expand_def() {
    let rules: Definitions = build_rules("path");

    let formatted1 = expand_definitions("{digit}+ and {lower}.*", &rules).unwrap();
    let formatted2 = expand_definitions("{word}.* or {alnum}", &rules).unwrap();
    let formatted3 = expand_definitions("{ascii} and {blank}.*", &rules).unwrap();

    assert_eq!(formatted1, "[0-9]+ and [a-z].*");
    assert_eq!(formatted2, "[0-9A-Za-z_].* or [0-9A-Za-z]");
    assert_eq!(formatted3, "[\\x00-\\x7F] and [\\t ].*");
}

#[test]
fn expand_unknown_definition() {
    let rules = build_rules("path");
    assert_eq!(
        expand_definitions("{digit}{nothing}", &rules),
        Err(ExpandError::UnknownDefinition)
    );
}

#[test]
fn expand_leaves_other_text() {
    let rules = build_rules("path");
    assert_eq!(expand_definitions("a{1,2} {x1}", &rules).unwrap(), "a{1,2} {x1}");
    assert_eq!(expand_definitions("", &rules).unwrap(), "");
}

#[test]
fn expand_with_given_references() {
    let mut map = Definitions::new();
    map.insert("a".to_string(), "{b}".to_string());
    map.insert("b".to_string(), "c".to_string());
    let refs = vec!["{a}".to_string(), "{b}".to_string()];
    assert_eq!(expand_with("{a}{b}{a}", &refs, &map).unwrap(), "ccc");
    let short = vec!["{".to_string()];
    assert_eq!(expand_with("{a}", &short, &map), Err(ExpandError::BadReference));
}

#[test]
fn definitions_insert_overwrites() {
    let mut map = Definitions::new();
    map.insert("digit".to_string(), "[0-9]".to_string());
    map.insert("digit".to_string(), "[0-7]".to_string());
    assert_eq!(map.get(&"digit".to_string()), Some(&"[0-7]".to_string()));
    assert_eq!(map.get(&"lower".to_string()), None);
}

#[test]
fn build_rules_holds_all_classes() {
    let rules = build_rules("");
    assert_eq!(rules.get(&"alnum".to_string()).unwrap(), "[0-9A-Za-z]");
    assert_eq!(rules.get(&"alpha".to_string()).unwrap(), "[A-Za-z]");
    assert_eq!(rules.get(&"cntrl".to_string()).unwrap(), "[\\x00-\\x1F\\x7F]");
    assert_eq!(rules.get(&"graph".to_string()).unwrap(), "[!-~]");
    assert_eq!(rules.get(&"print".to_string()).unwrap(), "[ -~]");
    assert_eq!(rules.get(&"punct".to_string()).unwrap(), "[!-/:-@[-`{-~]");
    assert_eq!(rules.get(&"space".to_string()).unwrap(), "[\\t\\n\\v\\f\\r ]");
    assert_eq!(rules.get(&"upper".to_string()).unwrap(), "[A-Z]");
    assert_eq!(rules.get(&"xdigit".to_string()).unwrap(), "[0-9A-Fa-f]");
    assert_eq!(rules.get(&"Alpha".to_string()), None);
}

#[test]
fn replace_all_from_the_left() {
    let text = chars_of("aaa-aa");
    let res = replace_all(&text, &chars_of("aa"), &chars_of("b"));
    assert_eq!(string_of(&res), "ba-b");
    let res2 = replace_all(&chars_of("abc"), &chars_of("x"), &chars_of("y"));
    assert_eq!(string_of(&res2), "abc");
    let res3 = replace_all(&chars_of("é{a}é"), &chars_of("{a}"), &chars_of(""));
    assert_eq!(string_of(&res3), "éé");
}

#[test]
fn lines_are_sorted_into_sections() {
    let lines: Vec<String> = vec![
        "digit [0-9]", "%%", "{digit}+ { num }", "x y", "%% rules end", "fn main() {}", "%%",
        "tail",
    ]
    .iter()
    .map(|s| s.to_string())
    .collect();
    let spec = build_desc_from_lines(lines);
    assert_eq!(spec.defs, vec!["digit [0-9]".to_string()]);
    assert_eq!(spec.rules, vec!["{digit}+ { num }".to_string(), "x y".to_string()]);
    assert_eq!(spec.code, vec!["fn main() {}".to_string(), "tail".to_string()]);

    let empty = build_desc_from_lines(Vec::new());
    assert!(empty.defs.is_empty() && empty.rules.is_empty() && empty.code.is_empty());

    let one = build_desc_from_lines(vec!["%".to_string(), "% %".to_string()]);
    assert_eq!(one.defs.len(), 2);
}

#[test]
fn expand_with_another_pattern() {
    let rules = build_rules("path");
    assert_eq!(expand_matches("(<[a-z]+>)", "<digit>{digit}", &rules).unwrap(), "[0-9]{digit}");
    assert_eq!(expand_matches("(", "{digit}", &rules), Err(ExpandError::BadPattern));
    assert_eq!(expand_matches("x(y)?", "x{digit}", &rules), Err(ExpandError::BadReference));
}
