use flag_registry::{build_registry, options, FieldDecl, FieldSource, Flag, ParseError, Registry, Token};

fn source(name: &str, annotation: &str) -> FieldSource {
    FieldSource { name: name.to_string(), annotation: annotation.to_string() }
}

fn compile(fields: Vec<FieldSource>) -> Registry {
    match options(&fields) {
        Ok(r) => r,
        Err(e) => panic!("declaration error {:?}", e),
    }
}

fn long(s: &str) -> Token {
    Token::Long(s.to_string())
}

#[test]
fn inferred_short_and_long_fire_the_same_action() {
    let reg = compile(vec![source("send", "")]);
    assert_eq!(reg.parse(&vec![Token::Short('s')]), Ok(vec![0]));
    assert_eq!(reg.parse(&vec![long("send")]), Ok(vec![0]));
}

#[test]
fn one_letter_field_has_no_long_form() {
    let reg = compile(vec![source("x", "")]);
    assert_eq!(reg.parse(&vec![Token::Short('x')]), Ok(vec![0]));
    assert_eq!(reg.parse(&vec![long("x")]), Err(ParseError::Unexpected(long("x"))));
}

#[test]
fn explicit_flags_replace_inferred_ones() {
    let reg = compile(vec![source("send", "-m, --mail")]);
    assert_eq!(reg.parse(&vec![Token::Short('m'), long("mail")]), Ok(vec![0, 0]));
    assert_eq!(reg.parse(&vec![long("send")]), Err(ParseError::Unexpected(long("send"))));
    assert_eq!(reg.parse(&vec![Token::Short('s')]), Err(ParseError::Unexpected(Token::Short('s'))));
}

#[test]
fn duplicate_flag_within_field_fires_twice() {
    let reg = compile(vec![source("something", "--foo, --foo")]);
    assert_eq!(reg.parse(&vec![long("foo")]), Ok(vec![0, 0]));
}

#[test]
fn registered_flags_in_any_order() {
    let reg = compile(vec![source("send", ""), source("receive", ""), source("all", "-A")]);
    assert_eq!(
        reg.parse(&vec![long("receive"), Token::Short('A'), Token::Short('s'), Token::Short('r')]),
        Ok(vec![1, 2, 0, 1])
    );
    assert_eq!(reg.parse(&vec![]), Ok(vec![]));
}

#[test]
fn unknown_long_flag_is_rejected() {
    let reg = compile(vec![source("send", ""), source("x", "")]);
    assert_eq!(reg.parse(&vec![long("unknown")]), Err(ParseError::Unexpected(long("unknown"))));
    assert_eq!(
        reg.parse(&vec![Token::Short('x'), long("unknown"), Token::Short('q')]),
        Err(ParseError::Unexpected(long("unknown")))
    );
}

#[test]
fn positional_value_is_rejected() {
    let reg = compile(vec![source("send", "")]);
    let v = Token::Value("file".to_string());
    assert_eq!(reg.dispatch(&v), Err(ParseError::Unexpected(Token::Value("file".to_string()))));
}

#[test]
fn shared_flag_fires_all_fields_in_order() {
    let reg = compile(vec![source("size", ""), source("silent", "")]);
    assert_eq!(reg.parse(&vec![Token::Short('s')]), Ok(vec![0, 1]));
    assert_eq!(reg.parse(&vec![long("silent")]), Ok(vec![1]));
}

#[test]
fn declaration_error_aborts_compilation() {
    let fields = vec![source("a", "-a"), source("b", "--b, -bb"), source("c", "c")];
    assert_eq!(options(&fields).err(), Some(flag_registry::DeclError::ShortFlagLength));
    let fields = vec![source("c", "c")];
    assert_eq!(options(&fields).err(), Some(flag_registry::DeclError::NotAFlag));
}

#[test]
fn malformed_annotation_falls_back_to_inference() {
    let reg = compile(vec![source("verbose", "-v, -!")]);
    assert_eq!(reg.parse(&vec![Token::Short('v'), long("verbose")]), Ok(vec![0, 0]));
}

#[test]
fn registry_lookup_from_declarations() {
    let decls = vec![
        FieldDecl { name: "send".to_string(), flags: vec![] },
        FieldDecl { name: "x".to_string(), flags: vec![Flag::Short('s')] },
    ];
    let reg = build_registry(&decls);
    assert_eq!(reg.actions_for(&Flag::Short('s')), vec![0, 1]);
    assert_eq!(reg.actions_for(&Flag::Long("send".to_string())), vec![0]);
    assert_eq!(reg.actions_for(&Flag::Short('x')), Vec::<usize>::new());
}

#[test]
fn fired_actions_switch_fields_on() {
    let reg = compile(vec![source("send", ""), source("receive", ""), source("all", "")]);
    let fired = reg.parse(&vec![long("receive"), Token::Short('r')]).unwrap();
    let mut settings = vec![false, false, false];
    flag_registry::apply_actions(&mut settings, &fired);
    assert_eq!(settings, vec![false, true, false]);
    let mut settings = vec![true, false, false];
    flag_registry::apply_actions(&mut settings, &vec![2]);
    assert_eq!(settings, vec![true, false, true]);
}

#[test]
fn non_ascii_short_flag() {
    let reg = compile(vec![source("état", ""), source("x", "-é, -1")]);
    assert_eq!(reg.parse(&vec![Token::Short('é')]), Ok(vec![0, 1]));
    assert_eq!(reg.parse(&vec![long("état")]), Ok(vec![0]));
    assert_eq!(reg.parse(&vec![Token::Short('1')]), Ok(vec![1]));
}

#[test]
fn parse_settings_switches_fired_fields() {
    let reg = compile(vec![source("send", ""), source("receive", ""), source("all", "")]);
    assert_eq!(reg.parse_settings(3, &vec![long("all"), Token::Short('a')]), Ok(vec![false, false, true]));
    assert_eq!(reg.parse_settings(3, &vec![]), Ok(vec![false, false, false]));
    assert_eq!(
        reg.parse_settings(3, &vec![Token::Short('s'), long("nope")]),
        Err(ParseError::Unexpected(long("nope")))
    );
}
