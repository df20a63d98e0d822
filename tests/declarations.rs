use flag_registry::{parse_flag_attr, resolve_flags, ArgError, DeclError, FieldDecl, Flag};

fn long(s: &str) -> Flag {
    Flag::Long(s.to_string())
}

fn field(name: &str, flags: Vec<Flag>) -> FieldDecl {
    FieldDecl { name: name.to_string(), flags }
}

#[test]
fn long_name_infers_short_and_long() {
    assert_eq!(resolve_flags(&field("send", vec![])), vec![Flag::Short('s'), long("send")]);
    assert_eq!(resolve_flags(&field("tmpdir", vec![])), vec![Flag::Short('t'), long("tmpdir")]);
}

#[test]
fn one_letter_name_infers_short_only() {
    assert_eq!(resolve_flags(&field("x", vec![])), vec![Flag::Short('x')]);
}

#[test]
fn explicit_flags_suppress_inference() {
    assert_eq!(resolve_flags(&field("send", vec![long("foo")])), vec![long("foo")]);
    assert_eq!(
        resolve_flags(&field("send", vec![Flag::Short('m'), long("mail")])),
        vec![Flag::Short('m'), long("mail")]
    );
}

#[test]
fn parse_single_tokens() {
    assert_eq!(Flag::parse("-a"), Ok(Flag::Short('a')));
    assert_eq!(Flag::parse("  --all "), Ok(long("all")));
    assert_eq!(Flag::parse("--long-name"), Ok(long("long-name")));
    assert_eq!(Flag::parse("-ab"), Err(ArgError::ShortFlagLength));
    assert_eq!(Flag::parse("all"), Err(ArgError::NotAFlag));
    assert_eq!(Flag::parse("-"), Err(ArgError::Malformed));
    assert_eq!(Flag::parse("-é"), Ok(Flag::Short('é')));
    assert_eq!(Flag::parse("-1"), Ok(Flag::Short('1')));
    assert_eq!(Flag::parse("--été"), Ok(long("été")));
    assert_eq!(Flag::parse("-éa"), Err(ArgError::ShortFlagLength));
    assert_eq!(Flag::parse("-!"), Err(ArgError::Malformed));
    assert_eq!(Flag::parse("--1st"), Err(ArgError::Malformed));
    assert_eq!(Flag::parse("--"), Err(ArgError::Malformed));
    assert_eq!(Flag::parse("--a b"), Err(ArgError::Malformed));
    assert_eq!(Flag::parse(""), Err(ArgError::Malformed));
}

#[test]
fn parse_lists() {
    assert_eq!(parse_flag_attr("-x, --long-name"), Ok(vec![Flag::Short('x'), long("long-name")]));
    assert_eq!(parse_flag_attr("--foo, --foo"), Ok(vec![long("foo"), long("foo")]));
    assert_eq!(parse_flag_attr("-é, -1"), Ok(vec![Flag::Short('é'), Flag::Short('1')]));
    assert_eq!(parse_flag_attr("-a,"), Ok(vec![Flag::Short('a')]));
    assert_eq!(parse_flag_attr(""), Ok(vec![]));
    assert_eq!(parse_flag_attr("   "), Ok(vec![]));
}

#[test]
fn malformed_list_declares_nothing() {
    assert_eq!(parse_flag_attr(", -a"), Ok(vec![]));
    assert_eq!(parse_flag_attr("-a,,-b"), Ok(vec![]));
    assert_eq!(parse_flag_attr("-a, -!"), Ok(vec![]));
    assert_eq!(parse_flag_attr("-, all"), Ok(vec![]));
}

#[test]
fn fatal_declaration_errors() {
    assert_eq!(parse_flag_attr("-a, all"), Err(DeclError::NotAFlag));
    assert_eq!(parse_flag_attr("--foo, -ab"), Err(DeclError::ShortFlagLength));
    assert_eq!(parse_flag_attr("all, -"), Err(DeclError::NotAFlag));
}
