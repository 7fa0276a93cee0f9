use haske_router::compiler::{classify_token, compile_bytes, compile_path};
use haske_router::error::CompileError;
use haske_router::segment::{check_identifier, Constraint, SegmentDescriptor};

fn lit(text: &str) -> SegmentDescriptor {
    SegmentDescriptor::Literal(text.as_bytes().to_vec())
}

fn par(name: &str) -> SegmentDescriptor {
    SegmentDescriptor::Param(name.as_bytes().to_vec(), None)
}

fn wild(name: &str) -> SegmentDescriptor {
    SegmentDescriptor::Wildcard(name.as_bytes().to_vec())
}

fn names(list: &[&str]) -> Vec<Vec<u8>> {
    list.iter().map(|name| name.as_bytes().to_vec()).collect()
}

#[test]
fn compiles_literals_parameters_and_a_wildcard() {
    let route = compile_path("/users/:id/files/*rest", 42).unwrap();
    assert_eq!(route.route_id(), 42);
    assert_eq!(route.segments(), &vec![lit("users"), par("id"), lit("files"), wild("rest")]);
    assert_eq!(route.param_names(), &names(&["id", "rest"]));
}

#[test]
fn compiles_the_root_pattern_to_no_segments() {
    let route = compile_path("/", 0).unwrap();
    assert_eq!(route.route_id(), 0);
    assert_eq!(route.segments().len(), 0);
    assert_eq!(route.param_names().len(), 0);
}

#[test]
fn compiles_a_single_literal() {
    let route = compile_path("/health", u64::MAX).unwrap();
    assert_eq!(route.route_id(), u64::MAX);
    assert_eq!(route.segments(), &vec![lit("health")]);
    assert_eq!(route.param_names().len(), 0);
}

#[test]
fn keeps_names_in_the_order_of_the_pattern() {
    let route = compile_path("/:b/x/:a/:_c9", 1).unwrap();
    assert_eq!(route.segments(), &vec![par("b"), lit("x"), par("a"), par("_c9")]);
    assert_eq!(route.param_names(), &names(&["b", "a", "_c9"]));
}

#[test]
fn a_mark_inside_a_token_is_part_of_a_literal() {
    let route = compile_path("/a:b/c*d/%41", 1).unwrap();
    assert_eq!(route.segments(), &vec![lit("a:b"), lit("c*d"), lit("%41")]);
}

#[test]
fn bytes_and_text_compile_alike() {
    let from_text = compile_path("/caf\u{e9}/:x", 3).unwrap();
    let from_bytes = compile_bytes("/caf\u{e9}/:x".as_bytes(), 3).unwrap();
    assert_eq!(from_text.segments(), from_bytes.segments());
    assert_eq!(from_text.segments(), &vec![lit("caf\u{e9}"), par("x")]);
    let raw = compile_bytes(&[47, 0xff, 0x00], 3).unwrap();
    assert_eq!(raw.segments(), &vec![SegmentDescriptor::Literal(vec![0xff, 0x00])]);
}

#[test]
fn rejects_the_empty_pattern() {
    assert_eq!(compile_path("", 1).err(), Some(CompileError::InvalidSyntax));
}

#[test]
fn rejects_a_pattern_without_a_leading_slash() {
    assert_eq!(compile_path("a/b", 1).err(), Some(CompileError::InvalidSyntax));
    assert_eq!(compile_path(":x", 1).err(), Some(CompileError::InvalidSyntax));
    assert_eq!(compile_path(" /a", 1).err(), Some(CompileError::InvalidSyntax));
}

#[test]
fn rejects_empty_segments() {
    assert_eq!(compile_path("//", 1).err(), Some(CompileError::InvalidSyntax));
    assert_eq!(compile_path("//a", 1).err(), Some(CompileError::InvalidSyntax));
    assert_eq!(compile_path("/a//b", 1).err(), Some(CompileError::InvalidSyntax));
    assert_eq!(compile_path("/a/b/", 1).err(), Some(CompileError::InvalidSyntax));
}

#[test]
fn rejects_malformed_names() {
    assert_eq!(compile_path("/:", 1).err(), Some(CompileError::InvalidSyntax));
    assert_eq!(compile_path("/*", 1).err(), Some(CompileError::InvalidSyntax));
    assert_eq!(compile_path("/:1a", 1).err(), Some(CompileError::InvalidSyntax));
    assert_eq!(compile_path("/:a-b", 1).err(), Some(CompileError::InvalidSyntax));
    assert_eq!(compile_path("/:a b", 1).err(), Some(CompileError::InvalidSyntax));
    assert_eq!(compile_path("/*re.st", 1).err(), Some(CompileError::InvalidSyntax));
    assert_eq!(compile_path("/::a", 1).err(), Some(CompileError::InvalidSyntax));
    assert_eq!(compile_path("/:n\u{e9}", 1).err(), Some(CompileError::InvalidSyntax));
}

#[test]
fn rejects_a_name_bound_twice() {
    assert_eq!(compile_path("/:a/:a", 1).err(), Some(CompileError::DuplicateParam));
    assert_eq!(compile_path("/:a/x/:b/:a", 1).err(), Some(CompileError::DuplicateParam));
    assert_eq!(compile_path("/:a/*a", 1).err(), Some(CompileError::DuplicateParam));
}

#[test]
fn rejects_segments_after_a_wildcard() {
    assert_eq!(compile_path("/*rest/a", 1).err(), Some(CompileError::WildcardNotLast));
    assert_eq!(compile_path("/a/*rest/:x", 1).err(), Some(CompileError::WildcardNotLast));
    assert_eq!(compile_path("/*a/*b", 1).err(), Some(CompileError::WildcardNotLast));
}

#[test]
fn reports_the_error_of_the_first_bad_token() {
    assert_eq!(compile_path("/*a/*a", 1).err(), Some(CompileError::WildcardNotLast));
    assert_eq!(compile_path("/*a//", 1).err(), Some(CompileError::InvalidSyntax));
    assert_eq!(compile_path("/:a/:a/:", 1).err(), Some(CompileError::DuplicateParam));
    assert_eq!(compile_path("/:/:a/:a", 1).err(), Some(CompileError::InvalidSyntax));
    assert_eq!(compile_path("/*r/x/:", 1).err(), Some(CompileError::WildcardNotLast));
}

#[test]
fn classifies_single_tokens() {
    assert_eq!(classify_token(b"abc"), Some(lit("abc")));
    assert_eq!(classify_token(b":abc"), Some(par("abc")));
    assert_eq!(classify_token(b"*abc"), Some(wild("abc")));
    assert_eq!(classify_token(b":_"), Some(par("_")));
    assert_eq!(classify_token(b""), None);
    assert_eq!(classify_token(b":"), None);
    assert_eq!(classify_token(b"*9"), None);
}

#[test]
fn identifiers_are_letters_digits_and_underscores() {
    assert!(check_identifier(b"a"));
    assert!(check_identifier(b"_"));
    assert!(check_identifier(b"Zz_09"));
    assert!(check_identifier(b"a9"));
    assert!(!check_identifier(b""));
    assert!(!check_identifier(b"9a"));
    assert!(!check_identifier(b"a-b"));
    assert!(!check_identifier(b"a/"));
    assert!(!check_identifier(b"@"));
    assert!(!check_identifier(b"["));
    assert!(!check_identifier(b"`"));
    assert!(!check_identifier(b"{"));
}

#[test]
fn a_constraint_is_set_on_the_named_parameter_only() {
    let route = compile_path("/:a/:b/*a_rest", 5).unwrap().constrain(b"a", Constraint::Digits);
    assert_eq!(route.route_id(), 5);
    assert_eq!(
        route.segments(),
        &vec![
            SegmentDescriptor::Param(b"a".to_vec(), Some(Constraint::Digits)),
            par("b"),
            wild("a_rest"),
        ]
    );
    assert_eq!(route.param_names(), &names(&["a", "b", "a_rest"]));
    let same = compile_path("/:a/*w", 5).unwrap().constrain(b"w", Constraint::Alpha);
    assert_eq!(same.segments(), &vec![par("a"), wild("w")]);
    let again = compile_path("/:a", 5)
        .unwrap()
        .constrain(b"a", Constraint::Digits)
        .constrain(b"a", Constraint::Alnum);
    assert_eq!(
        again.segments(),
        &vec![SegmentDescriptor::Param(b"a".to_vec(), Some(Constraint::Alnum))]
    );
}

#[test]
fn constraint_classes_hold_their_bytes() {
    assert!(Constraint::Digits.check(b"0123456789"));
    assert!(!Constraint::Digits.check(b"12a"));
    assert!(!Constraint::Digits.check(b"/"));
    assert!(!Constraint::Digits.check(b":"));
    assert!(Constraint::Alpha.check(b"azAZ"));
    assert!(!Constraint::Alpha.check(b"a1"));
    assert!(!Constraint::Alpha.check(b"@"));
    assert!(!Constraint::Alpha.check(b"["));
    assert!(!Constraint::Alpha.check(b"`"));
    assert!(!Constraint::Alpha.check(b"{"));
    assert!(Constraint::Alnum.check(b"a1B2"));
    assert!(!Constraint::Alnum.check(b"a_1"));
    assert!(Constraint::Digits.check(b""));
}

#[test]
fn errors_have_names() {
    assert_eq!(CompileError::InvalidSyntax.name(), "InvalidSyntax");
    assert_eq!(CompileError::DuplicateParam.name(), "DuplicateParam");
    assert_eq!(CompileError::WildcardNotLast.name(), "WildcardNotLast");
    assert_eq!(CompileError::ConflictingRoute.name(), "ConflictingRoute");
    assert_eq!(CompileError::DuplicateRoute.name(), "DuplicateRoute");
}
