use randsym::{gen_sym, randsym, symbol_from_hex, replace_syms, Delimiter, NameTable, SymbolSupply, Token};

fn p(c: char) -> Token {
    Token::Punct { ch: c, joint: false }
}

fn id(s: &str) -> Token {
    Token::Ident(s.to_string())
}

fn lit(s: &str) -> Token {
    Token::Literal(s.to_string())
}

fn anon() -> Vec<Token> {
    vec![p('/'), p('?'), p('/')]
}

fn named(name: &str) -> Vec<Token> {
    vec![p('/'), p('?'), p('@'), id(name), p('/')]
}

fn is_symbol(s: &str) -> bool {
    match s.strip_prefix("_randsym_") {
        Some(hex) => hex.len() == 32 && hex.chars().all(|c| c.is_ascii_digit() || ('a'..='f').contains(&c)),
        None => false,
    }
}

fn ident_text(t: &Token) -> String {
    match t {
        Token::Ident(s) => s.clone(),
        other => panic!("expected an identifier, found {:?}", other),
    }
}

fn supply_of(syms: &[&str]) -> SymbolSupply {
    SymbolSupply::from_symbols(syms.iter().map(|s| s.to_string()).collect())
}

#[test]
fn anonymous_marker_becomes_one_identifier() {
    let out = randsym(anon());
    assert_eq!(out.len(), 1);
    assert!(is_symbol(&ident_text(&out[0])));
}

#[test]
fn same_name_gives_same_identifier() {
    let mut input = named("foo");
    input.push(id("x"));
    input.extend(named("foo"));
    let out = randsym(input);
    assert_eq!(out.len(), 3);
    assert_eq!(out[1], id("x"));
    assert!(is_symbol(&ident_text(&out[0])));
    assert_eq!(ident_text(&out[0]), ident_text(&out[2]));
}

#[test]
fn different_names_give_different_identifiers() {
    let mut input = named("foo");
    input.extend(named("bar"));
    let out = randsym(input);
    assert_eq!(out.len(), 2);
    assert_ne!(ident_text(&out[0]), ident_text(&out[1]));
}

#[test]
fn lone_slash_is_kept() {
    let input = vec![id("a"), p('/'), id("b")];
    let out = randsym(input);
    assert_eq!(out, vec![id("a"), p('/'), id("b")]);
}

#[test]
fn marker_inside_group() {
    let input = vec![Token::Group(Delimiter::Parenthesis, anon())];
    let out = randsym(input);
    assert_eq!(out.len(), 1);
    match &out[0] {
        Token::Group(d, inner) => {
            assert_eq!(*d, Delimiter::Parenthesis);
            assert_eq!(inner.len(), 1);
            assert!(is_symbol(&ident_text(&inner[0])));
        }
        other => panic!("expected a group, found {:?}", other),
    }
}

#[test]
fn stream_without_slash_is_unchanged() {
    let make = || {
        vec![
            id("fn"),
            id("f"),
            Token::Group(Delimiter::Parenthesis, vec![]),
            Token::Group(Delimiter::Brace, vec![lit("1"), p('+'), Token::Group(Delimiter::Bracket, vec![p('?'), p('@')])]),
            Token::Punct { ch: '=', joint: true },
            p('>'),
        ]
    };
    assert_eq!(randsym(make()), make());
}

#[test]
fn anonymous_markers_are_distinct() {
    let mut input = Vec::new();
    for _ in 0..6 {
        input.extend(anon());
        input.push(p(';'));
    }
    let out = randsym(input);
    let syms: Vec<String> = out.iter().filter(|t| matches!(t, Token::Ident(_))).map(ident_text).collect();
    assert_eq!(syms.len(), 6);
    for a in 0..syms.len() {
        assert!(is_symbol(&syms[a]));
        for b in a + 1..syms.len() {
            assert_ne!(syms[a], syms[b]);
        }
    }
}

#[test]
fn bindings_do_not_cross_rewrites() {
    let first = randsym(named("x"));
    let second = randsym(named("x"));
    assert_ne!(ident_text(&first[0]), ident_text(&second[0]));
}

#[test]
fn binding_reaches_out_of_group() {
    let mut input = vec![
        Token::Group(Delimiter::Brace, named("x")),
        Token::Group(Delimiter::Parenthesis, vec![Token::Group(Delimiter::Bracket, named("x"))]),
    ];
    input.extend(named("x"));
    let out = randsym(input);
    assert_eq!(out.len(), 3);
    let inner = match &out[0] {
        Token::Group(_, v) => ident_text(&v[0]),
        other => panic!("expected a group, found {:?}", other),
    };
    let deep = match &out[1] {
        Token::Group(_, v) => match &v[0] {
            Token::Group(_, w) => ident_text(&w[0]),
            other => panic!("expected a group, found {:?}", other),
        },
        other => panic!("expected a group, found {:?}", other),
    };
    assert_eq!(inner, ident_text(&out[2]));
    assert_eq!(deep, inner);
}

#[test]
fn generated_symbols_are_well_formed_and_new() {
    let a = gen_sym();
    let b = gen_sym();
    assert!(is_symbol(&a));
    assert!(is_symbol(&b));
    assert_ne!(a, b);
}

#[test]
fn supplied_symbols_are_taken_in_order() {
    let mut input = anon();
    input.extend(named("a"));
    input.extend(anon());
    input.extend(named("a"));
    input.extend(named("b"));
    let mut names = NameTable::new();
    let mut supply = supply_of(&["s0", "s1", "s2", "s3"]);
    let out = replace_syms(&input, &mut names, &mut supply);
    assert_eq!(out, vec![id("s0"), id("s1"), id("s2"), id("s1"), id("s3")]);
    assert_eq!(names.get(&"a".to_string()), Some("s1".to_string()));
    assert_eq!(names.get(&"b".to_string()), Some("s3".to_string()));
    assert_eq!(names.get(&"c".to_string()), None);
}

#[test]
fn supply_generates_when_exhausted() {
    let mut input = anon();
    input.extend(anon());
    let mut names = NameTable::new();
    let mut supply = supply_of(&["given"]);
    let out = replace_syms(&input, &mut names, &mut supply);
    assert_eq!(out[0], id("given"));
    assert!(is_symbol(&ident_text(&out[1])));
}

#[test]
fn existing_binding_is_reused() {
    let mut names = NameTable::new();
    names.insert("k".to_string(), "bound".to_string());
    let mut supply = supply_of(&["s0"]);
    let out = replace_syms(&named("k"), &mut names, &mut supply);
    assert_eq!(out, vec![id("bound")]);
    let out = replace_syms(&anon(), &mut names, &mut supply);
    assert_eq!(out, vec![id("s0")]);
}

#[test]
fn incomplete_marker_keeps_failing_token() {
    let input = vec![p('/'), p('?'), id("x"), id("y")];
    assert_eq!(randsym(input), vec![p('?'), id("x"), id("y")]);
}

#[test]
fn stream_ending_after_question_mark_is_cut() {
    let input = vec![id("a"), p('/'), p('?')];
    assert_eq!(randsym(input), vec![id("a")]);
}

#[test]
fn question_mark_at_end_of_group_cuts_only_the_group() {
    let input = vec![Token::Group(Delimiter::Parenthesis, vec![id("a"), p('/'), p('?')]), id("b")];
    assert_eq!(randsym(input), vec![Token::Group(Delimiter::Parenthesis, vec![id("a")]), id("b")]);
}

#[test]
fn symbol_is_prefix_and_digits() {
    let s = symbol_from_hex("0123456789abcdef0123456789abcdef");
    assert_eq!(s, "_randsym_0123456789abcdef0123456789abcdef");
    assert!(is_symbol(&s));
    assert_ne!(symbol_from_hex("0123456789abcdef0123456789abcdee"), s);
}

#[test]
fn non_identifier_after_at_is_kept() {
    let input = vec![p('/'), p('?'), p('@'), lit("1"), id("z")];
    assert_eq!(randsym(input), vec![lit("1"), id("z")]);
}

#[test]
fn unclosed_named_marker_keeps_next_token_and_binds() {
    let mut input = vec![p('/'), p('?'), p('@'), id("n"), id("q")];
    input.extend(named("n"));
    let mut names = NameTable::new();
    let mut supply = supply_of(&["s0", "s1"]);
    let out = replace_syms(&input, &mut names, &mut supply);
    assert_eq!(out, vec![id("q"), id("s0")]);
}

#[test]
fn stream_ending_after_at_is_cut() {
    let input = vec![id("a"), p('/'), p('?'), p('@')];
    assert_eq!(randsym(input), vec![id("a")]);
}

#[test]
fn stream_ending_after_name_is_cut_but_binds() {
    let mut input = vec![
        Token::Group(Delimiter::Brace, vec![id("a"), p('/'), p('?'), p('@'), id("n")]),
        id("b"),
    ];
    input.extend(named("n"));
    let mut names = NameTable::new();
    let mut supply = supply_of(&["s0"]);
    let out = replace_syms(&input, &mut names, &mut supply);
    assert_eq!(out, vec![Token::Group(Delimiter::Brace, vec![id("a")]), id("b"), id("s0")]);
}

#[test]
fn deep_copy_is_equal() {
    let t = Token::Group(Delimiter::Invisible, vec![lit("\"s\""), Token::Group(Delimiter::Bracket, vec![id("v")])]);
    assert_eq!(t.deep_copy(), t);
}
