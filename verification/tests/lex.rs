use patchkit::edit::series::lex::{Lexer, SyntaxKind};

fn lex(text: &str) -> Vec<(SyntaxKind, &str)> {
    let mut lexer = Lexer::new(text);
    lexer.tokenize()
}

#[test]
fn test_debug_options() {
    let text = "patch.patch -p1\n";
    let mut lexer = Lexer::new(text);
    let tokens = lexer.tokenize();

    println!("Input text: {:?}", text);
    println!("Tokens:");
    for (i, (kind, text)) in tokens.iter().enumerate() {
        println!("  {}: {:?} = {:?}", i, kind, text);
    }
}

#[test]
fn test_debug_unicode() {
    let text = "# Pätch sériès with ünïcødé\npatch-ñame.patch\n# Comment with émojis 🚀\nspëcial-patch.patch -p1\n";
    let mut lexer = Lexer::new(text);
    let tokens = lexer.tokenize();

    println!("Input text: {:?}", text);
    println!("Tokens:");
    for (i, (kind, text)) in tokens.iter().enumerate() {
        println!("  {}: {:?} = {:?}", i, kind, text);
    }
}

#[test]
fn test_lex_simple_patch() {
    let mut lexer = Lexer::new("patch1.patch\n");
    let tokens = lexer.tokenize();
    assert_eq!(tokens.len(), 3);
    assert_eq!(tokens[0].0, SyntaxKind::PATCH_NAME);
    assert_eq!(tokens[0].1, "patch1.patch");
    assert_eq!(tokens[1].0, SyntaxKind::NEWLINE);
    assert_eq!(tokens[2].0, SyntaxKind::EOF);
}

#[test]
fn test_lex_patch_with_options() {
    let mut lexer = Lexer::new("patch1.patch -p1 --reverse\n");
    let tokens = lexer.tokenize();
    assert_eq!(tokens[0].0, SyntaxKind::PATCH_NAME);
    assert_eq!(tokens[0].1, "patch1.patch");
    assert_eq!(tokens[1].0, SyntaxKind::SPACE);
    assert_eq!(tokens[2].0, SyntaxKind::OPTION);
    assert_eq!(tokens[2].1, "-p1");
    assert_eq!(tokens[3].0, SyntaxKind::SPACE);
    assert_eq!(tokens[4].0, SyntaxKind::OPTION);
    assert_eq!(tokens[4].1, "--reverse");
}

#[test]
fn test_lex_comment() {
    let mut lexer = Lexer::new("# This is a comment\n");
    let tokens = lexer.tokenize();
    assert_eq!(tokens[0].0, SyntaxKind::HASH);
    assert_eq!(tokens[1].0, SyntaxKind::SPACE);
    assert_eq!(tokens[2].0, SyntaxKind::TEXT);
    assert_eq!(tokens[2].1, "This is a comment");
}

#[test]
fn test_lex_empty_input_is_only_eof() {
    assert_eq!(lex(""), vec![(SyntaxKind::EOF, "")]);
}

#[test]
fn test_lex_unicode_tokens_exact() {
    let text = "# Pätch sériès\npatch-ñame.patch\nspëcial.patch -p1 🚀\n";
    let tokens = lex(text);
    assert_eq!(
        tokens,
        vec![
            (SyntaxKind::HASH, "#"),
            (SyntaxKind::SPACE, " "),
            (SyntaxKind::TEXT, "Pätch sériès"),
            (SyntaxKind::NEWLINE, "\n"),
            (SyntaxKind::PATCH_NAME, "patch-ñame.patch"),
            (SyntaxKind::NEWLINE, "\n"),
            (SyntaxKind::PATCH_NAME, "spëcial.patch"),
            (SyntaxKind::SPACE, " "),
            (SyntaxKind::OPTION, "-p1"),
            (SyntaxKind::SPACE, " "),
            (SyntaxKind::PATCH_NAME, "🚀"),
            (SyntaxKind::NEWLINE, "\n"),
            (SyntaxKind::EOF, ""),
        ]
    );
}

#[test]
fn test_lex_no_trailing_newline_and_tabs() {
    let tokens = lex("a.patch\t-R");
    assert_eq!(
        tokens,
        vec![
            (SyntaxKind::PATCH_NAME, "a.patch"),
            (SyntaxKind::TAB, "\t"),
            (SyntaxKind::OPTION, "-R"),
            (SyntaxKind::EOF, ""),
        ]
    );
}

#[test]
fn test_lex_option_at_line_start() {
    let tokens = lex("-p1\n");
    assert_eq!(tokens[0], (SyntaxKind::OPTION, "-p1"));
}

#[test]
fn test_lex_hash_inside_word_is_part_of_name() {
    let tokens = lex("a#b c\n");
    assert_eq!(
        tokens,
        vec![
            (SyntaxKind::PATCH_NAME, "a#b"),
            (SyntaxKind::SPACE, " "),
            (SyntaxKind::PATCH_NAME, "c"),
            (SyntaxKind::NEWLINE, "\n"),
            (SyntaxKind::EOF, ""),
        ]
    );
}

#[test]
fn test_lex_comment_holds_no_names_or_options() {
    // After `#`, the rest of the line is comment text, even what looks like
    // a patch with options; the next line lexes as a patch again.
    let tokens = lex("x.patch # old.patch -p1\t#more\nnext.patch\n");
    assert_eq!(
        tokens,
        vec![
            (SyntaxKind::PATCH_NAME, "x.patch"),
            (SyntaxKind::SPACE, " "),
            (SyntaxKind::HASH, "#"),
            (SyntaxKind::SPACE, " "),
            (SyntaxKind::TEXT, "old.patch -p1\t#more"),
            (SyntaxKind::NEWLINE, "\n"),
            (SyntaxKind::PATCH_NAME, "next.patch"),
            (SyntaxKind::NEWLINE, "\n"),
            (SyntaxKind::EOF, ""),
        ]
    );
}

#[test]
fn test_lex_tokens_spell_the_input() {
    for text in [
        "",
        "patch1.patch\n",
        "# Pätch sériès with ünïcødé\npatch-ñame.patch\n# Comment with émojis 🚀\nspëcial-patch.patch -p1\n",
        "  \t\n\n#\n#x\ny -z",
        "p.patch --a=b\t-c  # note\n",
    ] {
        let tokens = lex(text);
        let joined: String = tokens.iter().map(|(_, t)| *t).collect();
        assert_eq!(joined, text);
    }
}

#[test]
fn test_lex_only_last_token_is_eof_and_others_nonempty() {
    let text = "a.patch -p1\n# c\n\n b\n";
    let tokens = lex(text);
    let (last, rest) = tokens.split_last().unwrap();
    assert_eq!(*last, (SyntaxKind::EOF, ""));
    for (kind, text) in rest {
        assert_ne!(*kind, SyntaxKind::EOF);
        assert!(!text.is_empty());
    }
}

#[test]
fn test_lex_second_tokenize_yields_only_eof() {
    let mut lexer = Lexer::new("a.patch\n");
    let first = lexer.tokenize();
    assert_eq!(first.len(), 3);
    let second = lexer.tokenize();
    assert_eq!(second, vec![(SyntaxKind::EOF, "")]);
}

#[test]
fn test_syntax_kind_raw_numbers() {
    assert_eq!(SyntaxKind::HASH.raw(), 0);
    assert_eq!(SyntaxKind::NEWLINE.raw(), 3);
    assert_eq!(SyntaxKind::EOF.raw(), 9);
    assert_eq!(SyntaxKind::ROOT.raw(), 10);
    assert_eq!(SyntaxKind::OPTION_ITEM.raw(), 15);
    assert_eq!(rowan::SyntaxKind(SyntaxKind::PATCH_NAME.raw()), rowan::SyntaxKind(5));
}

#[test]
fn test_lex_restarts_after_newline() {
    let cases = [
        ("a.patch -p1\n", "b.patch\n"),
        ("# open comment\n", "c.patch -R\n"),
        ("x\t# tab then comment\n", "-p0 y\n# z"),
        ("", "d.patch\n"),
        ("ünï.patch\n", "🚀 -p2"),
    ];
    for (s, t) in cases {
        let a = lex(s);
        let b = lex(t);
        let st = s.to_string() + t;
        let c = lex(&st);
        let mut expected: Vec<(SyntaxKind, &str)> = a[..a.len() - 1].to_vec();
        expected.extend(b.iter().cloned());
        assert_eq!(c, expected);
    }
}
