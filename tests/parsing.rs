use rush::lexer::{tokenize, Quote, Token};
use rush::parser::{parse_line, Pipeline};
use rush::variables::VariableManager;
use rush::words::expand_word;

fn parse(line: &str) -> Pipeline {
    parse_line(line).unwrap().unwrap()
}

fn args(p: &Pipeline, stage: usize, vm: &mut VariableManager) -> Vec<String> {
    let mut errors = Vec::new();
    let mut out = Vec::new();
    for w in &p.commands[stage].words {
        out.extend(expand_word(w, vm, Some("/home/u"), 0, 1, &mut errors));
    }
    out
}

#[test]
fn splits_words_and_operators() {
    let toks = tokenize("cat <in | wc -l >>out").unwrap();
    assert_eq!(toks.len(), 8);
    assert!(matches!(toks[1], Token::Less));
    assert!(matches!(toks[3], Token::Pipe));
    assert!(matches!(toks[6], Token::DGreat));
}

#[test]
fn quoting_kinds_are_kept() {
    let toks = tokenize(r#"'a b'"c\"d"e\ f"#).unwrap();
    assert_eq!(toks.len(), 1);
    match &toks[0] {
        Token::Word(w) => {
            let kinds: Vec<Quote> = w.parts.iter().map(|p| p.quote).collect();
            assert_eq!(kinds, vec![Quote::Single, Quote::Double, Quote::Bare, Quote::Single, Quote::Bare]);
            let texts: Vec<&str> = w.parts.iter().map(|p| p.text.as_str()).collect();
            assert_eq!(texts, vec!["a b", "c\"d", "e", " ", "f"]);
        },
        _ => panic!("expected a word"),
    }
}

#[test]
fn unterminated_quotes_are_errors() {
    assert!(tokenize("echo 'abc").is_none());
    assert!(tokenize("echo \"abc").is_none());
    assert!(parse_line("echo 'abc").is_err());
}

#[test]
fn comments_and_blank_lines_have_no_tokens() {
    assert!(parse_line("   # just a comment").unwrap().is_none());
    assert!(parse_line("").unwrap().is_none());
    assert_eq!(parse("echo a # b").commands[0].words.len(), 2);
}

#[test]
fn ampersand_alone_is_an_error() {
    assert!(parse_line("&").is_err());
}

#[test]
fn trailing_ampersand_runs_in_background() {
    let p = parse("sleep 1 &");
    assert!(p.background);
    assert_eq!(p.commands.len(), 1);
}

#[test]
fn ampersand_between_commands_is_an_error() {
    assert!(parse_line("cmd & cmd2").is_err());
    assert!(parse_line("export X=hello && echo \"$X\"").is_err());
}

#[test]
fn redirection_needs_a_word_next() {
    assert!(parse_line("echo hi > > f").is_err());
    assert!(parse_line("echo hi >").is_err());
    assert!(parse_line("cat <").is_err());
    let p = parse("cat < in > out");
    assert!(p.commands[0].stdin.is_some());
    assert!(p.commands[0].stdout.is_some());
    assert!(!p.commands[0].append);
    assert!(parse("echo x >> log").commands[0].append);
}

#[test]
fn empty_stages_are_errors() {
    assert!(parse_line("| cmd").is_err());
    assert!(parse_line("cmd |").is_err());
    assert!(parse_line("a || b").is_err());
    assert!(parse_line("> f").is_err());
}

#[test]
fn pipeline_stages_in_order() {
    let p = parse("echo a | cat | wc -l");
    assert_eq!(p.commands.len(), 3);
    let mut vm = VariableManager::new();
    assert_eq!(args(&p, 2, &mut vm), vec!["wc", "-l"]);
}

#[test]
fn single_quotes_are_literal() {
    let mut vm = VariableManager::new();
    vm.set("HOME".to_string(), "/root".to_string()).unwrap();
    let p = parse("echo '$HOME'");
    assert_eq!(args(&p, 0, &mut vm), vec!["echo", "$HOME"]);
}

#[test]
fn double_quoted_variable_stays_one_word() {
    let mut vm = VariableManager::new();
    vm.set("VAR".to_string(), "hello world".to_string()).unwrap();
    let p = parse("echo \"$VAR\"");
    assert_eq!(args(&p, 0, &mut vm), vec!["echo", "hello world"]);
    vm.set("VAR".to_string(), "*".to_string()).unwrap();
    assert_eq!(args(&p, 0, &mut vm), vec!["echo", "*"]);
}

#[test]
fn export_then_echo_scenario() {
    let mut vm = VariableManager::new();
    vm.export_var("X".to_string(), "hello".to_string()).unwrap();
    let p = parse("echo \"$X\"");
    assert_eq!(args(&p, 0, &mut vm), vec!["echo", "hello"]);
}

#[test]
fn empty_unquoted_words_vanish_quoted_ones_stay() {
    let mut vm = VariableManager::new();
    let p = parse("echo $nothing \"\" ''");
    assert_eq!(args(&p, 0, &mut vm), vec!["echo", "", ""]);
}

#[test]
fn tilde_expands_only_unquoted_at_the_start() {
    let mut vm = VariableManager::new();
    let p = parse("ls ~/x '~/y' a~");
    assert_eq!(args(&p, 0, &mut vm), vec!["ls", "/home/u/x", "~/y", "a~"]);
}

#[test]
fn escaped_glob_is_literal() {
    let mut vm = VariableManager::new();
    let p = parse("echo \\*");
    assert_eq!(args(&p, 0, &mut vm), vec!["echo", "*"]);
}
