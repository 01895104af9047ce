use chao::common::ast::check_float;
use chao::common::ast::parse_i32;
use chao::common::ast::Node;
use chao::common::ast::NodeKind;
use chao::common::token::TokenKind;
use chao::lex;
use chao::lower;
use chao::parse;
use chao::resolve;
use chao::src_by_lines;

/// A small linear congruential generator: the same inputs on every run.
struct Dice(u64);

impl Dice {
    fn roll(&mut self, sides: usize) -> usize {
        self.0 = self.0.wrapping_mul(6364136223846793005).wrapping_add(1442695040888963407);
        ((self.0 >> 33) as usize) % sides
    }
}

const ALPHABET: [char; 32] = [
    '+', '-', '=', '>', '(', ')', '\'', '"', ' ', ' ', '\t', '\r', '_', '.', 'a', 'Z', 'l', 'e',
    't', 'x', '0', '9', '1', '@', ';', '\u{e9}', '\u{4e16}', '\u{1f600}', '+', '-', '>', ' ',
];

fn random_line(dice: &mut Dice) -> String {
    let length = dice.roll(24);
    (0..length).map(|_| ALPHABET[dice.roll(ALPHABET.len())]).collect()
}

fn random_source(dice: &mut Dice) -> Vec<String> {
    let count = dice.roll(5);
    (0..count).map(|_| random_line(dice)).collect()
}

fn count_nodes(node: &Node) -> usize {
    1 + match &node.kind {
        NodeKind::ExprAssignment { id, val, .. } => count_nodes(id) + count_nodes(val),
        NodeKind::ExprBinary { lhs, rhs, .. } => count_nodes(lhs) + count_nodes(rhs),
        NodeKind::ExprUnary { operand, .. } => count_nodes(operand),
        NodeKind::StmtVariable { val, .. } => count_nodes(val),
        NodeKind::StmtConstant { val, .. } => count_nodes(val),
        NodeKind::StmtExpression { expr } => count_nodes(expr),
        _ => 0,
    }
}

#[test]
fn any_source_is_scanned_to_the_end() {
    let mut dice = Dice(1);
    for _ in 0..3000 {
        let src = random_source(&mut dice);
        let (tokens, errors) = lex(&src);
        let (last, body) = tokens.split_last().unwrap();
        assert_eq!(last.kind, TokenKind::Eof);
        assert_eq!(last.line, src.len());
        for token in body {
            assert_ne!(token.kind, TokenKind::Eof);
            assert_ne!(token.kind, TokenKind::Equal);
            assert_ne!(token.kind, TokenKind::Semicolon);
            let line = &src[token.line - 1];
            assert_eq!(&line[token.offset..token.offset + token.lexeme.len()], token.lexeme);
        }
        for pair in body.windows(2) {
            assert!(
                pair[0].line < pair[1].line
                    || (pair[0].line == pair[1].line
                        && pair[0].offset + pair[0].lexeme.len() <= pair[1].offset)
            );
        }
        for error in &errors {
            assert!(!error.can_compile);
        }
    }
}

#[test]
fn any_tokens_are_parsed_to_the_end() {
    let mut dice = Dice(2);
    for _ in 0..3000 {
        let src = random_source(&mut dice);
        let (tokens, _) = lex(&src);
        let count = tokens.len();
        match parse(tokens) {
            Err(()) => assert_eq!(count, 1),
            Ok((tree, errors)) => {
                assert!(count > 1);
                assert!(!tree.is_empty());
                let nodes: usize = tree.iter().map(count_nodes).sum();
                assert!(nodes <= 2 * count);
                let invalid =
                    tree.iter().filter(|n| matches!(n.kind, NodeKind::Invalid { .. })).count();
                assert!(invalid <= errors.len());
            }
        }
    }
}

#[test]
fn any_tree_is_resolved_to_the_end() {
    let mut dice = Dice(3);
    let mut resolved = 0;
    for _ in 0..3000 {
        let src = random_source(&mut dice);
        let (tokens, _) = lex(&src);
        let (tree, _) = match parse(tokens) {
            Ok(read) => read,
            Err(()) => continue,
        };
        match resolve(&tree) {
            Ok(()) => resolved += 1,
            Err(errors) => {
                assert!(!errors.is_empty());
                assert!(errors.len() <= tree.len());
            }
        }
        let count = tree.len();
        if let Ok((insts, adds)) = lower(tree) {
            for (i, add) in adds.iter().enumerate() {
                assert_eq!(add.temp, i + 1);
            }
            assert_eq!(insts.len(), count);
        }
    }
    assert!(resolved > 0);
}

#[test]
fn any_program_of_sums_is_lowered_statement_by_statement() {
    let mut dice = Dice(6);
    let heads = ["let a -> ", "let b -> ", "const c -> ", "a -> ", "b -> "];
    let operands = ["1", "2_0", "a", "b", "c", "7"];
    for _ in 0..2000 {
        let count = 1 + dice.roll(6);
        let mut src: Vec<String> = Vec::new();
        let mut sums = 0;
        for _ in 0..count {
            let mut line = heads[dice.roll(heads.len())].to_string();
            let terms = 1 + dice.roll(4);
            for term in 0..terms {
                if term > 0 {
                    line.push_str(" + ");
                    sums += 1;
                }
                line.push_str(operands[dice.roll(operands.len())]);
            }
            src.push(line);
        }
        let (tokens, _) = lex(&src);
        let (tree, errors) = parse(tokens).unwrap();
        assert!(errors.is_empty());
        assert_eq!(tree.len(), count);
        let (insts, adds) = lower(tree).unwrap();
        assert_eq!(insts.len(), count);
        assert_eq!(adds.len(), sums);
        for (i, add) in adds.iter().enumerate() {
            assert_eq!(add.temp, i + 1);
        }
    }
}

#[test]
fn any_text_is_split_as_the_standard_library_splits_it() {
    let mut dice = Dice(4);
    let pieces = ["a", "\n", "\r", "\r\n", " ", "\u{e9}", "", "xy", "\n\n"];
    for _ in 0..3000 {
        let count = dice.roll(8);
        let text: String = (0..count).map(|_| pieces[dice.roll(pieces.len())]).collect();
        let expected: Vec<String> = text.lines().map(|l| l.to_string()).collect();
        assert_eq!(src_by_lines(&text), expected, "{:?}", text);
    }
}

#[test]
fn any_numeral_is_read_as_the_standard_library_reads_it() {
    let mut dice = Dice(5);
    let letters = [
        '0', '1', '9', '5', '.', 'e', 'E', '+', '-', 'i', 'n', 'f', 'a', 'I', 'N', 'F', 't', 'y',
        '_', ' ',
    ];
    for _ in 0..20000 {
        let length = dice.roll(9);
        let text: String = (0..length).map(|_| letters[dice.roll(letters.len())]).collect();
        assert_eq!(check_float(&text), text.parse::<f32>().is_ok(), "{:?}", text);
        let chars: Vec<char> = text.chars().collect();
        assert_eq!(parse_i32(&chars), text.parse::<i32>().ok(), "{:?}", text);
    }
    let digits = ['0', '1', '2', '4', '7', '8', '9', '+', '-'];
    for _ in 0..20000 {
        let length = dice.roll(13);
        let text: String = (0..length).map(|_| digits[dice.roll(digits.len())]).collect();
        let chars: Vec<char> = text.chars().collect();
        assert_eq!(parse_i32(&chars), text.parse::<i32>().ok(), "{:?}", text);
    }
}
