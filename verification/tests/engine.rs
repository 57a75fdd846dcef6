//! End-to-end scenarios: index a small corpus, compile queries, run the
//! matching machine, and check the emitted lines byte for byte.

use vecexp::compiler::{compile, parse, Node};
use vecexp::index::{check_consistency, BodyTable, IndexData};
use vecexp::indexer::{IndexError, Indexer};
use vecexp::vm::{check_program, InstCode, VM};

fn build_vm(corpus: &str, query: &str) -> VM {
    let indexer = Indexer::new();
    let out = indexer.execute(corpus.as_bytes()).expect("indexing failed");
    let body = BodyTable { columns: out.body };
    let data = IndexData {
        features_per_column: out.dictionaries,
        sentence_index: out.sentence_index,
    };
    assert!(check_consistency(&body, &data));
    let tree = parse(query.as_bytes()).expect("query did not parse");
    let program = compile(tree);
    assert!(check_program(&program));
    VM::new(program, body, data)
}

fn run(corpus: &str, query: &str, limit: Option<usize>) -> Vec<u8> {
    build_vm(corpus, query).exec(limit)
}

const CORPUS_A: &str = "検証,名詞,サ変接続\nする,動詞,自立\n。,記号,句点\n";

#[test]
fn single_pattern_matches_one_row() {
    // 名詞 has ID 0 in column 1; the only noun row is row 0.
    let out = run(CORPUS_A, "/-0", None);
    assert_eq!(out, "\t検証\tする。\n".as_bytes());
}

#[test]
fn concatenation_matches_adjacent_rows() {
    // 名詞 then 動詞: rows 0 and 1 of the only sentence.
    let out = run(CORPUS_A, "/-0/-1", None);
    assert_eq!(out, "\t検証する\t。\n".as_bytes());
}

#[test]
fn star_over_union_backtracks() {
    // Column 1 IDs: 名詞 = 0, 動詞 = 1, 助動詞 = 2, 記号 = 3.
    let corpus = "検証,名詞\nする,動詞\n検証,名詞\nです,助動詞\n。,記号\n";
    // From row 0 the star greedily eats rows 0..=2 and the tail matches
    // です; later start positions match with shorter star runs.
    let out = run(corpus, "(/-0|/-1)*/-2", None);
    let text = String::from_utf8(out).unwrap();
    let lines: Vec<&str> = text.lines().collect();
    assert_eq!(lines.len(), 4);
    assert_eq!(lines[0], "\t検証する検証です\t。");
    // Forcing backtracking: the star must give rows back until the tail
    // (動詞) fits right after it.
    let out = run(corpus, "(/-0|/-1)*/-1", None);
    let text = String::from_utf8(out).unwrap();
    let lines: Vec<&str> = text.lines().collect();
    assert_eq!(lines[0], "\t検証する\t検証です。");
}

#[test]
fn union_prefers_left_alternative() {
    // Both alternatives match at row 0; the reported end is the left one's.
    let corpus = "a,名詞\nb,動詞\n。,記号\n";
    let out = run(corpus, "(/-0|/-0/-1)", None);
    assert_eq!(out, "\ta\tb。\n".as_bytes());
}

#[test]
fn star_is_greedy() {
    let corpus = "a,名詞\nb,名詞\nc,動詞\n。,記号\n";
    let out = run(corpus, "/-0*/-1", None);
    // The star consumes both nouns, not zero or one of them, so the first
    // reported match runs through row 2.
    let text = String::from_utf8(out).unwrap();
    let lines: Vec<&str> = text.lines().collect();
    assert_eq!(lines[0], "\tabc\t。");
}

#[test]
fn limit_caps_the_output() {
    let corpus = "a,名詞\nb,名詞\nc,名詞\nd,名詞\ne,名詞\n。,記号\n";
    let all = run(corpus, "/-0", None);
    assert_eq!(all.iter().filter(|&&b| b == b'\n').count(), 5);
    let two = run(corpus, "/-0", Some(2));
    assert_eq!(two.iter().filter(|&&b| b == b'\n').count(), 2);
    let zero = run(corpus, "/-0", Some(0));
    assert_eq!(zero.len(), 0);
    let ten = run(corpus, "/-0", Some(10));
    assert_eq!(ten.iter().filter(|&&b| b == b'\n').count(), 5);
}

#[test]
fn no_match_spans_a_sentence_boundary() {
    // Column 0 IDs: 。 is reserved ID 1; p = 13, q = 14, r = 15.
    let corpus = "p,名詞\nq,名詞\n。,記号\nq,名詞\nr,名詞\n。,記号\n";
    // 。 at row 2 and q at row 3 are adjacent in the body, but lie in
    // different sentences: the pair must not be reported.
    let out = run(corpus, "1 14", None);
    assert_eq!(out.len(), 0);
    // The same two-row shape inside one sentence is reported.
    let out = run(corpus, "14 15", None);
    assert_eq!(out, "\tqr\t。\n".as_bytes());
}

#[test]
fn matches_do_not_skip_overlaps() {
    // After a match the scan continues at the next start position.
    let corpus = "a,名詞\nb,名詞\nc,名詞\n。,記号\n";
    let out = run(corpus, "/-0/-0", None);
    let text = String::from_utf8(out).unwrap();
    let lines: Vec<&str> = text.lines().collect();
    assert_eq!(lines, vec!["\tab\tc。", "a\tbc\t。"]);
}

#[test]
fn compiler_is_deterministic() {
    let tree1 = parse("(1|2)*3".as_bytes());
    let tree2 = parse("(1|2)*3".as_bytes());
    match (tree1, tree2) {
        (Ok(t1), Ok(t2)) => assert_eq!(compile(t1), compile(t2)),
        _ => panic!("query did not parse"),
    }
}

#[test]
fn compile_emits_expects_in_column_order() {
    let tree = parse("1-2".as_bytes()).unwrap();
    let program = compile(tree);
    assert_eq!(
        program,
        vec![
            InstCode::Expect(0, 1),
            InstCode::Expect(1, 2),
            InstCode::Next,
            InstCode::Match,
        ]
    );
}

#[test]
fn wildcards_emit_no_expect() {
    let tree = parse("/-7-/".as_bytes()).unwrap();
    let program = compile(tree);
    assert_eq!(program, vec![InstCode::Expect(1, 7), InstCode::Next, InstCode::Match]);
}

#[test]
fn union_and_star_layout() {
    let tree = parse("1|2".as_bytes()).unwrap();
    let program = compile(tree);
    assert_eq!(
        program,
        vec![
            InstCode::Split(1, 4),
            InstCode::Expect(0, 1),
            InstCode::Next,
            InstCode::Jump(6),
            InstCode::Expect(0, 2),
            InstCode::Next,
            InstCode::Match,
        ]
    );
    let tree = parse("1*".as_bytes()).unwrap();
    let program = compile(tree);
    assert_eq!(
        program,
        vec![
            InstCode::Split(1, 4),
            InstCode::Expect(0, 1),
            InstCode::Next,
            InstCode::Jump(0),
            InstCode::Match,
        ]
    );
}

#[test]
fn singleton_concatenation_collapses() {
    let tree = parse("1".as_bytes()).unwrap();
    assert_eq!(tree, Node::Pattern(vec![Some(1)]));
}

#[test]
fn parse_accepts_spaces_between_tokens() {
    let tree = parse("( 1 | 2 ) * 3".as_bytes()).unwrap();
    let program = compile(tree);
    assert!(!program.is_empty());
}

#[test]
fn parse_rejects_malformed_queries() {
    assert!(parse("1-".as_bytes()).is_err());
    assert!(parse("(1".as_bytes()).is_err());
    assert!(parse("1)".as_bytes()).is_err());
    assert!(parse(" 1".as_bytes()).is_err());
    assert!(parse("99999999999999999999".as_bytes()).is_err());
    assert!(parse("a".as_bytes()).is_err());
}

#[test]
fn empty_query_matches_everywhere() {
    let tree = parse("".as_bytes()).unwrap();
    assert_eq!(tree, Node::Empty);
    let out = run(CORPUS_A, "", None);
    // A zero-width match at every row of the sentence.
    assert_eq!(out.iter().filter(|&&b| b == b'\n').count(), 3);
}

#[test]
fn indexer_rejects_oversized_features() {
    let long = "x".repeat(300);
    let corpus = format!("{},名詞\n。,記号\n", long);
    let indexer = Indexer::new();
    match indexer.execute(corpus.as_bytes()) {
        Err(e) => assert_eq!(e, IndexError::FeatureTooLong),
        Ok(_) => panic!("oversized feature was accepted"),
    }
    // At 255 bytes the feature still fits.
    let ok = "y".repeat(255);
    let corpus = format!("{},名詞\n。,記号\n", ok);
    assert!(indexer.execute(corpus.as_bytes()).is_ok());
}

#[test]
fn raw_bytecode_round_trip() {
    let tokens: Vec<Vec<u8>> = vec![
        b"Split:1:4".to_vec(),
        b"Expect:0:13".to_vec(),
        b"Next".to_vec(),
        b"Jump:0".to_vec(),
        b"Match".to_vec(),
        b"Noop".to_vec(),
    ];
    let program = VM::parse(&tokens).unwrap();
    assert_eq!(
        program,
        vec![
            InstCode::Split(1, 4),
            InstCode::Expect(0, 13),
            InstCode::Next,
            InstCode::Jump(0),
            InstCode::Match,
            InstCode::Noop,
        ]
    );
    assert!(VM::parse(&vec![b"Bogus".to_vec()]).is_err());
    assert!(VM::parse(&vec![b"Jump".to_vec()]).is_err());
    assert!(VM::parse(&vec![b"Expect:1".to_vec()]).is_err());
    assert!(VM::parse(&vec![b"Jump:12x".to_vec()]).is_err());
}

#[test]
fn body_table_len_and_slice() {
    let corpus = "a,名詞\nb,動詞\nc,名詞\n。,記号\n";
    let out = Indexer::new().execute(corpus.as_bytes()).unwrap();
    let body = BodyTable { columns: out.body };
    assert_eq!(body.len(), 4);
    let part = body.slice(1, 3);
    assert_eq!(part.len(), 2);
    assert_eq!(part.columns[0], vec![14, 15]);
    assert_eq!(part.columns[1], vec![1, 0]);
}

#[test]
fn check_program_rejects_out_of_range_columns() {
    let good = vec![InstCode::Expect(9, 0), InstCode::Next, InstCode::Match];
    assert!(check_program(&good));
    let bad = vec![InstCode::Expect(10, 0), InstCode::Next, InstCode::Match];
    assert!(!check_program(&bad));
    // Raw bytecode can name any column; the check is what keeps it out of
    // the machine.
    let tokens: Vec<Vec<u8>> = vec![b"Expect:10:0".to_vec(), b"Match".to_vec()];
    let program = VM::parse(&tokens).unwrap();
    assert!(!check_program(&program));
}
