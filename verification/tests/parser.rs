use tapelang::parser::ast;
use tapelang::parser::compress;
use tapelang::parser::lex;
use tapelang::parser::ParserError;
use tapelang::parser::Token;

type T = Token;

#[test]
fn empty_source_is_empty_stream() {
    assert_eq!(ast(""), Ok(vec![]));
}

#[test]
fn single_move() {
    assert_eq!(ast(">"), Ok(vec![T::Right(1)]));
}

#[test]
fn simple_loop_resolves() {
    assert_eq!(ast("[>]"), Ok(vec![T::Break(2), T::Right(1), T::Loop(0)]));
}

#[test]
fn run_of_moves_folds() {
    assert_eq!(ast(">>>>"), Ok(vec![T::Right(4)]));
}

#[test]
fn commentary_is_dropped() {
    assert_eq!(
        ast("comment\n>>>>\nanother [oops] comment"),
        Ok(vec![T::Right(4), T::Break(2), T::Loop(1)])
    );
}

#[test]
fn alternating_runs_stay_separate() {
    assert_eq!(
        ast(">+>+"),
        Ok(vec![T::Right(1), T::Add(1), T::Right(1), T::Add(1)])
    );
}

#[test]
fn nested_loops_resolve() {
    assert_eq!(
        ast("[[.-]]"),
        Ok(vec![
            T::Break(5),
            T::Break(4),
            T::Write,
            T::Sub(1),
            T::Loop(1),
            T::Loop(0)
        ])
    );
}

#[test]
fn all_eight_symbols() {
    assert_eq!(
        ast("><+-.,[]"),
        Ok(vec![
            T::Right(1),
            T::Left(1),
            T::Add(1),
            T::Sub(1),
            T::Write,
            T::Read,
            T::Break(7),
            T::Loop(6)
        ])
    );
}

#[test]
fn known_scenario_compresses() {
    assert_eq!(
        ast("++++[>+.<-]"),
        Ok(vec![
            T::Add(4),
            T::Break(7),
            T::Right(1),
            T::Add(1),
            T::Write,
            T::Left(1),
            T::Sub(1),
            T::Loop(1)
        ])
    );
}

#[test]
fn unmatched_entry_is_detected() {
    assert_eq!(ast("[[+++>++]"), Err(ParserError::UnmatchedBracket('[')));
}

#[test]
fn unmatched_exit_is_detected() {
    assert_eq!(ast("[+>++]]]"), Err(ParserError::UnmatchedBracket(']')));
}

#[test]
fn increment_run_counts_modulo_256() {
    let source: String = std::iter::repeat('+').take(300).collect();
    assert_eq!(ast(&source), Ok(vec![T::Add(44)]));
    let source: String = std::iter::repeat('-').take(256).collect();
    assert_eq!(ast(&source), Ok(vec![T::Sub(0)]));
}

#[test]
fn runs_differing_by_256_coincide() {
    let shorter: String = std::iter::repeat('+').take(10).collect();
    let longer: String = std::iter::repeat('+').take(266).collect();
    assert_eq!(ast(&shorter), ast(&longer));
}

#[test]
fn compression_is_idempotent() {
    let toks = lex("comment >>>> ++++ [---] <<>> ..");
    let once = compress(&toks);
    let twice = compress(&once);
    assert_eq!(once, twice);
}

#[test]
fn deep_nesting_targets_are_mutual() {
    let mut source = String::new();
    for _ in 0..50 {
        source.push('[');
    }
    for _ in 0..50 {
        source.push(']');
    }
    let program = ast(&source).unwrap();
    assert_eq!(program.len(), 100);
    for (i, t) in program.iter().enumerate() {
        match *t {
            Token::Break(j) => {
                assert_eq!(program[j], Token::Loop(i));
            }
            Token::Loop(j) => {
                assert_eq!(program[j], Token::Break(i));
            }
            _ => panic!("unexpected token"),
        }
    }
}

#[test]
fn exit_before_entry_is_unmatched_exit() {
    assert_eq!(ast("]["), Err(ParserError::UnmatchedBracket(']')));
}

#[test]
fn adjacent_empty_loops_resolve_directly() {
    assert_eq!(
        ast("[][]"),
        Ok(vec![T::Break(1), T::Loop(0), T::Break(3), T::Loop(2)])
    );
}
