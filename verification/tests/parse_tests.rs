use bf_interp::Error;
use bf_interp::parser::BfParser;
use bf_interp::parser::stack::BfStack;
use bf_interp::parser::stack::BfStackElem;
use bf_interp::parser::stack::BfWhile;
use bf_interp::parser::stack::Error as StackError;
use bf_interp::parser::stack::SyntaxError;

fn parse_ok(src: &str) -> BfParser {
    BfParser::from(src).expect("source should parse")
}

fn parse_err(src: &str) -> StackError {
    match BfParser::from(src) {
        Ok(_) => panic!("source should not parse"),
        Err(Error::StackModuleError(e)) => e,
        Err(other) => panic!("unexpected error kind: {:?}", other),
    }
}

#[test]
fn empty_source_parses_to_empty_program() {
    let p = parse_ok("");
    assert_eq!(p.stack.item.len(), 0);
}

#[test]
fn whitespace_and_comments_parse_to_empty_program() {
    let p = parse_ok("  \t\n / all of this is a comment + - [ ] / \n ");
    assert_eq!(p.stack.item.len(), 0);
}

#[test]
fn plain_operations_are_kept_in_order() {
    let p = parse_ok("+-<>.,");
    assert_eq!(p.stack.item.len(), 6);
    assert_eq!(p.stack.item[0], BfStackElem::Single('+'));
    assert_eq!(p.stack.item[1], BfStackElem::Single('-'));
    assert_eq!(p.stack.item[2], BfStackElem::Single('<'));
    assert_eq!(p.stack.item[3], BfStackElem::Single('>'));
    assert_eq!(p.stack.item[4], BfStackElem::Single('.'));
    assert_eq!(p.stack.item[5], BfStackElem::Single(','));
}

#[test]
fn unknown_characters_are_kept_for_the_evaluator() {
    let p = parse_ok("x");
    assert_eq!(p.stack.item, vec![BfStackElem::Single('x')]);
}

#[test]
fn repetition_group_expands_to_copies() {
    let rep = parse_ok("(+5)");
    let plain = parse_ok("+++++");
    assert_eq!(rep.stack.item, plain.stack.item);
}

#[test]
fn repetition_group_without_digits_means_one_copy() {
    let rep = parse_ok("(>)");
    let plain = parse_ok(">");
    assert_eq!(rep.stack.item, plain.stack.item);
}

#[test]
fn repetition_group_with_zero_means_no_copies() {
    let p = parse_ok("(+0)");
    assert_eq!(p.stack.item.len(), 0);
}

#[test]
fn repetition_group_allows_whitespace_between_parts() {
    let rep = parse_ok("( + 1 2 )");
    let plain = parse_ok("++++++++++++");
    assert_eq!(rep.stack.item, plain.stack.item);
}

#[test]
fn loop_body_ends_with_end_sentinel() {
    let p = parse_ok("[-]");
    assert_eq!(p.stack.item.len(), 1);
    match &p.stack.item[0] {
        BfStackElem::While(body) => {
            assert_eq!(body.len(), 2);
            assert_eq!(body[0], BfWhile::Linear('-'));
            assert_eq!(body[1], BfWhile::End);
        },
        other => panic!("expected a loop, found {:?}", other),
    }
}

#[test]
fn empty_loop_body_is_just_the_sentinel() {
    let p = parse_ok("[]");
    match &p.stack.item[0] {
        BfStackElem::While(body) => assert_eq!(body, &vec![BfWhile::End]),
        other => panic!("expected a loop, found {:?}", other),
    }
}

#[test]
fn nested_loops_nest_in_the_body() {
    let p = parse_ok("[[+]]");
    match &p.stack.item[0] {
        BfStackElem::While(body) => {
            assert_eq!(body.len(), 2);
            match &body[0] {
                BfWhile::Nested(inner) => match inner.as_ref() {
                    BfStackElem::While(inner_body) => {
                        assert_eq!(
                            inner_body,
                            &vec![BfWhile::Linear('+'), BfWhile::End]
                        );
                    },
                    other => panic!("expected a nested loop, found {:?}", other),
                },
                other => panic!("expected a nested element, found {:?}", other),
            }
            assert_eq!(body[1], BfWhile::End);
        },
        other => panic!("expected a loop, found {:?}", other),
    }
}

#[test]
fn repetition_inside_loop_expands_to_body_elements() {
    let rep = parse_ok("[(+3)]");
    let plain = parse_ok("[+++]");
    assert_eq!(rep.stack.item, plain.stack.item);
}

#[test]
fn unterminated_loop_is_a_parse_error() {
    assert_eq!(parse_err("["), StackError::UnterminatedLoop);
    assert_eq!(parse_err("[[]"), StackError::UnterminatedLoop);
}

#[test]
fn unmatched_loop_close_is_a_parse_error() {
    assert_eq!(parse_err("]"), StackError::MismatchedLoop);
    assert_eq!(parse_err("[]]"), StackError::MismatchedLoop);
}

#[test]
fn unmatched_repetition_close_is_a_parse_error() {
    assert_eq!(parse_err(")"), StackError::MismatchedBrackets);
}

#[test]
fn unterminated_comment_is_a_parse_error() {
    assert_eq!(parse_err("/ never closed"), StackError::CommentTagNotClosed);
    assert_eq!(parse_err("/"), StackError::CommentTagNotClosed);
}

#[test]
fn repetition_needs_an_operation_symbol() {
    assert_eq!(
        parse_err("(x3)"),
        StackError::SyntaxError(SyntaxError::ExpectedSymbol('x'))
    );
    assert_eq!(
        parse_err("(.)"),
        StackError::SyntaxError(SyntaxError::ExpectedSymbol('.'))
    );
}

#[test]
fn repetition_count_takes_digits_only() {
    assert_eq!(
        parse_err("(+a)"),
        StackError::SyntaxError(SyntaxError::OnlyDigitsAllowedHere('a'))
    );
}

#[test]
fn comment_inside_repetition_is_its_own_error() {
    assert_eq!(
        parse_err("(+/c/)"),
        StackError::SyntaxError(SyntaxError::CommentInsideBracket)
    );
}

#[test]
fn unclosed_repetition_is_a_parse_error() {
    assert_eq!(
        parse_err("(+5"),
        StackError::SyntaxError(SyntaxError::UnclosedParanthesis)
    );
    assert_eq!(
        parse_err("("),
        StackError::SyntaxError(SyntaxError::UnclosedParanthesis)
    );
}

#[test]
fn oversized_repetition_count_is_a_parse_error() {
    assert_eq!(
        parse_err("(+99999999999999999999999999)"),
        StackError::SyntaxError(SyntaxError::ParseNumError)
    );
}

#[test]
fn comment_is_skipped_between_operations() {
    let with = parse_ok("+/skip [ ( ] ) anything/-");
    let without = parse_ok("+-");
    assert_eq!(with.stack.item, without.stack.item);
}

#[test]
fn stackify_appends_and_pop_stack_removes_from_the_front() {
    let mut stack = BfStack::init_stack();
    stack.stackify("+-").expect("source should parse");
    assert_eq!(stack.item.len(), 2);
    stack.pop_stack();
    assert_eq!(stack.item, vec![BfStackElem::Single('-')]);
}
