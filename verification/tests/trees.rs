use py_cyclo_complexity::{AnalysisError, FunctionCC, SyntaxNode, AST};

fn node(kind: &str, start: usize, end: usize, children: Vec<SyntaxNode>) -> SyntaxNode {
    SyntaxNode { kind: kind.to_string(), start, end, children }
}

fn leaf(kind: &str) -> SyntaxNode {
    node(kind, 0, 0, vec![])
}

fn inner(kind: &str, children: Vec<SyntaxNode>) -> SyntaxNode {
    node(kind, 0, 0, children)
}

/// A definition whose name is the bytes `start..end` of the source text.
fn definition(kind: &str, keyword: &str, start: usize, end: usize, rest: Vec<SyntaxNode>) -> SyntaxNode {
    let mut children = vec![leaf(keyword), node("identifier", start, end, vec![])];
    children.extend(rest);
    inner(kind, children)
}

fn function(start: usize, end: usize, body: Vec<SyntaxNode>) -> SyntaxNode {
    definition("function_definition", "def", start, end, vec![inner("block", body)])
}

fn analyse(src: &str, top_level: Vec<SyntaxNode>) -> Result<Vec<(String, usize)>, AnalysisError> {
    AST::with_tree(src, inner("module", top_level)).travers_ast()
}

fn named(name: &str, complexity: usize) -> (String, usize) {
    (name.to_string(), complexity)
}

#[test]
fn bare_node_scores_one() {
    assert_eq!(FunctionCC::count_cc(&leaf("function_definition")), 1);
    assert_eq!(FunctionCC::count_cc(&leaf("if_statement")), 1);
    assert_eq!(FunctionCC::count_cc(&leaf("anything")), 1);
}

#[test]
fn tree_without_decisions_scores_one() {
    let tree = inner(
        "function_definition",
        vec![
            leaf("def"),
            leaf("identifier"),
            inner("block", vec![inner("expression_statement", vec![leaf("call"), leaf("else_clause")])]),
        ],
    );
    assert_eq!(FunctionCC::count_cc(&tree), 1);
}

#[test]
fn each_decision_kind_counts_in_a_tree() {
    let kinds = [
        "for_statement",
        "if_statement",
        "while_statement",
        "try_statement",
        "except_clause",
        "finally_clause",
        "elif_clause",
        "function_definition",
    ];
    for kind in kinds {
        let tree = inner("function_definition", vec![inner("block", vec![leaf(kind)])]);
        assert_eq!(FunctionCC::count_cc(&tree), 2);
    }
    let all = inner("function_definition", kinds.iter().map(|k| leaf(k)).collect());
    assert_eq!(FunctionCC::count_cc(&all), 9);
}

#[test]
fn other_kinds_do_not_count_in_a_tree() {
    let kinds = [
        "else_clause",
        "class_definition",
        "block",
        "identifier",
        "boolean_operator",
        "conditional_expression",
        "for_in_clause",
        "if_clause",
        "with_statement",
        "match_statement",
        "lambda",
        "if",
        "for",
        "",
        "if_statement ",
        "If_statement",
    ];
    let tree = inner("function_definition", kinds.iter().map(|k| leaf(k)).collect());
    assert_eq!(FunctionCC::count_cc(&tree), 1);
}

#[test]
fn count_ignores_order_and_nesting() {
    let flat = inner(
        "function_definition",
        vec![leaf("if_statement"), leaf("for_statement"), leaf("try_statement")],
    );
    let reordered = inner(
        "function_definition",
        vec![leaf("try_statement"), leaf("if_statement"), leaf("for_statement")],
    );
    let nested = inner(
        "function_definition",
        vec![inner("for_statement", vec![inner("block", vec![inner("try_statement", vec![leaf("if_statement")])])])],
    );
    let spread = inner(
        "function_definition",
        vec![
            inner("block", vec![leaf("if_statement")]),
            inner("block", vec![inner("block", vec![leaf("try_statement")]), leaf("pass")]),
            leaf("for_statement"),
        ],
    );
    assert_eq!(FunctionCC::count_cc(&flat), 4);
    assert_eq!(FunctionCC::count_cc(&reordered), 4);
    assert_eq!(FunctionCC::count_cc(&nested), 4);
    assert_eq!(FunctionCC::count_cc(&spread), 4);
}

#[test]
fn repeated_constructs_are_not_merged() {
    let tree = inner(
        "function_definition",
        vec![leaf("if_statement"), leaf("if_statement"), inner("if_statement", vec![leaf("if_statement")])],
    );
    assert_eq!(FunctionCC::count_cc(&tree), 5);
}

#[test]
fn deep_nesting_counts_every_level() {
    let mut tree = leaf("if_statement");
    for _ in 0..499 {
        tree = inner("if_statement", vec![tree]);
    }
    let function = inner("function_definition", vec![tree]);
    assert_eq!(FunctionCC::count_cc(&function), 501);
}

#[test]
fn module_level_function_is_named_by_its_identifier() {
    let src = "def baz(): pass";
    assert_eq!(analyse(src, vec![function(4, 7, vec![leaf("pass_statement")])]), Ok(vec![named("baz", 1)]));
}

#[test]
fn method_is_named_with_its_class() {
    let src = "class Foo: def bar";
    let method = function(15, 18, vec![leaf("if_statement")]);
    let class = definition("class_definition", "class", 6, 9, vec![leaf(":"), inner("block", vec![method])]);
    assert_eq!(analyse(src, vec![class]), Ok(vec![named("Foo.bar", 2)]));
}

#[test]
fn other_top_level_kinds_are_ignored() {
    let src = "abc";
    let top = vec![
        leaf("expression_statement"),
        inner("decorated_definition", vec![leaf("decorator"), function(0, 1, vec![])]),
        inner("if_statement", vec![function(0, 1, vec![])]),
        inner("block", vec![function(0, 1, vec![])]),
        leaf("identifier"),
    ];
    assert_eq!(analyse(src, top), Ok(vec![]));
    assert_eq!(analyse(src, vec![]), Ok(vec![]));
}

#[test]
fn class_members_are_read_one_level_deep() {
    let src = "Kabcd";
    let class = definition(
        "class_definition",
        "class",
        0,
        1,
        vec![
            function(4, 5, vec![]),
            inner(
                "block",
                vec![
                    function(1, 2, vec![]),
                    leaf("expression_statement"),
                    inner("decorated_definition", vec![function(4, 5, vec![])]),
                    definition(
                        "class_definition",
                        "class",
                        4,
                        5,
                        vec![inner("block", vec![function(4, 5, vec![])])],
                    ),
                    function(2, 3, vec![inner("block", vec![function(4, 5, vec![])])]),
                ],
            ),
            inner("block", vec![function(3, 4, vec![])]),
        ],
    );
    assert_eq!(
        analyse(src, vec![class]),
        Ok(vec![named("K.a", 1), named("K.b", 2), named("K.c", 1)])
    );
}

#[test]
fn class_without_body_gives_no_record() {
    let class = definition("class_definition", "class", 0, 1, vec![]);
    assert_eq!(analyse("K", vec![class]), Ok(vec![]));
}

#[test]
fn empty_name_is_a_name() {
    assert_eq!(analyse("abc", vec![function(1, 1, vec![])]), Ok(vec![named("", 1)]));
    assert_eq!(analyse("", vec![function(0, 0, vec![])]), Ok(vec![named("", 1)]));
}

#[test]
fn missing_identifier_is_a_violation() {
    let violation = Err(AnalysisError::StructuralAssumptionViolation);
    let no_children = leaf("function_definition");
    assert_eq!(analyse("f", vec![no_children]), violation);
    let one_child = inner("function_definition", vec![leaf("def")]);
    assert_eq!(analyse("f", vec![one_child]), violation);
    let identifier_first = inner("function_definition", vec![node("identifier", 0, 1, vec![])]);
    assert_eq!(analyse("f", vec![identifier_first]), violation);
    let class_without_name = inner("class_definition", vec![leaf("class")]);
    assert_eq!(analyse("f", vec![class_without_name]), violation);
}

#[test]
fn second_child_of_another_kind_is_a_violation() {
    let violation = Err(AnalysisError::StructuralAssumptionViolation);
    let shifted = inner(
        "function_definition",
        vec![leaf("async"), leaf("def"), node("identifier", 0, 1, vec![])],
    );
    assert_eq!(analyse("f", vec![shifted]), violation);
    let class = inner("class_definition", vec![leaf("class"), node("name", 0, 1, vec![])]);
    assert_eq!(analyse("K", vec![class]), violation);
}

#[test]
fn identifier_that_locates_no_text_is_a_violation() {
    let violation = Err(AnalysisError::StructuralAssumptionViolation);
    assert_eq!(analyse("f", vec![function(0, 2, vec![])]), violation);
    assert_eq!(analyse("f", vec![function(2, 3, vec![])]), violation);
    assert_eq!(analyse("abc", vec![function(2, 1, vec![])]), violation);
    // "é" takes two bytes: neither range ends between characters
    assert_eq!(analyse("é", vec![function(0, 1, vec![])]), violation);
    assert_eq!(analyse("é", vec![function(1, 2, vec![])]), violation);
    assert_eq!(analyse("é", vec![function(0, 2, vec![])]), Ok(vec![named("é", 1)]));
}

#[test]
fn unnamed_method_is_a_violation() {
    let violation = Err(AnalysisError::StructuralAssumptionViolation);
    let class = definition(
        "class_definition",
        "class",
        0,
        1,
        vec![inner("block", vec![function(1, 2, vec![]), leaf("function_definition")])],
    );
    assert_eq!(analyse("Ka", vec![class]), violation);
}

#[test]
fn violation_anywhere_leaves_no_partial_report() {
    let violation = Err(AnalysisError::StructuralAssumptionViolation);
    let top = vec![function(0, 1, vec![]), leaf("class_definition"), function(1, 2, vec![])];
    assert_eq!(analyse("ab", top), violation);
    let top = vec![function(0, 1, vec![]), function(1, 2, vec![]), leaf("function_definition")];
    assert_eq!(analyse("ab", top), violation);
}

#[test]
fn unnamed_definitions_out_of_sight_are_no_violation() {
    let top = vec![
        inner("if_statement", vec![leaf("function_definition")]),
        function(0, 1, vec![leaf("function_definition"), leaf("class_definition")]),
        definition(
            "class_definition",
            "class",
            1,
            2,
            vec![
                leaf("function_definition"),
                inner("block", vec![leaf("class_definition"), inner("block", vec![leaf("function_definition")])]),
            ],
        ),
    ];
    assert_eq!(analyse("ab", top), Ok(vec![named("a", 2)]));
}

#[test]
fn complexity_of_a_method_counts_its_whole_subtree() {
    let body = vec![
        inner("for_statement", vec![inner("block", vec![inner("if_statement", vec![leaf("elif_clause")])])]),
        inner("try_statement", vec![leaf("except_clause"), leaf("except_clause"), leaf("finally_clause")]),
    ];
    let class = definition(
        "class_definition",
        "class",
        0,
        1,
        vec![inner("block", vec![function(1, 2, body)])],
    );
    assert_eq!(analyse("Cm", vec![class]), Ok(vec![named("C.m", 8)]));
}
