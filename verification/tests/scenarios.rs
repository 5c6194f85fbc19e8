use py_cyclo_complexity::{analyze_source, AnalysisError, FunctionCC, AST};

fn report(src: &str) -> Vec<(String, usize)> {
    AST::new(src).unwrap().travers_ast().unwrap()
}

fn named(name: &str, complexity: usize) -> (String, usize) {
    (name.to_string(), complexity)
}

#[test]
fn conditional_in_function_scores_two() {
    let src = "def f(x):\n    if x:\n        return 1\n    return 0\n";
    assert_eq!(report(src), vec![named("f", 2)]);
}

#[test]
fn loop_and_conditional_in_method_score_three() {
    let src = "class A:\n    def m(self, x):\n        for i in x:\n            if i:\n                pass\n";
    assert_eq!(report(src), vec![named("A.m", 3)]);
}

#[test]
fn empty_file_has_empty_report() {
    assert_eq!(report(""), vec![]);
}

#[test]
fn file_without_definitions_has_empty_report() {
    let src = "import os\nx = 1\ny = x + 2\nprint(y)\n";
    assert_eq!(report(src), vec![]);
}

#[test]
fn method_and_function_names_are_qualified() {
    let src = "class Foo:\n    def bar(self):\n        pass\n\ndef baz():\n    pass\n";
    assert_eq!(report(src), vec![named("Foo.bar", 1), named("baz", 1)]);
}

#[test]
fn function_without_decisions_scores_one() {
    let src = "def plain(a, b):\n    c = a + b\n    d = c * 2\n    return d\n";
    assert_eq!(report(src), vec![named("plain", 1)]);
}

#[test]
fn every_decision_kind_counts_once() {
    let src = "\
def g(xs):
    for x in xs:
        while x:
            if x > 1:
                pass
            elif x < 0:
                pass
            else:
                pass
    try:
        pass
    except ValueError:
        pass
    finally:
        pass
    def inner():
        if xs:
            pass
    return xs
";
    assert_eq!(report(src), vec![named("g", 10)]);
}

#[test]
fn each_decision_kind_alone_adds_one() {
    let bodies = [
        "    for i in x:\n        pass\n",
        "    while x:\n        pass\n",
        "    if x:\n        pass\n",
        "    def inner():\n        pass\n",
    ];
    for body in bodies {
        let src = format!("def f(x):\n{}", body);
        assert_eq!(report(&src), vec![named("f", 2)]);
    }
    let with_elif = "def f(x):\n    if x:\n        pass\n    elif x:\n        pass\n";
    assert_eq!(report(with_elif), vec![named("f", 3)]);
    let with_except = "def f(x):\n    try:\n        pass\n    except E:\n        pass\n";
    assert_eq!(report(with_except), vec![named("f", 3)]);
    let with_finally = "def f(x):\n    try:\n        pass\n    finally:\n        pass\n";
    assert_eq!(report(with_finally), vec![named("f", 3)]);
}

#[test]
fn boolean_operators_and_comprehensions_do_not_count() {
    let src = "\
def quiet(a):
    b = a and a > 1 or a < 0
    c = [i for i in a if i]
    d = a if b else c
    with open(a) as h:
        pass
    return lambda z: z
";
    assert_eq!(report(src), vec![named("quiet", 1)]);
}

#[test]
fn else_branch_does_not_count() {
    let src = "def f(x):\n    if x:\n        pass\n    else:\n        pass\n";
    assert_eq!(report(src), vec![named("f", 2)]);
}

#[test]
fn same_constructs_reordered_or_renested_score_the_same() {
    let side_by_side = "\
def f(x):
    if x:
        pass
    for i in x:
        pass
    while x:
        pass
";
    let reordered = "\
def f(x):
    while x:
        pass
    if x:
        pass
    for i in x:
        pass
";
    let nested = "\
def f(x):
    for i in x:
        while x:
            if x:
                pass
";
    assert_eq!(report(side_by_side), vec![named("f", 4)]);
    assert_eq!(report(reordered), vec![named("f", 4)]);
    assert_eq!(report(nested), vec![named("f", 4)]);
}

#[test]
fn nested_function_counts_but_is_not_listed() {
    let src = "\
def outer(x):
    def helper(y):
        for i in y:
            pass
    return helper(x)
";
    assert_eq!(report(src), vec![named("outer", 3)]);
}

#[test]
fn nested_class_methods_are_not_listed() {
    let src = "\
class Foo:
    x = 1
    def bar(self):
        return 1
    class Inner:
        def hidden(self):
            pass
    def qux(self, a):
        if a:
            return 1
        return 0

def baz():
    pass
";
    assert_eq!(report(src), vec![named("Foo.bar", 1), named("Foo.qux", 2), named("baz", 1)]);
}

#[test]
fn definitions_below_other_statements_are_not_listed() {
    let src = "if True:\n    def f():\n        pass\n    class A:\n        def m(self):\n            pass\n";
    assert_eq!(report(src), vec![]);
}

#[test]
fn decorated_definitions_are_not_listed() {
    let src = "\
@decorator
def f():
    pass

@decorator
class D:
    def m(self):
        pass

class A:
    @staticmethod
    def s():
        pass
    def n(self):
        pass
";
    assert_eq!(report(src), vec![named("A.n", 1)]);
}

#[test]
fn async_function_breaks_the_naming_convention() {
    let ast = AST::new("async def f():\n    pass\n").unwrap();
    assert_eq!(ast.travers_ast(), Err(AnalysisError::StructuralAssumptionViolation));
    let ast = AST::new("class A:\n    async def m(self):\n        pass\n").unwrap();
    assert_eq!(ast.travers_ast(), Err(AnalysisError::StructuralAssumptionViolation));
}

#[test]
fn class_with_bases_and_one_line_bodies() {
    let src = "class A(Base, metaclass=M):\n    def m(self): return 1\n\ndef f(): pass\n";
    assert_eq!(report(src), vec![named("A.m", 1), named("f", 1)]);
}

#[test]
fn names_outside_ascii_are_cut_at_their_bytes() {
    let src = "# héllo wörld ✓\ndef größe(x):\n    if x:\n        return 1\n\nclass Ünï:\n    def mäß(self):\n        pass\n";
    assert_eq!(report(src), vec![named("größe", 2), named("Ünï.mäß", 1)]);
}

#[test]
fn report_follows_source_order() {
    let src = "\
def z():
    pass

class M:
    def b(self):
        pass
    def a(self):
        pass

def a():
    pass
";
    assert_eq!(report(src), vec![named("z", 1), named("M.b", 1), named("M.a", 1), named("a", 1)]);
}

#[test]
fn every_listed_function_scores_at_least_one() {
    let src = "def a():\n    pass\n\nclass C:\n    def b(self):\n        while True:\n            pass\n";
    let records = report(src);
    assert_eq!(records.len(), 2);
    assert!(records.iter().all(|r| r.1 >= 1));
}

#[test]
fn analysis_of_the_same_text_is_repeatable() {
    let src = "def f(x):\n    for i in x:\n        if i:\n            pass\n\nclass K:\n    def m(self):\n        try:\n            pass\n        except E:\n            pass\n";
    let first = report(src);
    let second = report(src);
    assert_eq!(first, second);
    assert_eq!(first, vec![named("f", 3), named("K.m", 3)]);
}

#[test]
fn source_in_memory_is_analysed_in_one_call() {
    let src = "class A:\n    def m(self, x):\n        for i in x:\n            if i:\n                pass\n";
    assert_eq!(analyze_source(src), Ok(vec![named("A.m", 3)]));
    assert_eq!(analyze_source(""), Ok(vec![]));
    assert_eq!(
        analyze_source("async def f():\n    pass\n"),
        Err(AnalysisError::StructuralAssumptionViolation)
    );
}

#[test]
fn count_on_a_parsed_function_node() {
    let root = py_cyclo_complexity::parser::parse_python("def f(x):\n    if x:\n        pass\n").unwrap();
    assert_eq!(root.kind, "module");
    assert_eq!(root.children.len(), 1);
    assert_eq!(FunctionCC::count_cc(&root.children[0]), 2);
    // seen from the module, the function definition itself is a descendant
    assert_eq!(FunctionCC::count_cc(&root), 3);
}

#[test]
fn parsed_tree_has_kinds_children_and_byte_ranges() {
    let src = "x = 1\ndef name(a):\n    pass\n";
    let root = py_cyclo_complexity::parser::parse_python(src).unwrap();
    assert_eq!(root.kind, "module");
    assert_eq!((root.start, root.end), (0, src.len()));
    assert_eq!(root.children.len(), 2);
    assert_eq!(root.children[0].kind, "expression_statement");
    let def = &root.children[1];
    assert_eq!(def.kind, "function_definition");
    assert_eq!((def.start, def.end), (6, src.len() - 1));
    let kinds: Vec<&str> = def.children.iter().map(|c| c.kind.as_str()).collect();
    assert_eq!(kinds, vec!["def", "identifier", "parameters", ":", "block"]);
    assert_eq!((def.children[1].start, def.children[1].end), (10, 14));
    assert_eq!(&src[def.children[1].start..def.children[1].end], "name");
    assert!(def.children[0].children.is_empty());
}
