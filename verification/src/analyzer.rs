//! The analysis of one source unit: which functions and methods it defines,
//! under which names, and how complex each is.

use crate::complexity::{complexity, saturated, FunctionCC};
use crate::parser::{parse_python, python_tree};
use crate::syntax::{Shape, SyntaxNode};
use crate::text::{locates_text, slice_text, text_at};
use vstd::prelude::*;
use vstd::string::StringExecFns;

verus! {

/// Why a source unit yields no report.
#[derive(Debug, Clone, Copy, PartialEq, Eq, Structural)]
pub enum AnalysisError {
    /// The file could not be opened or read. The analysis never gives this
    /// error itself: whoever reads the files hands it in for a file that
    /// failed.
    IoFailure,
    /// The parser produced no tree for the source text.
    ParseFailure,
    /// A class or function definition lacks the identifier that names it: its
    /// second child is missing, is not an identifier, or locates no text.
    StructuralAssumptionViolation,
}

/// The report of one source unit as plain values: name and complexity of each
/// function, in source order.
pub type Report = Seq<(Seq<char>, usize)>;

/// Whether `t` is a function definition.
pub open spec fn is_function(t: Shape) -> bool {
    t.kind == "function_definition"@
}

/// Whether `t` is a class definition.
pub open spec fn is_class(t: Shape) -> bool {
    t.kind == "class_definition"@
}

/// Whether `t` is a block, such as the body of a class.
pub open spec fn is_block(t: Shape) -> bool {
    t.kind == "block"@
}

/// Whether the definition node `t` carries its name where the analysis looks
/// for it: the second child is an identifier whose byte range locates text in
/// `src`.
pub open spec fn has_name(t: Shape, src: Seq<char>) -> bool {
    &&& t.children.len() >= 2
    &&& t.children[1].kind == "identifier"@
    &&& locates_text(src, t.children[1].start as int, t.children[1].end as int)
}

/// The name of the definition node `t`: the text of its second child.
pub open spec fn name_of(t: Shape, src: Seq<char>) -> Seq<char> {
    text_at(src, t.children[1].start as int, t.children[1].end as int)
}

/// The display name of a function: the bare name at module level, the class
/// name, a dot and the name inside a class.
pub open spec fn qualified_name(class: Option<Seq<char>>, name: Seq<char>) -> Seq<char> {
    match class {
        Some(c) => c + "."@ + name,
        None => name,
    }
}

/// What the report says of the function definition `t`.
pub open spec fn function_record(t: Shape, src: Seq<char>, class: Option<Seq<char>>) -> (
    Seq<char>,
    usize,
) {
    (qualified_name(class, name_of(t, src)), saturated(complexity(t) as int))
}

/// What a child of a class body contributes: a record where it is a function
/// definition, nothing otherwise.
pub open spec fn member_records(src: Seq<char>, class: Seq<char>) -> spec_fn(Shape) -> Report {
    |m: Shape|
        if is_function(m) {
            seq![function_record(m, src, Some(class))]
        } else {
            Seq::empty()
        }
}

/// What a child of a class definition contributes: the records of its members
/// where it is a block, nothing otherwise.
pub open spec fn body_records(src: Seq<char>, class: Seq<char>) -> spec_fn(Shape) -> Report {
    |b: Shape|
        if is_block(b) {
            b.children.flat_map(member_records(src, class))
        } else {
            Seq::empty()
        }
}

/// The records of the methods found directly inside the class definition `c`:
/// the function definitions among the children of its blocks.
pub open spec fn class_records(c: Shape, src: Seq<char>) -> Report {
    c.children.flat_map(body_records(src, name_of(c, src)))
}

/// What a top-level node contributes: the methods of a class, the one record
/// of a function, nothing for anything else.
pub open spec fn unit_records(src: Seq<char>) -> spec_fn(Shape) -> Report {
    |t: Shape|
        if is_class(t) {
            class_records(t, src)
        } else if is_function(t) {
            seq![function_record(t, src, None)]
        } else {
            Seq::empty()
        }
}

/// The report of the source unit with tree `root`: the contributions of the
/// top-level nodes, in source order.
pub open spec fn file_report(root: Shape, src: Seq<char>) -> Report {
    root.children.flat_map(unit_records(src))
}

/// Whether every function definition directly inside the block `b` has a name.
pub open spec fn members_named(b: Shape, src: Seq<char>) -> bool {
    forall|j: int|
        0 <= j < b.children.len() && is_function(#[trigger] b.children[j]) ==> has_name(
            b.children[j],
            src,
        )
}

/// Whether the class definition `c` and the methods directly inside it have
/// names.
pub open spec fn class_named(c: Shape, src: Seq<char>) -> bool {
    &&& has_name(c, src)
    &&& forall|i: int|
        0 <= i < c.children.len() && is_block(#[trigger] c.children[i]) ==> members_named(
            c.children[i],
            src,
        )
}

/// Whether the top-level node `t` meets the naming convention as far as the
/// analysis looks at it.
pub open spec fn unit_named(t: Shape, src: Seq<char>) -> bool {
    if is_class(t) {
        class_named(t, src)
    } else if is_function(t) {
        has_name(t, src)
    } else {
        true
    }
}

/// Whether every definition that the analysis records has a name.
pub open spec fn well_named(root: Shape, src: Seq<char>) -> bool {
    forall|i: int| 0 <= i < root.children.len() ==> unit_named(#[trigger] root.children[i], src)
}

/// The outcome of analysing the tree `root` of the source text `src`.
pub open spec fn analysis(root: Shape, src: Seq<char>) -> Result<Report, AnalysisError> {
    if well_named(root, src) {
        Ok(file_report(root, src))
    } else {
        Err(AnalysisError::StructuralAssumptionViolation)
    }
}

/// Nodes that contribute nothing leave the report empty.
proof fn lemma_nothing_contributed(nodes: Seq<Shape>, contribution: spec_fn(Shape) -> Report)
    requires
        forall|i: int| 0 <= i < nodes.len() ==> contribution(#[trigger] nodes[i]).len() == 0,
    ensures
        nodes.flat_map(contribution).len() == 0,
    decreases nodes.len(),
{
    if nodes.len() == 0 {
        assert(nodes.map_values(contribution) =~= Seq::<Report>::empty());
    } else {
        let rest = nodes.drop_last();
        lemma_nothing_contributed(rest, contribution);
        rest.lemma_flat_map_push(contribution, nodes.last());
        assert(rest.push(nodes.last()) =~= nodes);
    }
}

/// A source unit without a class or function definition at its top level has
/// an empty report, and no error.
pub proof fn lemma_no_definitions_no_records(root: Shape, src: Seq<char>)
    requires
        forall|i: int|
            0 <= i < root.children.len() ==> !is_class(#[trigger] root.children[i]) && !is_function(
                root.children[i],
            ),
    ensures
        analysis(root, src) == Ok::<Report, AnalysisError>(Seq::empty()),
{
    lemma_nothing_contributed(root.children, unit_records(src));
    assert(file_report(root, src) =~= Seq::empty());
}

/// The outcome of analysing the source text `src`: that of its syntax tree,
/// or the parse failure where the text has none.
pub open spec fn source_analysis(src: Seq<char>) -> Result<Report, AnalysisError> {
    match python_tree(src) {
        Some(root) => analysis(root, src),
        None => Err(AnalysisError::ParseFailure),
    }
}

/// The records of a report as plain values.
pub open spec fn report_view(records: Seq<(String, usize)>) -> Report {
    records.map_values(|r: (String, usize)| (r.0@, r.1))
}

/// A report in which every function has at least the base complexity.
pub open spec fn scores_positive(records: Seq<(String, usize)>) -> bool {
    forall|i: int| 0 <= i < records.len() ==> (#[trigger] records[i]).1 >= 1
}

/// The enclosing class name as plain values.
pub open spec fn class_view(class: Option<&str>) -> Option<Seq<char>> {
    match class {
        Some(c) => Some(c@),
        None => None,
    }
}

/// A source text together with its syntax tree.
pub struct AST<'a> {
    src: &'a str,
    root: SyntaxNode,
}

impl<'a> AST<'a> {
    /// The source text.
    pub closed spec fn source(&self) -> Seq<char> {
        self.src@
    }

    /// The syntax tree.
    pub closed spec fn tree(&self) -> Shape {
        self.root@
    }

    /// Parses `src` as Python and keeps the text with its tree.
    pub fn new(src: &'a str) -> (out: Result<Self, AnalysisError>)
        ensures
            match out {
                Ok(ast) => ast.source() == src@ && python_tree(src@) == Some(ast.tree()),
                Err(e) => e == AnalysisError::ParseFailure && python_tree(src@) is None,
            },
    {
        match parse_python(src) {
            Some(root) => Ok(AST { src, root }),
            None => Err(AnalysisError::ParseFailure),
        }
    }

    /// Pairs a source text with a tree built for it.
    pub fn with_tree(src: &'a str, root: SyntaxNode) -> (ast: Self)
        ensures
            ast.source() == src@,
            ast.tree() == root@,
    {
        AST { src, root }
    }

    /// The functions and methods of the source unit with their complexity, in
    /// source order, or the error where a definition has no name.
    pub fn travers_ast(&self) -> (out: Result<Vec<(String, usize)>, AnalysisError>)
        ensures
            match out {
                Ok(records) => {
                    &&& analysis(self.tree(), self.source()) == Ok::<Report, AnalysisError>(
                        report_view(records@),
                    )
                    &&& scores_positive(records@)
                },
                Err(e) => analysis(self.tree(), self.source()) == Err::<Report, AnalysisError>(e),
            },
    {
        let mut res: Vec<(String, usize)> = Vec::new();
        let root = &self.root;
        let n = root.children.len();
        let ghost contribution = unit_records(self.src@);
        let mut i: usize = 0;
        proof {
            root.lemma_view_children();
            assert(root@.children.take(0) =~= Seq::<Shape>::empty());
            assert(report_view(res@) =~= root@.children.take(0).flat_map(contribution));
        }
        while i < n
            invariant
                i <= n,
                n == root.children@.len(),
                n == root@.children.len(),
                root == &self.root,
                contribution == unit_records(self.src@),
                report_view(res@) == root@.children.take(i as int).flat_map(contribution),
                scores_positive(res@),
                forall|k: int| 0 <= k < i ==> unit_named(#[trigger] root@.children[k], self.src@),
            decreases n - i,
        {
            let child = &root.children[i];
            proof {
                root.lemma_view_children();
                root@.children.lemma_flat_map_take_append(contribution, i as int);
            }
            if child.has_kind("class_definition") {
                match self.process_class(child, &mut res) {
                    Ok(()) => {},
                    Err(e) => {
                        return Err(e);
                    },
                }
            } else if child.has_kind("function_definition") {
                match self.process_function(child, None) {
                    Ok(record) => {
                        proof {
                            res@.lemma_push_map_commute(|r: (String, usize)| (r.0@, r.1), record);
                        }
                        res.push(record);
                    },
                    Err(e) => {
                        return Err(e);
                    },
                }
            } else {
                assert(contribution(child@) =~= Seq::empty());
            }
            i += 1;
        }
        proof {
            assert(root@.children.take(n as int) =~= root@.children);
        }
        Ok(res)
    }

    /// The text of the identifier that names the definition `node`.
    fn definition_name(&self, node: &SyntaxNode) -> (out: Result<&'a str, AnalysisError>)
        ensures
            out is Ok <==> has_name(node@, self.src@),
            out matches Ok(name) ==> name@ == name_of(node@, self.src@),
            out matches Err(e) ==> e == AnalysisError::StructuralAssumptionViolation,
    {
        proof {
            node.lemma_view_children();
        }
        if node.children.len() < 2 {
            return Err(AnalysisError::StructuralAssumptionViolation);
        }
        let name_node = &node.children[1];
        if !name_node.has_kind("identifier") {
            return Err(AnalysisError::StructuralAssumptionViolation);
        }
        match slice_text(self.src, name_node.start, name_node.end) {
            Some(name) => Ok(name),
            None => Err(AnalysisError::StructuralAssumptionViolation),
        }
    }

    /// Appends the records of the methods directly inside the class `node`.
    fn process_class(&self, node: &SyntaxNode, res: &mut Vec<(String, usize)>) -> (out: Result<
        (),
        AnalysisError,
    >)
        requires
            scores_positive(old(res)@),
        ensures
            out is Ok <==> class_named(node@, self.src@),
            out is Ok ==> report_view(final(res)@) == report_view(old(res)@) + class_records(
                node@,
                self.src@,
            ),
            out matches Err(e) ==> e == AnalysisError::StructuralAssumptionViolation,
            scores_positive(final(res)@),
    {
        let class_name = match self.definition_name(node) {
            Ok(name) => name,
            Err(e) => {
                return Err(e);
            },
        };
        let ghost in_body = body_records(self.src@, class_name@);
        let ghost in_block = member_records(self.src@, class_name@);
        let n = node.children.len();
        let mut i: usize = 0;
        proof {
            node.lemma_view_children();
            assert(node@.children.take(0) =~= Seq::<Shape>::empty());
            assert(report_view(res@) =~= report_view(old(res)@) + node@.children.take(0).flat_map(
                in_body,
            ));
        }
        while i < n
            invariant
                i <= n,
                n == node.children@.len(),
                n == node@.children.len(),
                has_name(node@, self.src@),
                class_name@ == name_of(node@, self.src@),
                in_body == body_records(self.src@, class_name@),
                in_block == member_records(self.src@, class_name@),
                report_view(res@) == report_view(old(res)@) + node@.children.take(
                    i as int,
                ).flat_map(in_body),
                scores_positive(res@),
                forall|k: int|
                    0 <= k < i && is_block(#[trigger] node@.children[k]) ==> members_named(
                        node@.children[k],
                        self.src@,
                    ),
            decreases n - i,
        {
            let block = &node.children[i];
            let ghost before = report_view(res@);
            proof {
                node.lemma_view_children();
                node@.children.lemma_flat_map_take_append(in_body, i as int);
            }
            if block.has_kind("block") {
                let m = block.children.len();
                let mut j: usize = 0;
                proof {
                    block.lemma_view_children();
                    assert(block@.children.take(0) =~= Seq::<Shape>::empty());
                    assert(report_view(res@) =~= before + block@.children.take(0).flat_map(
                        in_block,
                    ));
                }
                while j < m
                    invariant
                        j <= m,
                        m == block.children@.len(),
                        m == block@.children.len(),
                        class_name@ == name_of(node@, self.src@),
                        in_block == member_records(self.src@, class_name@),
                        report_view(res@) == before + block@.children.take(j as int).flat_map(
                            in_block,
                        ),
                        scores_positive(res@),
                        forall|k: int|
                            0 <= k < j && is_function(#[trigger] block@.children[k]) ==> has_name(
                                block@.children[k],
                                self.src@,
                            ),
                        i < n,
                        n == node@.children.len(),
                        block@ == node@.children[i as int],
                        is_block(block@),
                    decreases m - j,
                {
                    let member = &block.children[j];
                    proof {
                        block.lemma_view_children();
                        block@.children.lemma_flat_map_take_append(in_block, j as int);
                    }
                    if member.has_kind("function_definition") {
                        match self.process_function(member, Some(class_name)) {
                            Ok(record) => {
                                proof {
                                    res@.lemma_push_map_commute(
                                        |r: (String, usize)| (r.0@, r.1),
                                        record,
                                    );
                                }
                                res.push(record);
                            },
                            Err(e) => {
                                return Err(e);
                            },
                        }
                    } else {
                        assert(in_block(member@) =~= Seq::empty());
                    }
                    j += 1;
                }
                proof {
                    assert(block@.children.take(m as int) =~= block@.children);
                }
            } else {
                assert(in_body(block@) =~= Seq::empty());
            }
            i += 1;
        }
        proof {
            assert(node@.children.take(n as int) =~= node@.children);
        }
        Ok(())
    }

    /// The record of the function definition `node`, named inside `class`
    /// where one is given.
    fn process_function(&self, node: &SyntaxNode, class: Option<&str>) -> (out: Result<
        (String, usize),
        AnalysisError,
    >)
        ensures
            out is Ok <==> has_name(node@, self.src@),
            out matches Ok(record) ==> (record.0@, record.1) == function_record(
                node@,
                self.src@,
                class_view(class),
            ) && record.1 >= 1,
            out matches Err(e) ==> e == AnalysisError::StructuralAssumptionViolation,
    {
        let fn_name = match self.definition_name(node) {
            Ok(name) => name,
            Err(e) => {
                return Err(e);
            },
        };
        let cc = FunctionCC::count_cc(node);
        let full_name = match class {
            Some(class) => {
                let mut full = class.to_owned();
                full.append(".");
                full.append(fn_name);
                full
            },
            None => fn_name.to_owned(),
        };
        Ok((full_name, cc))
    }
}

/// Analyses Python source text held in memory: parses it and reports its
/// functions and methods with their complexity.
pub fn analyze_source(src: &str) -> (out: Result<Vec<(String, usize)>, AnalysisError>)
    ensures
        match out {
            Ok(records) => source_analysis(src@) == Ok::<Report, AnalysisError>(
                report_view(records@),
            ) && scores_positive(records@),
            Err(e) => source_analysis(src@) == Err::<Report, AnalysisError>(e),
        },
{
    match AST::new(src) {
        Ok(ast) => ast.travers_ast(),
        Err(e) => Err(e),
    }
}

} // verus!
