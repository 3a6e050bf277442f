//! The control-flow graph that the analysis walks: statements, expressions
//! and the labelled edges between the nodes.

use vstd::prelude::*;
use crate::table::Table;
use vstd::string::StringExecFns;
use crate::text::{decimal, push_decimal};

verus! {

/// An expression of the analysed program.
#[derive(Debug, PartialEq, Eq)]
pub enum Expression {
    /// Two expressions joined by one of the operators `+ - * / %`.
    Binary { left: Box<Expression>, op: String, right: Box<Expression> },
    /// An integer literal.
    Number(i64),
    /// A variable.
    Identifier(String),
    /// Anything else: a value that is not known to the analysis.
    Other,
}

/// One binding of a declaration statement.
#[derive(Debug, PartialEq, Eq)]
pub struct Declaration {
    pub identifier: String,
    pub initializer: Expression,
}

/// The statement of a node.
#[derive(Debug, PartialEq, Eq)]
pub enum NodeValue {
    VariableDeclaration { declarations: Vec<Declaration> },
    VariableAssignment { left: String, right: Expression },
    /// A comparison with one of the operators `< <= > >= == !=`.
    Comparison { left: Expression, op: String, right: Expression },
    Other,
}

/// An edge to the node `key`. The label `value` is 1 on the edge taken where
/// a comparison holds, 0 on the edge taken where it fails, and -1 on an edge
/// that is taken in any case.
#[derive(Debug, Clone, PartialEq, Eq)]
pub struct Successor {
    pub key: String,
    pub value: i64,
}

/// One node as it is handed over: its name, its statement and its edges.
#[derive(Debug, PartialEq, Eq)]
pub struct Node {
    pub key: String,
    pub value: NodeValue,
    pub successors: Vec<Successor>,
}

/// A control-flow graph: a statement and a list of edges for each node
/// name, and the name of the node where the program starts.
#[derive(Debug)]
pub struct Graph {
    values: Table<NodeValue>,
    successors: Table<Vec<Successor>>,
    first: String,
}

impl Expression {
    /// The text of the expression: the two sides of an operator with the
    /// operator between them, a number in decimal, a variable by its name.
    pub open spec fn text(self) -> Seq<char>
        decreases self,
    {
        match self {
            Expression::Binary { left, op, right } => (*left).text() + seq![' '] + op@ + seq![' ']
                + (*right).text(),
            Expression::Number(n) => decimal(n as int),
            Expression::Identifier(name) => name@,
            Expression::Other => "__other_expr()"@,
        }
    }

    /// Appends the text of the expression to `out`.
    pub fn push_text_to(&self, out: &mut String)
        ensures
            final(out)@ == old(out)@ + self.text(),
        decreases self,
    {
        match self {
            Expression::Binary { left, op, right } => {
                left.push_text_to(out);
                out.append(" ");
                out.append(op.as_str());
                out.append(" ");
                right.push_text_to(out);
                proof {
                    reveal_strlit(" ");
                    assert(" "@ =~= seq![' ']);
                    assert(out@ =~= old(out)@ + self.text());
                }
            },
            Expression::Number(n) => {
                push_decimal(out, *n);
            },
            Expression::Identifier(name) => {
                out.append(name.as_str());
            },
            Expression::Other => {
                out.append("__other_expr()");
            },
        }
    }

    /// The text of the expression, see `text`.
    pub fn to_text(&self) -> (r: String)
        ensures
            r@ == self.text(),
    {
        let mut out = String::new();
        self.push_text_to(&mut out);
        assert(out@ =~= self.text());
        out
    }
}

impl Declaration {
    /// The text of the binding: `let`, the name, `=` and the initializer.
    pub open spec fn text(self) -> Seq<char> {
        "let "@ + self.identifier@ + " = "@ + self.initializer.text()
    }

    /// Appends the text of the binding to `out`.
    pub fn push_text_to(&self, out: &mut String)
        ensures
            final(out)@ == old(out)@ + self.text(),
    {
        out.append("let ");
        out.append(self.identifier.as_str());
        out.append(" = ");
        self.initializer.push_text_to(out);
        assert(out@ =~= old(out)@ + self.text());
    }

    /// The text of the binding, see `text`.
    pub fn to_text(&self) -> (r: String)
        ensures
            r@ == self.text(),
    {
        let mut out = String::new();
        self.push_text_to(&mut out);
        assert(out@ =~= self.text());
        out
    }
}

/// The texts of the first `n` bindings, each followed by a semicolon.
pub open spec fn declarations_text(declarations: Seq<Declaration>, n: int) -> Seq<char>
    decreases n,
{
    if n <= 0 {
        Seq::empty()
    } else {
        declarations_text(declarations, n - 1) + declarations[n - 1].text() + ";"@
    }
}

impl NodeValue {
    /// The text of the statement.
    pub open spec fn text(self) -> Seq<char> {
        match self {
            NodeValue::VariableDeclaration { declarations } => declarations_text(
                declarations@,
                declarations@.len() as int,
            ),
            NodeValue::VariableAssignment { left, right } => left@ + " = "@ + right.text() + ";"@,
            NodeValue::Comparison { left, op, right } => left.text() + " "@ + op@ + " "@
                + right.text(),
            NodeValue::Other => "__other_stmt();"@,
        }
    }

    /// The text of the statement, see `text`.
    pub fn to_text(&self) -> (r: String)
        ensures
            r@ == self.text(),
    {
        let mut out = String::new();
        match self {
            NodeValue::VariableDeclaration { declarations } => {
                let n = declarations.len();
                let mut i: usize = 0;
                while i < n
                    invariant
                        n == declarations@.len(),
                        i <= n,
                        out@ == declarations_text(declarations@, i as int),
                    decreases n - i,
                {
                    declarations[i].push_text_to(&mut out);
                    out.append(";");
                    i = i + 1;
                }
            },
            NodeValue::VariableAssignment { left, right } => {
                out.append(left.as_str());
                out.append(" = ");
                right.push_text_to(&mut out);
                out.append(";");
                assert(out@ =~= self.text());
            },
            NodeValue::Comparison { left, op, right } => {
                left.push_text_to(&mut out);
                out.append(" ");
                out.append(op.as_str());
                out.append(" ");
                right.push_text_to(&mut out);
                assert(out@ =~= self.text());
            },
            NodeValue::Other => {
                out.append("__other_stmt();");
                assert(out@ =~= self.text());
            },
        }
        out
    }
}

impl Graph {
    /// The statements of the graph by node name.
    pub closed spec fn values(&self) -> Table<NodeValue> {
        self.values
    }

    /// The edges of the graph by node name.
    pub closed spec fn successors(&self) -> Table<Vec<Successor>> {
        self.successors
    }

    /// The name of the node where the program starts.
    pub closed spec fn first_key(&self) -> Seq<char> {
        self.first@
    }

    /// The invariant of the graph: its two tables are well-formed.
    pub open spec fn wf(&self) -> bool {
        &&& self.values().wf()
        &&& self.successors().wf()
    }

    /// Whether the graph has a statement for the node `key`.
    pub open spec fn has_node(&self, key: Seq<char>) -> bool {
        self.values().contains(key)
    }

    /// The statement of the node `key`.
    pub open spec fn node(&self, key: Seq<char>) -> NodeValue {
        self.values().at(key)
    }

    /// Whether the graph has a list of edges for the node `key`.
    pub open spec fn has_edges(&self, key: Seq<char>) -> bool {
        self.successors().contains(key)
    }

    /// The edges that leave the node `key`, in their order.
    pub open spec fn edges(&self, key: Seq<char>) -> Seq<Successor> {
        self.successors().at(key)@
    }

    /// The graph of the statements and edges given, starting at `first`.
    pub fn new(values: Table<NodeValue>, successors: Table<Vec<Successor>>, first: String) -> (r:
        Self)
        requires
            values.wf(),
            successors.wf(),
        ensures
            r.wf(),
            r.values() == values,
            r.successors() == successors,
            r.first_key() == first@,
    {
        Graph { values, successors, first }
    }

    /// The statement of the node `s`, if the graph has one.
    pub fn value_of(&self, s: &str) -> (r: Option<&NodeValue>)
        requires
            self.wf(),
        ensures
            match r {
                Some(v) => self.has_node(s@) && *v == self.node(s@),
                None => !self.has_node(s@),
            },
    {
        let key = s.to_owned();
        self.values.get(&key)
    }

    /// The edges that leave the node `s`, if the graph has a list for it.
    pub fn successors_of(&self, s: &str) -> (r: Option<&Vec<Successor>>)
        requires
            self.wf(),
        ensures
            match r {
                Some(v) => self.has_edges(s@) && v@ == self.edges(s@),
                None => !self.has_edges(s@),
            },
    {
        let key = s.to_owned();
        self.successors.get(&key)
    }

    /// The name of the node where the program starts.
    pub fn first(&self) -> (r: &String)
        ensures
            r@ == self.first_key(),
    {
        &self.first
    }
}

/// Whether one of the nodes from place `from` on has the name `key`.
pub open spec fn named_later(nodes: Seq<Node>, from: int, key: Seq<char>) -> bool {
    exists|i: int| from <= i < nodes.len() && #[trigger] nodes[i].key@ == key
}

/// The place of the last node with the name `key`.
pub open spec fn last_named(nodes: Seq<Node>, key: Seq<char>) -> int {
    choose|i: int|
        0 <= i < nodes.len() && #[trigger] nodes[i].key@ == key && !named_later(nodes, i + 1, key)
}

/// The graph of a list of nodes. The first node of the list is where the
/// program starts. Where a name occurs more than once, the last node of
/// that name stands for it.
pub fn parse_(nodes: Vec<Node>) -> (r: Graph)
    requires
        nodes@.len() > 0,
    ensures
        r.wf(),
        r.first_key() == nodes@[0].key@,
        forall|k: Seq<char>| #[trigger] r.has_node(k) <==> named_later(nodes@, 0, k),
        forall|k: Seq<char>| #[trigger] r.has_edges(k) <==> named_later(nodes@, 0, k),
        forall|k: Seq<char>|
            named_later(nodes@, 0, k)
                ==> #[trigger] r.node(k) == nodes@[last_named(nodes@, k)].value,
        forall|k: Seq<char>|
            named_later(nodes@, 0, k) ==> #[trigger] r.edges(k) == nodes@[last_named(
                nodes@,
                k,
            )].successors@,
{
    let ghost all = nodes@;
    let first = nodes[0].key.clone();
    let mut nodes = nodes;
    let mut values: Table<NodeValue> = Table::new();
    let mut successors: Table<Vec<Successor>> = Table::new();
    while nodes.len() > 0
        invariant
            values.wf(),
            successors.wf(),
            nodes@.len() <= all.len(),
            nodes@ == all.subrange(0, nodes@.len() as int),
            forall|k: Seq<char>| #[trigger]
                values.contains(k) <==> named_later(all, nodes@.len() as int, k),
            forall|k: Seq<char>| #[trigger]
                successors.contains(k) <==> named_later(all, nodes@.len() as int, k),
            forall|k: Seq<char>|
                named_later(all, nodes@.len() as int, k)
                    ==> #[trigger] values.at(k) == all[last_named(
                    all,
                    k,
                )].value,
            forall|k: Seq<char>|
                named_later(all, nodes@.len() as int, k) ==> #[trigger] successors.at(k)
                    == all[last_named(all, k)].successors,
        decreases nodes@.len(),
    {
        let ghost n = nodes@.len() as int;
        let ghost old_values = values;
        let ghost old_successors = successors;
        let node = nodes.pop().unwrap();
        assert(node == all[n - 1]);
        assert(nodes@ =~= all.subrange(0, n - 1));
        let present = values.find(&node.key).is_some();
        let ghost key = node.key@;
        proof {
            assert forall|k: Seq<char>| named_later(all, n - 1, k) <==> (k == key || named_later(
                all,
                n,
                k,
            )) by {
                if named_later(all, n - 1, k) {
                    let i = choose|i: int| n - 1 <= i < all.len() && #[trigger] all[i].key@ == k;
                    if i >= n {
                        assert(named_later(all, n, k));
                    }
                }
                if named_later(all, n, k) {
                    let i = choose|i: int| n <= i < all.len() && #[trigger] all[i].key@ == k;
                    assert(n - 1 <= i < all.len() && all[i].key@ == k);
                }
                if k == key {
                    assert(all[n - 1].key@ == k);
                }
            }
            if !present {
                // The node popped is the last of its name.
                assert(!named_later(all, n, key));
                lemma_last_named(all, key, n - 1);
            }
        }
        if !present {
            let name = node.key.clone();
            values.insert(node.key, node.value);
            successors.insert(name, node.successors);
        }
    }
    proof {
        assert(nodes@.len() == 0);
    }
    Graph { values, successors, first }
}

/// The last node of a name is the one after which the name does not occur.
pub proof fn lemma_last_named(nodes: Seq<Node>, key: Seq<char>, i: int)
    requires
        0 <= i < nodes.len(),
        nodes[i].key@ == key,
        !named_later(nodes, i + 1, key),
    ensures
        last_named(nodes, key) == i,
{
    let j = last_named(nodes, key);
    assert(0 <= j < nodes.len() && nodes[j].key@ == key && !named_later(nodes, j + 1, key));
    if j < i {
        assert(named_later(nodes, j + 1, key));
    }
    if i < j {
        assert(named_later(nodes, i + 1, key));
    }
}

} // verus!
