//! A dependency tree as lines of text, one line for each node, with
//! connectors that show which node stands below which.

use vstd::prelude::*;
use vstd::string::StringExecFns;
use crate::error::{Failure, FlowError};
use crate::hypergraph::{EdgeIndex, GraphModel, Hypergraph};
use crate::recipe::Recipe;
use crate::tree::{NTree, Rose};

verus! {

/// The character of one decimal digit.
pub open spec fn digit(d: int) -> char {
    if d == 0 {
        '0'
    } else if d == 1 {
        '1'
    } else if d == 2 {
        '2'
    } else if d == 3 {
        '3'
    } else if d == 4 {
        '4'
    } else if d == 5 {
        '5'
    } else if d == 6 {
        '6'
    } else if d == 7 {
        '7'
    } else if d == 8 {
        '8'
    } else {
        '9'
    }
}

/// A number in decimal digits, without leading zeros.
pub open spec fn decimal_text(n: nat) -> Seq<char>
    decreases n,
{
    if n < 10 {
        seq![digit(n as int)]
    } else {
        decimal_text(n / 10).push(digit((n % 10) as int))
    }
}

/// What stands before the label of a node: for the last child of its
/// parent a corner, for every other child a tee.
pub open spec fn connector(is_last: bool) -> Seq<char> {
    if is_last {
        "└── "@
    } else {
        "├── "@
    }
}

/// What the lines below a node get in front, for the column of that node:
/// blanks below a last child, a bar below every other child.
pub open spec fn spacer(is_last: bool) -> Seq<char> {
    if is_last {
        "    "@
    } else {
        "|   "@
    }
}

/// The label of a node: the number of runs, the builder and the recipe's name.
pub open spec fn label_text(recipe: Recipe, multiplier: u64) -> Seq<char> {
    decimal_text(multiplier as nat) + "x "@ + recipe.builder@ + " -> "@ + recipe.name@
}

/// The lines of a tree that is a child: its own line, made of `prefix`, a
/// connector and the label, and below it the lines of its children. A node
/// whose edge the graph lacks fails the whole.
pub open spec fn branch_text(
    g: GraphModel<Recipe>,
    plan: Rose<(EdgeIndex, u64)>,
    prefix: Seq<char>,
    is_last: bool,
) -> Result<Seq<Seq<char>>, Failure>
    decreases plan, 0nat,
{
    if plan.data.0 >= g.edges.len() {
        Err(Failure::EdgeNotFound(plan.data.0))
    } else {
        let head = prefix + connector(is_last) + label_text(
            g.edges[plan.data.0 as int].weight,
            plan.data.1,
        );
        match forest_text(g, plan.children, prefix + spacer(is_last), plan.children.len()) {
            Err(failure) => Err(failure),
            Ok(below) => Ok(seq![head] + below),
        }
    }
}

/// The lines of the first `count` of the trees in `children`, each a child
/// of the same node; the last of `children` is drawn as the last child.
pub open spec fn forest_text(
    g: GraphModel<Recipe>,
    children: Seq<Rose<(EdgeIndex, u64)>>,
    prefix: Seq<char>,
    count: nat,
) -> Result<Seq<Seq<char>>, Failure>
    decreases children, count,
{
    if count == 0 || count > children.len() {
        Ok(Seq::empty())
    } else {
        match forest_text(g, children, prefix, (count - 1) as nat) {
            Err(failure) => Err(failure),
            Ok(elder) => match branch_text(
                g,
                children[count - 1],
                prefix,
                count == children.len(),
            ) {
                Err(failure) => Err(failure),
                Ok(lines) => Ok(elder + lines),
            },
        }
    }
}

/// The lines of a whole tree: the label of the root, and below it the lines
/// of its children.
pub open spec fn tree_text(g: GraphModel<Recipe>, plan: Rose<(EdgeIndex, u64)>) -> Result<
    Seq<Seq<char>>,
    Failure,
> {
    if plan.data.0 >= g.edges.len() {
        Err(Failure::EdgeNotFound(plan.data.0))
    } else {
        let head = label_text(g.edges[plan.data.0 as int].weight, plan.data.1);
        match forest_text(g, plan.children, Seq::empty(), plan.children.len()) {
            Err(failure) => Err(failure),
            Ok(below) => Ok(seq![head] + below),
        }
    }
}

/// The texts of a list of strings.
pub open spec fn texts(lines: Seq<String>) -> Seq<Seq<char>> {
    Seq::new(lines.len(), |i: int| lines[i]@)
}

fn digit_str(d: u64) -> (s: &'static str)
    requires
        d < 10,
    ensures
        s@ == seq![digit(d as int)],
{
    proof {
        reveal_strlit("0");
        reveal_strlit("1");
        reveal_strlit("2");
        reveal_strlit("3");
        reveal_strlit("4");
        reveal_strlit("5");
        reveal_strlit("6");
        reveal_strlit("7");
        reveal_strlit("8");
        reveal_strlit("9");
    }
    let s = if d == 0 {
        "0"
    } else if d == 1 {
        "1"
    } else if d == 2 {
        "2"
    } else if d == 3 {
        "3"
    } else if d == 4 {
        "4"
    } else if d == 5 {
        "5"
    } else if d == 6 {
        "6"
    } else if d == 7 {
        "7"
    } else if d == 8 {
        "8"
    } else {
        "9"
    };
    assert(s@ =~= seq![digit(d as int)]);
    s
}

/// `n` in decimal digits.
pub fn decimal(n: u64) -> (s: String)
    ensures
        s@ == decimal_text(n as nat),
    decreases n,
{
    if n < 10 {
        String::from_str(digit_str(n))
    } else {
        let mut s = decimal(n / 10);
        s.append(digit_str(n % 10));
        assert(s@ =~= decimal_text((n / 10) as nat).push(digit((n % 10) as int)));
        s
    }
}

/// The label of a node that stands for `multiplier` runs of `recipe`.
pub fn label(recipe: &Recipe, multiplier: u64) -> (s: String)
    ensures
        s@ == label_text(*recipe, multiplier),
{
    let mut s = decimal(multiplier);
    s.append("x ");
    s.append(recipe.builder.as_str());
    s.append(" -> ");
    s.append(recipe.name.as_str());
    s
}

/// Appends the lines of `tree`, drawn as a child, to `out`.
fn branch_lines(
    graph: &Hypergraph<Recipe>,
    tree: &NTree<(EdgeIndex, u64)>,
    prefix: &str,
    is_last: bool,
    out: &mut Vec<String>,
) -> (r: Result<(), FlowError>)
    requires
        graph.wf(),
    ensures
        match branch_text(graph@, tree@, prefix@, is_last) {
            Ok(lines) => r is Ok && texts(final(out)@) == texts(old(out)@) + lines,
            Err(failure) => r is Err && r->Err_0@ == failure,
        },
    decreases tree@,
{
    let recipe = match graph.get_weight(tree.data().0) {
        Ok(recipe) => recipe,
        Err(error) => {
            return Err(error);
        },
    };
    let mut head = String::from_str(prefix);
    head.append(if is_last {
        "└── "
    } else {
        "├── "
    });
    head.append(label(recipe, tree.data().1).as_str());
    let ghost head_text = head@;
    out.push(head);
    let mut below = String::from_str(prefix);
    below.append(if is_last {
        "    "
    } else {
        "|   "
    });
    let kids = tree.children();
    let ghost start = texts(old(out)@);
    assert(texts(out@) =~= start + seq![head_text]);
    let mut i: usize = 0;
    while i < kids.len()
        invariant
            graph.wf(),
            i <= kids.len(),
            kids@.len() == tree@.children.len(),
            forall|j: int| 0 <= j < kids@.len() ==> (#[trigger] kids@[j])@ == tree@.children[j],
            tree@.data.0 < graph@.edges.len(),
            below@ == prefix@ + spacer(is_last),
            forest_text(graph@, tree@.children, below@, i as nat) is Ok,
            texts(out@) == start + seq![head_text] + forest_text(
                graph@,
                tree@.children,
                below@,
                i as nat,
            )->Ok_0,
        decreases kids.len() - i,
    {
        let ghost before = texts(out@);
        match branch_lines(graph, &kids[i], below.as_str(), i + 1 == kids.len(), out) {
            Ok(()) => {
                proof {
                    let elder = forest_text(graph@, tree@.children, below@, i as nat)->Ok_0;
                    let lines = branch_text(
                        graph@,
                        tree@.children[i as int],
                        below@,
                        i + 1 == kids.len(),
                    )->Ok_0;
                    assert(texts(out@) =~= start + seq![head_text] + (elder + lines));
                }
            },
            Err(error) => {
                proof {
                    lemma_forest_text_fails(
                        graph@,
                        tree@.children,
                        below@,
                        (i + 1) as nat,
                        tree@.children.len(),
                    );
                }
                return Err(error);
            },
        }
        i += 1;
    }
    proof {
        let lines = forest_text(graph@, tree@.children, below@, tree@.children.len())->Ok_0;
        assert(start + seq![head_text] + lines =~= start + (seq![head_text] + lines));
    }
    Ok(())
}

/// Once a child could not be drawn, the failure stays.
pub proof fn lemma_forest_text_fails(
    g: GraphModel<Recipe>,
    children: Seq<Rose<(EdgeIndex, u64)>>,
    prefix: Seq<char>,
    from: nat,
    upto: nat,
)
    requires
        from <= upto <= children.len(),
        forest_text(g, children, prefix, from) is Err,
    ensures
        forest_text(g, children, prefix, upto) == forest_text(g, children, prefix, from),
    decreases upto - from,
{
    if from < upto {
        lemma_forest_text_fails(g, children, prefix, from, (upto - 1) as nat);
    }
}

/// The lines of a dependency tree: first the root, as the number of runs,
/// the builder and the recipe's name; then, below each node, its children
/// in order, each behind a connector. Fails if a node names an edge that
/// the graph lacks.
pub fn tree_lines(graph: &Hypergraph<Recipe>, tree: &NTree<(EdgeIndex, u64)>) -> (r: Result<
    Vec<String>,
    FlowError,
>)
    requires
        graph.wf(),
    ensures
        match tree_text(graph@, tree@) {
            Ok(lines) => r is Ok && texts(r->Ok_0@) == lines,
            Err(failure) => r is Err && r->Err_0@ == failure,
        },
{
    let recipe = match graph.get_weight(tree.data().0) {
        Ok(recipe) => recipe,
        Err(error) => {
            return Err(error);
        },
    };
    let mut out: Vec<String> = Vec::new();
    let head = label(recipe, tree.data().1);
    let ghost head_text = head@;
    out.push(head);
    assert(texts(out@) =~= seq![head_text]);
    let kids = tree.children();
    let mut i: usize = 0;
    while i < kids.len()
        invariant
            graph.wf(),
            i <= kids.len(),
            kids@.len() == tree@.children.len(),
            forall|j: int| 0 <= j < kids@.len() ==> (#[trigger] kids@[j])@ == tree@.children[j],
            tree@.data.0 < graph@.edges.len(),
            forest_text(graph@, tree@.children, Seq::empty(), i as nat) is Ok,
            texts(out@) == seq![head_text] + forest_text(
                graph@,
                tree@.children,
                Seq::empty(),
                i as nat,
            )->Ok_0,
        decreases kids.len() - i,
    {
        proof {
            reveal_strlit("");
            assert(""@ =~= Seq::<char>::empty());
        }
        match branch_lines(graph, &kids[i], "", i + 1 == kids.len(), &mut out) {
            Ok(()) => {
                proof {
                    let elder = forest_text(graph@, tree@.children, Seq::empty(), i as nat)->Ok_0;
                    let lines = branch_text(
                        graph@,
                        tree@.children[i as int],
                        Seq::empty(),
                        i + 1 == kids.len(),
                    )->Ok_0;
                    assert(texts(out@) =~= seq![head_text] + (elder + lines));
                }
            },
            Err(error) => {
                proof {
                    lemma_forest_text_fails(
                        graph@,
                        tree@.children,
                        Seq::empty(),
                        (i + 1) as nat,
                        tree@.children.len(),
                    );
                }
                return Err(error);
            },
        }
        i += 1;
    }
    Ok(out)
}

} // verus!
