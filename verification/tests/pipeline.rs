// Unit-level checks of the tokenizer, the parser, the graph algebra and
// the shape inference.

use ilang::ast::{Combinator, Expr, Symbol};
use ilang::graph::{infer_shape, Graph, GraphError, NodeBody};
use ilang::lowerer::get_char_indices;
use ilang::parser::{ParseError, Parser};
use ilang::tokenizer::{Token, Tokenizer};

fn graph_of(src: &str) -> Graph {
    let mut parser = Parser::new(src).unwrap();
    let (_ast, bank) = parser.parse().unwrap();
    Graph::from_expr_bank(&bank).unwrap()
}

#[test]
fn tokenizer_basic_stream() {
    let mut t = Tokenizer::new("m: ik*kj~ijk").unwrap();
    assert_eq!(t.next(), Token::Symbol("m".to_string()));
    assert_eq!(t.next(), Token::Colon);
    assert_eq!(t.next(), Token::Symbol("ik".to_string()));
    assert_eq!(t.next(), Token::Operator('*'));
    assert_eq!(t.next(), Token::Symbol("kj".to_string()));
    assert_eq!(t.next(), Token::Squiggle);
    assert_eq!(t.next(), Token::Symbol("ijk".to_string()));
    assert_eq!(t.next(), Token::EOF);
    assert_eq!(t.next(), Token::EOF);
}

#[test]
fn tokenizer_schedule_tokens() {
    let mut t = Tokenizer::new("| i:32, j:4 | i i' j").unwrap();
    assert_eq!(t.next(), Token::Bar);
    assert_eq!(t.next(), Token::Symbol("i".to_string()));
    assert_eq!(t.next(), Token::Colon);
    assert_eq!(t.next(), Token::Int(32));
    assert_eq!(t.next(), Token::Comma);
    assert_eq!(t.next(), Token::Symbol("j".to_string()));
    assert_eq!(t.next(), Token::Colon);
    assert_eq!(t.next(), Token::Int(4));
    assert_eq!(t.next(), Token::Bar);
    assert_eq!(t.next(), Token::Symbol("i".to_string()));
    assert_eq!(t.next(), Token::Symbol("i'".to_string()));
    assert_eq!(t.next(), Token::Symbol("j".to_string()));
    assert_eq!(t.next(), Token::EOF);
}

#[test]
fn tokenizer_peek_is_stable() {
    let t = Tokenizer::new("a.b").unwrap();
    let (first, second) = t.peek();
    assert_eq!(*first, Token::Symbol("a".to_string()));
    assert_eq!(*second, Token::Dot);
}

#[test]
fn tokenizer_rejects_stray_character() {
    assert!(Tokenizer::new("ij # ij").is_err());
}

#[test]
fn parser_builds_named_and_final_expressions() {
    let mut p = Parser::new("m: ik*kj~ijk\na: +ijk~ij\nm.a").unwrap();
    let (ast, bank) = p.parse().unwrap();
    assert_eq!(bank.0.len(), 3);
    assert_eq!(ast.0.len(), 2);
    assert_eq!(ast.1.0, 2);
    match &bank.0[2] {
        Expr::Combinator(Combinator::Chain(l, r)) => {
            assert_eq!(l.0, 0);
            assert_eq!(r.0, 1);
        }
        other => panic!("expected a chain, got {other:?}"),
    }
}

#[test]
fn parser_reads_schedule() {
    let mut p = Parser::new("ik*kj~ijk | i:2, j:2 | i i' j j' k").unwrap();
    let (_ast, bank) = p.parse().unwrap();
    match &bank.0[0] {
        Expr::Index(ie) => {
            let splits = &ie.schedule.splits.0;
            assert_eq!(splits.len(), 2);
            assert_eq!(splits[0].0, 'i');
            assert_eq!(splits[0].1, vec![2]);
            assert_eq!(splits[1].0, 'j');
            assert_eq!(splits[1].1, vec![2]);
            let order = &ie.schedule.loop_order;
            assert_eq!(
                *order,
                vec![('i', 0), ('i', 1), ('j', 0), ('j', 1), ('k', 0)]
            );
        }
        other => panic!("expected an index expression, got {other:?}"),
    }
}

#[test]
fn parser_rejects_unknown_component() {
    let mut p = Parser::new("m: ik*kj~ijk\nm.q").unwrap();
    match p.parse() {
        Err(ParseError::UnrecognizedSymbol { symbol }) => {
            assert_eq!(symbol.0, "q");
        }
        other => panic!("expected an unresolved name, got {other:?}"),
    }
}

#[test]
fn parser_rejects_missing_squiggle() {
    let mut p = Parser::new("ik*kj ijk").unwrap();
    assert!(matches!(p.parse(), Err(ParseError::InvalidToken { .. })));
}

#[test]
fn graph_builder_shapes_matmul() {
    let g = graph_of("ik*kj~ijk");
    assert_eq!(g.roots.len(), 1);
    let root = g.nodes.len() - 1;
    assert_eq!(g.roots[0], root);
    let node = &g.nodes[root];
    assert_eq!(node.index, vec!['i', 'j', 'k']);
    assert_eq!(node.children.len(), 2);
    match &node.body {
        NodeBody::Interior { op, shape, .. } => {
            assert_eq!(*op, '*');
            // reverse scan: the last child and the rightmost position win
            // i occurs only in child 0 at position 0; j in child 1 at 1;
            // k in both, so child 1 position 0 wins
            assert_eq!(*shape, vec![(0, 0), (1, 1), (1, 0)]);
        }
        NodeBody::Leaf => panic!("root is a leaf"),
    }
}

#[test]
fn shape_inference_scans_in_reverse() {
    let index = vec!['i', 'j'];
    let tags = vec![vec!['i', 'j'], vec!['j', 'i']];
    // both axes occur in both children: the second child wins, with its
    // rightmost occurrence
    let shape = infer_shape(&index, &tags).unwrap();
    assert_eq!(shape, vec![(1, 1), (1, 0)]);
}

#[test]
fn shape_inference_reports_missing_axis() {
    let index = vec!['i', 'w'];
    let tags = vec![vec!['i', 'j']];
    assert_eq!(infer_shape(&index, &tags), Err('w'));
}

#[test]
fn graph_builder_rejects_unbound_output_axis() {
    let mut p = Parser::new("ij*jk~iw").unwrap();
    let (_ast, bank) = p.parse().unwrap();
    match Graph::from_expr_bank(&bank) {
        Err(GraphError::ShapeViolation(c)) => assert_eq!(c, 'w'),
        other => panic!("expected a shape violation, got {other:?}"),
    }
}

#[test]
fn chain_splices_leftmost_leaf() {
    let a = graph_of("ik*kj~ijk");
    let b = graph_of("+ijk~ij");
    let c = a.chain(&b).unwrap();
    // all of a's nodes, then b's shifted up by a's size
    assert_eq!(c.nodes.len(), a.nodes.len() + b.nodes.len());
    let root = c.roots[c.roots.len() - 1];
    assert_eq!(root, a.nodes.len() + b.roots[0]);
    // the spliced edge points at a's root and keeps its tag
    let spliced = &c.nodes[root].children[0];
    assert_eq!(spliced.0, a.roots[0]);
    assert_eq!(spliced.1, vec!['i', 'j', 'k']);
}

#[test]
fn chain_preserves_leaves() {
    let a = graph_of("ik*kj~ijk");
    let b = graph_of("+ijk~ij");
    let c = a.chain(&b).unwrap();
    // the displaced leaf of b is replaced by the leaves of a
    let a_leaves = a.leaves();
    let c_leaves = c.leaves();
    assert_eq!(c_leaves.len(), a_leaves.len() + b.leaves().len() - 1);
    assert_eq!(&c_leaves[..a_leaves.len()], &a_leaves[..]);
    // the per-path slot list agrees, slot for slot
    let c_slots = c.leaf_slots();
    assert_eq!(&c_slots[..a.leaf_slots().len()], &a.leaf_slots()[..]);
}

#[test]
fn leaves_deduplicate_shared_nodes() {
    // an interior node holding one leaf in both child slots: one
    // distinct leaf, two input slots
    let mut g = ilang::graph::Graph::new();
    g.nodes.push(ilang::graph::Node {
        index: vec!['i'],
        body: NodeBody::Leaf,
        children: vec![],
    });
    g.nodes.push(ilang::graph::Node {
        index: vec!['i'],
        body: NodeBody::Interior {
            op: '+',
            schedule: ilang::ast::Schedule::empty(),
            shape: vec![(0, 0)],
        },
        children: vec![(0, vec!['i']), (0, vec!['i'])],
    });
    g.roots.push(1);
    assert_eq!(g.leaves(), vec![0]);
    assert_eq!(g.leaf_slots(), vec![0, 0]);
}

#[test]
fn chain_into_leaf_fails() {
    let a = graph_of("ij~ij");
    let mut leaf_only = Graph::new();
    leaf_only.nodes.push(ilang::graph::Node {
        index: vec!['i'],
        body: NodeBody::Leaf,
        children: vec![],
    });
    leaf_only.roots.push(0);
    assert!(matches!(
        a.chain(&leaf_only),
        Err(GraphError::ChainTargetIsLeaf)
    ));
}

#[test]
fn compose_is_chain_flipped() {
    let a = graph_of("ik*kj~ijk");
    let b = graph_of("+ijk~ij");
    let chained = a.chain(&b).unwrap();
    let composed = b.compose(&a).unwrap();
    assert_eq!(format!("{chained:?}"), format!("{composed:?}"));
}

#[test]
fn chain_is_associative_on_disjoint_targets() {
    let a = graph_of("ij~ij");
    let b = graph_of("+ij~ij");
    let c = graph_of("*ij~i");
    let left = a.chain(&b).unwrap().chain(&c).unwrap();
    let right = a.chain(&b.chain(&c).unwrap()).unwrap();
    assert_eq!(format!("{left:?}"), format!("{right:?}"));
}

#[test]
fn deepcopy_is_identical_and_independent() {
    let g = graph_of("m: ik*kj~ijk\na: +ijk~ij\nm.a");
    let copy = g.deepcopy();
    assert_eq!(format!("{g:?}"), format!("{copy:?}"));
}

#[test]
fn sorted_axis_enumeration() {
    let axes = get_char_indices(&vec!['k', 'i', 'k', 'j', 'i']);
    assert_eq!(axes, vec!['i', 'j', 'k']);
}

#[test]
fn symbol_characters() {
    let s = Symbol("ik".to_string());
    assert_eq!(s.chars_vec(), vec!['i', 'k']);
}

fn lower_block(src: &str) -> ilang::block::Block {
    let mut p = Parser::new(src).unwrap();
    let (_ast, bank) = p.parse().unwrap();
    let g = Graph::from_expr_bank(&bank).unwrap();
    ilang::lowerer::Lowerer::new().lower(&g).unwrap()
}

fn nest_depth_of(st: &ilang::block::Statement) -> usize {
    match st {
        ilang::block::Statement::Loop { body, .. } => {
            1 + body.statements.last().map_or(0, nest_depth_of)
        }
        _ => 0,
    }
}

#[test]
fn loop_count_default_schedule() {
    // three axes, no splits: exactly three nested loops
    let b = lower_block("ik*kj~ijk");
    let helper = b
        .statements
        .iter()
        .find_map(|s| match s {
            ilang::block::Statement::Function { ident, body, .. } if ident != "f" => {
                Some(body)
            }
            _ => None,
        })
        .unwrap();
    assert_eq!(nest_depth_of(helper.statements.last().unwrap()), 3);
}

#[test]
fn loop_count_with_splits() {
    // axes i, j, k with one split each on i and j: five loops
    let b = lower_block("ik*kj~ijk |i:2, j:2| i i' j j' k");
    let helper = b
        .statements
        .iter()
        .find_map(|s| match s {
            ilang::block::Statement::Function { ident, body, .. } if ident != "f" => {
                Some(body)
            }
            _ => None,
        })
        .unwrap();
    // the split-factor declarations come first, then the nest
    assert_eq!(nest_depth_of(helper.statements.last().unwrap()), 5);
}

#[test]
fn top_level_function_arguments() {
    let b = lower_block("+ij~i");
    let f = match b.statements.last().unwrap() {
        ilang::block::Statement::Function { ident, args, .. } => {
            assert_eq!(ident, "f");
            args
        }
        other => panic!("expected the top-level function, got {other:?}"),
    };
    let names: Vec<String> = f
        .iter()
        .map(|a| match &a.ident {
            ilang::block::Expr::Ident(s) => s.clone(),
            other => panic!("argument is not an identifier: {other:?}"),
        })
        .collect();
    assert_eq!(names, vec!["in0", "b0", "b1", "out", "out_0"]);
}

#[test]
fn op_identities() {
    assert_eq!(ilang::lowerer::op_identity('+'), ilang::block::InitVal::Zero);
    assert_eq!(ilang::lowerer::op_identity('*'), ilang::block::InitVal::One);
    assert_eq!(ilang::lowerer::op_identity('/'), ilang::block::InitVal::One);
    assert_eq!(ilang::lowerer::op_identity('>'), ilang::block::InitVal::Zero);
    assert_eq!(ilang::lowerer::op_identity('-'), ilang::block::InitVal::Zero);
}
