// End-to-end scenarios: compile a source program to block IR and execute
// the IR with a small interpreter that follows the block-IR contract
// (row-major one-dimensional buffers, call-by-reference arrays,
// partial-tile Skip).

use std::collections::HashMap;

use ilang::block::{Arg, Block, Expr, InitVal, Statement};
use ilang::dims::{check_dim_constraints, DimError};
use ilang::graph::Graph;
use ilang::lowerer::Lowerer;
use ilang::parser::Parser;

fn compile(src: &str) -> (Graph, Block) {
    let mut parser = Parser::new(src).expect("tokenize");
    let (_ast, bank) = parser.parse().expect("parse");
    let graph = Graph::from_expr_bank(&bank).expect("graph");
    let block = Lowerer::new().lower(&graph).expect("lower");
    (graph, block)
}

struct Machine<'a> {
    funcs: HashMap<String, (&'a Vec<Arg>, &'a Block)>,
    arrays: Vec<Vec<f32>>,
}

#[derive(Clone)]
enum Val {
    Int(usize),
    Arr(usize),
}

type Env = HashMap<String, Val>;

fn ident_of(e: &Expr) -> &str {
    match e {
        Expr::Ident(s) => s,
        Expr::Ref(s, _) => s,
        _ => panic!("argument is not an identifier"),
    }
}

fn eval_usize(e: &Expr, env: &Env) -> Result<usize, String> {
    match e {
        Expr::Int(n) => Ok(*n),
        Expr::Ident(s) => match env.get(s) {
            Some(Val::Int(v)) => Ok(*v),
            _ => Err(format!("unbound integer {s}")),
        },
        Expr::Op { op, inputs } => {
            let vals: Result<Vec<usize>, String> =
                inputs.iter().map(|i| eval_usize(i, env)).collect();
            let vals = vals?;
            match op {
                '+' => Ok(vals.iter().sum()),
                '*' => Ok(vals.iter().product()),
                '-' => Ok(vals[0] - vals[1]),
                '/' => Ok(vals[0] / vals[1]),
                _ => Err(format!("integer op {op}")),
            }
        }
        _ => Err("not an integer expression".to_string()),
    }
}

fn eval_f32(e: &Expr, env: &Env, m: &Machine) -> Result<f32, String> {
    match e {
        Expr::Indexed { ident, index } => {
            let i = eval_usize(index, env)?;
            match env.get(ident) {
                Some(Val::Arr(a)) => {
                    let arr = &m.arrays[*a];
                    if i >= arr.len() {
                        return Err(format!("out-of-range access in {ident}"));
                    }
                    Ok(arr[i])
                }
                _ => Err(format!("unbound array {ident}")),
            }
        }
        Expr::Op { op, inputs } => {
            let a = eval_f32(&inputs[0], env, m)?;
            let b = eval_f32(&inputs[1], env, m)?;
            match op {
                '+' => Ok(a + b),
                '*' => Ok(a * b),
                '>' => Ok(if a > b { a } else { b }),
                '-' => Ok(a - b),
                '/' => Ok(a / b),
                _ => Err(format!("scalar op {op}")),
            }
        }
        _ => Err("not a scalar expression".to_string()),
    }
}

enum Flow {
    Normal,
    Skip,
}

fn exec_block(b: &Block, env: &mut Env, m: &mut Machine) -> Result<Flow, String> {
    for st in b.statements.iter() {
        match exec_stmt(st, env, m)? {
            Flow::Normal => {}
            Flow::Skip => return Ok(Flow::Skip),
        }
    }
    Ok(Flow::Normal)
}

fn exec_stmt(st: &Statement, env: &mut Env, m: &mut Machine) -> Result<Flow, String> {
    match st {
        Statement::Declaration { ident, value, .. } => {
            match value {
                Expr::Alloc { initial_value, shape } => {
                    let mut size = 1usize;
                    for s in shape.iter() {
                        match env.get(s) {
                            Some(Val::Int(v)) => size *= v,
                            _ => return Err(format!("unbound extent {s}")),
                        }
                    }
                    let init = match initial_value {
                        InitVal::Zero => 0.0f32,
                        InitVal::One => 1.0f32,
                    };
                    m.arrays.push(vec![init; size]);
                    env.insert(ident.clone(), Val::Arr(m.arrays.len() - 1));
                }
                other => {
                    let v = eval_usize(other, env)?;
                    env.insert(ident.clone(), Val::Int(v));
                }
            }
            Ok(Flow::Normal)
        }
        Statement::Assignment { left, right } => {
            let v = eval_f32(right, env, m)?;
            match left {
                Expr::Indexed { ident, index } => {
                    let i = eval_usize(index, env)?;
                    match env.get(ident) {
                        Some(Val::Arr(a)) => {
                            let a = *a;
                            if i >= m.arrays[a].len() {
                                return Err(format!("out-of-range write in {ident}"));
                            }
                            m.arrays[a][i] = v;
                            Ok(Flow::Normal)
                        }
                        _ => Err(format!("unbound array {ident}")),
                    }
                }
                _ => Err("assignment target is not an access".to_string()),
            }
        }
        Statement::Skip { index, bound } => {
            let i = match env.get(index) {
                Some(Val::Int(v)) => *v,
                _ => return Err(format!("unbound index {index}")),
            };
            let b = match env.get(bound) {
                Some(Val::Int(v)) => *v,
                _ => return Err(format!("unbound bound {bound}")),
            };
            if i >= b {
                Ok(Flow::Skip)
            } else {
                Ok(Flow::Normal)
            }
        }
        Statement::Loop { index, bound, body, .. } => {
            let n = eval_usize(bound, env)?;
            for v in 0..n {
                env.insert(index.clone(), Val::Int(v));
                match exec_block(body, env, m)? {
                    Flow::Normal => {}
                    Flow::Skip => continue,
                }
            }
            Ok(Flow::Normal)
        }
        Statement::Call { ident, args } => {
            let (params, body): (&Vec<Arg>, &Block) = match m.funcs.get(ident) {
                Some(&(p, b)) => (p, b),
                None => return Err(format!("unknown function {ident}")),
            };
            assert_eq!(params.len(), args.len(), "arity of {ident}");
            let mut callee_env: Env = HashMap::new();
            for (p, a) in params.iter().zip(args.iter()) {
                let pname = ident_of(&p.ident).to_string();
                let v = match env.get(ident_of(&a.ident)) {
                    Some(v) => v.clone(),
                    None => return Err(format!("unbound argument {}", ident_of(&a.ident))),
                };
                callee_env.insert(pname, v);
            }
            exec_block(body, &mut callee_env, m)?;
            Ok(Flow::Normal)
        }
        Statement::Return { .. } => Ok(Flow::Normal),
        Statement::Function { .. } => Ok(Flow::Normal),
    }
}

/// Runs the compiled program on the given inputs (data plus per-dimension
/// extents, in leaf order) and returns the output buffer of the given
/// extents.  Dimension constraints are checked before execution, as the
/// host contract demands.
fn run(
    graph: &Graph,
    block: &Block,
    inputs: &[(Vec<f32>, Vec<usize>)],
    out_dims: &[usize],
) -> Result<Vec<f32>, String> {
    // per-leaf index strings, in input-slot order
    let leaves = graph.leaf_slots();
    assert_eq!(leaves.len(), inputs.len(), "one input per leaf slot");
    let leaf_indices: Vec<Vec<char>> = leaves
        .iter()
        .map(|&l| graph.nodes[l].index.clone())
        .collect();
    let dims: Vec<Vec<usize>> = inputs.iter().map(|(_, d)| d.clone()).collect();
    check_dim_constraints(&leaf_indices, &dims).map_err(|e| format!("{e:?}"))?;

    let mut funcs: HashMap<String, (&Vec<Arg>, &Block)> = HashMap::new();
    let mut top: Option<(&Vec<Arg>, &Block)> = None;
    for st in block.statements.iter() {
        if let Statement::Function { ident, args, body } = st {
            funcs.insert(ident.clone(), (args, body));
            top = Some((args, body));
        }
    }
    let (f_args, f_body) = top.expect("no top-level function");

    let mut m = Machine { funcs, arrays: Vec::new() };
    let mut env: Env = HashMap::new();

    // bind the arguments of `f` in order: per leaf an array and one
    // extent per unique axis (in sorted axis order, reading the extent
    // from the axis's first position in the leaf index); then the output
    // array and its extents
    let mut ai = 0usize;
    for (k, (data, dimsk)) in inputs.iter().enumerate() {
        let arr_ident = ident_of(&f_args[ai].ident).to_string();
        m.arrays.push(data.clone());
        env.insert(arr_ident, Val::Arr(m.arrays.len() - 1));
        ai += 1;
        let axes = sorted_unique(&leaf_indices[k]);
        for c in axes {
            let pos = leaf_indices[k].iter().position(|&x| x == c).unwrap();
            let ident = ident_of(&f_args[ai].ident).to_string();
            env.insert(ident, Val::Int(dimsk[pos]));
            ai += 1;
        }
    }
    let root = graph.root();
    let root_index = &graph.nodes[root].index;
    let out_ident = ident_of(&f_args[ai].ident).to_string();
    let out_size: usize = out_dims.iter().product();
    // the root has no allocation statement: the host provides the output
    // buffer, initialized with the root op's identity
    let out_init = match &graph.nodes[root].body {
        ilang::graph::NodeBody::Interior { op, .. } if *op == '*' || *op == '/' => 1.0f32,
        _ => 0.0f32,
    };
    m.arrays.push(vec![out_init; out_size]);
    let out_slot = m.arrays.len() - 1;
    env.insert(out_ident, Val::Arr(out_slot));
    ai += 1;
    let out_axes = sorted_unique(root_index);
    for c in out_axes {
        let pos = root_index.iter().position(|&x| x == c).unwrap();
        let ident = ident_of(&f_args[ai].ident).to_string();
        env.insert(ident, Val::Int(out_dims[pos]));
        ai += 1;
    }
    assert_eq!(ai, f_args.len(), "argument count of f");

    exec_block(f_body, &mut env, &mut m)?;
    Ok(m.arrays[out_slot].clone())
}

fn sorted_unique(index: &[char]) -> Vec<char> {
    let mut v: Vec<char> = index.to_vec();
    v.sort();
    v.dedup();
    v
}

#[test]
fn matmul_via_compose() {
    let (g, b) = compile("m: ik*kj~ijk\na: +ijk~ij\nm.a");
    let x = (vec![0.0, -1.0, 1.0, 0.0], vec![2, 2]);
    let y = (vec![1.0, 2.0, 3.0, 4.0], vec![2, 2]);
    let out = run(&g, &b, &[x, y], &[2, 2]).unwrap();
    assert_eq!(out, vec![-3.0, -4.0, 1.0, 2.0]);
}

#[test]
fn reduction_only() {
    let (g, b) = compile("+ij~i");
    let x = (vec![1.0, 2.0, 3.0, 4.0, 5.0, 6.0], vec![2, 3]);
    let out = run(&g, &b, &[x], &[2]).unwrap();
    assert_eq!(out, vec![6.0, 15.0]);
}

#[test]
fn identity_noop() {
    let (g, b) = compile("ij~ij");
    let x = (vec![7.0, 8.0, 9.0, 10.0], vec![2, 2]);
    let out = run(&g, &b, &[x], &[2, 2]).unwrap();
    assert_eq!(out, vec![7.0, 8.0, 9.0, 10.0]);
}

#[test]
fn tiled_matmul_matches_untiled() {
    let (g, b) = compile("m: ik*kj~ijk |i:2, j:2| i i' j j' k\na: +ijk~ij\nm.a");
    let x = (vec![0.0, -1.0, 1.0, 0.0], vec![2, 2]);
    let y = (vec![1.0, 2.0, 3.0, 4.0], vec![2, 2]);
    let out = run(&g, &b, &[x, y], &[2, 2]).unwrap();
    assert_eq!(out, vec![-3.0, -4.0, 1.0, 2.0]);
}

#[test]
fn non_divisible_tile() {
    let (g, b) = compile("+ij~i |i:2| i i'");
    let x = (vec![1.0, 2.0, 3.0], vec![1, 3]);
    let out = run(&g, &b, &[x], &[1]).unwrap();
    assert_eq!(out, vec![6.0]);
}

#[test]
fn non_divisible_tile_on_long_axis() {
    // splitting a 3-element axis by 2 leaves a partial tile that the
    // reconstructed-index guard must skip
    let (g, b) = compile("+ij~j |i:2| i i' j");
    let x = (vec![1.0, 2.0, 10.0, 20.0, 100.0, 200.0], vec![3, 2]);
    let out = run(&g, &b, &[x], &[2]).unwrap();
    assert_eq!(out, vec![111.0, 222.0]);
}

#[test]
fn dimension_mismatch_aborts() {
    let (g, b) = compile("ij*jk~ik");
    // J is 3 in the first input but 2 in the second
    let x = (vec![1.0; 6], vec![2, 3]);
    let y = (vec![1.0; 4], vec![2, 2]);
    let r = run(&g, &b, &[x, y], &[2, 2]);
    assert!(r.is_err());
}

#[test]
fn dimension_mismatch_names_axis_and_sizes() {
    let indices = vec![vec!['i', 'j'], vec!['j', 'k']];
    let dims = vec![vec![2, 3], vec![2, 2]];
    match check_dim_constraints(&indices, &dims) {
        Err(DimError::SizeMismatch { axis, left, right }) => {
            assert_eq!(axis, 'j');
            assert!((left == 3 && right == 2) || (left == 2 && right == 3));
        }
        other => panic!("expected a size mismatch, got {other:?}"),
    }
}

#[test]
fn empty_schedule_matches_reference_evaluation() {
    // an unscheduled reduction agrees with a direct evaluation
    let (g, b) = compile("+ij~i");
    let data = vec![3.0, 1.0, 4.0, 1.0, 5.0, 9.0, 2.0, 6.0, 5.0];
    let x = (data.clone(), vec![3, 3]);
    let out = run(&g, &b, &[x], &[3]).unwrap();
    let reference: Vec<f32> = (0..3)
        .map(|i| (0..3).map(|j| data[i * 3 + j]).sum())
        .collect();
    assert_eq!(out, reference);
}

#[test]
fn reciprocal_initializes_with_one() {
    // `out = out / in` with a one-initialized store computes the
    // reciprocal of each element, written once
    let (g, b) = compile("/ij~ij");
    let x = (vec![2.0, 4.0, 0.5, 1.0], vec![2, 2]);
    let out = run(&g, &b, &[x], &[2, 2]).unwrap();
    assert_eq!(out, vec![0.5, 0.25, 2.0, 1.0]);
}

#[test]
fn empty_loop_order_ignores_splits() {
    // a split list without a loop order is the untiled default: no
    // factor declarations, no reconstruction, and the plain result
    let (g, b) = compile("+ij~i | i:2 |");
    let x = (vec![1.0, 2.0, 3.0, 4.0, 5.0, 6.0], vec![2, 3]);
    let out = run(&g, &b, &[x], &[2]).unwrap();
    assert_eq!(out, vec![6.0, 15.0]);
}
