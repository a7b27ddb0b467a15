use outpack::engine::{evaluate_query, QueryError};
use outpack::graph::Direction;
use outpack::hash::{hash_data, HashAlgorithm};
use outpack::index::{DanglingDependency, Dependency, FileEntry, Index, Packet, Parameter, Scalar};
use outpack::parser::{parse, Expected, ParseError};
use outpack::query::{
    compare, evaluate, latest, select, single, CompareOp, EvalError, Expr, Lookup, Operand,
    Resolved,
};
use outpack::reconcile::missing_packets;
use outpack::store::ObjectStore;

fn packet(id: &str, name: &str, time: u64, deps: &[&str]) -> Packet {
    Packet {
        id: id.as_bytes().to_vec(),
        name: name.as_bytes().to_vec(),
        time,
        parameters: Vec::new(),
        files: Vec::new(),
        depends: deps
            .iter()
            .map(|d| Dependency { packet: d.as_bytes().to_vec(), files: Vec::new() })
            .collect(),
        custom: Vec::new(),
    }
}

fn with_param(mut p: Packet, key: &str, value: Scalar) -> Packet {
    p.parameters.push(Parameter { key: key.as_bytes().to_vec(), value });
    p
}

fn ids(list: &[&str]) -> Vec<Vec<u8>> {
    list.iter().map(|s| s.as_bytes().to_vec()).collect()
}

fn example() -> Index {
    Index::build(vec![
        packet("P1", "a", 100, &[]),
        packet("P2", "a", 200, &[]),
        packet("P3", "b", 150, &["P1"]),
    ])
    .index
}

fn chain() -> Index {
    // D depends on C, C on B, B on A
    Index::build(vec![
        packet("A", "x", 1, &[]),
        packet("B", "x", 2, &["A"]),
        packet("C", "y", 3, &["B"]),
        packet("D", "y", 4, &["C"]),
    ])
    .index
}

fn run(index: &Index, text: &str) -> Result<Vec<Vec<u8>>, QueryError> {
    evaluate_query(index, text.as_bytes(), None)
}

#[test]
fn build_orders_by_time_then_id() {
    let built = Index::build(vec![
        packet("c", "n", 5, &[]),
        packet("b", "n", 7, &[]),
        packet("a", "n", 7, &[]),
        packet("d", "n", 1, &[]),
    ]);
    let order: Vec<Vec<u8>> = built.index.packets().iter().map(|p| p.id.clone()).collect();
    assert_eq!(order, ids(&["d", "c", "a", "b"]));
    assert_eq!(built.index.len(), 4);
    assert!(built.repeated.is_empty());
}

#[test]
fn build_keeps_first_of_repeated_ids() {
    let built = Index::build(vec![
        packet("a", "first", 5, &[]),
        packet("b", "n", 1, &[]),
        packet("a", "second", 0, &[]),
    ]);
    assert_eq!(built.repeated, ids(&["a"]));
    assert_eq!(built.index.len(), 2);
    assert_eq!(built.index.get_by_id(b"a").unwrap().name, b"first".to_vec());
}

#[test]
fn build_of_nothing_is_empty() {
    let built = Index::build(Vec::new());
    assert_eq!(built.index.len(), 0);
    assert!(built.index.get_by_id(b"a").is_none());
    assert!(run(&built.index, "latest()").unwrap().is_empty());
}

#[test]
fn get_by_id_finds_or_not() {
    let index = example();
    assert_eq!(index.get_by_id(b"P3").unwrap().time, 150);
    assert!(index.get_by_id(b"Q9").is_none());
}

#[test]
fn get_since_is_strictly_after() {
    let index = example();
    let all: Vec<u64> = index.get_since(None).iter().map(|p| p.time).collect();
    assert_eq!(all, vec![100, 150, 200]);
    let later: Vec<u64> = index.get_since(Some(100)).iter().map(|p| p.time).collect();
    assert_eq!(later, vec![150, 200]);
    assert!(index.get_since(Some(200)).is_empty());
    assert_eq!(index.first_after(149), 1);
}

#[test]
fn dangling_dependencies_are_reported_by_position() {
    let index = Index::build(vec![
        packet("a", "n", 1, &[]),
        packet("b", "n", 2, &["a", "zz"]),
        packet("c", "n", 3, &["yy"]),
    ])
    .index;
    assert_eq!(
        index.dangling_dependencies(),
        vec![
            DanglingDependency { packet: 1, dependency: 1 },
            DanglingDependency { packet: 2, dependency: 0 },
        ]
    );
    assert!(example().dangling_dependencies().is_empty());
}

#[test]
fn ids_digest_is_over_sorted_joined_ids() {
    let index = Index::build(vec![packet("b", "n", 1, &[]), packet("a", "n", 2, &[])]).index;
    assert_eq!(index.sorted_ids(), ids(&["a", "b"]));
    assert_eq!(index.get_ids_digest(HashAlgorithm::Sha256), hash_data(b"ab", HashAlgorithm::Sha256));
    assert_eq!(index.get_ids_digest(HashAlgorithm::Md5), hash_data(b"ab", HashAlgorithm::Md5));
}

#[test]
fn ids_digest_is_stable_and_changes_with_a_new_packet() {
    let one = example().get_ids_digest(HashAlgorithm::Sha256);
    let two = example().get_ids_digest(HashAlgorithm::Sha256);
    assert_eq!(one, two);
    let more = Index::build(vec![
        packet("P1", "a", 100, &[]),
        packet("P2", "a", 200, &[]),
        packet("P3", "b", 150, &["P1"]),
        packet("Q1", "b", 300, &[]),
    ])
    .index;
    assert_ne!(more.get_ids_digest(HashAlgorithm::Sha256), one);
}

#[test]
fn scenario_latest_usedby_missing() {
    let index = example();
    assert_eq!(run(&index, "latest(name == 'a')").unwrap(), ids(&["P2"]));
    assert_eq!(run(&index, "usedby(id == 'P1')").unwrap(), ids(&["P3"]));
    let store = ObjectStore::new(HashAlgorithm::Sha256);
    assert_eq!(missing_packets(&index, &store, &ids(&["P1", "P2"]), false), ids(&["P3"]));
}

#[test]
fn latest_breaks_ties_by_greatest_id() {
    let index = Index::build(vec![
        packet("x2", "a", 10, &[]),
        packet("x9", "a", 10, &[]),
        packet("x5", "a", 10, &[]),
        packet("x1", "a", 9, &[]),
    ])
    .index;
    assert_eq!(run(&index, "latest(name == \"a\")").unwrap(), ids(&["x9"]));
    assert_eq!(run(&index, "latest()").unwrap(), ids(&["x9"]));
    assert!(run(&index, "latest(name == 'zz')").unwrap().is_empty());
}

#[test]
fn latest_and_single_on_marks() {
    assert_eq!(latest(&vec![true, false, true, false]), Some(2));
    assert_eq!(latest(&vec![false, false]), None);
    assert_eq!(latest(&Vec::new()), None);
    assert_eq!(single(&vec![false, true, false]), Ok(1));
    assert_eq!(single(&vec![false, false]), Err(EvalError::AmbiguousQuery(0)));
    assert_eq!(single(&vec![true, true, true]), Err(EvalError::AmbiguousQuery(3)));
}

#[test]
fn single_needs_exactly_one_match() {
    let index = example();
    assert_eq!(run(&index, "single(name == 'b')").unwrap(), ids(&["P3"]));
    assert_eq!(
        run(&index, "single(name == 'a')").unwrap_err(),
        QueryError::Eval(EvalError::AmbiguousQuery(2))
    );
    assert_eq!(
        run(&index, "single(name == 'none')").unwrap_err(),
        QueryError::Eval(EvalError::AmbiguousQuery(0))
    );
}

#[test]
fn closures_follow_edges_within_depth() {
    let index = chain();
    assert_eq!(run(&index, "usedby(id == 'A')").unwrap(), ids(&["B", "C", "D"]));
    assert_eq!(run(&index, "usedby(id == 'A', 1)").unwrap(), ids(&["B"]));
    assert_eq!(run(&index, "usedby(id == 'A', 2)").unwrap(), ids(&["B", "C"]));
    assert_eq!(run(&index, "usedby(id == 'A', 0)").unwrap(), ids(&[]));
    assert_eq!(run(&index, "depends(id == 'D')").unwrap(), ids(&["A", "B", "C"]));
    assert_eq!(run(&index, "depends(id == 'D', 1)").unwrap(), ids(&["C"]));
    assert_eq!(run(&index, "depends(id == 'A')").unwrap(), ids(&[]));
    assert_eq!(
        run(&index, "usedby(id == 'A') || id == 'A'").unwrap(),
        ids(&["A", "B", "C", "D"])
    );
}

#[test]
fn closures_are_inverse_to_each_other() {
    let index = chain();
    let names = ["A", "B", "C", "D"];
    for a in names {
        for b in names {
            let used = run(&index, &format!("usedby(id == '{}')", a)).unwrap();
            let deps = run(&index, &format!("depends(id == '{}')", b)).unwrap();
            assert_eq!(used.contains(&b.as_bytes().to_vec()), deps.contains(&a.as_bytes().to_vec()));
        }
    }
}

#[test]
fn closures_end_on_cycles() {
    let index = Index::build(vec![
        packet("A", "x", 1, &["C"]),
        packet("B", "x", 2, &["A"]),
        packet("C", "x", 3, &["B"]),
    ])
    .index;
    assert_eq!(run(&index, "depends(id == 'A')").unwrap(), ids(&["B", "C"]));
    assert_eq!(run(&index, "usedby(id == 'A', 9223372036854775799)").unwrap(), ids(&["B", "C"]));
}

#[test]
fn comparisons_by_kind() {
    let index = Index::build(vec![
        with_param(packet("p1", "n", 1, &[]), "x", Scalar::Num(5)),
        with_param(packet("p2", "n", 2, &[]), "x", Scalar::Num(-7)),
        with_param(packet("p3", "n", 3, &[]), "x", Scalar::Str(b"5".to_vec())),
        with_param(packet("p4", "n", 4, &[]), "x", Scalar::Bool(true)),
        packet("p5", "n", 5, &[]),
    ])
    .index;
    assert_eq!(run(&index, "parameter:x == 5").unwrap(), ids(&["p1"]));
    assert_eq!(run(&index, "parameter:x < 5").unwrap(), ids(&["p2"]));
    assert_eq!(run(&index, "parameter:x >= -7").unwrap(), ids(&["p1", "p2"]));
    assert_eq!(run(&index, "parameter:x != 5").unwrap(), ids(&["p2"]));
    assert_eq!(run(&index, "parameter:x == '5'").unwrap(), ids(&["p3"]));
    assert_eq!(run(&index, "parameter:x == true").unwrap(), ids(&["p4"]));
    assert_eq!(run(&index, "parameter:x != false").unwrap(), ids(&["p4"]));
    assert_eq!(run(&index, "parameter:x < false").unwrap(), ids(&[]));
    assert_eq!(run(&index, "parameter:y == 1").unwrap(), ids(&[]));
    assert_eq!(run(&index, "id > 'p3'").unwrap(), ids(&["p4", "p5"]));
    assert_eq!(run(&index, "id <= 'p2'").unwrap(), ids(&["p1", "p2"]));
    assert_eq!(run(&index, "1 == true").unwrap(), ids(&[]));
}

#[test]
fn compare_on_values() {
    let a = b"abc".to_vec();
    let b = b"abd".to_vec();
    assert!(compare(CompareOp::Lt, &Resolved::Str(&a), &Resolved::Str(&b)));
    assert!(!compare(CompareOp::Ge, &Resolved::Str(&a), &Resolved::Str(&b)));
    assert!(compare(CompareOp::Le, &Resolved::Num(3), &Resolved::Num(3)));
    assert!(!compare(CompareOp::Eq, &Resolved::Null, &Resolved::Null));
    assert!(!compare(CompareOp::Ne, &Resolved::Num(1), &Resolved::Bool(true)));
}

#[test]
fn combinators_and_precedence() {
    let index = example();
    assert_eq!(run(&index, "!(name == 'a')").unwrap(), ids(&["P3"]));
    assert_eq!(run(&index, "! name == 'a'").unwrap(), ids(&["P3"]));
    assert_eq!(run(&index, "name == 'a' && id == 'P2'").unwrap(), ids(&["P2"]));
    assert_eq!(
        run(&index, "name == 'b' || name == 'a' && id == 'P2'").unwrap(),
        ids(&["P3", "P2"])
    );
    assert_eq!(
        run(&index, "(name == 'b' || name == 'a') && id == 'P2'").unwrap(),
        ids(&["P2"])
    );
    assert_eq!(run(&index, "  name=='a'  ").unwrap(), ids(&["P1", "P2"]));
}

#[test]
fn short_circuit_leaves_right_side_out() {
    let index = example();
    assert_eq!(run(&index, "name == 'zz' && single(name == 'a')").unwrap(), ids(&[]));
    assert_eq!(
        run(&index, "name != 'zz' || single(name == 'a')").unwrap(),
        ids(&["P1", "P3", "P2"])
    );
    assert_eq!(
        run(&index, "name == 'a' && single(name == 'a')").unwrap_err(),
        QueryError::Eval(EvalError::AmbiguousQuery(2))
    );
}

#[test]
fn this_needs_an_environment() {
    let index = Index::build(vec![
        with_param(packet("p1", "n", 1, &[]), "x", Scalar::Num(5)),
        with_param(packet("p2", "n", 2, &[]), "x", Scalar::Num(6)),
    ])
    .index;
    assert_eq!(
        run(&index, "parameter:x == this:x").unwrap_err(),
        QueryError::Eval(EvalError::UnknownLookupScope)
    );
    let env = with_param(packet("e", "n", 9, &[]), "x", Scalar::Num(6));
    assert_eq!(
        evaluate_query(&index, b"parameter:x == this:x", Some(&env)).unwrap(),
        ids(&["p2"])
    );
    assert_eq!(evaluate_query(&index, b"this:y == 1", Some(&env)).unwrap(), ids(&[]));
}

#[test]
fn evaluate_and_select_on_a_tree() {
    let index = example();
    let e = Expr::Closure(
        Direction::UsedBy,
        Box::new(Expr::Compare(
            CompareOp::Eq,
            Operand::Lookup(Lookup::Id),
            Operand::Literal(Scalar::Str(b"P1".to_vec())),
        )),
        None,
    );
    assert_eq!(evaluate(&index, None, &e).unwrap(), vec![false, true, false]);
    assert_eq!(select(&index, None, &e).unwrap(), ids(&["P3"]));
}

#[test]
fn parse_errors_name_the_position() {
    assert_eq!(
        parse(b"").unwrap_err(),
        ParseError::Syntax { position: 0, expected: Expected::Operand }
    );
    assert_eq!(
        parse(b"name").unwrap_err(),
        ParseError::Syntax { position: 4, expected: Expected::Operator }
    );
    assert_eq!(
        parse(b"name = 'a'").unwrap_err(),
        ParseError::Syntax { position: 5, expected: Expected::Operator }
    );
    assert_eq!(
        parse(b"name == 'a").unwrap_err(),
        ParseError::Syntax { position: 10, expected: Expected::Quote }
    );
    assert_eq!(
        parse(b"name == 'a' id").unwrap_err(),
        ParseError::Syntax { position: 12, expected: Expected::End }
    );
    assert_eq!(
        parse(b"(name == 'a'").unwrap_err(),
        ParseError::Syntax { position: 12, expected: Expected::CloseParen }
    );
    assert_eq!(
        parse(b"parameter: == 1").unwrap_err(),
        ParseError::Syntax { position: 10, expected: Expected::Key }
    );
    assert_eq!(
        parse(b"id == -").unwrap_err(),
        ParseError::Syntax { position: 7, expected: Expected::Number }
    );
    assert_eq!(
        parse(b"id == 99999999999999999999").unwrap_err(),
        ParseError::Syntax { position: 6, expected: Expected::Number }
    );
    assert_eq!(
        parse(b"foo == 1").unwrap_err(),
        ParseError::Syntax { position: 0, expected: Expected::Operand }
    );
}

#[test]
fn parse_errors_for_calls() {
    assert_eq!(parse(b"newest(name == 'a')").unwrap_err(), ParseError::UnknownFunction { position: 0 });
    assert_eq!(parse(b" single()").unwrap_err(), ParseError::ArityMismatch { position: 1 });
    assert_eq!(parse(b"usedby()").unwrap_err(), ParseError::ArityMismatch { position: 0 });
    assert_eq!(
        parse(b"latest(name == 'a', 2)").unwrap_err(),
        ParseError::ArityMismatch { position: 0 }
    );
    assert_eq!(
        parse(b"depends(name == 'a', 2, 3)").unwrap_err(),
        ParseError::ArityMismatch { position: 0 }
    );
    assert_eq!(
        parse(b"depends(name == 'a', x)").unwrap_err(),
        ParseError::Syntax { position: 21, expected: Expected::Number }
    );
}

#[test]
fn parse_builds_the_tree() {
    match parse(b"latest(parameter:a.b >= 9223372036854775799)").unwrap() {
        Expr::Latest(Some(inner)) => match *inner {
            Expr::Compare(CompareOp::Ge, Operand::Lookup(Lookup::Parameter(k)), Operand::Literal(Scalar::Num(n))) => {
                assert_eq!(k, b"a.b".to_vec());
                assert_eq!(n, 9223372036854775799);
            }
            _ => panic!("not the comparison"),
        },
        _ => panic!("not a call of latest"),
    }
    assert!(matches!(parse(b"latest()").unwrap(), Expr::Latest(None)));
    assert!(matches!(
        parse(b"usedby(id == 'x', 3)").unwrap(),
        Expr::Closure(Direction::UsedBy, _, Some(3))
    ));
    assert!(matches!(parse(b"a == 1").unwrap_err(), ParseError::Syntax { .. }));
}

#[test]
fn missing_packets_is_index_minus_known_in_time_order() {
    let index = example();
    let store = ObjectStore::new(HashAlgorithm::Sha256);
    assert_eq!(missing_packets(&index, &store, &ids(&[]), false), ids(&["P1", "P3", "P2"]));
    assert_eq!(missing_packets(&index, &store, &ids(&["P3", "zz"]), false), ids(&["P1", "P2"]));
    assert_eq!(missing_packets(&index, &store, &ids(&["P1", "P2", "P3"]), false), ids(&[]));
}

#[test]
fn missing_packets_restricted_to_unpacked() {
    let mut full = packet("p1", "n", 1, &[]);
    full.files.push(FileEntry { path: b"f".to_vec(), hash: b"h1".to_vec(), size: 1 });
    let mut part = packet("p2", "n", 2, &[]);
    part.files.push(FileEntry { path: b"f".to_vec(), hash: b"h1".to_vec(), size: 1 });
    part.files.push(FileEntry { path: b"g".to_vec(), hash: b"h2".to_vec(), size: 2 });
    let index = Index::build(vec![full, part, packet("p3", "n", 3, &[])]).index;
    let store = ObjectStore::from_inventory(HashAlgorithm::Sha256, vec![b"h1".to_vec()]);
    assert_eq!(missing_packets(&index, &store, &ids(&[]), true), ids(&["p2"]));
    assert_eq!(missing_packets(&index, &store, &ids(&["p2"]), true), ids(&[]));
    assert_eq!(missing_packets(&index, &store, &ids(&[]), false), ids(&["p1", "p2", "p3"]));
}

#[test]
fn cycles_are_reported_per_packet() {
    let index = Index::build(vec![
        packet("A", "x", 1, &["C"]),
        packet("B", "x", 2, &["A"]),
        packet("C", "x", 3, &["B"]),
        packet("D", "x", 4, &["A"]),
        packet("E", "x", 5, &["E"]),
    ])
    .index;
    assert_eq!(index.cycles(), vec![true, true, true, false, true]);
    assert_eq!(chain().cycles(), vec![false, false, false, false]);
    assert_eq!(Index::build(Vec::new()).index.cycles(), Vec::<bool>::new());
}

#[test]
fn by_name_groups_in_time_order() {
    let index = example();
    assert_eq!(index.by_name(b"a"), ids(&["P1", "P2"]));
    assert_eq!(index.by_name(b"b"), ids(&["P3"]));
    assert_eq!(index.by_name(b"c"), ids(&[]));
}

#[test]
fn direct_edges_both_ways() {
    let index = Index::build(vec![
        packet("A", "x", 1, &[]),
        packet("B", "x", 2, &["A"]),
        packet("C", "y", 3, &["B", "A", "gone"]),
    ])
    .index;
    assert_eq!(index.depends_on(b"C"), ids(&["A", "B"]));
    assert_eq!(index.depends_on(b"A"), ids(&[]));
    assert_eq!(index.depends_on(b"nope"), ids(&[]));
    assert_eq!(index.used_by(b"A"), ids(&["B", "C"]));
    assert_eq!(index.used_by(b"B"), ids(&["C"]));
    assert_eq!(index.used_by(b"C"), ids(&[]));
    assert_eq!(index.used_by(b"nope"), ids(&[]));
}

#[test]
fn nested_calls_and_spacing() {
    let index = chain();
    assert_eq!(run(&index, "latest(usedby(id == 'A'))").unwrap(), ids(&["D"]));
    assert_eq!(run(&index, "single(latest())").unwrap(), ids(&["D"]));
    assert_eq!(run(&index, "usedby( id == 'A' ,\t2 )\n").unwrap(), ids(&["B", "C"]));
    assert_eq!(
        run(&index, "id == 'A' || id == 'C' || id == 'D'").unwrap(),
        ids(&["A", "C", "D"])
    );
    assert_eq!(run(&index, "((id != 'A')) && !(name == 'y')").unwrap(), ids(&["B"]));
    assert_eq!(run(&index, "depends(usedby(id == 'A', 1))").unwrap(), ids(&["A"]));
    assert_eq!(
        run(&index, "usedby(single(name == 'x'))").unwrap_err(),
        QueryError::Eval(EvalError::AmbiguousQuery(2))
    );
}
