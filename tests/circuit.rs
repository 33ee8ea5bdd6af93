use plang::{Error, Gate, PlangCircuit, PlangExpr, PlangGrammar, PlangNode, WitnessOrPublic};

fn s(x: &str) -> String {
    x.to_string()
}

fn sign(minus: bool) -> PlangNode {
    PlangNode::Sign { minus }
}

fn tri(coeff: Option<&str>, l: &str, r: &str) -> PlangNode {
    PlangNode::Tri { coeff: coeff.map(s), lvar: s(l), rvar: s(r) }
}

fn bi(coeff: Option<&str>, v: &str) -> PlangNode {
    PlangNode::Bi { coeff: coeff.map(s), var: s(v) }
}

fn var(v: &str) -> PlangNode {
    PlangNode::Var { name: s(v) }
}

fn build(eqs: Vec<Vec<PlangNode>>) -> Result<PlangCircuit, Error> {
    PlangCircuit::from_grammar(PlangGrammar::new(eqs))
}

fn index_of(c: &PlangCircuit, name: &str) -> usize {
    (0..c.var_count()).find(|i| c.var_at(*i).0 == name).unwrap()
}

fn wire(c: &PlangCircuit, w: Option<usize>) -> i128 {
    match w {
        Some(i) => c.var_at(i).1.value() as i128,
        None => 0,
    }
}

fn eval(c: &PlangCircuit, g: &Gate) -> i128 {
    let a = wire(c, g.a);
    let b = wire(c, g.b);
    let o = wire(c, g.o);
    g.q_m * a * b + g.q_l * a + g.q_r * b + g.q_o * o + g.q_c
}

fn vals(xs: &[(&str, u64)]) -> Vec<(String, u64)> {
    xs.iter().map(|(n, v)| (s(n), *v)).collect()
}

// a + b = c
// a * b = d
fn sum_and_product() -> Vec<Vec<PlangNode>> {
    vec![
        vec![bi(None, "a"), sign(false), bi(None, "b"), var("c")],
        vec![tri(None, "a", "b"), var("d")],
    ]
}

#[test]
fn produces_same_gates_as_hand_written_circuit() {
    let mut c = build(sum_and_product()).unwrap();
    c.set_vals(vals(&[("a", 1), ("b", 1), ("c", 2), ("d", 1)])).unwrap();
    assert!(c.is_lowerable());
    let gates = c.gadget();
    let a = Some(index_of(&c, "a"));
    let b = Some(index_of(&c, "b"));
    assert_eq!(
        gates[0],
        Gate { q_m: 0, q_l: 1, q_r: 1, q_o: 0, q_c: -2, public: true, a, b, o: None }
    );
    assert_eq!(
        gates[1],
        Gate { q_m: 1, q_l: 0, q_r: 0, q_o: 0, q_c: -1, public: true, a, b, o: None }
    );
    assert_eq!(c.padded_gates(), 1 << 3);
    assert_eq!(c.public_inputs(), vec![2, 1]);
    for g in &gates {
        assert_eq!(eval(&c, g), 0);
    }
}

#[test]
fn gate_count_equals_equation_count() {
    let c = build(sum_and_product()).unwrap();
    assert_eq!(c.gadget().len(), 2);
    assert_eq!(c.padded_gates(), 8);

    let mut eqs = sum_and_product();
    eqs.push(vec![bi(Some("2"), "a"), var("e")]);
    let c = build(eqs).unwrap();
    assert_eq!(c.gadget().len(), 3);
    assert_eq!(c.padded_gates(), 16);

    let c = build(vec![]).unwrap();
    assert_eq!(c.gadget().len(), 0);
    assert_eq!(c.padded_gates(), 2);
}

#[test]
fn same_tri_vars_rejected_in_any_position() {
    let bad = vec![tri(Some("3"), "a", "a"), var("c")];
    let first = vec![bad.clone(), vec![bi(None, "x"), var("y")]];
    let last = vec![vec![bi(None, "x"), var("y")], bad.clone()];
    let only = vec![bad];
    assert_eq!(build(first).unwrap_err(), Error::SameTriVars);
    assert_eq!(build(last).unwrap_err(), Error::SameTriVars);
    assert_eq!(build(only).unwrap_err(), Error::SameTriVars);
}

// 3·a·b − 5·a = −c
#[test]
fn positive_quadratic_gate_evaluates_to_zero() {
    let eq = vec![
        tri(Some("3"), "a", "b"),
        sign(true),
        bi(Some("5"), "a"),
        sign(true),
        var("c"),
    ];
    let mut c = build(vec![eq]).unwrap();
    c.set_vals(vals(&[("a", 1), ("b", 1), ("c", 2)])).unwrap();
    let g = c.gadget()[0];
    assert_eq!((g.q_m, g.q_l, g.q_r, g.q_o, g.q_c), (3, -5, 0, 0, 2));
    assert_eq!(g.a, Some(index_of(&c, "a")));
    assert_eq!(g.b, Some(index_of(&c, "b")));
    assert_eq!(g.o, None);
    assert!(g.public);
    assert_eq!(eval(&c, &g), 0);

    c.set_vals(vals(&[("c", 3)])).unwrap();
    assert_eq!(eval(&c, &c.gadget()[0]), 1);
}

// −3·a·b + a = −c
#[test]
fn negative_quadratic_gate_evaluates_to_zero() {
    let eq = vec![
        sign(true),
        tri(Some("3"), "a", "b"),
        sign(false),
        bi(None, "a"),
        sign(true),
        var("c"),
    ];
    let mut c = build(vec![eq]).unwrap();
    c.set_vals(vals(&[("a", 1), ("b", 1), ("c", 2)])).unwrap();
    let g = c.gadget()[0];
    assert_eq!((g.q_m, g.q_l, g.q_r, g.q_o, g.q_c), (-3, 1, 0, 0, 2));
    assert_eq!(eval(&c, &g), 0);
}

#[test]
fn linear_term_on_right_operand_and_output() {
    // 2·a·b + 4·b − 7·d = e
    let eq = vec![
        tri(Some("2"), "a", "b"),
        bi(Some("4"), "b"),
        sign(true),
        bi(Some("7"), "d"),
        var("e"),
    ];
    let mut c = build(vec![eq]).unwrap();
    c.set_vals(vals(&[("a", 2), ("b", 3), ("d", 1), ("e", 17)])).unwrap();
    let g = c.gadget()[0];
    assert_eq!((g.q_m, g.q_l, g.q_r, g.q_o, g.q_c), (2, 0, 4, -7, -17));
    assert_eq!(g.o, Some(index_of(&c, "d")));
    assert_eq!(eval(&c, &g), 0);
}

#[test]
fn linear_terms_fill_wires_in_order() {
    // x − 2·y + 3·z = w
    let eq = vec![
        bi(None, "x"),
        sign(true),
        bi(Some("2"), "y"),
        sign(false),
        bi(Some("3"), "z"),
        var("w"),
    ];
    let mut c = build(vec![eq]).unwrap();
    c.set_vals(vals(&[("x", 5), ("y", 1), ("z", 2), ("w", 9)])).unwrap();
    let g = c.gadget()[0];
    assert_eq!(g.a, Some(index_of(&c, "x")));
    assert_eq!(g.b, Some(index_of(&c, "y")));
    assert_eq!(g.o, Some(index_of(&c, "z")));
    assert_eq!((g.q_m, g.q_l, g.q_r, g.q_o, g.q_c), (0, 1, -2, 3, -9));
    assert_eq!(eval(&c, &g), 0);
}

#[test]
fn public_inputs_sorted_by_name() {
    let eqs = vec![
        vec![bi(None, "x"), sign(false), bi(None, "y"), var("z")],
        vec![tri(None, "x", "y"), var("a")],
    ];
    let mut c = build(eqs).unwrap();
    c.set_vals(vals(&[("z", 26), ("a", 1)])).unwrap();
    assert_eq!(c.public_inputs(), vec![1, 26]);

    let eqs = vec![
        vec![tri(None, "x", "y"), var("a")],
        vec![bi(None, "x"), sign(false), bi(None, "y"), var("z")],
    ];
    let mut c = build(eqs).unwrap();
    c.set_vals(vals(&[("z", 26), ("a", 1)])).unwrap();
    assert_eq!(c.public_inputs(), vec![1, 26]);
}

#[test]
fn set_vals_twice_keeps_latest_value_and_role() {
    let mut c = build(sum_and_product()).unwrap();
    c.set_vals(vals(&[("a", 1), ("b", 2), ("c", 3)])).unwrap();
    c.set_vals(vals(&[("a", 5), ("c", 7), ("a", 6)])).unwrap();
    assert_eq!(c.var(&s("a")), Some(WitnessOrPublic::Witness(6)));
    assert_eq!(c.var(&s("b")), Some(WitnessOrPublic::Witness(2)));
    assert_eq!(c.var(&s("c")), Some(WitnessOrPublic::PublicInput(7)));
    assert_eq!(c.var(&s("d")), Some(WitnessOrPublic::PublicInput(0)));
    assert_eq!(c.var(&s("q")), None);
}

#[test]
fn set_vals_unknown_name_changes_nothing() {
    let mut c = build(sum_and_product()).unwrap();
    c.set_vals(vals(&[("a", 2)])).unwrap();
    let r = c.set_vals(vals(&[("a", 4), ("q", 1), ("b", 9), ("r", 3)]));
    assert_eq!(r, Err(Error::NoSuchValue(s("q"))));
    assert_eq!(c.var(&s("a")), Some(WitnessOrPublic::Witness(2)));
    assert_eq!(c.var(&s("b")), Some(WitnessOrPublic::Witness(0)));
}

#[test]
fn four_names_compile_five_are_rejected() {
    let four = vec![tri(None, "a", "b"), bi(None, "c"), bi(None, "d")];
    let c = build(vec![four.clone()]).unwrap();
    assert_eq!(c.expr_count(), 1);
    assert!(!c.is_lowerable());

    let mut five = four;
    five.push(var("e"));
    assert_eq!(build(vec![five]).unwrap_err(), Error::TooManyVars);

    let four_with_public = vec![tri(None, "a", "b"), bi(None, "c"), var("e")];
    assert!(build(vec![four_with_public]).unwrap().is_lowerable());
}

#[test]
fn lowering_twice_gives_identical_gates() {
    let mut c = build(sum_and_product()).unwrap();
    c.set_vals(vals(&[("a", 3), ("b", 4), ("c", 7), ("d", 12)])).unwrap();
    let first = c.gadget();
    let second = c.gadget();
    assert_eq!(first, second);
}

#[test]
fn every_error_kind() {
    assert_eq!(
        build(vec![vec![bi(Some("x1"), "a"), var("c")]]).unwrap_err(),
        Error::Int(s("x1"))
    );
    assert_eq!(
        build(vec![vec![tri(None, "a", "b"), tri(None, "c", "d"), var("e")]]).unwrap_err(),
        Error::TooManyTriTerms
    );
    assert_eq!(
        build(vec![vec![bi(None, "a"), bi(None, "a"), var("c")]]).unwrap_err(),
        Error::RepeatedVars
    );
    assert_eq!(
        build(vec![vec![bi(None, "a"), bi(None, "b"), var("a")]]).unwrap_err(),
        Error::PublicVarNotSingular
    );
    assert_eq!(
        build(vec![vec![tri(None, "a", "b"), var("a")]]).unwrap_err(),
        Error::PublicVarNotSingular
    );
}

#[test]
fn checks_run_in_order_over_all_equations() {
    // the repeated linear variable comes first, the self product later:
    // the quadratic-operand pass still reports first.
    let eqs = vec![
        vec![bi(None, "a"), bi(None, "a"), var("c")],
        vec![tri(None, "b", "b"), var("d")],
    ];
    assert_eq!(build(eqs).unwrap_err(), Error::SameTriVars);
    // a bad coefficient is met while reading, before any pass.
    let eqs = vec![
        vec![tri(None, "b", "b"), var("d")],
        vec![bi(Some("-1"), "a"), var("c")],
    ];
    assert_eq!(build(eqs).unwrap_err(), Error::Int(s("-1")));
}

#[test]
fn coefficient_tokens() {
    let one = |tok: &str| {
        let c = build(vec![vec![bi(Some(tok), "a"), var("c")]]);
        c.map(|c| c.gadget()[0].q_l)
    };
    assert_eq!(one("12"), Ok(12));
    assert_eq!(one("+7"), Ok(7));
    assert_eq!(one("007"), Ok(7));
    assert_eq!(one("18446744073709551615"), Ok(18446744073709551615));
    assert_eq!(one("18446744073709551616"), Err(Error::Int(s("18446744073709551616"))));
    assert_eq!(one(""), Err(Error::Int(s(""))));
    assert_eq!(one("+"), Err(Error::Int(s("+"))));
    assert_eq!(one(" 1"), Err(Error::Int(s(" 1"))));
    assert_eq!(one("1+"), Err(Error::Int(s("1+"))));
    assert_eq!(one("++1"), Err(Error::Int(s("++1"))));
    assert_eq!(one("99999999999999999999"), Err(Error::Int(s("99999999999999999999"))));
    assert_eq!(one("+0"), Ok(0));
}

#[test]
fn roles_follow_public_references() {
    let c = build(sum_and_product()).unwrap();
    assert_eq!(c.var_count(), 4);
    let names: Vec<String> = (0..c.var_count()).map(|i| c.var_at(i).0.clone()).collect();
    assert_eq!(names, vec![s("a"), s("b"), s("c"), s("d")]);
    assert_eq!(c.var(&s("a")), Some(WitnessOrPublic::Witness(0)));
    assert_eq!(c.var(&s("c")), Some(WitnessOrPublic::PublicInput(0)));
}

#[test]
fn public_input_on_a_wire_elsewhere_is_not_lowerable() {
    let eqs = vec![
        vec![bi(None, "a"), var("c")],
        vec![tri(None, "c", "b"), var("d")],
    ];
    let c = build(eqs).unwrap();
    assert_eq!(c.var(&s("c")), Some(WitnessOrPublic::PublicInput(0)));
    assert!(!c.is_lowerable());
}

#[test]
fn four_linear_terms_are_not_lowerable() {
    let eq = vec![bi(None, "a"), bi(None, "b"), bi(None, "c"), bi(None, "d")];
    let c = build(vec![eq]).unwrap();
    assert!(!c.is_lowerable());
}

#[test]
fn sign_applies_to_the_next_term_only() {
    let nodes = vec![
        sign(true),
        bi(Some("2"), "a"),
        bi(None, "b"),
        sign(true),
        tri(None, "x", "y"),
        var("p"),
    ];
    let e = PlangExpr::from_nodes(&nodes).unwrap();
    assert!(e.bis[0].minus);
    assert!(!e.bis[1].minus);
    assert_eq!(e.bis[0].coeff, 2);
    assert_eq!(e.bis[1].coeff, 1);
    let t = e.tri.unwrap();
    assert!(t.minus);
    assert_eq!((t.lvar.as_str(), t.rvar.as_str()), ("x", "y"));
    let p = e.public.unwrap();
    assert_eq!(p.var, s("p"));
    assert!(!p.minus);
}

// a − b = c
#[test]
fn unsigned_public_input_after_minus_is_positive() {
    let eq = vec![bi(None, "a"), sign(true), bi(None, "b"), var("c")];
    let mut c = build(vec![eq]).unwrap();
    c.set_vals(vals(&[("a", 5), ("b", 2), ("c", 3)])).unwrap();
    let g = c.gadget()[0];
    assert_eq!((g.q_l, g.q_r, g.q_c), (1, -1, -3));
    assert_eq!(eval(&c, &g), 0);
}

#[test]
fn name_order_is_by_character() {
    let eqs = vec![vec![bi(None, "b"), bi(None, "ab"), bi(None, "a"), var("B")]];
    let c = build(eqs).unwrap();
    let names: Vec<String> = (0..c.var_count()).map(|i| c.var_at(i).0.clone()).collect();
    assert_eq!(names, vec![s("B"), s("a"), s("ab"), s("b")]);
}
