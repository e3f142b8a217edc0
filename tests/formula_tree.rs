use runex::float::Float;
use runex::formula::{Addition, Formula, FormulaTypes, Negative};
use runex::integer::Integer;

fn lit(v: isize) -> Box<FormulaTypes> {
    Box::new(FormulaTypes::Integer(Integer::from_isize(v)))
}

fn dec(s: &str) -> Box<FormulaTypes> {
    Box::new(FormulaTypes::Float(Float::from_string(s.to_string()).unwrap()))
}

fn sum(terms: Vec<Box<FormulaTypes>>) -> Box<FormulaTypes> {
    Box::new(FormulaTypes::Addition(Addition::new(terms)))
}

fn neg(term: Box<FormulaTypes>) -> Box<FormulaTypes> {
    Box::new(FormulaTypes::Negative(Negative::new(term)))
}

fn shape(f: &FormulaTypes) -> String {
    format!("{:?}", f)
}

#[test]
fn folding_then_evaluating_gives_minus_five() {
    let tree = Addition::new(vec![lit(10), neg(lit(15))]);
    let simplified = tree.simplify();
    assert_eq!(simplified.calculate().to_string(), "-5");
}

#[test]
fn nested_sums_flatten_to_one_folded_literal() {
    let tree = Addition::new(vec![sum(vec![lit(1), lit(2)]), lit(3)]);
    match *tree.simplify() {
        FormulaTypes::Addition(a) => {
            assert_eq!(a.elements.len(), 1);
            match &*a.elements[0] {
                FormulaTypes::Integer(n) => {
                    assert!(!n.sign);
                    assert_eq!(n.digits, vec![6]);
                }
                other => panic!("expected an integer literal, got {:?}", other),
            }
        }
        other => panic!("expected a sum, got {:?}", other),
    }
}

#[test]
fn zero_constant_is_left_out() {
    let tree = Addition::new(vec![lit(2), neg(lit(4)), lit(-2)]);
    match *tree.simplify() {
        FormulaTypes::Addition(a) => {
            assert_eq!(a.elements.len(), 1);
            assert!(matches!(*a.elements[0], FormulaTypes::Negative(_)));
        }
        other => panic!("expected a sum, got {:?}", other),
    }
    let cancelled = Addition::new(vec![lit(3), lit(-3)]).simplify();
    match &*cancelled {
        FormulaTypes::Addition(a) => assert_eq!(a.elements.len(), 0),
        other => panic!("expected a sum, got {:?}", other),
    }
    assert_eq!(cancelled.calculate().to_string(), "0");
}

#[test]
fn integer_and_decimal_totals_that_cancel_are_left_out() {
    let tree = Addition::new(vec![lit(1), dec("-1.0")]);
    match *tree.simplify() {
        FormulaTypes::Addition(a) => assert_eq!(a.elements.len(), 0),
        other => panic!("expected a sum, got {:?}", other),
    }
}

#[test]
fn mixed_constants_fold_to_a_decimal_at_the_end() {
    let tree = Addition::new(vec![lit(1), neg(lit(9)), dec("0.5"), dec("0.25")]);
    match *tree.simplify() {
        FormulaTypes::Addition(a) => {
            assert_eq!(a.elements.len(), 2);
            assert!(matches!(*a.elements[0], FormulaTypes::Negative(_)));
            match &*a.elements[1] {
                FormulaTypes::Float(x) => {
                    assert_eq!(x.value.digits, vec![5, 7, 1]);
                    assert_eq!(x.scale.digits, vec![2]);
                }
                other => panic!("expected a decimal literal, got {:?}", other),
            }
        }
        other => panic!("expected a sum, got {:?}", other),
    }
}

#[test]
fn simplifying_twice_changes_nothing() {
    let make = || FormulaTypes::Addition(Addition::new(vec![
        lit(4),
        sum(vec![neg(lit(2)), dec("1.5"), sum(vec![lit(7)])]),
        neg(sum(vec![lit(1)])),
    ]));
    let once = make().simplify();
    let once_shape = shape(&once);
    let twice = once.simplify();
    assert_eq!(shape(&twice), once_shape);
}

#[test]
fn double_negation_gives_the_inner_tree() {
    let inner = FormulaTypes::Negative(Negative::new(neg(lit(7))));
    let r = inner.simplify();
    assert_eq!(shape(&r), shape(&lit(7)));
    let x = Addition::new(vec![lit(2), neg(lit(1))]).simplify();
    let x_shape = shape(&x);
    let x_simplified = shape(&FormulaTypes::Addition(Addition::new(vec![neg(lit(1)), lit(2)])).simplify());
    assert_eq!(x_shape, x_simplified);
    let r = Negative::new(neg(x)).simplify();
    assert_eq!(shape(&r), x_simplified);
}

#[test]
fn negation_is_pushed_into_a_sum() {
    let r = Negative::new(sum(vec![lit(1), dec("0.5"), neg(lit(3))])).simplify();
    let expected = shape(&sum(vec![lit(-1), dec("-0.5"), lit(3)]));
    assert_eq!(shape(&r), expected);
}

#[test]
fn literals_simplify_to_themselves() {
    assert_eq!(shape(&lit(5).simplify()), shape(&lit(5)));
    assert_eq!(shape(&dec("2.5").simplify()), shape(&dec("2.5")));
    assert_eq!(shape(&Negative::new(lit(0)).simplify()), shape(&lit(0)));
}

#[test]
fn calculation_is_exact() {
    let tree = Addition::new(vec![dec("0.1"), dec("0.2"), neg(dec("0.3"))]);
    assert_eq!(tree.calculate().to_string(), "0.0");
    let tree = Addition::new(vec![lit(10), neg(sum(vec![lit(3), dec("0.75")]))]);
    assert_eq!(tree.calculate().to_string(), "6.25");
    assert_eq!(Negative::new(lit(8)).calculate().to_string(), "-8");
    assert_eq!(Addition::new(vec![]).calculate().to_string(), "0");
}
