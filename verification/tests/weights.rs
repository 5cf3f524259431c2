use ski_paths::behavior_tree::Number;
use ski_paths::graph::GraphWeight;

#[test]
fn graph_ord() {
    let inf = GraphWeight::Infinity;
    let zero = GraphWeight::Finite(0);
    assert!(inf > zero);
    assert!(inf >= inf);
    assert!(inf == inf);
    assert!(zero < inf);
    assert!(zero <= inf);
}

#[test]
fn number_comps() {
    let inf = Number::Infinite;
    let fin_0 = Number::Finite(0.0f32);
    let fin_5 = Number::Finite(5.0f32);
    assert_ne!(inf, fin_0);
    assert!(inf > fin_0);
    assert!(inf >= fin_0);
    assert!(fin_0 < inf);
    assert!(fin_0 <= inf);
    assert!(fin_5 < inf);
    assert!(fin_5 <= inf);
    assert_ne!(fin_0, fin_5);
    assert!(fin_0 < fin_5);
    assert!(fin_0 <= fin_5);
}

#[test]
fn weight_saturating_add() {
    assert_eq!(
        GraphWeight::Finite(2).add(GraphWeight::Finite(3)),
        GraphWeight::Finite(5)
    );
    assert_eq!(
        GraphWeight::Infinity.add(GraphWeight::Finite(7)),
        GraphWeight::Infinity
    );
    assert_eq!(
        GraphWeight::Finite(7).add(GraphWeight::Infinity),
        GraphWeight::Infinity
    );
    assert_eq!(
        GraphWeight::Infinity.add(GraphWeight::Infinity),
        GraphWeight::Infinity
    );
    assert_eq!(
        GraphWeight::Finite(i32::MAX).add(GraphWeight::Finite(1)),
        GraphWeight::Infinity
    );
}

#[test]
fn weight_comparisons_executable() {
    let two = GraphWeight::Finite(2);
    let three = GraphWeight::Finite(3);
    assert!(two.lt(&three));
    assert!(two.le(&three));
    assert!(!three.le(&two));
    assert!(two.lt(&GraphWeight::Infinity));
    assert!(GraphWeight::Infinity.le(&GraphWeight::Infinity));
    assert!(!GraphWeight::Infinity.lt(&GraphWeight::Infinity));
    assert!(two.is_finite());
    assert!(!GraphWeight::Infinity.is_finite());
}

#[test]
fn number_saturating_add() {
    assert_eq!(
        Number::Finite(2i64).add(Number::Finite(3i64)),
        Number::Finite(5i64)
    );
    assert_eq!(Number::Infinite.add(Number::Finite(3i64)), Number::Infinite);
    assert_eq!(Number::Finite(3i64).add(Number::Infinite), Number::Infinite);
    assert_eq!(
        Number::Finite(i64::MAX).add(Number::Finite(1i64)),
        Number::Infinite
    );
}
