use qutub_transpiler::binary64::Binary64;
use qutub_transpiler::qec::decoder::{
    corrections_from_matching, minimum_weight_perfect_matching, DecodingNode,
};

fn f(x: f64) -> Binary64 {
    Binary64::from_bits(x.to_bits())
}


#[test]
fn empty_defect_set_has_empty_matching() {
    let m = minimum_weight_perfect_matching(&[], |_, _| f(0.0));
    assert!(m.is_empty());
}

#[test]
fn single_defect_routes_to_boundary() {
    let defects = [DecodingNode::Check(0)];
    let m = minimum_weight_perfect_matching(&defects, |_, b| match b {
        DecodingNode::Boundary => f(1.0),
        _ => f(5.0),
    });
    assert_eq!(m, vec![(DecodingNode::Check(0), DecodingNode::Boundary)]);
}

#[test]
fn two_close_defects_prefer_pairing_over_two_boundary_routes() {
    let defects = [DecodingNode::Check(0), DecodingNode::Check(1)];
    let dist = |a: DecodingNode, b: DecodingNode| match (a, b) {
        (DecodingNode::Check(x), DecodingNode::Check(y)) => f((x as f64 - y as f64).abs()),
        _ => f(10.0),
    };
    let m = minimum_weight_perfect_matching(&defects, dist);
    assert_eq!(m, vec![(DecodingNode::Check(0), DecodingNode::Check(1))]);
}

#[test]
fn two_far_defects_prefer_two_boundary_routes_over_pairing() {
    let defects = [DecodingNode::Check(0), DecodingNode::Check(1)];
    let dist = |a: DecodingNode, b: DecodingNode| match (a, b) {
        (DecodingNode::Check(_), DecodingNode::Check(_)) => f(10.0),
        _ => f(1.0),
    };
    let mut m = minimum_weight_perfect_matching(&defects, dist);
    m.sort_by_key(|(node, _)| match node {
        DecodingNode::Check(c) => *c,
        DecodingNode::Boundary => usize::MAX,
    });
    assert_eq!(
        m,
        vec![
            (DecodingNode::Check(0), DecodingNode::Boundary),
            (DecodingNode::Check(1), DecodingNode::Boundary),
        ]
    );
}

#[test]
fn corrections_from_matching_cancels_overlapping_paths() {
    let matching = vec![
        (DecodingNode::Check(0), DecodingNode::Check(1)),
        (DecodingNode::Check(2), DecodingNode::Check(3)),
    ];
    let path_qubits = |a: DecodingNode, b: DecodingNode| -> Vec<usize> {
        match (a, b) {
            (DecodingNode::Check(0), DecodingNode::Check(1)) => vec![0, 1, 2],
            (DecodingNode::Check(2), DecodingNode::Check(3)) => vec![2, 3, 4],
            _ => vec![],
        }
    };
    let mut corrected = corrections_from_matching(&matching, path_qubits);
    corrected.sort_unstable();
    assert_eq!(corrected, vec![0, 1, 3, 4]);
}

/// Four defects: pairing the first with its nearest neighbor leaves a longer
/// pair behind than the matching of minimum weight.
#[test]
fn four_defects_take_the_matching_of_minimum_weight() {
    let defects = [
        DecodingNode::Check(0),
        DecodingNode::Check(3),
        DecodingNode::Check(5),
        DecodingNode::Check(20),
    ];
    let dist = |a: DecodingNode, b: DecodingNode| match (a, b) {
        (DecodingNode::Check(x), DecodingNode::Check(y)) => f((x as f64 - y as f64).abs()),
        (DecodingNode::Check(x), _) => f((x + 1).min(22 - x) as f64),
        _ => f(0.0),
    };
    let m = minimum_weight_perfect_matching(&defects, dist);
    let total: f64 = m.iter().map(|(a, b)| f64::from_bits(dist(*a, *b).to_bits())).sum();
    assert_eq!(total, 5.0);
    assert_eq!(
        m,
        vec![
            (DecodingNode::Check(20), DecodingNode::Boundary),
            (DecodingNode::Check(3), DecodingNode::Check(5)),
            (DecodingNode::Check(0), DecodingNode::Boundary),
        ]
    );
}
