use eigentrust::entry::Entry;
use eigentrust::errors::SparseError;
use eigentrust::localtrust::{canonicalize_local_trust, extract_distrust};
use eigentrust::matrix::{CSMatrix, CSRMatrix};
use eigentrust::peers::{current_time_millis, parse_peer_id, strip_headers, PeersMap};
use eigentrust::solver::{
    canonicalize, compute, discount_trust_vector, rank_sort, ConvergenceChecker, FlatTailChecker,
};
use eigentrust::vector::Vector;

fn b(x: f64) -> u64 {
    x.to_bits()
}

fn add(x: u64, y: u64) -> u64 {
    (f64::from_bits(x) + f64::from_bits(y)).to_bits()
}

fn sub(x: u64, y: u64) -> u64 {
    (f64::from_bits(x) - f64::from_bits(y)).to_bits()
}

fn mul(x: u64, y: u64) -> u64 {
    (f64::from_bits(x) * f64::from_bits(y)).to_bits()
}

fn div(x: u64, y: u64) -> u64 {
    (f64::from_bits(x) / f64::from_bits(y)).to_bits()
}

fn sqrt(x: u64) -> u64 {
    f64::from_bits(x).sqrt().to_bits()
}

fn uniform_pretrust(n: usize) -> Vector {
    let w = b(1.0 / (n as f64));
    let entries = (0..n).map(|i| Entry { index: i, value: w }).collect();
    Vector::new(n, entries)
}

#[test]
fn test_discount_trust_vector() {
    struct TestCase {
        name: &'static str,
        t: Vector,
        discounts: CSRMatrix,
        expected: Vector,
    }

    let test_cases = vec![TestCase {
        name: "test1",
        t: Vector::new(
            5,
            vec![
                Entry { index: 0, value: b(0.25) },
                Entry { index: 2, value: b(0.5) },
                Entry { index: 3, value: b(0.25) },
            ],
        ),
        discounts: CSRMatrix {
            cs_matrix: CSMatrix {
                major_dim: 5,
                minor_dim: 5,
                entries: vec![
                    // 0 - no distrust (empty)
                    vec![],
                    // 1 - doesn't matter because of zero trust
                    vec![
                        Entry { index: 2, value: b(0.5) },
                        Entry { index: 3, value: b(0.5) },
                    ],
                    // 2 - scaled by 0.5 and applied
                    vec![
                        Entry { index: 0, value: b(0.25) },
                        Entry { index: 4, value: b(0.75) },
                    ],
                    // 3 - scaled by 0.25 and applied
                    vec![
                        Entry { index: 2, value: b(0.5) },
                        Entry { index: 4, value: b(0.5) },
                    ],
                    // 4 - no distrust, also zero global trust (empty)
                    vec![],
                ],
            },
        },
        expected: Vector::new(
            5,
            vec![
                Entry { index: 0, value: b(0.25 - 0.25 * 0.5) }, // peer 2
                Entry { index: 2, value: b(0.5 - 0.5 * 0.25) },  // peer 3
                Entry { index: 3, value: b(0.25) },
                Entry { index: 4, value: b(0.0 - 0.75 * 0.5 - 0.5 * 0.25) }, // peer 2 & 3
            ],
        ),
    }];

    for test in test_cases {
        let mut t = test.t.clone();
        let result = discount_trust_vector(&mut t, &test.discounts, &mul, &add, &sub);
        assert!(result.is_ok(), "{}: DiscountTrustVector failed", test.name);
        assert_eq!(
            t, test.expected,
            "{}: Vector does not match expected value",
            test.name
        );
    }
}

#[test]
fn eigentrust_test_run() {
    let e = 1.25e-7;
    let a = 0.5;

    let w = 0.14285714285714285;
    let p = Vector::new(
        8,
        vec![
            Entry { index: 0, value: b(w) },
            Entry { index: 1, value: b(w) },
            Entry { index: 2, value: b(w) },
            Entry { index: 3, value: b(w) },
            Entry { index: 4, value: b(w) },
            Entry { index: 5, value: b(w) },
            Entry { index: 6, value: b(w) },
        ],
    );

    let full_row = || {
        vec![
            Entry { index: 0, value: b(w) },
            Entry { index: 1, value: b(w) },
            Entry { index: 2, value: b(w) },
            Entry { index: 3, value: b(w) },
            Entry { index: 4, value: b(w) },
            Entry { index: 5, value: b(w) },
            Entry { index: 6, value: b(w) },
        ]
    };

    let c = CSRMatrix {
        cs_matrix: CSMatrix {
            major_dim: 8,
            minor_dim: 8,
            entries: vec![
                vec![Entry { index: 3, value: b(1.0) }],
                full_row(),
                vec![Entry { index: 3, value: b(1.0) }],
                full_row(),
                vec![Entry { index: 1, value: b(1.0) }],
                full_row(),
                vec![Entry { index: 5, value: b(1.0) }],
                full_row(),
            ],
        },
    };

    let expected = Vector {
        dim: 8,
        entries: vec![
            Entry { index: 0, value: b(0.11111110842697292) },
            Entry { index: 1, value: b(0.16666666867977029) },
            Entry { index: 2, value: b(0.11111110842697292) },
            Entry { index: 3, value: b(0.22222222893256766) },
            Entry { index: 4, value: b(0.11111110842697292) },
            Entry { index: 5, value: b(0.16666666867977029) },
            Entry { index: 6, value: b(0.11111110842697292) },
        ],
    };
    let result = compute(
        &c,
        &p,
        b(a),
        b(e),
        None,
        None,
        &mul,
        &add,
        &sub,
        &sqrt,
    )
    .unwrap();
    assert_eq!(result, expected);
}

#[test]
fn test_extract_distrust() {
    struct TestCase {
        name: &'static str,
        local_trust: CSRMatrix,
        expected_trust: CSRMatrix,
        expected_distrust: CSRMatrix,
    }

    let test_cases = vec![TestCase {
        name: "test1",
        local_trust: CSRMatrix::new(
            3,
            3,
            vec![
                (0, 0, b(100.0)),
                (0, 1, b(-50.0)),
                (0, 2, b(-50.0)),
                (2, 0, b(-100.0)),
            ],
        ),
        expected_trust: CSRMatrix::new(3, 3, vec![(0, 0, b(100.0))]),
        expected_distrust: CSRMatrix::new(
            3,
            3,
            vec![(0, 1, b(50.0)), (0, 2, b(50.0)), (2, 0, b(100.0))],
        ),
    }];

    for test in test_cases {
        let mut local_trust = test.local_trust.clone();
        let distrust = extract_distrust(&mut local_trust).expect("Failed to extract distrust");

        assert_eq!(
            local_trust, test.expected_trust,
            "{}: local trust does not match expected value",
            test.name
        );
        assert_eq!(
            distrust, test.expected_distrust,
            "{}: distrust does not match expected value",
            test.name
        );
    }
}

#[test]
fn end_to_end_power_iteration() {
    // local trust edges over 7 peers, uniform pretrust, alpha = 0.5
    let edges = vec![
        (0, 1, b(11.31571)),
        (2, 3, b(269916.08616)),
        (4, 5, b(3173339.366896588)),
        (6, 5, b(46589750.00759474)),
    ];
    let mut local = CSRMatrix::new(7, 7, edges);
    let pretrust = uniform_pretrust(7);
    canonicalize_local_trust(&mut local, Some(pretrust.clone()), &add, &div).unwrap();

    let t = compute(
        &local,
        &pretrust,
        b(0.5),
        b(1.25e-7),
        None,
        None,
        &mul,
        &add,
        &sub,
        &sqrt,
    )
    .unwrap();

    let expected = [
        (0, 0.1111),
        (1, 0.1667),
        (2, 0.1111),
        (3, 0.1667),
        (4, 0.1111),
        (5, 0.2222),
        (6, 0.1111),
    ];
    assert_eq!(t.nnz(), 7);
    let mut total = 0.0;
    for (idx, want) in expected {
        let got = t
            .entries
            .iter()
            .find(|e| e.index == idx)
            .map(|e| f64::from_bits(e.value))
            .unwrap();
        assert!((got - want).abs() < 1e-3, "peer {}: {} vs {}", idx, got, want);
        total += got;
    }
    assert!((total - 1.0).abs() < 1e-6, "mass not conserved: {}", total);
}

#[test]
fn empty_matrix_is_rejected() {
    let c = CSRMatrix::new(0, 0, vec![]);
    let p = Vector::new(0, vec![]);
    let res = compute(&c, &p, b(0.5), b(1e-6), None, None, &mul, &add, &sub, &sqrt);
    assert_eq!(res.unwrap_err(), SparseError::EmptyInput);
}

#[test]
fn dimension_mismatch_is_rejected() {
    let c = CSRMatrix::new(3, 3, vec![(0, 1, b(1.0))]);
    let p = Vector::new(2, vec![]);
    let res = compute(&c, &p, b(0.5), b(1e-6), None, None, &mul, &add, &sub, &sqrt);
    assert_eq!(res.unwrap_err(), SparseError::DimensionMismatch);
}

#[test]
fn nan_alpha_is_rejected() {
    let c = CSRMatrix::new(2, 2, vec![(0, 1, b(1.0))]);
    let p = Vector::new(2, vec![Entry { index: 0, value: b(1.0) }]);
    let res = compute(
        &c,
        &p,
        f64::NAN.to_bits(),
        b(1e-6),
        None,
        None,
        &mul,
        &add,
        &sub,
        &sqrt,
    );
    assert_eq!(res.unwrap_err(), SparseError::InvalidParameter);
}

#[test]
fn exhausted_budget_reports_nonconvergence() {
    let c = CSRMatrix::new(2, 2, vec![(0, 1, b(1.0)), (1, 0, b(1.0))]);
    let p = uniform_pretrust(2);
    let res = compute(
        &c,
        &p,
        b(0.5),
        b(0.0),
        Some(2),
        None,
        &mul,
        &add,
        &sub,
        &sqrt,
    );
    assert_eq!(res.unwrap_err(), SparseError::NonConvergence);
}

#[test]
fn canonicalize_normalizes_or_rejects_zero_sum() {
    let mut entries = vec![
        Entry { index: 0, value: b(1.0) },
        Entry { index: 3, value: b(3.0) },
    ];
    canonicalize(&mut entries, &add, &div).unwrap();
    assert_eq!(f64::from_bits(entries[0].value), 0.25);
    assert_eq!(f64::from_bits(entries[1].value), 0.75);

    let mut zero_sum = vec![
        Entry { index: 0, value: b(2.0) },
        Entry { index: 1, value: b(-2.0) },
    ];
    let before = zero_sum.clone();
    let res = canonicalize(&mut zero_sum, &add, &div);
    assert_eq!(res.unwrap_err(), SparseError::ZeroSumVector);
    assert_eq!(zero_sum, before);
}

#[test]
fn canonicalize_local_trust_substitutes_pretrust_for_zero_rows() {
    let mut local = CSRMatrix::new(3, 3, vec![(0, 0, b(2.0)), (0, 1, b(2.0))]);
    let pre = Vector::new(3, vec![Entry { index: 2, value: b(1.0) }]);
    canonicalize_local_trust(&mut local, Some(pre), &add, &div).unwrap();
    assert_eq!(
        f64::from_bits(local.cs_matrix.entries[0][0].value),
        0.5
    );
    // zero-sum rows 1 and 2 were replaced by the pretrust entries
    assert_eq!(local.cs_matrix.entries[1], vec![Entry { index: 2, value: b(1.0) }]);
    assert_eq!(local.cs_matrix.entries[2], vec![Entry { index: 2, value: b(1.0) }]);

    // an over-long pretrust is refused
    let mut local2 = CSRMatrix::new(1, 1, vec![]);
    let wide = Vector::new(
        4,
        vec![
            Entry { index: 0, value: b(1.0) },
            Entry { index: 1, value: b(1.0) },
        ],
    );
    assert_eq!(
        canonicalize_local_trust(&mut local2, Some(wide), &add, &div).unwrap_err(),
        SparseError::DimensionMismatch
    );
}

#[test]
fn convergence_checker_tracks_delta() {
    let t0 = Vector::new(2, vec![Entry { index: 0, value: b(1.0) }]);
    let mut checker = ConvergenceChecker::new(&t0, b(0.5), &mul);
    assert!(!checker.converged());
    let t1 = Vector::new(2, vec![Entry { index: 0, value: b(1.25) }]);
    checker.update(&t1, &mul, &add, &sub, &sqrt).unwrap();
    assert_eq!(f64::from_bits(checker.delta()), 0.25);
    assert!(checker.converged());

    let wrong_dim = Vector::new(5, vec![]);
    assert!(checker.update(&wrong_dim, &mul, &add, &sub, &sqrt).is_err());
}

#[test]
fn flat_tail_checker_counts_stable_rankings() {
    let mut checker = FlatTailChecker::new(2, 3);
    let t = Vector::new(
        3,
        vec![
            Entry { index: 0, value: b(0.2) },
            Entry { index: 1, value: b(0.5) },
            Entry { index: 2, value: b(0.3) },
        ],
    );
    checker.update(&t, b(1.0));
    assert!(!checker.reached());
    checker.update(&t, b(0.5));
    assert!(!checker.reached());
    checker.update(&t, b(0.25));
    assert!(checker.reached());

    // a changed ranking resets the run
    let shuffled = Vector::new(
        3,
        vec![
            Entry { index: 0, value: b(0.6) },
            Entry { index: 1, value: b(0.1) },
            Entry { index: 2, value: b(0.3) },
        ],
    );
    checker.update(&shuffled, b(0.125));
    assert!(!checker.reached());
}

#[test]
fn peers_map_round_trips_names() {
    let mut peers = PeersMap::new();
    assert_eq!(peers.get_max_value(), 0);
    let alice = peers.insert_or_get("alice".to_string());
    let bob = peers.insert_or_get("bob".to_string());
    assert_eq!((alice, bob), (0, 1));
    assert_eq!(peers.insert_or_get("alice".to_string()), 0);
    assert_eq!(peers.get_max_value(), 2);

    assert_eq!(parse_peer_id("bob", &peers).unwrap(), 1);
    assert_eq!(
        parse_peer_id("carol", &peers).unwrap_err(),
        SparseError::UnknownPeer
    );
}

#[test]
fn clock_stub_reads_zero() {
    assert_eq!(current_time_millis(), 0);
}

#[test]
fn strip_headers_drops_only_header_lines() {
    let with_header = "i,j,v\nalice,bob,11.5\n2,3,0.25";
    assert_eq!(strip_headers(with_header), "alice,bob,11.5\n2,3,0.25");

    let without_header = "0,1,2.5\n2,3,0.25";
    assert_eq!(strip_headers(without_header), without_header);

    // special values and exponent forms count as numbers
    assert_eq!(strip_headers("a,b,1e-7\nrest"), "a,b,1e-7\nrest");
    assert_eq!(strip_headers("a,b,inf\nrest"), "a,b,inf\nrest");
    assert_eq!(strip_headers("a,b,NaN\nrest"), "a,b,NaN\nrest");
    assert_eq!(strip_headers("a,b,+.5\nrest"), "a,b,+.5\nrest");
    assert_eq!(strip_headers("a,b,5.\nrest"), "a,b,5.\nrest");

    // malformed numbers mean a header
    assert_eq!(strip_headers("a,b,1e\nrest"), "rest");
    assert_eq!(strip_headers("a,b,1.2.3\nrest"), "rest");
    assert_eq!(strip_headers("from,to\nx,y"), "x,y");

    // a lone header line leaves nothing
    assert_eq!(strip_headers("i,j,v"), "");
    assert_eq!(strip_headers(""), "");
}

#[test]
fn strip_headers_handles_carriage_returns() {
    // the carriage return belongs to the line terminator, not the field
    assert_eq!(strip_headers("a,b,1.5\r\nrest"), "a,b,1.5\r\nrest");
    assert_eq!(strip_headers("i,j,v\r\nx,y,1"), "x,y,1");
    assert_eq!(strip_headers("i,j,v\r"), "");
}

#[test]
fn rank_sort_orders_descending_with_index_tie_break() {
    let mut entries = vec![
        Entry { index: 4, value: b(0.25) },
        Entry { index: 1, value: b(0.5) },
        Entry { index: 0, value: b(0.25) },
        Entry { index: 3, value: b(-1.0) },
    ];
    rank_sort(&mut entries);
    let order: Vec<usize> = entries.iter().map(|e| e.index).collect();
    assert_eq!(order, vec![1, 0, 4, 3]);
}

#[test]
fn longer_minimum_iterations_still_converge() {
    let c = CSRMatrix::new(2, 2, vec![(0, 1, b(1.0)), (1, 0, b(1.0))]);
    let p = uniform_pretrust(2);
    let t = compute(
        &c,
        &p,
        b(0.5),
        b(1e-9),
        None,
        Some(3),
        &mul,
        &add,
        &sub,
        &sqrt,
    )
    .unwrap();
    let total: f64 = t.entries.iter().map(|e| f64::from_bits(e.value)).sum();
    assert!((total - 1.0).abs() < 1e-9);
}
