use eigentrust::entry::{CooEntry, Entry};
use eigentrust::matrix::{CSMatrix, CSRMatrix};
use eigentrust::util::{filter, nil_if_empty, KBNSummer};
use eigentrust::vector::{vec_dot, Vector};

fn b(x: f64) -> u64 {
    x.to_bits()
}

fn add(x: u64, y: u64) -> u64 {
    (f64::from_bits(x) + f64::from_bits(y)).to_bits()
}

fn sub(x: u64, y: u64) -> u64 {
    (f64::from_bits(x) - f64::from_bits(y)).to_bits()
}

fn mul(x: u64, y: u64) -> u64 {
    (f64::from_bits(x) * f64::from_bits(y)).to_bits()
}

fn sqrt(x: u64) -> u64 {
    f64::from_bits(x).sqrt().to_bits()
}

#[test]
fn test_nil_if_empty() {
    let not_empty_slice = vec![3, 4];
    let empty_slice: Vec<i32> = vec![];
    let nil_slice: Vec<i32> = vec![];

    assert_eq!(nil_if_empty(not_empty_slice.clone()), Some(not_empty_slice));
    assert_eq!(nil_if_empty(empty_slice.clone()), None);
    assert_eq!(nil_if_empty(nil_slice.clone()), None);
}

#[test]
fn test_filter() {
    let slice = vec![3, 1, -4, -1, 5, 9, -2, -6, 5, 3, -5, -8, 9, 7];

    let positive = |&x: &i32| x > 0;
    let negative = |&x: &i32| x < 0;
    let zero = |&x: &i32| x == 0;

    assert_eq!(
        filter(slice.clone(), positive),
        vec![3, 1, 5, 9, 5, 3, 9, 7]
    );
    assert_eq!(
        filter(slice.clone(), negative),
        vec![-4, -1, -2, -6, -5, -8]
    );
    assert_eq!(filter(slice.clone(), zero), vec![] as Vec<i32>);
}

#[test]
fn test_csr_entries_sort_len() {
    let tests = vec![
        (
            "Normal",
            vec![
                CooEntry::new(3, 1, b(7.0)),
                CooEntry::new(1, 0, b(4.0)),
                CooEntry::new(2, 8, b(0.0)),
                CooEntry::new(5, 0, b(0.0)),
            ],
            4,
        ),
        ("Empty", vec![], 0),
    ];

    for (name, entries, expected_len) in tests {
        let len = entries.len();
        assert_eq!(len, expected_len, "{}: len = {}, want {}", name, len, expected_len);
    }
}

#[test]
fn test_csr_entries_sort_swap() {
    let mut entries = vec![
        CooEntry::new(3, 1, b(7.0)),
        CooEntry::new(1, 0, b(4.0)),
        CooEntry::new(2, 8, b(0.0)),
        CooEntry::new(5, 0, b(0.0)),
    ];

    entries.swap(1, 2);

    let expected = vec![
        CooEntry::new(3, 1, b(7.0)),
        CooEntry::new(2, 8, b(0.0)),
        CooEntry::new(1, 0, b(4.0)),
        CooEntry::new(5, 0, b(0.0)),
    ];

    assert_eq!(entries, expected);
}

#[test]
fn test_csr_entries_sort_less() {
    let tests = vec![
        ("xr<yr,xc<yc", CooEntry::new(0, 0, b(0.0)), CooEntry::new(1, 1, b(0.0)), true),
        ("xr<yr,xc=yc", CooEntry::new(0, 1, b(0.0)), CooEntry::new(1, 1, b(0.0)), true),
        ("xr<yr,xc>yc", CooEntry::new(0, 2, b(0.0)), CooEntry::new(1, 1, b(0.0)), true),
        ("xr=yr,xc<yc", CooEntry::new(1, 0, b(0.0)), CooEntry::new(1, 1, b(0.0)), true),
        ("xr=yr,xc=yc", CooEntry::new(1, 1, b(0.0)), CooEntry::new(1, 1, b(0.0)), false),
        ("xr=yr,xc>yc", CooEntry::new(1, 2, b(0.0)), CooEntry::new(1, 1, b(0.0)), false),
        ("xr>yr,xc<yc", CooEntry::new(2, 0, b(0.0)), CooEntry::new(1, 1, b(0.0)), false),
        ("xr>yr,xc=yc", CooEntry::new(2, 1, b(0.0)), CooEntry::new(1, 1, b(0.0)), false),
        ("xr>yr,xc>yc", CooEntry::new(2, 2, b(0.0)), CooEntry::new(1, 1, b(0.0)), false),
    ];

    for (name, x, y, expected) in tests {
        let entries = vec![x.clone(), y.clone()];
        let result = entries[0].row < entries[1].row
            || (entries[0].row == entries[1].row && entries[0].column < entries[1].column);
        assert_eq!(result, expected, "{}: got = {}, want {}", name, result, expected);
    }
}

#[test]
fn test_csc_entries_sort_len() {
    let tests = vec![
        (
            "Normal",
            vec![
                CooEntry::new(3, 1, b(7.0)),
                CooEntry::new(1, 0, b(4.0)),
                CooEntry::new(2, 8, b(0.0)),
                CooEntry::new(5, 0, b(0.0)),
            ],
            4,
        ),
        ("Empty", vec![], 0),
    ];

    for (name, entries, expected_len) in tests {
        let len = entries.len();
        assert_eq!(len, expected_len, "{}: len = {}, want {}", name, len, expected_len);
    }
}

#[test]
fn test_csc_entries_sort_swap() {
    let mut entries = vec![
        CooEntry::new(3, 1, b(7.0)),
        CooEntry::new(1, 0, b(4.0)),
        CooEntry::new(2, 8, b(0.0)),
        CooEntry::new(5, 0, b(0.0)),
    ];

    entries.swap(1, 2);

    let expected = vec![
        CooEntry::new(3, 1, b(7.0)),
        CooEntry::new(2, 8, b(0.0)),
        CooEntry::new(1, 0, b(4.0)),
        CooEntry::new(5, 0, b(0.0)),
    ];

    assert_eq!(entries, expected);
}

#[test]
fn test_csc_entries_sort_less() {
    let tests = vec![
        ("xr<yr,xc<yc", CooEntry::new(0, 0, b(0.0)), CooEntry::new(1, 1, b(0.0)), true),
        ("xr=yr,xc<yc", CooEntry::new(1, 0, b(0.0)), CooEntry::new(1, 1, b(0.0)), true),
        ("xr>yr,xc<yc", CooEntry::new(2, 0, b(0.0)), CooEntry::new(1, 1, b(0.0)), true),
        ("xr<yr,xc=yc", CooEntry::new(0, 1, b(0.0)), CooEntry::new(1, 1, b(0.0)), true),
        ("xr=yr,xc=yc", CooEntry::new(1, 1, b(0.0)), CooEntry::new(1, 1, b(0.0)), false),
        ("xr>yr,xc=yc", CooEntry::new(2, 1, b(0.0)), CooEntry::new(1, 1, b(0.0)), false),
        ("xr<yr,xc>yc", CooEntry::new(0, 2, b(0.0)), CooEntry::new(1, 1, b(0.0)), false),
        ("xr=yr,xc>yc", CooEntry::new(1, 2, b(0.0)), CooEntry::new(1, 1, b(0.0)), false),
        ("xr>yr,xc>yc", CooEntry::new(2, 2, b(0.0)), CooEntry::new(1, 1, b(0.0)), false),
    ];

    for (name, x, y, expected) in tests {
        let entries = vec![x.clone(), y.clone()];
        let result = entries[0].column < entries[1].column
            || (entries[0].column == entries[1].column && entries[0].row < entries[1].row);
        assert_eq!(result, expected, "{}: got = {}, want {}", name, result, expected);
    }
}

#[test]
fn test_cs_matrix_transpose() {
    let original = CSMatrix {
        major_dim: 5,
        minor_dim: 4,
        entries: vec![
            vec![
                Entry { index: 0, value: b(100.0) },
                Entry { index: 1, value: b(200.0) },
                Entry { index: 2, value: b(300.0) },
            ],
            vec![
                Entry { index: 1, value: b(400.0) },
                Entry { index: 3, value: b(500.0) },
            ],
            vec![],
            vec![
                Entry { index: 0, value: b(600.0) },
                Entry { index: 1, value: b(700.0) },
                Entry { index: 2, value: b(800.0) },
                Entry { index: 3, value: b(900.0) },
            ],
            vec![Entry { index: 2, value: b(1000.0) }],
        ],
    };

    let transposed = CSMatrix {
        major_dim: 4,
        minor_dim: 5,
        entries: vec![
            vec![
                Entry { index: 0, value: b(100.0) },
                Entry { index: 3, value: b(600.0) },
            ],
            vec![
                Entry { index: 0, value: b(200.0) },
                Entry { index: 1, value: b(400.0) },
                Entry { index: 3, value: b(700.0) },
            ],
            vec![
                Entry { index: 0, value: b(300.0) },
                Entry { index: 3, value: b(800.0) },
                Entry { index: 4, value: b(1000.0) },
            ],
            vec![
                Entry { index: 1, value: b(500.0) },
                Entry { index: 3, value: b(900.0) },
            ],
        ],
    };

    let result = original.transpose().unwrap();
    assert_eq!(result, transposed);

    let double_transpose = result.transpose().unwrap();
    assert_eq!(double_transpose, original);
}

#[test]
fn test_cs_matrix_merge() {
    let mut m = CSMatrix {
        major_dim: 3,
        minor_dim: 3,
        entries: vec![
            vec![],
            vec![Entry { index: 2, value: b(5.0) }],
            vec![
                Entry { index: 1, value: b(5.0) },
                Entry { index: 2, value: b(5.0) },
            ],
        ],
    };

    let mut m2 = CSMatrix {
        major_dim: 4,
        minor_dim: 4,
        entries: vec![
            vec![
                Entry { index: 0, value: b(8.0) },
                Entry { index: 2, value: b(8.0) },
            ],
            vec![Entry { index: 0, value: b(8.0) }],
            vec![
                Entry { index: 1, value: b(8.0) },
                Entry { index: 3, value: b(8.0) },
            ],
            vec![
                Entry { index: 1, value: b(8.0) },
                Entry { index: 2, value: b(8.0) },
            ],
        ],
    };

    let merged = CSMatrix {
        major_dim: 4,
        minor_dim: 4,
        entries: vec![
            vec![
                Entry { index: 0, value: b(8.0) },
                Entry { index: 2, value: b(8.0) },
            ],
            vec![
                Entry { index: 0, value: b(8.0) },
                Entry { index: 2, value: b(5.0) },
            ],
            vec![
                Entry { index: 1, value: b(8.0) },
                Entry { index: 2, value: b(5.0) },
                Entry { index: 3, value: b(8.0) },
            ],
            vec![
                Entry { index: 1, value: b(8.0) },
                Entry { index: 2, value: b(8.0) },
            ],
        ],
    };

    m.merge(&mut m2);
    assert_eq!(m, merged);
}

#[test]
fn test_new_csr_matrix() {
    let entries = vec![
        (0, 0, b(100.0)),
        (3, 0, b(600.0)),
        (3, 1, b(700.0)),
        (1, 1, b(400.0)),
        (0, 1, b(200.0)),
        (2, 1, b(0.0)), // zero value should be dropped
        (1, 3, b(500.0)),
        (3, 3, b(900.0)),
        (4, 2, b(1000.0)),
        (0, 2, b(300.0)),
        (3, 2, b(800.0)),
    ];

    let expected = CSRMatrix {
        cs_matrix: CSMatrix {
            major_dim: 5,
            minor_dim: 4,
            entries: vec![
                vec![
                    Entry { index: 0, value: b(100.0) },
                    Entry { index: 1, value: b(200.0) },
                    Entry { index: 2, value: b(300.0) },
                ],
                vec![
                    Entry { index: 1, value: b(400.0) },
                    Entry { index: 3, value: b(500.0) },
                ],
                vec![],
                vec![
                    Entry { index: 0, value: b(600.0) },
                    Entry { index: 1, value: b(700.0) },
                    Entry { index: 2, value: b(800.0) },
                    Entry { index: 3, value: b(900.0) },
                ],
                vec![Entry { index: 2, value: b(1000.0) }],
            ],
        },
    };

    let result = CSRMatrix::new(5, 4, entries);
    assert_eq!(result, expected);
}

#[test]
fn scale_by_zero_empties_the_vector() {
    let v = Vector::new(
        9,
        vec![
            Entry { index: 1, value: b(2.5) },
            Entry { index: 4, value: b(-3.0) },
            Entry { index: 7, value: b(1e300) },
        ],
    );
    let mut out = Vector::new(0, vec![]);
    out.scale_vec(b(0.0), &v, &mul).unwrap();
    assert_eq!(out.nnz(), 0);
    assert_eq!(out.dim, 9);
}

#[test]
fn scale_by_nan_fails_and_mutates_nothing() {
    let v = Vector::new(3, vec![Entry { index: 0, value: b(1.0) }]);
    let mut out = Vector::new(2, vec![Entry { index: 1, value: b(4.0) }]);
    let before = out.clone();
    let res = out.scale_vec(f64::NAN.to_bits(), &v, &mul);
    assert!(res.is_err());
    assert_eq!(out, before);
}

#[test]
fn add_vec_merges_pointwise_and_drops_cancellations() {
    let a = Vector::new(
        6,
        vec![
            Entry { index: 0, value: b(1.0) },
            Entry { index: 2, value: b(2.0) },
            Entry { index: 5, value: b(-4.0) },
        ],
    );
    let c = Vector::new(
        6,
        vec![
            Entry { index: 2, value: b(3.0) },
            Entry { index: 3, value: b(7.0) },
            Entry { index: 5, value: b(4.0) },
        ],
    );
    let mut out = Vector::new(0, vec![]);
    out.add_vec(&a, &c, &add).unwrap();
    // index 5 cancels exactly and is dropped
    let expected = Vector::new(
        6,
        vec![
            Entry { index: 0, value: b(1.0) },
            Entry { index: 2, value: b(5.0) },
            Entry { index: 3, value: b(7.0) },
        ],
    );
    assert_eq!(out, expected);

    let mut mismatched = Vector::new(0, vec![]);
    let short = Vector::new(5, vec![]);
    assert!(mismatched.add_vec(&a, &short, &add).is_err());
}

#[test]
fn sub_vec_passes_left_and_negates_right() {
    let a = Vector::new(4, vec![Entry { index: 0, value: b(2.0) }]);
    let c = Vector::new(4, vec![Entry { index: 3, value: b(5.0) }]);
    let mut out = Vector::new(0, vec![]);
    out.sub_vec(&a, &c, &sub).unwrap();
    let expected = Vector::new(
        4,
        vec![
            Entry { index: 0, value: b(2.0) },
            Entry { index: 3, value: b(-5.0) },
        ],
    );
    assert_eq!(out, expected);
}

#[test]
fn dot_product_is_symmetric() {
    let a = Vector::new(
        5,
        vec![
            Entry { index: 0, value: b(1.5) },
            Entry { index: 2, value: b(-2.25) },
            Entry { index: 4, value: b(1e-200) },
        ],
    );
    let c = Vector::new(
        5,
        vec![
            Entry { index: 2, value: b(4.0) },
            Entry { index: 3, value: b(9.0) },
            Entry { index: 4, value: b(1e200) },
        ],
    );
    let ab = vec_dot(&a, &c, &mul, &add, &sub);
    let ba = vec_dot(&c, &a, &mul, &add, &sub);
    assert_eq!(ab, ba);
    assert_eq!(f64::from_bits(ab), -2.25 * 4.0 + 1e-200 * 1e200);
}

#[test]
fn norm2_is_nonnegative_and_zero_iff_empty() {
    let v = Vector::new(
        3,
        vec![
            Entry { index: 0, value: b(3.0) },
            Entry { index: 1, value: b(-4.0) },
        ],
    );
    let n = f64::from_bits(v.norm2(&mul, &add, &sub, &sqrt));
    assert_eq!(n, 5.0);
    assert!(n >= 0.0);

    let empty = Vector::new(3, vec![]);
    assert_eq!(f64::from_bits(empty.norm2(&mul, &add, &sub, &sqrt)), 0.0);

    let negative = Vector::new(1, vec![Entry { index: 0, value: b(-1e-8) }]);
    let nn = f64::from_bits(negative.norm2(&mul, &add, &sub, &sqrt));
    assert!(nn > 0.0);
}

#[test]
fn kbn_summation_keeps_cancelled_small_terms() {
    let mut summer = KBNSummer::new();
    summer.add(b(1e100), &add, &sub);
    summer.add(b(1.0), &add, &sub);
    summer.add(b(-1e100), &add, &sub);
    assert_eq!(f64::from_bits(summer.sum(&add)), 1.0);
}

#[test]
fn set_dim_truncates_out_of_range_entries() {
    let mut v = Vector::new(
        10,
        vec![
            Entry { index: 1, value: b(1.0) },
            Entry { index: 6, value: b(2.0) },
        ],
    );
    v.set_dim(4);
    assert_eq!(v.dim, 4);
    assert_eq!(v.entries, vec![Entry { index: 1, value: b(1.0) }]);
    v.set_dim(12);
    assert_eq!(v.dim, 12);
    assert_eq!(v.entries.len(), 1);
}

#[test]
fn mul_vec_rejects_non_square_and_mismatched() {
    let m = CSRMatrix::new(2, 3, vec![]);
    let v = Vector::new(3, vec![]);
    let mut out = Vector::new(0, vec![]);
    assert!(out.mul_vec(&m, &v, &mul, &add, &sub).is_err());

    let square = CSRMatrix::new(3, 3, vec![(0, 1, b(2.0))]);
    let short = Vector::new(2, vec![]);
    assert!(out.mul_vec(&square, &short, &mul, &add, &sub).is_err());

    let good = Vector::new(3, vec![Entry { index: 1, value: b(4.0) }]);
    out.mul_vec(&square, &good, &mul, &add, &sub).unwrap();
    assert_eq!(out, Vector::new(3, vec![Entry { index: 0, value: b(8.0) }]));
}

#[test]
fn coo_sorters_order_row_and_column_major() {
    let entries = vec![
        CooEntry::new(3, 1, b(7.0)),
        CooEntry::new(1, 0, b(4.0)),
        CooEntry::new(1, 2, b(2.0)),
        CooEntry::new(0, 5, b(9.0)),
    ];

    let row_major = eigentrust::entry::CSREntriesSort::new(entries.clone()).entries();
    assert_eq!(
        row_major,
        vec![
            CooEntry::new(0, 5, b(9.0)),
            CooEntry::new(1, 0, b(4.0)),
            CooEntry::new(1, 2, b(2.0)),
            CooEntry::new(3, 1, b(7.0)),
        ]
    );

    let col_major = eigentrust::entry::CSCEntriesSort::new(entries).entries();
    assert_eq!(
        col_major,
        vec![
            CooEntry::new(1, 0, b(4.0)),
            CooEntry::new(3, 1, b(7.0)),
            CooEntry::new(1, 2, b(2.0)),
            CooEntry::new(0, 5, b(9.0)),
        ]
    );
}

#[test]
fn value_sort_orders_negatives_first() {
    let mut entries = vec![
        Entry { index: 0, value: b(2.0) },
        Entry { index: 1, value: b(-7.5) },
        Entry { index: 2, value: b(0.0) },
        Entry { index: 3, value: b(-0.0) },
    ];
    eigentrust::entry::sort_entries_by_value(&mut entries);
    let values: Vec<f64> = entries.iter().map(|e| f64::from_bits(e.value)).collect();
    assert_eq!(values, vec![-7.5, 0.0, -0.0, 2.0]);
}
