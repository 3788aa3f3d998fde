use learn_arta::{BasisDecomposer, DecompositionError, RowVec};

fn row_from_bits(bits: &str) -> RowVec {
    let mut row = RowVec::new(bits.len());
    for (idx, c) in bits.chars().enumerate() {
        if c == '1' {
            row.set(idx, true).unwrap();
        }
    }
    row
}

#[test]
fn decomposition_rows_match_handcrafted_example() {
    let basis_row0 = row_from_bits("110");
    let basis_row1 = row_from_bits("011");
    let mut decomp = BasisDecomposer::new(vec![basis_row0.clone(), basis_row1.clone()]).unwrap();

    assert_eq!(decomp.try_column_meet_row(0).unwrap(), &basis_row0);
    assert_eq!(decomp.try_column_meet_row(2).unwrap(), &basis_row1);
    assert_eq!(decomp.try_column_meet_row(1).unwrap(), &row_from_bits("010"));

    let closure = decomp.closure_row(&row_from_bits("101")).unwrap();
    assert_eq!(closure, row_from_bits("111"));
    assert!(decomp.representable(&row_from_bits("010")).unwrap());
}

#[test]
fn formula_generation_matches_handcrafted_example() {
    let basis_row0 = row_from_bits("110");
    let basis_row1 = row_from_bits("011");
    let mut decomp = BasisDecomposer::new(vec![basis_row0, basis_row1]).unwrap();

    assert_eq!(decomp.try_column_meet_formula(1).unwrap().to_string(), "(v0 & v1)");
    assert_eq!(
        decomp.decompose_formula(&row_from_bits("010")).unwrap(),
        decomp.try_column_meet_formula(1).unwrap()
    );
}

#[test]
fn two_row_basis_representability_matches_manual_example() {
    let mut decomp = BasisDecomposer::new(vec![row_from_bits("10"), row_from_bits("11")]).unwrap();

    assert!(decomp.representable(&row_from_bits("10")).unwrap());
    assert!(decomp.representable(&row_from_bits("11")).unwrap());
    assert!(decomp.representable(&row_from_bits("00")).unwrap());
    assert!(!decomp.representable(&row_from_bits("01")).unwrap());
}

#[test]
fn three_row_basis_representability_matches_manual_example() {
    let mut decomp =
        BasisDecomposer::new(vec![row_from_bits("101"), row_from_bits("010"), row_from_bits("011")]).unwrap();

    for bits in ["111", "101", "011", "001", "010", "000"] {
        assert!(decomp.representable(&row_from_bits(bits)).unwrap(), "{bits}");
    }

    for bits in ["100", "110"] {
        assert!(!decomp.representable(&row_from_bits(bits)).unwrap(), "{bits}");
    }
}

#[test]
fn constructor_rejects_empty_basis() {
    assert!(matches!(BasisDecomposer::new(Vec::new()), Err(DecompositionError::EmptyBasis)));
}

#[test]
fn constructor_rejects_mixed_lengths() {
    let err = BasisDecomposer::new(vec![RowVec::new(3), RowVec::new(2)]).unwrap_err();
    assert_eq!(err, DecompositionError::LengthMismatch { expected: 3, found: 2 });
}

#[test]
fn safe_accessors_return_out_of_bounds_error() {
    let decomp = BasisDecomposer::new(vec![row_from_bits("110"), row_from_bits("011")]).unwrap();
    assert_eq!(
        decomp.try_column_meet_row(3),
        Err(DecompositionError::IndexOutOfBounds { index: 3, len: 3 })
    );
    assert_eq!(
        decomp.try_column_meet_formula(3),
        Err(DecompositionError::IndexOutOfBounds { index: 3, len: 3 })
    );
}

#[test]
fn closure_is_extensive_and_idempotent_on_an_example() {
    let mut decomp =
        BasisDecomposer::new(vec![row_from_bits("1010"), row_from_bits("0110"), row_from_bits("0011")]).unwrap();
    for bits in ["1000", "0100", "0001", "1001", "0000"] {
        let r = row_from_bits(bits);
        let closure = decomp.closure_row(&r).unwrap();
        assert_eq!(r.is_subset_of(&closure), Ok(true));
        assert_eq!(decomp.closure_row(&closure).unwrap(), closure);
        assert_eq!(decomp.closure_row(&r).unwrap(), closure);
    }
    assert_eq!(decomp.closure_row(&row_from_bits("1000")).unwrap(), row_from_bits("1010"));
    assert_eq!(
        decomp.closure_row(&row_from_bits("10")),
        Err(DecompositionError::LengthMismatch { expected: 4, found: 2 })
    );
}

#[test]
fn decomposition_formula_shape_and_errors() {
    let mut decomp = BasisDecomposer::new(vec![row_from_bits("110"), row_from_bits("011")]).unwrap();
    assert_eq!(decomp.decompose_formula(&row_from_bits("101")).unwrap().to_string(), "((v0) | (v1))");
    assert_eq!(decomp.decompose_formula(&row_from_bits("000")).unwrap().to_string(), "⊥");
    assert_eq!(
        decomp.decompose_formula(&row_from_bits("1")),
        Err(DecompositionError::LengthMismatch { expected: 3, found: 1 })
    );
    let mut no_rows_at_column = BasisDecomposer::new(vec![row_from_bits("10")]).unwrap();
    assert_eq!(no_rows_at_column.try_column_meet_row(1).unwrap(), &row_from_bits("11"));
    assert_eq!(no_rows_at_column.decompose_formula(&row_from_bits("01")).unwrap().to_string(), "⊤");
}
