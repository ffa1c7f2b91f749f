use dynagrad::ricci::{Entity, Expr, Index};

#[test]
fn test_expr() {
    assert!(Expr::try_parse_original(&"_ijk^lmn_ab").is_err());
    assert!(Expr::try_parse_original(&"AB_i^j").is_ok());
    assert!(Expr::try_parse_original(&"A").is_ok());
    assert!(Expr::try_parse_original(&"ABC").is_ok());
    assert!(Expr::try_parse_original(&"A_ij_k").is_ok());
    assert!(Expr::try_parse_original(&"A^ijk^gh").is_ok());
    assert!(Expr::try_parse_original(&"A^ij_lm").is_ok());
    assert!(Expr::try_parse_original(&"A^ij_lmB_ab_gh").is_ok());
    assert!(Expr::try_parse_original(&"A_ij^lm_Bi^j").is_err());
    assert!(Expr::try_parse_original(&"A_ij^lm_B_i^j").is_ok());

    assert!(Expr::try_from("A_ij^lm_B_i^j").is_ok());
    assert!(Expr::try_parse_original(&"^_ijk^lmn_ab").is_err());
    assert!(Expr::try_parse_original(&"^_A").is_err());

    println!("{:?}", Expr::try_from("A_ikj^jim").unwrap());
    println!("{:?}", Expr::try_from("A_ikj^j").unwrap());
}

#[test]
fn index_get_returns_the_letter() {
    assert_eq!(Index::SuperScript('i').get(), 'i');
    assert_eq!(Index::SubScript('k').get(), 'k');
}

#[test]
fn new_entity_is_bare() {
    let e = Entity::new('T');
    assert_eq!(e.c, 'T');
    assert!(e.indices.is_empty());
    assert!(e.indices_match_superscript.is_empty());
    assert!(e.indices_match_subscript.is_empty());
    assert!(e.indices_result.is_empty());
    assert!(e.contraction_pairs_loc.is_empty());
}

#[test]
fn parse_keeps_entities_and_indices_in_order() {
    let e = Expr::try_parse_original("A^ij_lmB_ab_gh").unwrap();
    assert!(e.result.is_empty());
    assert_eq!(e.original.len(), 2);
    assert_eq!(e.original[0].c, 'A');
    assert_eq!(
        e.original[0].indices,
        vec![
            Index::SuperScript('i'),
            Index::SuperScript('j'),
            Index::SubScript('l'),
            Index::SubScript('m')
        ]
    );
    assert_eq!(e.original[1].c, 'B');
    assert_eq!(
        e.original[1].indices,
        vec![
            Index::SubScript('a'),
            Index::SubScript('b'),
            Index::SubScript('g'),
            Index::SubScript('h')
        ]
    );
    assert!(e.original[0].indices_match_superscript.is_empty());
    assert!(e.original[0].contraction_pairs_loc.is_empty());
}

#[test]
fn parse_reports_the_first_fault() {
    assert_eq!(Expr::try_parse_original("^A").err(), Some("entity missing"));
    assert_eq!(Expr::try_parse_original("_A").err(), Some("entity missing"));
    assert_eq!(Expr::try_parse_original("i").err(), Some("entity missing"));
    assert_eq!(Expr::try_parse_original("Ai").err(), Some("index state missing"));
    assert_eq!(Expr::try_parse_original("A_iBj^").err(), Some("index state missing"));
    assert_eq!(Expr::try_parse_original("Ai^").err(), Some("index state missing"));
    assert_eq!(Expr::try_from("x_A").err(), Some("entity missing"));
}

#[test]
fn parse_passes_over_other_characters() {
    let e = Expr::try_parse_original("A 1^i+_2j").unwrap();
    assert_eq!(e.original.len(), 1);
    assert_eq!(e.original[0].indices, vec![Index::SuperScript('i'), Index::SubScript('j')]);
    let empty = Expr::try_parse_original("").unwrap();
    assert!(empty.original.is_empty());
    let scalars = Expr::try_parse_original("ABC").unwrap();
    assert_eq!(scalars.original.len(), 3);
    assert!(scalars.original[1].indices.is_empty());
}

#[test]
fn indices_are_located_by_kind() {
    let mut e = Entity::new('A');
    e.indices = vec![
        Index::SubScript('i'),
        Index::SuperScript('j'),
        Index::SubScript('j'),
        Index::SuperScript('j'),
    ];
    e.assign_index_loc();
    assert_eq!(e.indices_match_superscript, vec![('j', 1), ('j', 3)]);
    assert_eq!(e.indices_match_subscript, vec![('i', 0), ('j', 2)]);
    // a second call records the positions once more
    e.assign_index_loc();
    assert_eq!(e.indices_match_superscript, vec![('j', 1), ('j', 3), ('j', 1), ('j', 3)]);
}

#[test]
fn contraction_pairs_matching_letters_in_order() {
    let e = Expr::try_from("A_ikj^jim").unwrap();
    let a = &e.original[0];
    assert_eq!(a.indices_match_superscript, vec![('j', 3), ('i', 4), ('m', 5)]);
    assert_eq!(a.indices_match_subscript, vec![('i', 0), ('k', 1), ('j', 2)]);
    assert_eq!(a.contraction_pairs_loc, vec![(3, 2), (4, 0)]);
    assert_eq!(
        a.indices_result,
        vec![(Index::SubScript('k'), 1), (Index::SuperScript('m'), 5)]
    );

    let e = Expr::try_from("A_ikj^j").unwrap();
    let a = &e.original[0];
    assert_eq!(a.contraction_pairs_loc, vec![(3, 2)]);
    assert_eq!(a.indices_result, vec![(Index::SubScript('i'), 0), (Index::SubScript('k'), 1)]);
}

#[test]
fn a_repeated_letter_contracts_occurrence_by_occurrence() {
    let e = Expr::try_from("A^i^i^i_i_i").unwrap();
    let a = &e.original[0];
    assert_eq!(a.contraction_pairs_loc, vec![(0, 3), (1, 4)]);
    assert_eq!(a.indices_result, vec![(Index::SuperScript('i'), 2)]);
}

#[test]
fn without_located_indices_nothing_contracts() {
    let mut e = Entity::new('A');
    e.indices = vec![Index::SuperScript('i'), Index::SubScript('i')];
    e.contraction_pairs_loc = vec![(7, 8)];
    e.determine_contraction_single();
    assert!(e.contraction_pairs_loc.is_empty());
    assert_eq!(
        e.indices_result,
        vec![(Index::SuperScript('i'), 0), (Index::SubScript('i'), 1)]
    );
}

#[test]
fn ricci_reads_an_expression() {
    dynagrad::ricci::ricci("A^ij_kl^mB^k_ij");
    dynagrad::ricci::ricci("A");
}
