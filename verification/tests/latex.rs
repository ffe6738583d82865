use mdbook_linkcheck::latex::{
    apply_pattern, filter_out_latex, record_matches, Breakpoint, ByteIndexMap, FilterError,
    RewriteError,
};

#[test]
fn empty_map_resolves_to_the_same_position() {
    let map = ByteIndexMap::new();
    assert_eq!(map.resolve(0), 0);
    assert_eq!(map.resolve(17), 17);
    assert_eq!(map.checked_resolve(u32::MAX), Some(u32::MAX));
    assert!(map.consistency_check());
}

#[test]
fn one_rewrite_shifts_what_follows() {
    // "ab$$x$$cd": the bytes 2..7 become a token of 31 bytes.
    let mut map = ByteIndexMap::new();
    assert_eq!(map.update(2, 7, 31), Ok(()));
    assert_eq!(
        map.breakpoints(),
        vec![Breakpoint { pos_b: 33, pos_a: 7, start_a: 2 }]
    );
    assert_eq!(map.resolve(0), 0);
    assert_eq!(map.resolve(1), 1);
    assert_eq!(map.resolve(33), 7);
    assert_eq!(map.resolve(34), 8);
}

#[test]
fn rewrite_in_front_moves_later_breakpoints() {
    let mut map = ByteIndexMap::new();
    assert_eq!(map.update(10, 12, 20), Ok(()));
    assert_eq!(map.update(0, 8, 1), Ok(()));
    assert_eq!(
        map.breakpoints(),
        vec![
            Breakpoint { pos_b: 1, pos_a: 8, start_a: 0 },
            Breakpoint { pos_b: 23, pos_a: 12, start_a: 10 },
        ]
    );
    assert_eq!(map.resolve(1), 8);
    assert_eq!(map.resolve(2), 9);
    assert_eq!(map.resolve(23), 12);
    assert!(map.consistency_check());
}

#[test]
fn overlapping_rewrite_is_refused() {
    let mut map = ByteIndexMap::new();
    assert_eq!(map.update(5, 10, 3), Ok(()));
    assert_eq!(map.update(3, 6, 3), Err(RewriteError::Overlap));
    assert_eq!(map.update(0, 5, 3), Ok(()));
    assert_eq!(map.breakpoints().len(), 2);
}

#[test]
fn an_empty_region_is_recorded() {
    // Three bytes are put in at the position 5.
    let mut map = ByteIndexMap::new();
    assert_eq!(map.update(5, 5, 3), Ok(()));
    assert_eq!(map.breakpoints(), vec![Breakpoint { pos_b: 8, pos_a: 5, start_a: 5 }]);
    assert_eq!(map.resolve(4), 4);
    assert_eq!(map.resolve(7), 7);
    assert_eq!(map.resolve(8), 5);
    assert_eq!(map.resolve(9), 6);
    assert!(map.consistency_check());
}

#[test]
fn an_empty_replacement_is_recorded() {
    // The bytes 4..6 are cut out.
    let mut map = ByteIndexMap::new();
    assert_eq!(map.update(4, 6, 0), Ok(()));
    assert_eq!(map.breakpoints(), vec![Breakpoint { pos_b: 4, pos_a: 6, start_a: 4 }]);
    assert_eq!(map.resolve(3), 3);
    assert_eq!(map.resolve(4), 6);
    assert_eq!(map.resolve(5), 7);
    assert!(map.consistency_check());
}

#[test]
fn a_reversed_region_is_refused() {
    let mut map = ByteIndexMap::new();
    assert_eq!(map.update(5, 4, 3), Err(RewriteError::Reversed));
    assert!(map.breakpoints().is_empty());
}

#[test]
fn a_breakpoint_that_would_not_increase_is_refused() {
    let mut map = ByteIndexMap::new();
    assert_eq!(map.update(5, 5, 3), Ok(()));
    // A second one at the same place would end where the first one does.
    assert_eq!(map.update(5, 5, 2), Err(RewriteError::NotIncreasing));
    // One byte on, a rewrite of nothing into nothing still has a place.
    assert_eq!(map.update(6, 6, 0), Ok(()));
    assert_eq!(map.update(6, 8, 0), Err(RewriteError::NotIncreasing));
    assert_eq!(
        map.breakpoints(),
        vec![
            Breakpoint { pos_b: 8, pos_a: 5, start_a: 5 },
            Breakpoint { pos_b: 9, pos_a: 6, start_a: 6 },
        ]
    );
    // In front of an empty replacement that leaves the position as it is.
    let mut map = ByteIndexMap::new();
    assert_eq!(map.update(4, 6, 0), Ok(()));
    assert_eq!(map.update(4, 4, 0), Err(RewriteError::NotIncreasing));
    assert_eq!(map.breakpoints().len(), 1);
}

#[test]
fn an_empty_region_within_a_rewritten_one_is_recorded() {
    let mut map = ByteIndexMap::new();
    assert_eq!(map.update(0, 10, 20), Ok(()));
    assert_eq!(map.update(3, 3, 2), Ok(()));
    assert_eq!(
        map.breakpoints(),
        vec![
            Breakpoint { pos_b: 5, pos_a: 3, start_a: 3 },
            Breakpoint { pos_b: 22, pos_a: 10, start_a: 0 },
        ]
    );
    assert_eq!(map.update(2, 4, 1), Err(RewriteError::Overlap));
    assert!(map.consistency_check());
}

#[test]
fn too_long_a_text_is_refused() {
    let mut map = ByteIndexMap::new();
    assert_eq!(map.update(u32::MAX - 1, u32::MAX, 5), Err(RewriteError::PositionOverflow));
    assert_eq!(map.update(0, 100, 1), Ok(()));
    assert_eq!(map.checked_resolve(u32::MAX), None);
}

#[test]
fn text_without_latex_is_left_alone() {
    let src = "Some [link](./foo.md) and nothing else.";
    let (text, map) = filter_out_latex(src).unwrap();
    assert_eq!(text, src);
    assert!(map.breakpoints().is_empty());
}

#[test]
fn display_math_is_replaced() {
    let src = "ab$$x$$cd [l](u)";
    let (text, map) = filter_out_latex(src).unwrap();
    assert_eq!(text, "abLATEX_DOUBLE_DOLLAR_SUBSTITUTEDcd [l](u)");
    assert_eq!(map.breakpoints(), vec![Breakpoint { pos_b: 33, pos_a: 7, start_a: 2 }]);
    // The link starts at byte 36 of the new text and at byte 10 of the old.
    assert_eq!(map.resolve(36), 10);
    assert_eq!(&src[10..], "[l](u)");
}

#[test]
fn every_kind_of_math_is_replaced() {
    let src = "$$a$$ $b$ \\(c\\) \\[d\\] [l](u)";
    let (text, map) = filter_out_latex(src).unwrap();
    assert_eq!(
        text,
        "LATEX_DOUBLE_DOLLAR_SUBSTITUTED LATEX_SINGLE_DOLLAR_SUBSTITUTED \
         LATEX_ESCAPED_PARENTHESIS_SUBSTITUTED LATEX_ESCAPED_SQUARE_BRACKET_SUBSTITUTED [l](u)"
    );
    assert_eq!(map.breakpoints().len(), 4);
    let at = text.find("[l]").unwrap() as u32;
    assert_eq!(map.resolve(at) as usize, src.find("[l]").unwrap());
}

#[test]
fn math_around_a_token_is_an_overlap() {
    // The second pattern matches from the `$` to the `$`, across the token of
    // the first: the region it stands for holds one that was rewritten.
    let src = "\\(a $$x$$ b\\)";
    assert_eq!(
        filter_out_latex(src).map(|_| ()),
        Err(FilterError::Rewrite(RewriteError::Overlap))
    );
}

#[test]
fn a_bad_pattern_is_reported() {
    let got = apply_pattern("text".to_string(), ByteIndexMap::new(), "(", "TOKEN");
    assert_eq!(got.map(|_| ()), Err(FilterError::InvalidPattern));
    let (text, map) =
        apply_pattern("a-b-c".to_string(), ByteIndexMap::new(), "-", "<dash>").unwrap();
    assert_eq!(text, "a<dash>b<dash>c");
    assert_eq!(
        map.breakpoints(),
        vec![
            Breakpoint { pos_b: 7, pos_a: 2, start_a: 1 },
            Breakpoint { pos_b: 14, pos_a: 4, start_a: 3 },
        ]
    );
    assert_eq!(map.resolve(7), 2);
    assert_eq!(map.resolve(14), 4);
}

#[test]
fn an_empty_match_is_a_rewrite() {
    let (text, map) = apply_pattern("abc".to_string(), ByteIndexMap::new(), "x*", "TOKEN").unwrap();
    assert_eq!(text, "TOKENaTOKENbTOKENcTOKEN");
    assert_eq!(
        map.breakpoints(),
        vec![
            Breakpoint { pos_b: 5, pos_a: 0, start_a: 0 },
            Breakpoint { pos_b: 11, pos_a: 1, start_a: 1 },
            Breakpoint { pos_b: 17, pos_a: 2, start_a: 2 },
            Breakpoint { pos_b: 23, pos_a: 3, start_a: 3 },
        ]
    );
    assert_eq!(map.resolve(5), 0);
    assert_eq!(map.resolve(11), 1);
    assert_eq!(map.resolve(17), 2);
    assert_eq!(map.resolve(23), 3);
}

#[test]
fn matches_are_recorded_where_they_came_from() {
    // "0123456789" with the bytes 2..4 rewritten into five bytes: "01TOKEN456789".
    let mut map = ByteIndexMap::new();
    assert_eq!(map.update(2, 4, 5), Ok(()));
    // Matches at the bytes 0..1 and 9..11 of the new text are the bytes 0..1 and 6..8.
    let map = record_matches(map, &vec![(0, 1), (9, 11)], 3).unwrap();
    assert_eq!(
        map.breakpoints(),
        vec![
            Breakpoint { pos_b: 3, pos_a: 1, start_a: 0 },
            Breakpoint { pos_b: 9, pos_a: 4, start_a: 2 },
            Breakpoint { pos_b: 14, pos_a: 8, start_a: 6 },
        ]
    );
    assert_eq!(map.resolve(14), 8);
    assert_eq!(map.resolve(15), 9);
}

#[test]
fn a_match_across_a_token_is_refused() {
    let mut map = ByteIndexMap::new();
    assert_eq!(map.update(2, 4, 5), Ok(()));
    let got = record_matches(map, &vec![(1, 8)], 3);
    assert_eq!(got.map(|_| ()), Err(RewriteError::Overlap));
    let got = record_matches(ByteIndexMap::new(), &vec![(1, 2), (3, 2)], 3);
    assert_eq!(got.map(|_| ()), Err(RewriteError::Reversed));
    let got = record_matches(ByteIndexMap::new(), &vec![], 0).unwrap();
    assert!(got.breakpoints().is_empty());
}

#[test]
fn empty_matches_and_empty_tokens_are_recorded() {
    let got = record_matches(ByteIndexMap::new(), &vec![(1, 2), (5, 5)], 3).unwrap();
    assert_eq!(
        got.breakpoints(),
        vec![
            Breakpoint { pos_b: 4, pos_a: 2, start_a: 1 },
            Breakpoint { pos_b: 10, pos_a: 5, start_a: 5 },
        ]
    );
    let got = record_matches(ByteIndexMap::new(), &vec![(1, 2)], 0).unwrap();
    assert_eq!(got.breakpoints(), vec![Breakpoint { pos_b: 1, pos_a: 2, start_a: 1 }]);
    assert_eq!(got.resolve(1), 2);
}

#[test]
fn what_is_left_of_the_text_is_found_where_it_was() {
    let src = "ab $$x+y$$ cd $z$ ef \\(q\\) gh";
    let (text, map) = filter_out_latex(src).unwrap();
    assert_eq!(
        text,
        "ab LATEX_DOUBLE_DOLLAR_SUBSTITUTED cd LATEX_SINGLE_DOLLAR_SUBSTITUTED ef \
         LATEX_ESCAPED_PARENTHESIS_SUBSTITUTED gh"
    );
    let (text, src) = (text.as_bytes(), src.as_bytes());
    let mut outside = 0;
    let (mut before_b, mut before_a) = (0u32, 0u32);
    for point in map.breakpoints() {
        let token_len = (point.pos_b - before_b) - (point.start_a - before_a);
        for b in before_b..point.pos_b - token_len {
            assert_eq!(text[b as usize], src[map.resolve(b) as usize]);
            outside += 1;
        }
        before_b = point.pos_b;
        before_a = point.pos_a;
    }
    for b in before_b..text.len() as u32 {
        assert_eq!(text[b as usize], src[map.resolve(b) as usize]);
        outside += 1;
    }
    assert_eq!(outside, "ab  cd  ef  gh".len());
    assert_eq!(map.resolve(text.len() as u32) as usize, src.len());
}

#[test]
fn positions_are_mapped_back_in_their_order() {
    let mut map = ByteIndexMap::new();
    assert_eq!(map.update(2, 9, 3), Ok(()));
    assert_eq!(map.update(12, 13, 6), Ok(()));
    // "01TTT9abUUUUUUd": the tokens stand at 2..5 and 8..14.
    let outside = [0u32, 1, 5, 6, 7, 14, 15];
    let back: Vec<u32> = outside.iter().map(|b| map.resolve(*b)).collect();
    assert_eq!(back, vec![0, 1, 9, 10, 11, 13, 14]);
}
