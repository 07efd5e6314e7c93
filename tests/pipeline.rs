use wordalign::config::{check_config, parse_hard, parse_soft, ConfigError, HardAlgorithm, SoftAlgorithm};
use wordalign::edit::levenstein_distance;
use wordalign::hard::{a1_argmax, a2_threshold, a3_threshold_dynamic, a4_threshold_dynamic, basic_alignment, row_argmax};
use wordalign::merge::{contains_link, intersect_algn, join_algn, merge_links, AlgnMergeAction, Alignment};
use wordalign::optimizer::{alignment_error, gridsearch, sentence_error, threshold_stage, Stage};
use wordalign::score::{Score, SoftMatrix};
use wordalign::soft::{blur, can_blur, can_diagonal, can_levenstein, diagonal, levenstein, word_similarity};

fn chars(s: &str) -> Vec<char> {
    s.chars().collect()
}

fn sc(num: u32, den: u32) -> Score {
    Score { num, den }
}

fn sorted(mut a: Alignment) -> Alignment {
    a.sort();
    a
}

fn same_value(a: Score, b: Score) -> bool {
    (a.num as u64) * (b.den as u64) == (b.num as u64) * (a.den as u64)
}

#[test]
fn edit_distance_examples() {
    assert_eq!(levenstein_distance(&chars("kitten"), &chars("sitting")), 3);
    assert_eq!(levenstein_distance(&chars(""), &chars("abc")), 3);
    assert_eq!(levenstein_distance(&chars("abc"), &chars("")), 3);
    assert_eq!(levenstein_distance(&chars("flaw"), &chars("lawn")), 2);
    assert_eq!(levenstein_distance(&chars("same"), &chars("same")), 0);
}

#[test]
fn identical_words_score_one() {
    let s = word_similarity(&chars("house"), &chars("house"));
    assert_eq!(s, sc(10, 10));
}

#[test]
fn dissimilar_words_score_in_unit_range() {
    let s = word_similarity(&chars("abc"), &chars("xyz"));
    assert_eq!(s, sc(3, 6));
    assert!(s.num <= s.den);
    let one_empty = word_similarity(&chars(""), &chars("ab"));
    assert_eq!(one_empty, sc(0, 2));
}

#[test]
fn lexical_matrix_of_sentence_pair() {
    let words1 = vec![chars("cat"), chars("dog")];
    let words2 = vec![chars("gato"), chars("perro")];
    let sents = vec![(vec![0usize, 1], vec![1usize])];
    let m = levenstein(&sents, &words1, &words2);
    assert_eq!(m.len(), 1);
    assert_eq!(m[0].len(), 1);
    assert_eq!(m[0][0], vec![sc(3, 8), sc(3, 8)]);
}

#[test]
fn end_to_end_single_words() {
    let words1 = vec![chars("cat"), chars("dog")];
    let words2 = vec![chars("gato"), chars("perro")];
    let sents = vec![(vec![0usize], vec![0usize]), (vec![1usize], vec![1usize])];
    let lex = levenstein(&sents, &words1, &words2);
    assert_eq!(lex[0][0][0], sc(5, 7));
    assert_eq!(lex[1][0][0], sc(3, 8));
    assert!(lex[0][0][0].num < lex[0][0][0].den);
    assert!(lex[1][0][0].num < lex[1][0][0].den);
    let diag = diagonal(&sents);
    assert_eq!(diag[0][0][0], sc(1, 1));
    assert_eq!(diag[1][0][0], sc(1, 1));
    let hard = a1_argmax(&diag);
    assert_eq!(hard, vec![vec![(0usize, 0usize)], vec![(0usize, 0usize)]]);
}

#[test]
fn diagonal_values() {
    let sents = vec![(vec![7usize, 8], vec![1usize, 2, 3])];
    let d = diagonal(&sents);
    assert_eq!(d[0].len(), 3);
    assert_eq!(d[0][0].len(), 2);
    assert_eq!(d[0][0][0], sc(6, 6));
    assert_eq!(d[0][0][1], sc(3, 6));
    assert_eq!(d[0][1][0], sc(4, 6));
    assert_eq!(d[0][2][1], sc(5, 6));
    assert!(same_value(d[0][1][1], sc(5, 6)));
}

#[test]
fn diagonal_corners_and_reversal() {
    let sents = vec![(vec![1usize, 2, 3, 4], vec![5usize, 6, 7, 8])];
    let d = diagonal(&sents);
    assert_eq!(d[0][0][0], sc(16, 16));
    assert_eq!(d[0][3][3], sc(16, 16));
    for t in 0..4 {
        for s in 0..4 {
            assert_eq!(d[0][t][s], d[0][3 - t][3 - s]);
        }
    }
    let uneven = diagonal(&vec![(vec![1usize], vec![2usize, 3])]);
    assert_eq!(uneven[0][1][0], sc(1, 2));
}

#[test]
fn diagonal_empty_sentence() {
    let d = diagonal(&vec![(vec![], vec![1usize, 2])]);
    assert_eq!(d[0], vec![Vec::<Score>::new(), Vec::new()]);
    let none = diagonal(&Vec::new());
    assert!(none.is_empty());
}

#[test]
fn argmax_takes_first_maximum() {
    assert_eq!(row_argmax(&vec![sc(1, 2), sc(2, 4), sc(1, 3)]), 0);
    assert_eq!(row_argmax(&vec![sc(1, 3), sc(2, 3), sc(4, 6)]), 1);
    let m: SoftMatrix = vec![vec![sc(1, 4), sc(3, 4)], vec![sc(1, 2), sc(1, 2)], vec![]];
    assert_eq!(a1_argmax(&vec![m]), vec![vec![(1usize, 0usize), (0, 1)]]);
}

#[test]
fn threshold_zero_takes_every_positive_link() {
    let m: SoftMatrix = vec![vec![sc(1, 2), sc(1, 9)], vec![sc(3, 4), sc(1, 1)]];
    let r = a2_threshold(&vec![m], sc(0, 1));
    assert_eq!(sorted(r[0].clone()), vec![(0, 0), (0, 1), (1, 0), (1, 1)]);
}

#[test]
fn threshold_is_strict() {
    let m: SoftMatrix = vec![vec![sc(0, 2), sc(1, 2)], vec![sc(1, 4), sc(2, 4)]];
    let zero = a2_threshold(&vec![m.clone()], sc(0, 1));
    assert_eq!(sorted(zero[0].clone()), vec![(0, 1), (1, 0), (1, 1)]);
    let half = a2_threshold(&vec![m], sc(1, 2));
    assert!(half[0].is_empty());
}

#[test]
fn basic_pipeline_intersects_max_and_threshold() {
    let m: SoftMatrix = vec![vec![sc(0, 5), sc(0, 5)], vec![sc(1, 3), sc(2, 3)]];
    let r = basic_alignment(&vec![m]);
    assert_eq!(r, vec![vec![(1usize, 1usize)]]);
}

#[test]
fn merge_laws_on_examples() {
    let a: Alignment = vec![(0, 0), (1, 1), (2, 1)];
    let b: Alignment = vec![(1, 1), (3, 0)];
    let i1 = merge_links(&a, &b, AlgnMergeAction::INTERSECT);
    let i2 = merge_links(&b, &a, AlgnMergeAction::INTERSECT);
    assert_eq!(sorted(i1.clone()), vec![(1, 1)]);
    assert_eq!(sorted(i1), sorted(i2));
    let j1 = merge_links(&a, &b, AlgnMergeAction::JOIN);
    let j2 = merge_links(&b, &a, AlgnMergeAction::JOIN);
    assert_eq!(sorted(j1.clone()), vec![(0, 0), (1, 1), (2, 1), (3, 0)]);
    assert_eq!(sorted(j1), sorted(j2));
    assert_eq!(sorted(merge_links(&a, &a, AlgnMergeAction::INTERSECT)), sorted(a.clone()));
    assert_eq!(sorted(merge_links(&a, &a, AlgnMergeAction::JOIN)), sorted(a.clone()));
    assert!(contains_link(&a, (2, 1)));
    assert!(!contains_link(&a, (1, 2)));
}

#[test]
fn merge_without_running_alignment_adopts_second() {
    let b = vec![vec![(0usize, 1usize)], vec![]];
    assert_eq!(intersect_algn(None, b.clone()), b);
    assert_eq!(join_algn(None, b.clone()), b);
    let a = vec![vec![(0usize, 1usize), (1, 1)], vec![(2, 2)]];
    let i = intersect_algn(Some(a.clone()), b.clone());
    assert_eq!(i, vec![vec![(0usize, 1usize)], vec![]]);
    let j = join_algn(Some(a), b);
    assert_eq!(j, vec![vec![(0usize, 1usize), (1, 1)], vec![(2, 2)]]);
}

#[test]
fn alignment_error_counts_both_directions() {
    let a: Alignment = vec![(0, 0), (1, 1), (2, 2)];
    let g: Alignment = vec![(0, 0), (1, 2)];
    assert_eq!(sentence_error(&a, &g), 3);
    assert_eq!(sentence_error(&g, &g), 0);
    assert_eq!(alignment_error(&vec![a, vec![]], &vec![g, vec![(4, 4)]]), 4);
}

#[test]
fn single_point_search_equals_composition() {
    let c1 = vec![vec![(0usize, 0usize), (1, 1)], vec![(0, 0)]];
    let c2 = vec![vec![(1usize, 1usize), (2, 2)], vec![(1, 0)]];
    let gold = vec![vec![(1usize, 1usize)], vec![(0, 0)]];
    let stages = vec![
        Stage { candidates: vec![c1.clone()], action: AlgnMergeAction::INTERSECT },
        Stage { candidates: vec![c2.clone()], action: AlgnMergeAction::JOIN },
    ];
    let (best, chosen, error) = gridsearch(&stages, &gold);
    let manual = join_algn(Some(intersect_algn(None, c1)), c2);
    let best = best.unwrap();
    assert_eq!(best.len(), manual.len());
    for i in 0..best.len() {
        assert_eq!(sorted(best[i].clone()), sorted(manual[i].clone()));
    }
    assert_eq!(chosen, vec![0, 0]);
    assert_eq!(error, alignment_error(&manual, &gold));
    let (again, chosen_again, error_again) = gridsearch(&stages, &gold);
    assert_eq!(again.unwrap(), best);
    assert_eq!(chosen_again, chosen);
    assert_eq!(error_again, error);
}

#[test]
fn search_picks_lowest_error_first_on_ties() {
    let gold = vec![vec![(0usize, 0usize), (1, 1)]];
    let stage1 = Stage {
        candidates: vec![
            vec![vec![(0usize, 0usize), (1, 1), (1, 0), (0, 1)]],
            vec![vec![(0usize, 0usize), (1, 1), (1, 0)]],
            vec![vec![(0usize, 0usize), (1, 1), (0, 1)]],
        ],
        action: AlgnMergeAction::INTERSECT,
    };
    let stage2 = Stage {
        candidates: vec![vec![vec![(1usize, 0usize)]], vec![vec![(0usize, 0usize), (1, 1)]]],
        action: AlgnMergeAction::INTERSECT,
    };
    let (best, chosen, error) = gridsearch(&vec![stage1, stage2], &gold);
    assert_eq!(chosen, vec![1, 1]);
    assert_eq!(sorted(best.unwrap()[0].clone()), vec![(0, 0), (1, 1)]);
    assert_eq!(error, 0);
    let (none, no_choice, zero) = gridsearch(&vec![], &gold);
    assert!(none.is_none());
    assert!(no_choice.is_empty());
    assert_eq!(zero, 0);
}

#[test]
fn threshold_stage_candidates_follow_grid() {
    let m: SoftMatrix = vec![vec![sc(1, 10), sc(5, 10)], vec![sc(9, 10), sc(3, 10)]];
    let probs = vec![m];
    let st = threshold_stage(&probs, &vec![sc(0, 1), sc(4, 10), sc(1, 1)], AlgnMergeAction::JOIN);
    assert_eq!(st.candidates.len(), 3);
    assert_eq!(sorted(st.candidates[0][0].clone()), vec![(0, 0), (0, 1), (1, 0), (1, 1)]);
    assert_eq!(sorted(st.candidates[1][0].clone()), vec![(0, 1), (1, 0)]);
    assert!(st.candidates[2][0].is_empty());
    let gold = vec![vec![(0usize, 1usize), (1, 0)]];
    let (_, chosen, error) = gridsearch(&vec![st], &gold);
    assert_eq!(chosen, vec![1]);
    assert_eq!(error, 0);
}

#[test]
fn config_names_and_errors() {
    assert_eq!(parse_soft(&"ibm1".to_string()), Some(SoftAlgorithm::Ibm1));
    assert_eq!(parse_soft(&"levenstein".to_string()), Some(SoftAlgorithm::Levenstein));
    assert_eq!(parse_soft(&"other".to_string()), None);
    assert_eq!(parse_hard(&"argmax".to_string()), Some(HardAlgorithm::Argmax));
    assert_eq!(parse_hard(&"basic".to_string()), Some(HardAlgorithm::Basic));
    assert_eq!(parse_hard(&"search".to_string()), Some(HardAlgorithm::Search));
    assert_eq!(
        check_config(&"x".to_string(), &"search".to_string(), false),
        Err(ConfigError::UnknownSoftAlgorithm)
    );
    assert_eq!(
        check_config(&"ibm1".to_string(), &"y".to_string(), true),
        Err(ConfigError::UnknownHardAlgorithm)
    );
    assert_eq!(
        check_config(&"levenstein".to_string(), &"search".to_string(), false),
        Err(ConfigError::MissingGoldFile)
    );
    assert_eq!(
        check_config(&"levenstein".to_string(), &"search".to_string(), true),
        Ok((SoftAlgorithm::Levenstein, HardAlgorithm::Search))
    );
    assert_eq!(
        check_config(&"ibm1".to_string(), &"basic".to_string(), false),
        Ok((SoftAlgorithm::Ibm1, HardAlgorithm::Basic))
    );
}

#[test]
fn score_comparison() {
    assert!(sc(2, 3).gt(&sc(1, 2)));
    assert!(!sc(1, 2).gt(&sc(2, 4)));
    assert!(!sc(1, 3).gt(&sc(1, 2)));
}

#[test]
fn blur_uniform_matrix_keeps_value() {
    let c = sc(1, 2);
    let m: SoftMatrix = vec![vec![c; 3]; 3];
    let out = blur(&vec![m], sc(1, 5));
    assert_eq!(out[0].len(), 3);
    for t in 0..3 {
        for s in 0..3 {
            assert!(same_value(out[0][t][s], c));
            if t != 1 || s != 1 {
                assert_eq!(out[0][t][s], c);
            }
        }
    }
    assert_eq!(out[0][1][1], sc(5, 10));
}

#[test]
fn blur_spreads_interior_peak() {
    let mut m: SoftMatrix = vec![vec![sc(0, 4); 4]; 3];
    m[1][1] = sc(4, 4);
    m[0][0] = sc(3, 4);
    let quarter = blur(&vec![m.clone()], sc(1, 4));
    assert_eq!(quarter[0][1][1], sc(0, 16));
    assert_eq!(quarter[0][1][2], sc(4, 16));
    assert_eq!(quarter[0][0][0], sc(3, 4));
    assert_eq!(quarter[0][0][1], sc(0, 4));
    let eighth = blur(&vec![m.clone()], sc(1, 8));
    assert_eq!(eighth[0][1][1], sc(16, 32));
    assert_eq!(eighth[0][1][2], sc(4, 32));
    let none = blur(&vec![m.clone()], sc(0, 1));
    for t in 0..3 {
        for s in 0..4 {
            assert_eq!(none[0][t][s], m[t][s]);
        }
    }
}

#[test]
fn blur_small_matrix_is_all_border() {
    let m: SoftMatrix = vec![vec![sc(1, 3), sc(2, 3)], vec![sc(0, 3), sc(3, 3)]];
    let out = blur(&vec![m.clone()], sc(1, 4));
    for t in 0..2 {
        for s in 0..2 {
            assert!(same_value(out[0][t][s], m[t][s]));
        }
    }
}

#[test]
fn scaled_dynamic_threshold_against_row_maximum() {
    let m: SoftMatrix = vec![vec![sc(1, 2), sc(2, 4), sc(1, 4)], vec![], vec![sc(0, 3), sc(3, 9)]];
    let full = a4_threshold_dynamic(&vec![m.clone()], sc(1, 1));
    assert_eq!(sorted(full[0].clone()), vec![(0, 0), (1, 0), (1, 2)]);
    let half = a4_threshold_dynamic(&vec![m.clone()], sc(1, 2));
    assert_eq!(sorted(half[0].clone()), vec![(0, 0), (1, 0), (1, 2), (2, 0)]);
    let zero = a4_threshold_dynamic(&vec![m], sc(0, 1));
    assert_eq!(zero[0].len(), 5);
}

#[test]
fn offset_dynamic_threshold_against_row_maximum() {
    let m: SoftMatrix = vec![vec![sc(1, 2), sc(2, 4), sc(1, 4)], vec![sc(0, 3), sc(3, 9)]];
    let none_off = a3_threshold_dynamic(&vec![m.clone()], sc(0, 1));
    assert_eq!(sorted(none_off[0].clone()), vec![(0, 0), (1, 0), (1, 1)]);
    let quarter = a3_threshold_dynamic(&vec![m.clone()], sc(1, 4));
    assert_eq!(sorted(quarter[0].clone()), vec![(0, 0), (1, 0), (1, 1), (2, 0)]);
    let third = a3_threshold_dynamic(&vec![m], sc(1, 3));
    assert_eq!(third[0].len(), 5);
}

#[test]
fn search_scores_gold_prefix_and_aligns_whole_corpus() {
    let gold = vec![vec![(0usize, 0usize)]];
    let stage = Stage {
        candidates: vec![
            vec![vec![(0usize, 0usize), (1, 0)], vec![(0, 0)], vec![]],
            vec![vec![(0usize, 0usize)], vec![(5, 5)], vec![(1, 1), (2, 2)]],
        ],
        action: AlgnMergeAction::JOIN,
    };
    let (best, chosen, error) = gridsearch(&vec![stage], &gold);
    assert_eq!(chosen, vec![1]);
    assert_eq!(error, 0);
    let best = best.unwrap();
    assert_eq!(best.len(), 3);
    assert_eq!(best[1], vec![(5usize, 5usize)]);
    assert_eq!(sorted(best[2].clone()), vec![(1, 1), (2, 2)]);
    let full = vec![vec![(0usize, 0usize), (1, 0)], vec![(5usize, 5usize)]];
    assert_eq!(alignment_error(&full, &gold), 1);
}

#[test]
fn blur_mixed_denominators_exact() {
    let mut m: SoftMatrix = vec![vec![sc(1, 2); 3]; 3];
    m[1][1] = sc(1, 3);
    let quarter = blur(&vec![m.clone()], sc(1, 4));
    assert_eq!(quarter[0][1][1], sc(96, 192));
    assert_eq!(quarter[0][0][1], sc(1, 2));
    let eighth = blur(&vec![m.clone()], sc(1, 8));
    assert_eq!(eighth[0][1][1], sc(160, 384));
    assert!(same_value(eighth[0][1][1], sc(5, 12)));
}

#[test]
fn blur_lexical_matrix() {
    let words1 = vec![chars("a"), chars("bb"), chars("ccc")];
    let words2 = vec![chars("a"), chars("bb"), chars("cc")];
    let sents = vec![(vec![0usize, 1, 2], vec![0usize, 1, 2])];
    let lex = levenstein(&sents, &words1, &words2);
    let out = blur(&lex, sc(1, 5));
    assert_eq!(out[0][0], lex[0][0]);
    assert_eq!(out[0][2], lex[0][2]);
    let c = lex[0][1][1];
    assert_eq!(c, sc(4, 4));
    let v = out[0][1][1];
    let (u, d, l, r) = (lex[0][0][1], lex[0][2][1], lex[0][1][0], lex[0][1][2]);
    let num = (u.num as f64 / u.den as f64 + d.num as f64 / d.den as f64 + l.num as f64 / l.den as f64
        + r.num as f64 / r.den as f64)
        / 5.0
        + (1.0 - 4.0 / 5.0) * (c.num as f64 / c.den as f64);
    assert!((v.num as f64 / v.den as f64 - num).abs() < 1e-9);
}

#[test]
fn blur_fit_checker() {
    let m: SoftMatrix = vec![vec![sc(1, 2); 3]; 3];
    assert!(can_blur(&vec![m.clone()], sc(1, 4)));
    assert!(!can_blur(&vec![m.clone()], sc(2, 7)));
    assert!(!can_blur(&vec![m.clone()], sc(1, 0)));
    let ragged: SoftMatrix = vec![vec![sc(1, 2); 3], vec![sc(1, 2); 2]];
    assert!(!can_blur(&vec![ragged], sc(1, 4)));
    let zero_den: SoftMatrix = vec![vec![sc(1, 0)]];
    assert!(!can_blur(&vec![zero_den], sc(1, 4)));
    let mut big: SoftMatrix = vec![vec![sc(1, 60000); 3]; 3];
    big[1][1] = sc(1, 59999);
    assert!(!can_blur(&vec![big.clone()], sc(1, 4)));
    assert!(can_blur(&vec![big], sc(0, 4)));
    assert!(can_blur(&Vec::new(), sc(1, 4)));
}

#[test]
fn diagonal_and_lexical_fit_checkers() {
    assert!(can_diagonal(&vec![(vec![1usize, 2], vec![3usize]), (vec![], vec![])]));
    assert!(can_diagonal(&Vec::new()));
    let words1 = vec![chars("cat"), chars("")];
    let words2 = vec![chars("gato"), chars("")];
    assert!(can_levenstein(&vec![(vec![0usize, 1], vec![0usize])], &words1, &words2));
    assert!(!can_levenstein(&vec![(vec![1usize], vec![1usize])], &words1, &words2));
    assert!(!can_levenstein(&vec![(vec![2usize], vec![0usize])], &words1, &words2));
    assert!(!can_levenstein(&vec![(vec![0usize], vec![5usize])], &words1, &words2));
    assert!(can_levenstein(&vec![(vec![1usize], vec![])], &words1, &words2));
}

#[test]
fn blur_keeps_unit_range_and_search_composes() {
    let words1 = vec![chars("a"), chars("bb"), chars("ccc"), chars("dd")];
    let words2 = vec![chars("a"), chars("bd"), chars("cc"), chars("ddd")];
    let sents = vec![(vec![0usize, 1, 2, 3], vec![0usize, 1, 2, 3])];
    let lex = levenstein(&sents, &words1, &words2);
    let alpha = sc(1, 8);
    assert!(can_blur(&lex, alpha));
    let smooth = blur(&lex, alpha);
    for row in &smooth[0] {
        for c in row {
            assert!(c.num <= c.den);
        }
    }
    assert_eq!(blur(&lex, alpha), smooth);
    let gold = vec![vec![(0usize, 0usize), (1, 1), (2, 2), (3, 3)]];
    let first = a1_argmax(&lex);
    let second = a2_threshold(&smooth, sc(1, 2));
    let stages = vec![
        Stage { candidates: vec![first.clone()], action: AlgnMergeAction::JOIN },
        Stage { candidates: vec![second.clone()], action: AlgnMergeAction::INTERSECT },
    ];
    let (best, chosen, _) = gridsearch(&stages, &gold);
    let manual = intersect_algn(Some(join_algn(None, first)), second);
    assert_eq!(chosen, vec![0, 0]);
    let best = best.unwrap();
    for i in 0..best.len() {
        assert_eq!(sorted(best[i].clone()), sorted(manual[i].clone()));
    }
}
