use galeshapley::GaleShapley;
use galeshapley::Man;
use galeshapley::Stats;
use galeshapley::Woman;
use galeshapley::all_possible_individual_preferences;
use galeshapley::all_possible_preferences;
use galeshapley::make_rank_matrix;

#[test]
fn test_find_stable_marriage_1x1() {
    let mut algo = GaleShapley::init(vec![vec![0]], vec![vec![0]]);
    assert_eq!(algo.find_stable_marriage(), vec![(0, 0)]);
}

#[test]
fn test_find_stable_marriage_2x2() {
    let men_preferences = vec![vec![0, 1], vec![0, 1]]; // both men prefer the first woman
    let women_preferences = vec![vec![1, 0], vec![1, 0]]; // both women prefer the second man
    let expected = vec![(1, 0), (0, 1)]; // The most preferred man ends up with the most preferred woman
    let mut algo = GaleShapley::init(men_preferences, women_preferences);
    let actual: Vec<(Man, Woman)> = algo.find_stable_marriage();
    assert_eq!(actual, expected);
}

#[test]
fn test_find_stable_marriage_3x3() {
    let men_preferences = vec![vec![0, 1, 2], vec![2, 1, 0], vec![1, 2, 0]];
    let women_preferences = vec![vec![0, 2, 1], vec![2, 1, 0], vec![2, 0, 1]];
    let expected = vec![(0, 0), (2, 1), (1, 2)];
    let mut algo = GaleShapley::init(men_preferences, women_preferences);
    let actual: Vec<(Man, Woman)> = algo.find_stable_marriage();
    assert_eq!(actual, expected);
}

#[test]
fn test_make_women_preferences() {
    assert_eq!(
        make_rank_matrix(vec![vec![0, 2, 1], vec![2, 1, 0], vec![2, 0, 1]]),
        vec![vec![0, 2, 1], vec![2, 1, 0], vec![1, 2, 0]]
    )
}

#[test]
fn test_rand() {
    let n = 100;
    let mut men = std::collections::HashSet::new();
    let mut women = std::collections::HashSet::new();
    let mut algo = GaleShapley::init_random(n);
    for (m, w) in algo.find_stable_marriage() {
        men.insert(m);
        women.insert(w);
    }
    for i in 0..n {
        assert!(men.contains(&i));
        assert!(women.contains(&i));
    }
}

#[test]
fn test_has_stable_marriage_with_2x2() {
    let men_preferences = || vec![vec![0, 1], vec![0, 1]]; // both men prefer the first woman
    let women_preferences = || vec![vec![1, 0], vec![1, 0]]; // both women prefer the second man
    assert!(
        !GaleShapley::init(men_preferences(), women_preferences()).has_stable_mariage_with(0, 0) // first man does not mary first woman
    );
    assert!(
        GaleShapley::init(men_preferences(), women_preferences()).has_stable_mariage_with(1, 0) // second man maries first woman
    );
    assert!(
        GaleShapley::init(men_preferences(), women_preferences()).has_stable_mariage_with(0, 1) // first man maries second woman
    );
    assert!(
        !GaleShapley::init(men_preferences(), women_preferences()).has_stable_mariage_with(1, 1) // second man does not mary second woman
    );
}

#[test]
fn stats() {
    let men_preferences = || vec![vec![0, 1], vec![0, 1]]; // both men prefer the first woman
    let women_preferences = || vec![vec![1, 0], vec![1, 0]]; // both women prefer the second man
    let mut stats = Stats::new(2);
    stats.add_problem(GaleShapley::init(men_preferences(), women_preferences()));
    assert_eq!(stats.men[0], 1); // 1 man got his first choice (the second man)
    assert_eq!(stats.men[1], 1); // 1 man got his second choice (the first man got the second woman)
    assert_eq!(stats.women[0], 1);
    assert_eq!(stats.women[1], 1);
}

#[test]
fn test_all_possible() {
    let mut all = all_possible_individual_preferences(3);
    all.sort();
    assert_eq!(
        all,
        vec![
            vec![0, 1, 2],
            vec![0, 2, 1],
            vec![1, 0, 2],
            vec![1, 2, 0],
            vec![2, 0, 1],
            vec![2, 1, 0]
        ]
    );
}

#[test]
fn test_all_possible_aggregated_preferences() {
    let mut all = all_possible_preferences(2, false);
    all.sort();
    assert_eq!(
        all,
        vec![
            vec![vec![0, 1], vec![0, 1]],
            vec![vec![0, 1], vec![1, 0]],
            vec![vec![1, 0], vec![0, 1]],
            vec![vec![1, 0], vec![1, 0]]
        ]
    );
}

#[test]
fn test_all_possible_fixed_first() {
    let mut all = all_possible_preferences(2, true);
    all.sort();
    assert_eq!(
        all,
        vec![
            vec![vec![0, 1], vec![0, 1]],
            vec![vec![0, 1], vec![1, 0]],
        ]
    );
}

#[test]
fn test_empty_instance() {
    let mut algo = GaleShapley::init(vec![], vec![]);
    assert_eq!(algo.find_stable_marriage(), vec![]);
}

#[test]
fn test_determinism() {
    let men_preferences = || vec![vec![2, 0, 1], vec![0, 1, 2], vec![0, 2, 1]];
    let women_preferences = || vec![vec![1, 0, 2], vec![2, 1, 0], vec![0, 1, 2]];
    let mut first = GaleShapley::init(men_preferences(), women_preferences());
    let mut second = GaleShapley::init(men_preferences(), women_preferences());
    assert_eq!(first.find_stable_marriage(), second.find_stable_marriage());
}

#[test]
fn test_rank_matrix_round_trip() {
    let p = vec![vec![3, 1, 0, 2], vec![2, 0, 3, 1], vec![0, 1, 2, 3], vec![1, 3, 2, 0]];
    assert_eq!(make_rank_matrix(make_rank_matrix(p.clone())), p);
}

#[test]
fn test_predicate_agrees_with_full_solve() {
    // exhaustive over every 2x2 instance
    for men_preferences in all_possible_preferences(2, false) {
        for women_preferences in all_possible_preferences(2, false) {
            let mut algo =
                GaleShapley::init(men_preferences.clone(), women_preferences.clone());
            let matching = algo.find_stable_marriage();
            for m in 0..2 {
                for w in 0..2 {
                    let mut fresh = GaleShapley::init(
                        men_preferences.clone(),
                        women_preferences.clone(),
                    );
                    assert_eq!(
                        fresh.has_stable_mariage_with(m, w),
                        matching.contains(&(m, w))
                    );
                }
            }
        }
    }
}

#[test]
fn test_no_blocking_pair_exhaustive() {
    // every 2x2 instance: no unmatched pair prefers each other over their partners
    for men_preferences in all_possible_preferences(2, false) {
        for women_preferences in all_possible_preferences(2, false) {
            let men_rank: Vec<Vec<usize>> = make_rank_matrix(men_preferences.clone());
            let women_rank: Vec<Vec<usize>> = make_rank_matrix(women_preferences.clone());
            let mut algo =
                GaleShapley::init(men_preferences.clone(), women_preferences.clone());
            let matching = algo.find_stable_marriage();
            let mut partner_of_man = vec![0; 2];
            let mut partner_of_woman = vec![0; 2];
            for &(m, w) in &matching {
                partner_of_man[m] = w;
                partner_of_woman[w] = m;
            }
            for m in 0..2 {
                for w in 0..2 {
                    if partner_of_man[m] != w {
                        let man_blocks = men_rank[m][w] < men_rank[m][partner_of_man[m]];
                        let woman_blocks = women_rank[w][m] < women_rank[w][partner_of_woman[w]];
                        assert!(!(man_blocks && woman_blocks));
                    }
                }
            }
        }
    }
}

#[test]
fn test_stats_merge() {
    let mut totals = Stats::new(2);
    let mut local = Stats::new(2);
    // both men prefer the first woman, both women the second man: one man
    // per rank on each side
    totals.add_problem(GaleShapley::init(
        vec![vec![0, 1], vec![0, 1]],
        vec![vec![1, 0], vec![1, 0]],
    ));
    // everyone's first choices agree: both sides get rank 0 twice
    local.add_problem(GaleShapley::init(
        vec![vec![0, 1], vec![1, 0]],
        vec![vec![0, 1], vec![1, 0]],
    ));
    totals.merge(&local);
    assert_eq!(totals.men, vec![3, 1]);
    assert_eq!(totals.women, vec![3, 1]);
}

#[test]
fn test_stats_sum_is_instance_size() {
    let men_preferences = vec![vec![0, 1, 2], vec![2, 1, 0], vec![1, 2, 0]];
    let women_preferences = vec![vec![0, 2, 1], vec![2, 1, 0], vec![2, 0, 1]];
    let mut stats = Stats::new(3);
    stats.add_problem(GaleShapley::init(men_preferences, women_preferences));
    assert_eq!(stats.men.iter().sum::<usize>(), 3);
    assert_eq!(stats.women.iter().sum::<usize>(), 3);
}

#[test]
fn test_engine_single_rounds() {
    // scenario A, played round by round
    let mut algo = GaleShapley::init(vec![vec![0, 1], vec![0, 1]], vec![vec![1, 0], vec![1, 0]]);
    assert_eq!(algo.size(), 2);
    assert_eq!(algo.best_woman_for(0), 0);
    assert_eq!(algo.best_woman_for(1), 0);
    assert_eq!(algo.current_woman_engagement(0), None);
    // man 0 proposes to woman 0 and is accepted
    assert_eq!(algo.next_engagement_round(), Some((0, 0)));
    assert_eq!(algo.current_woman_engagement(0), Some(0));
    // man 1 proposes to woman 0 and displaces man 0
    assert_eq!(algo.next_engagement_round(), Some((1, 0)));
    assert_eq!(algo.current_woman_engagement(0), Some(1));
    // man 0 proposes to woman 1 and is accepted
    assert_eq!(algo.next_engagement_round(), Some((0, 1)));
    assert_eq!(algo.current_woman_engagement(1), Some(0));
    // quiescence
    assert_eq!(algo.next_engagement_round(), None);
}

#[test]
fn test_men_rank_matrix() {
    let algo = GaleShapley::init(
        vec![vec![2, 0, 1], vec![1, 2, 0], vec![0, 1, 2]],
        vec![vec![0, 1, 2], vec![0, 1, 2], vec![0, 1, 2]],
    );
    assert_eq!(
        algo.men_rank_matrix(),
        vec![vec![1, 2, 0], vec![2, 0, 1], vec![0, 1, 2]]
    );
}

#[test]
fn test_women_preferences_is_rank_matrix() {
    let algo = GaleShapley::init(
        vec![vec![0, 1], vec![0, 1]],
        vec![vec![1, 0], vec![1, 0]],
    );
    assert_eq!(
        algo.women_preferences(),
        &vec![vec![1, 0], vec![1, 0]]
    );
}

#[test]
fn test_all_permutations_of_four() {
    let all = all_possible_individual_preferences(4);
    assert_eq!(all.len(), 24);
    for p in &all {
        let mut seen = vec![false; 4];
        for &v in p {
            assert!(v < 4);
            assert!(!seen[v]);
            seen[v] = true;
        }
    }
    for i in 0..all.len() {
        for j in 0..i {
            assert_ne!(all[i], all[j]);
        }
    }
}
