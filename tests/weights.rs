use pos_weights::{
    calculate_differences, compare_keys, compare_stats, count_tags, diff_tables, get_test_contexts,
    normalize_nlprule_pos, postprocess, round_to_decimal_places, Dist, Entry, Nuance, Pos,
    TagCounts, TaggedToken, WordTable, NUM_CONTEXTS, NUM_POS, UNIT,
};

fn dist(pairs: &[(Pos, i64)]) -> Dist {
    let mut w = vec![0i64; NUM_POS];
    for (p, v) in pairs {
        w[p.index()] = *v;
    }
    Dist { w }
}

fn units(x: f64) -> i64 {
    (x * UNIT as f64).round() as i64
}

fn token(text: &str, tags: &[&str]) -> TaggedToken {
    TaggedToken { text: text.to_string(), tags: tags.iter().map(|t| t.to_string()).collect() }
}

fn table(rows: Vec<(&str, Dist)>) -> WordTable {
    let mut t = WordTable::new();
    for (w, d) in rows {
        t.insert(Entry { word: w.to_string(), dist: d });
    }
    t
}

fn words(t: &WordTable) -> Vec<String> {
    t.entries.iter().map(|e| e.word.clone()).collect()
}

#[test]
fn tag_codes_map_to_categories() {
    assert_eq!(normalize_nlprule_pos("NNS"), Some(Pos::N));
    assert_eq!(normalize_nlprule_pos("VBZ"), Some(Pos::V));
    assert_eq!(normalize_nlprule_pos("JJR"), Some(Pos::Adj));
    assert_eq!(normalize_nlprule_pos("RBS"), Some(Pos::Adv));
    assert_eq!(normalize_nlprule_pos("IN"), Some(Pos::Prep));
    assert_eq!(normalize_nlprule_pos("DT"), Some(Pos::Det));
    assert_eq!(normalize_nlprule_pos("CC"), Some(Pos::Conj));
    assert_eq!(normalize_nlprule_pos("PRP$"), Some(Pos::Pron));
    assert_eq!(normalize_nlprule_pos("UH"), Some(Pos::Intj));
    assert_eq!(normalize_nlprule_pos("MD"), Some(Pos::Modal));
    assert_eq!(normalize_nlprule_pos("TO"), None);
    assert_eq!(normalize_nlprule_pos("nn"), None);
    assert_eq!(normalize_nlprule_pos(""), None);
}

#[test]
fn labels_round_trip() {
    for i in 0..NUM_POS {
        let p = Pos::at(i);
        assert_eq!(Pos::from_label(&p.label()), Some(p));
    }
    assert_eq!(Pos::N.label(), "N");
    assert_eq!(Pos::from_label("Adj"), Some(Pos::Adj));
    assert_eq!(Pos::from_label("noun"), None);
}

#[test]
fn contexts_are_fixed_and_ordered() {
    let c = get_test_contexts("run");
    assert_eq!(c.len(), NUM_CONTEXTS);
    assert_eq!(c[0], "The run works.");
    assert_eq!(c[6], "They run it.");
    assert_eq!(c[c.len() - 1], "Here run there.");
    assert_eq!(c, get_test_contexts("run"));
    assert!(c.iter().all(|s| s.contains("run")));
}

#[test]
fn rounding_is_half_away_from_zero() {
    assert_eq!(round_to_decimal_places(500_000, 3), 1_000_000);
    assert_eq!(round_to_decimal_places(-500_000, 3), -1_000_000);
    assert_eq!(round_to_decimal_places(499_999, 3), 0);
    assert_eq!(round_to_decimal_places(123_456_789, 2), 120_000_000);
    assert_eq!(round_to_decimal_places(123_456_789, 9), 123_456_789);
    assert_eq!(round_to_decimal_places(0, 0), 0);
    assert_eq!(round_to_decimal_places(1_500_000_000, 0), 2_000_000_000);
}

#[test]
fn estimation_run_scenario() {
    let mut toks = Vec::new();
    for _ in 0..18 {
        toks.push(token("Run", &["VB"]));
        toks.push(token("They", &["PRP"]));
    }
    for _ in 0..2 {
        toks.push(token("run", &["NN"]));
    }
    let c = count_tags("run", &toks);
    assert_eq!(c.total, 20);
    assert_eq!(c.counts[Pos::V.index()], 18);
    assert_eq!(c.counts[Pos::N.index()], 2);
    let d = postprocess(&c, units(0.01) as u64, 3);
    assert_eq!(d, dist(&[(Pos::V, units(0.9)), (Pos::N, units(0.1))]));
}

#[test]
fn ambiguous_token_dilutes_all_categories() {
    let toks = vec![token("fast", &["JJ", "RB"]), token("fast", &["RB", "XX"])];
    let c = count_tags("FAST", &toks);
    assert_eq!(c.total, 3);
    let d = postprocess(&c, 0, 3);
    assert_eq!(d, dist(&[(Pos::Adj, units(0.333)), (Pos::Adv, units(0.667))]));
}

#[test]
fn empty_signal_scenario() {
    let toks = vec![token("The", &["DT"]), token("xyzzy", &["NN"])];
    let c = count_tags("xyzzy123", &toks);
    assert_eq!(c.total, 0);
    let d = postprocess(&c, units(0.01) as u64, 3);
    assert!(d.is_empty());
    assert_eq!(d.category_count(), 0);
}

#[test]
fn threshold_drops_rare_categories_and_renormalizes() {
    let c = TagCounts { counts: { let mut v = vec![0u64; NUM_POS]; v[Pos::N.index()] = 99; v[Pos::V.index()] = 1; v }, total: 100 };
    let d = postprocess(&c, units(0.05) as u64, 3);
    assert_eq!(d, dist(&[(Pos::N, UNIT as i64)]));
    let d = postprocess(&c, units(0.01) as u64, 3);
    assert_eq!(d, dist(&[(Pos::N, units(0.99)), (Pos::V, units(0.01))]));
    let d = postprocess(&c, units(1.5) as u64, 3);
    assert!(d.is_empty());
}

#[test]
fn differencing_scenario() {
    let t1 = table(vec![("cat", dist(&[(Pos::N, units(0.8)), (Pos::V, units(0.2))]))]);
    let t2 = table(vec![("cat", dist(&[(Pos::N, units(0.5)), (Pos::Adj, units(0.5))]))]);
    let (d, st) = diff_tables(&t1, &t2, false, 3);
    assert_eq!(words(&d), vec!["cat".to_string()]);
    assert_eq!(d.entries[0].dist, dist(&[(Pos::N, units(0.3)), (Pos::V, units(0.2)), (Pos::Adj, units(-0.5))]));
    assert_eq!(st.in_both, 1);
    assert_eq!(st.first_categories, 2);
    assert_eq!(st.same_nuance, 1);
    assert_eq!(st.richer(), Nuance::Comparable);
}

#[test]
fn differencing_is_antisymmetric() {
    let t1 = table(vec![
        ("dog", dist(&[(Pos::N, units(0.7)), (Pos::V, units(0.3))])),
        ("ant", dist(&[(Pos::N, units(1.0))])),
    ]);
    let t2 = table(vec![
        ("dog", dist(&[(Pos::N, units(0.6)), (Pos::V, units(0.4))])),
        ("bee", dist(&[(Pos::N, units(0.25)), (Pos::Adj, units(0.75))])),
    ]);
    let (a, _) = diff_tables(&t1, &t2, false, 3);
    let (b, _) = diff_tables(&t2, &t1, false, 3);
    assert_eq!(words(&a), words(&b));
    for (x, y) in a.entries.iter().zip(b.entries.iter()) {
        let neg: Vec<i64> = y.dist.w.iter().map(|v| -v).collect();
        assert_eq!(x.dist.w, neg);
    }
    assert_eq!(words(&a), vec!["ant", "bee", "dog"]);
}

#[test]
fn differencing_a_table_with_itself_is_empty() {
    let t = table(vec![
        ("b", dist(&[(Pos::N, units(0.5)), (Pos::V, units(0.5))])),
        ("a", dist(&[(Pos::Det, units(1.0))])),
    ]);
    let (d, st) = diff_tables(&t, &t, false, 3);
    assert_eq!(d.len(), 0);
    assert_eq!(st.in_both, 2);
}

#[test]
fn both_only_keeps_the_intersection() {
    let t1 = table(vec![("x", dist(&[(Pos::N, units(1.0))])), ("y", dist(&[(Pos::V, units(1.0))]))]);
    let t2 = table(vec![("y", dist(&[(Pos::N, units(1.0))])), ("z", dist(&[(Pos::V, units(1.0))]))]);
    let (d, st) = diff_tables(&t1, &t2, true, 3);
    assert_eq!(words(&d), vec!["y"]);
    assert_eq!(st.only_in_first, 1);
    assert_eq!(st.only_in_second, 1);
    let (d, _) = diff_tables(&t1, &t2, false, 3);
    assert_eq!(words(&d), vec!["x", "y", "z"]);
    assert_eq!(d.entries[2].dist, dist(&[(Pos::V, units(-1.0))]));
}

#[test]
fn small_differences_round_away() {
    let t1 = table(vec![("w", dist(&[(Pos::N, units(0.5004))]))]);
    let t2 = table(vec![("w", dist(&[(Pos::N, units(0.5))]))]);
    let (d, _) = diff_tables(&t1, &t2, false, 3);
    assert_eq!(d.len(), 0);
    let a = dist(&[(Pos::N, units(0.5004))]);
    let b = dist(&[(Pos::N, units(0.5))]);
    assert_eq!(calculate_differences(&a, &b, 4), dist(&[(Pos::N, units(0.0004))]));
}

#[test]
fn nuance_comparison() {
    let t1 = table(vec![("w", dist(&[(Pos::N, units(0.5)), (Pos::V, units(0.5))]))]);
    let t2 = table(vec![("w", dist(&[(Pos::N, units(1.0))]))]);
    let (_, st) = diff_tables(&t1, &t2, false, 3);
    assert_eq!(st.first_more_nuanced, 1);
    assert_eq!(st.richer(), Nuance::First);
    let (_, st) = diff_tables(&t2, &t1, false, 3);
    assert_eq!(st.second_more_nuanced, 1);
    assert_eq!(st.richer(), Nuance::Second);
}

#[test]
fn table_keys_stay_sorted_and_unique() {
    let mut t = table(vec![
        ("pear", dist(&[(Pos::N, 1)])),
        ("apple", dist(&[(Pos::N, 2)])),
        ("Zebra", dist(&[(Pos::N, 3)])),
        ("äpfel", dist(&[(Pos::N, 4)])),
    ]);
    t.insert(Entry { word: "apple".to_string(), dist: dist(&[(Pos::V, 5)]) });
    assert_eq!(words(&t), vec!["Zebra", "apple", "pear", "äpfel"]);
    assert_eq!(t.entries[1].dist, dist(&[(Pos::V, 5)]));
    assert!(compare_keys(&b"ab"[..], &b"abc"[..]) < 0);
    assert!(compare_keys(&b"b"[..], &b"abc"[..]) > 0);
    assert_eq!(compare_keys(&b"abc"[..], &b"abc"[..]), 0);
}

#[test]
fn renormalized_weights_sum_to_one_within_tolerance() {
    let mut v = vec![0u64; NUM_POS];
    v[Pos::N.index()] = 1;
    v[Pos::V.index()] = 1;
    v[Pos::Adj.index()] = 1;
    let d = postprocess(&TagCounts { counts: v, total: 3 }, 0, 3);
    let sum: i64 = d.w.iter().sum();
    assert_eq!(sum, units(0.999));
    assert!((sum - UNIT as i64).abs() <= units(0.001));
}

#[test]
fn six_equal_categories_overshoot_by_two_steps() {
    let mut v = vec![0u64; NUM_POS];
    for p in [Pos::N, Pos::V, Pos::Adj, Pos::Adv, Pos::Prep, Pos::Det] {
        v[p.index()] = 1;
    }
    let d = postprocess(&TagCounts { counts: v, total: 6 }, 0, 3);
    let sum: i64 = d.w.iter().sum();
    assert_eq!(d.w[Pos::N.index()], units(0.167));
    assert_eq!(sum, units(1.002));
}

#[test]
fn statistics_cover_words_in_both() {
    let t1 = table(vec![
        ("a", dist(&[(Pos::N, units(0.5)), (Pos::V, units(0.5))])),
        ("b", dist(&[(Pos::N, units(1.0))])),
        ("c", dist(&[(Pos::N, units(1.0))])),
    ]);
    let t2 = table(vec![
        ("b", dist(&[(Pos::N, units(0.2)), (Pos::V, units(0.3)), (Pos::Adj, units(0.5))])),
        ("c", dist(&[(Pos::V, units(1.0))])),
        ("d", dist(&[(Pos::V, units(1.0))])),
    ]);
    let st = compare_stats(&t1, &t2);
    assert_eq!(st.in_both, 2);
    assert_eq!(st.only_in_first, 1);
    assert_eq!(st.only_in_second, 1);
    assert_eq!(st.first_categories, 2);
    assert_eq!(st.second_categories, 4);
    assert_eq!(st.second_more_nuanced, 1);
    assert_eq!(st.same_nuance, 1);
    assert_eq!(st.first_more_nuanced, 0);
    assert_eq!(st.richer(), Nuance::Second);
    let (_, st2) = diff_tables(&t1, &t2, true, 3);
    assert_eq!(st, st2);
}
