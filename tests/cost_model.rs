use tract_linalg::cost_model::{models, predict, select_kernel, CostModel};

fn model(intercept: i128, coef: Vec<i128>) -> CostModel {
    CostModel { mr: 4, nr: 4, intercept, coef }
}

#[test]
fn predict_is_intercept_plus_weighted_features() {
    let m = model(10, vec![2, -3, 5]);
    assert_eq!(predict(&m, &vec![1, 2, 3]), 10 + 2 - 6 + 15);
}

#[test]
fn select_picks_cheapest() {
    let table = vec![model(100, vec![1]), model(5, vec![1]), model(50, vec![1])];
    let feats = vec![vec![1u32], vec![1], vec![1]];
    assert_eq!(select_kernel(&table, &feats), Some(1));
}

#[test]
fn select_tie_goes_to_first_listed() {
    let table = vec![model(9, vec![2]), model(7, vec![3]), model(5, vec![4])];
    let feats = vec![vec![1u32], vec![1], vec![2]];
    // costs: 11, 10, 13 -> index 1; now make a tie between 0 and 1
    assert_eq!(select_kernel(&table, &feats), Some(1));
    let tie = vec![model(10, vec![0]), model(10, vec![0]), model(20, vec![0])];
    let f = vec![vec![0u32], vec![0], vec![0]];
    assert_eq!(select_kernel(&tie, &f), Some(0));
}

#[test]
fn select_is_repeatable_and_empty_is_none() {
    let table = vec![model(3, vec![1, 1]), model(1, vec![2, 0])];
    let feats = vec![vec![4u32, 4], vec![4, 4]];
    let first = select_kernel(&table, &feats);
    for _ in 0..5 {
        assert_eq!(select_kernel(&table, &feats), first);
    }
    assert_eq!(first, Some(1));
    assert_eq!(select_kernel(&vec![], &vec![]), None);
}

#[test]
fn cortex_a7_table() {
    let t = models();
    assert_eq!(t.len(), 7);
    assert_eq!(t[0].0, "generic_f32_4x4");
    assert_eq!((t[0].1.mr, t[0].1.nr), (4, 4));
    assert_eq!(t[2].0, "armv7neon_mmm_f32_8x6_cortexa7");
    assert_eq!((t[2].1.mr, t[2].1.nr), (8, 6));
    // 0.00003689411526838631 s in units of 1e-24 s
    assert_eq!(t[0].1.intercept, 36894115268386310000);
    // 1.1892123225916299e-6 s
    assert_eq!(t[0].1.coef[0], 1189212322591629900);
    for (_, m) in t.iter() {
        assert_eq!(m.coef.len(), 11);
    }
}

#[test]
fn selection_over_the_built_in_table_is_repeatable() {
    let t = models();
    let table: Vec<CostModel> = t.iter().map(|e| e.1.clone()).collect();
    let feats: Vec<Vec<u32>> = table.iter().map(|_| vec![1u32; 11]).collect();
    let first = select_kernel(&table, &feats);
    assert!(first.is_some());
    assert_eq!(select_kernel(&table, &feats), first);
    let names: Vec<&str> = t.iter().map(|e| e.0).collect();
    for i in 0..names.len() {
        for j in i + 1..names.len() {
            assert_ne!(names[i], names[j]);
        }
    }
}
