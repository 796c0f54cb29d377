use hansen::Drug;
use hansen::SearchError;
use hansen::Solution;
use hansen::Solvent;
use hansen::TopN;
use hansen::aggregate;
use hansen::cantor;
use hansen::search_compound;
use hansen::validate_tables;
use hansen::geom::SCALE;

fn fp(units: f64) -> i64 {
    (units * SCALE as f64).round() as i64
}

fn solvent(id: u64, name: &str, d_d: f64, d_p: f64, d_h: f64) -> Solvent {
    Solvent {
        id,
        solvent: name.to_string(),
        d_d: fp(d_d),
        d_p: fp(d_p),
        d_h: fp(d_h),
    }
}

fn drug(id: u64, name: &str, d_d: f64, d_p: f64, d_h: f64) -> Drug {
    Drug {
        id,
        drug: name.to_string(),
        d_d: fp(d_d),
        d_p: fp(d_p),
        d_h: fp(d_h),
    }
}

fn fixture_solvents() -> Vec<Solvent> {
    vec![
        solvent(0, "S0", 0.0, 0.0, 0.0),
        solvent(1, "S1", 10.0, 0.0, 0.0),
        solvent(2, "S2", 0.0, 100.0, 0.0),
    ]
}

fn fixture_drugs() -> Vec<Drug> {
    vec![drug(100, "D0", 5.0, 1.0, 0.0), drug(101, "D1", 5.0, 2.0, 0.0)]
}

#[test]
fn test_end_to_end_two_compounds() {
    // both compounds sit nearest to the blend segment of the pair (S0, S1):
    // D0 at distance 1.0 and D1 at distance 2.0, so the pair is chosen by
    // both, its representative is D0, and the solved ratio is exactly half
    // and half
    let drugs = fixture_drugs();
    let solves = fixture_solvents();
    let tn = TopN::new(1, "drugs.csv".to_string(), "solvents.csv".to_string(), 2);
    let (rows, stats) = tn.run(&drugs, &solves).unwrap();

    assert_eq!(stats.len(), 1);
    assert_eq!(stats[0].mix_id, cantor(0, 1));
    assert_eq!(stats[0].count, 2);
    assert_eq!(stats[0].best.drug_id, 100);
    assert_eq!(stats[0].best.distance, fp(1.0) as u64);

    assert_eq!(rows.len(), 1);
    assert_eq!(rows[0].drug, "D0".to_string());
    assert_eq!(rows[0].mix_id, cantor(0, 1));
    assert_eq!(rows[0].solvent_a, "S0".to_string());
    assert_eq!(rows[0].solvent_b, "S1".to_string());
    assert_eq!(rows[0].solvent_a_ratio, 50);
    assert_eq!(rows[0].solvent_b_ratio, 50);
    assert_eq!(rows[0].hansen_distance, fp(1.0) as u64);
}

#[test]
fn test_per_compound_search_orders_by_distance() {
    let drugs = fixture_drugs();
    let solves = fixture_solvents();
    let top = search_compound(&drugs[0], &solves, 3);
    // three pairs exist; the nearest is (S0, S1) at exactly 1.0
    assert_eq!(top.len(), 3);
    assert_eq!(top[0].mix_id, cantor(0, 1));
    assert_eq!(top[0].distance, fp(1.0) as u64);
    assert!(top[0].distance <= top[1].distance);
    assert!(top[1].distance <= top[2].distance);
}

#[test]
fn test_single_solvent_yields_empty_results() {
    // a single solvent admits no pair at all: the search completes with
    // empty outputs instead of failing
    let drugs = fixture_drugs();
    let solves = vec![solvent(0, "S0", 0.0, 0.0, 0.0)];
    let tn = TopN::new(1, "d".to_string(), "s".to_string(), 5);
    let (rows, stats) = tn.run(&drugs, &solves).unwrap();
    assert_eq!(rows.len(), 0);
    assert_eq!(stats.len(), 0);
}

#[test]
fn test_no_compounds_yields_empty_results() {
    let drugs: Vec<Drug> = Vec::new();
    let solves = fixture_solvents();
    let tn = TopN::new(1, "d".to_string(), "s".to_string(), 5);
    let (rows, stats) = tn.run(&drugs, &solves).unwrap();
    assert_eq!(rows.len(), 0);
    assert_eq!(stats.len(), 0);
}

#[test]
fn test_duplicate_ids_rejected() {
    let drugs = fixture_drugs();
    let mut solves = fixture_solvents();
    solves[2].id = 1;
    assert!(!validate_tables(&drugs, &solves));
    let tn = TopN::new(1, "d".to_string(), "s".to_string(), 2);
    assert!(matches!(tn.run(&drugs, &solves), Err(SearchError::InvalidInput)));
}

#[test]
fn test_oversized_retention_rejected() {
    let drugs = fixture_drugs();
    let solves = fixture_solvents();
    let tn = TopN::new(100_001, "d".to_string(), "s".to_string(), 2);
    assert!(matches!(tn.run(&drugs, &solves), Err(SearchError::InvalidInput)));
}

#[test]
fn test_unknown_solvent_reported() {
    // a result whose pair id decodes to solvents absent from the table
    let drugs = fixture_drugs();
    let solves = fixture_solvents();
    let res = vec![Solution { mix_id: cantor(5, 7), drug_id: 100, distance: 1 }];
    assert!(matches!(
        aggregate(&res, &drugs, &solves, 2),
        Err(SearchError::UnknownSolvent)
    ));
}

#[test]
fn test_unknown_drug_reported() {
    // a result that names a compound absent from the table
    let drugs = fixture_drugs();
    let solves = fixture_solvents();
    let res = vec![Solution { mix_id: cantor(0, 1), drug_id: 999, distance: 1 }];
    assert!(matches!(
        aggregate(&res, &drugs, &solves, 2),
        Err(SearchError::UnknownDrug)
    ));
}

#[test]
fn test_ranking_breaks_count_ties_by_distance() {
    // two solvent pairs, one compound each, equal counts: the pair whose
    // representative distance is smaller must rank first
    let solves = vec![
        solvent(0, "A0", 0.0, 0.0, 0.0),
        solvent(1, "A1", 10.0, 0.0, 0.0),
        solvent(2, "B0", 0.0, 100.0, 0.0),
        solvent(3, "B1", 0.0, 100.0, 10.0),
    ];
    // D0 is nearest the (A0, A1) segment at 2.0; D1 is nearest the (B0, B1)
    // segment at 1.0
    let drugs = vec![drug(100, "D0", 5.0, 2.0, 0.0), drug(101, "D1", 1.0, 100.0, 5.0)];
    let tn = TopN::new(1, "d".to_string(), "s".to_string(), 2);
    let (rows, stats) = tn.run(&drugs, &solves).unwrap();
    assert_eq!(stats.len(), 2);
    assert_eq!(stats[0].count, 1);
    assert_eq!(stats[1].count, 1);
    // the (B0, B1) pair won at distance 1.0 and must come first
    assert_eq!(stats[0].mix_id, cantor(2, 3));
    assert_eq!(stats[1].mix_id, cantor(0, 1));
    assert_eq!(rows.len(), 2);
    assert_eq!(rows[0].drug, "D1".to_string());
    assert_eq!(rows[1].drug, "D0".to_string());
}
