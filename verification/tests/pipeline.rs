use climate_graph::dataset::Dataset;
use climate_graph::dataset::IngestError;
use climate_graph::dataset::ingest;
use climate_graph::graph::Graph;
use climate_graph::graph::are_in_same_country;

/// Pearson correlation over the zipped prefix, with each denominator taken
/// over its own full sequence, as the pipeline's scoring step computes it.
fn calculate_similarity(vec_a: &[f64], vec_b: &[f64]) -> f64 {
    let mean_a: f64 = vec_a.iter().copied().sum::<f64>() / vec_a.len() as f64;
    let mean_b: f64 = vec_b.iter().copied().sum::<f64>() / vec_b.len() as f64;
    let numerator: f64 = vec_a
        .iter()
        .zip(vec_b.iter())
        .map(|(a, b)| (a - mean_a) * (b - mean_b))
        .sum();
    let denominator_a: f64 = vec_a.iter().map(|a| (a - mean_a).powi(2)).sum::<f64>().sqrt();
    let denominator_b: f64 = vec_b.iter().map(|b| (b - mean_b).powi(2)).sum::<f64>().sqrt();
    if denominator_a == 0.0 || denominator_b == 0.0 {
        return 0.0;
    }
    numerator / (denominator_a * denominator_b)
}

fn parsed_series(dataset: &Dataset, i: usize) -> Vec<f64> {
    dataset
        .observations_at(i)
        .iter()
        .map(|s| s.parse().unwrap_or(0.0))
        .collect()
}

/// Score every unordered pair of entities and connect the similar ones, as
/// the pipeline's driver does.
fn build_graph(dataset: &Dataset) -> Graph {
    let mut graph = Graph::with_nodes(dataset);
    let n = dataset.key_count();
    for a in 0..n {
        for b in (a + 1)..n {
            let key_a = dataset.key_at(a);
            let key_b = dataset.key_at(b);
            if key_a != key_b && are_in_same_country(&key_a, &key_b) {
                let sa = parsed_series(dataset, a);
                let sb = parsed_series(dataset, b);
                let correlation = calculate_similarity(&sa, &sb);
                if correlation > 0.8 {
                    graph.add_edge(key_a, key_b, correlation.to_bits());
                }
            }
        }
    }
    graph
}

#[test]
fn ingest_accumulates_series_per_key() {
    let data =
        b"dt,AverageTemperature,Uncertainty,City\n2000-01,1.5,0.1,X\n2000-01,5.0,0.2,Y\n2000-02,2.5,0.1,X\n"
            .to_vec();
    let d = ingest(&data).unwrap();
    assert_eq!(d.row_count(), 3);
    assert_eq!(d.key_count(), 2);
    assert_eq!(d.key_at(0), "X");
    assert_eq!(d.key_at(1), "Y");
    assert_eq!(
        d.observations_at(0),
        &vec!["1.5".to_string(), "2.5".to_string()]
    );
    assert_eq!(d.observations_at(1), &vec!["5.0".to_string()]);
}

#[test]
fn ingest_defaults_missing_key_field() {
    // two columns only: field 3 (the key) is absent from every row
    let data = b"dt,AverageTemperature\n2000-01,3.5\n2000-02,4.5\n".to_vec();
    let d = ingest(&data).unwrap();
    assert_eq!(d.key_count(), 1);
    assert_eq!(d.key_at(0), "");
    assert_eq!(
        d.observations_at(0),
        &vec!["3.5".to_string(), "4.5".to_string()]
    );
}

#[test]
fn ingest_defaults_missing_observation_field() {
    // one column only: field 1 (the observation) is absent from every row
    let data = b"dt\n2000-01\n".to_vec();
    let d = ingest(&data).unwrap();
    assert_eq!(d.key_count(), 1);
    assert_eq!(d.key_at(0), "");
    assert_eq!(d.observations_at(0), &vec!["0".to_string()]);
}

#[test]
fn ingest_rejects_ragged_rows() {
    let data = b"dt,AverageTemperature\n2000-01,3.5,extra\n".to_vec();
    assert!(matches!(ingest(&data), Err(IngestError::Unreadable)));
}

#[test]
fn empty_source_yields_empty_graph() {
    let data = Vec::new();
    let d = ingest(&data).unwrap();
    assert_eq!(d.key_count(), 0);
    assert_eq!(d.row_count(), 0);
    let g = build_graph(&d);
    assert_eq!(g.node_count(), 0);
    assert_eq!(g.degree_distribution(), Vec::<usize>::new());
    assert_eq!(g.centrality().len(), 0);
}

#[test]
fn every_ingested_key_becomes_a_node() {
    let data = b"dt,AverageTemperature,Uncertainty,City\nt,1.0,0,A\nt,2.0,0,B\nt,3.0,0,C\n"
        .to_vec();
    let d = ingest(&data).unwrap();
    let g = Graph::with_nodes(&d);
    assert_eq!(g.node_count(), 3);
    for name in ["A", "B", "C"] {
        assert!(g.contains_node(&name.to_string()));
    }
    // nodes without edges still count in the degree distribution
    assert_eq!(g.degree_distribution(), vec![0, 0, 0]);
}

#[test]
fn correlated_entities_scenario() {
    // X and Y are perfectly correlated; Z is constant
    let mut rows = String::from("dt,AverageTemperature,Uncertainty,City\n");
    let x = [1.0, 2.0, 3.0, 4.0];
    let y = [2.0, 4.0, 6.0, 8.0];
    let z = [5.0, 5.0, 5.0, 5.0];
    for i in 0..4 {
        rows.push_str(&format!("t,{},0,X\n", x[i]));
        rows.push_str(&format!("t,{},0,Y\n", y[i]));
        rows.push_str(&format!("t,{},0,Z\n", z[i]));
    }
    let d = ingest(&rows.into_bytes()).unwrap();
    assert_eq!(d.key_count(), 3);

    let sim_xy = calculate_similarity(&x, &y);
    let sim_xz = calculate_similarity(&x, &z);
    let sim_yz = calculate_similarity(&y, &z);
    // perfectly correlated up to floating-point rounding, and over threshold
    assert!((sim_xy - 1.0).abs() < 1e-12);
    assert!(sim_xy > 0.8);
    assert_eq!(sim_xz, 0.0);
    assert_eq!(sim_yz, 0.0);

    let g = build_graph(&d);
    assert_eq!(g.node_count(), 3);
    assert!(g.has_edge(&"X".to_string(), &"Y".to_string()));
    assert!(g.has_edge(&"Y".to_string(), &"X".to_string()));
    assert!(!g.has_edge(&"X".to_string(), &"Z".to_string()));
    assert!(!g.has_edge(&"Y".to_string(), &"Z".to_string()));
    assert_eq!(
        g.weight_of(&"X".to_string(), &"Y".to_string()),
        Some(sim_xy.to_bits())
    );

    let top = g.centrality();
    assert_eq!(top.len(), 3);
    assert_eq!(top[0].1, 1);
    assert_eq!(top[1].1, 1);
    assert_eq!(top[2], ("Z".to_string(), 0));
    let first_two = [top[0].0.as_str(), top[1].0.as_str()];
    assert!(first_two.contains(&"X") && first_two.contains(&"Y"));
}
