use rusty_graphs::city::{retain_populous, split_coords, CityRecord, MIN_POPULATION};

fn rec(id: u64, pop: u64) -> CityRecord {
    CityRecord { id, name: format!("c{}", id), pop, coords: "1.0,2.0".to_string() }
}

#[test]
fn keeps_only_populous_cities_in_order() {
    let rows = vec![rec(1, 30_000), rec(2, 25_000), rec(3, 25_001), rec(4, 0), rec(5, 1_000_000)];
    let kept = retain_populous(rows);
    let ids: Vec<u64> = kept.iter().map(|c| c.id).collect();
    assert_eq!(ids, vec![1, 3, 5]);
    assert!(kept.iter().all(|c| c.pop > MIN_POPULATION));
}

#[test]
fn empty_catalog_stays_empty() {
    assert!(retain_populous(Vec::new()).is_empty());
}

#[test]
fn coordinates_split_at_comma() {
    assert_eq!(split_coords("51.5074,-0.1278"), Some(("51.5074".to_string(), "-0.1278".to_string())));
    assert_eq!(split_coords(","), Some((String::new(), String::new())));
}

#[test]
fn coordinates_need_exactly_one_comma() {
    assert_eq!(split_coords("51.5074"), None);
    assert_eq!(split_coords("1,2,3"), None);
    assert_eq!(split_coords(""), None);
}
