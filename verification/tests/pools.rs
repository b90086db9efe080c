use calldown::{ZPool, ZPools};

fn pool_names(ps: &ZPools) -> Vec<String> {
    let mut names: Vec<String> = Vec::new();
    let mut it = ps.iter();
    while let Some(p) = it.next() {
        names.push(p.name);
    }
    names
}

#[test]
fn pool_listing_yields_pools_in_order() {
    let ps = ZPool::all(b"tank\nrpool\n".to_vec());
    assert_eq!(pool_names(&ps), vec!["tank", "rpool"]);
}

#[test]
fn pool_listing_reiteration_is_identical() {
    let ps = ZPool::all(b"tank\nrpool\n".to_vec());
    let first = pool_names(&ps);
    let second = pool_names(&ps);
    assert_eq!(first, vec!["tank", "rpool"]);
    assert_eq!(first, second);
}

#[test]
fn empty_pool_listing_yields_one_empty_name() {
    let ps = ZPools::new(b"\n".to_vec());
    let names = pool_names(&ps);
    assert_eq!(names.len(), 1);
    assert_eq!(names[0], "");
}

#[test]
fn pool_properties_mapping() {
    let pool = ZPool { name: String::from("tank") };
    let props = pool.properties(b"tank\tversion\t5\t-\ntank\tsize\t1000000\t-\n".to_vec());
    assert_eq!(props.len(), 2);
    assert_eq!(props.get("version").map(|v| v.as_str()), Some("5"));
    assert_eq!(props.get("size").map(|v| v.as_str()), Some("1000000"));
}

#[test]
fn duplicate_property_key_last_row_wins() {
    let pool = ZPool { name: String::from("tank") };
    let props = pool.properties(b"tank\tversion\t5\t-\ntank\tversion\t7\t-\n".to_vec());
    assert_eq!(props.len(), 1);
    assert_eq!(props.get("version").map(|v| v.as_str()), Some("7"));
}

#[test]
fn short_property_row_is_skipped() {
    let pool = ZPool { name: String::from("tank") };
    let props = pool.properties(
        b"tank\tversion\t5\t-\ntank\tbroken\ntank\tsize\t1000000\t-\n".to_vec(),
    );
    assert_eq!(props.len(), 2);
    assert_eq!(props.get("version").map(|v| v.as_str()), Some("5"));
    assert_eq!(props.get("size").map(|v| v.as_str()), Some("1000000"));
    assert!(props.get("broken").is_none());
}

#[test]
fn property_values_stay_text() {
    let pool = ZPool { name: String::from("tank") };
    let props = pool.properties(b"tank\tsize\t1000000\t-\n".to_vec());
    assert_eq!(props.get("size").map(|v| v.as_str()), Some("1000000"));
}

#[test]
fn absent_property_key_is_none() {
    let pool = ZPool { name: String::from("tank") };
    let props = pool.properties(b"tank\tversion\t5\t-\n".to_vec());
    assert!(props.get("missing").is_none());
}

#[test]
fn empty_property_output_yields_empty_map() {
    let pool = ZPool { name: String::from("tank") };
    let props = pool.properties(b"".to_vec());
    assert_eq!(props.len(), 0);
}

#[test]
fn pool_equality_is_by_name() {
    let a = ZPool { name: String::from("tank") };
    let b = ZPool { name: String::from("tank") };
    let c = ZPool { name: String::from("rpool") };
    assert_eq!(a, b);
    assert_ne!(a, c);
}
