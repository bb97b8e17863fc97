use geogetter::{filter_named, search_url, Address, Location};

fn address() -> Address {
    Address {
        administrative: None,
        town: Some("Lębork".to_string()),
        county: None,
        state: None,
        postcode: None,
        country: Some("Polska".to_string()),
        country_code: Some("pl".to_string()),
    }
}

fn location(name: Option<&str>, display_name: Option<&str>) -> Location {
    Location {
        lat: "54.5".to_string(),
        lon: "17.7".to_string(),
        addresstype: None,
        name: name.map(|s| s.to_string()),
        display_name: display_name.map(|s| s.to_string()),
        address: address(),
        boundingbox: vec!["54.5".to_string(), "54.6".to_string()],
    }
}

#[test]
fn unnamed_results_are_dropped() {
    let input = vec![
        location(Some("a"), Some("A")),
        location(None, Some("B")),
        location(Some("c"), None),
        location(Some("d"), Some("D")),
    ];
    let kept = filter_named(input);
    assert_eq!(kept.len(), 2);
    assert_eq!(kept[0].name.as_deref(), Some("a"));
    assert_eq!(kept[1].name.as_deref(), Some("d"));
}

#[test]
fn no_results_stay_empty() {
    assert!(filter_named(Vec::new()).is_empty());
}

#[test]
fn search_url_wraps_query() {
    assert_eq!(
        search_url("Lebork%2C%20Polska"),
        "https://nominatim.openstreetmap.org/search?addressdetails=1&q=Lebork%2C%20Polska&format=jsonv2&limit=1"
    );
}
