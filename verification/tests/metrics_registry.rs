use yaiko::metrics_registry::{MetricError, MetricKind, MetricsRegistry};

fn labels(value: &str) -> Vec<(String, String)> {
    vec![(String::from("route"), value.into())]
}

fn names(v: &[&str]) -> Vec<String> {
    v.iter().map(|s| s.to_string()).collect()
}

#[test]
fn updates_typed_metrics_and_exports_snapshot() {
    let mut registry = MetricsRegistry::new();
    registry.define("requests", MetricKind::Counter, names(&["route"]), 2).unwrap();
    registry.define("temperature", MetricKind::Gauge, names(&[]), 1).unwrap();
    registry.define("latency", MetricKind::Histogram, names(&[]), 1).unwrap();
    registry.increment("requests", &labels("/"), 2).unwrap();
    assert_eq!(registry.record("temperature", &Vec::new(), MetricKind::Gauge).unwrap(), ("temperature{}".to_string(), false));
    assert_eq!(registry.record("latency", &Vec::new(), MetricKind::Histogram).unwrap(), ("latency{}".to_string(), false));
    assert_eq!(registry.record("latency", &Vec::new(), MetricKind::Histogram).unwrap(), ("latency{}".to_string(), true));
    assert_eq!(registry.counters(), vec![("requests{route=/}".to_string(), 2)]);
}

#[test]
fn enforces_labels_and_cardinality() {
    let mut registry = MetricsRegistry::new();
    registry.define("requests", MetricKind::Counter, names(&["route"]), 1).unwrap();
    assert!(registry.increment("requests", &labels("/"), 1).is_ok());
    assert_eq!(registry.increment("requests", &labels("/other"), 1), Err(MetricError::CardinalityLimit));
    assert_eq!(registry.increment("requests", &Vec::new(), 1), Err(MetricError::InvalidLabel));
}

#[test]
fn counters_add_and_saturate() {
    let mut registry = MetricsRegistry::default();
    registry.define("hits", MetricKind::Counter, names(&[]), 1).unwrap();
    registry.increment("hits", &Vec::new(), 5).unwrap();
    registry.increment("hits", &Vec::new(), 7).unwrap();
    assert_eq!(registry.counters(), vec![("hits{}".to_string(), 12)]);
    registry.increment("hits", &Vec::new(), u64::MAX).unwrap();
    assert_eq!(registry.counters(), vec![("hits{}".to_string(), u64::MAX)]);
}

#[test]
fn names_kinds_and_unknown_metrics() {
    let mut registry = MetricsRegistry::new();
    assert_eq!(registry.define("bad-name", MetricKind::Counter, names(&[]), 1), Err(MetricError::InvalidName));
    assert_eq!(registry.define("", MetricKind::Counter, names(&[]), 1), Err(MetricError::InvalidName));
    assert_eq!(registry.define("ok", MetricKind::Counter, names(&["bad label"]), 1), Err(MetricError::InvalidLabel));
    assert_eq!(registry.increment("missing", &Vec::new(), 1), Err(MetricError::UnknownMetric));
    registry.define("g", MetricKind::Gauge, names(&[]), 1).unwrap();
    assert_eq!(registry.increment("g", &Vec::new(), 1), Err(MetricError::WrongKind));
    registry.record("g", &Vec::new(), MetricKind::Gauge).unwrap();
    registry.define("g", MetricKind::Counter, names(&[]), 1).unwrap();
    assert_eq!(registry.increment("g", &Vec::new(), 1), Err(MetricError::WrongKind));
}

#[test]
fn series_keys_join_labels_in_order() {
    let mut registry = MetricsRegistry::new();
    registry.define("req", MetricKind::Counter, names(&["status", "method"]), 3).unwrap();
    let l = vec![("method".to_string(), "GET".to_string()), ("status".to_string(), "200".to_string())];
    registry.increment("req", &l, 1).unwrap();
    assert_eq!(registry.counters(), vec![("req{method=GET,status=200}".to_string(), 1)]);
}
