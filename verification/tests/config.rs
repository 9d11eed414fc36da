use termetheus::config::Config;
use termetheus::prometheus::{Prometheus, QueryData, QueryResponse};

#[test]
fn config_new() {
    let args = vec![
        String::from("termetheus"),
        String::from("http://localhost:9090"),
        String::from("up"),
    ];
    let config = Config::new(&args).unwrap();
    assert_eq!(config.base_url(), "http://localhost:9090");
    assert_eq!(config.query(), "up");
}

#[test]
fn config_new_not_enough_args() {
    let args = vec![String::from("termetheus")];
    let config = Config::new(&args);
    assert!(config.is_err());
}

#[test]
fn config_new_too_many_args() {
    let args = vec![
        String::from("termetheus"),
        String::from("http://localhost:9090"),
        String::from("up"),
        String::from("one_too_many"),
    ];
    let config = Config::new(&args);
    assert!(config.is_err());
}

#[test]
fn config_new_names_the_error() {
    let none: Vec<String> = Vec::new();
    assert_eq!(Config::new(&none).err(), Some("wrong args"));
    let two = vec![String::from("termetheus"), String::from("http://localhost:9090")];
    assert_eq!(Config::new(&two).err(), Some("wrong args"));
}

#[test]
fn range_url_holds_host_query_and_both_ends() {
    let args = vec![
        String::from("termetheus"),
        String::from("http://localhost:9090"),
        String::from("up"),
    ];
    let prometheus = Prometheus::new(Config::new(&args).unwrap());
    assert_eq!(
        prometheus.range_url("2020-12-31T23:00:00Z", "2021-01-01T00:00:00Z"),
        "http://localhost:9090/api/v1/query_range?query=up&start=2020-12-31T23:00:00Z&end=2021-01-01T00:00:00Z&step=1m"
    );
}

#[test]
fn range_url_of_empty_parts() {
    let args = vec![String::new(), String::new(), String::new()];
    let prometheus = Prometheus::new(Config::new(&args).unwrap());
    assert_eq!(
        prometheus.range_url("", ""),
        "/api/v1/query_range?query=&start=&end=&step=1m"
    );
}

#[test]
fn only_the_status_success_is_a_success() {
    let answer = |status: &str| QueryResponse {
        status: status.to_string(),
        data: QueryData { result_type: "matrix".to_string(), result: Vec::new() },
    };
    assert!(answer("success").is_success());
    assert!(!answer("error").is_success());
    assert!(!answer("Success").is_success());
    assert!(!answer("success ").is_success());
    assert!(!answer("").is_success());
}
