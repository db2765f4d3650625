use nc_prometheus_exporter::{index, Config, RequestCounter};

#[test]
fn default_config() {
    let config = Config::default();
    assert_eq!(config.nc_url, "");
    assert_eq!(config.nc_user, "");
    assert_eq!(config.nc_password, "");
    assert_eq!(config.nc_replacement_config, "replacements.json");
}

#[test]
fn config_text_masks_the_password() {
    let config = Config {
        nc_url: "https://cloud.example/status".to_string(),
        nc_user: "admin".to_string(),
        nc_password: "hunter2".to_string(),
        nc_replacement_config: "replacements.json".to_string(),
    };
    assert_eq!(
        config.to_text(),
        "nce config:\nnc_url = \"https://cloud.example/status\"\nnc_user = \"admin\"\nnc_password = \"*****\"\nnc_replacement_config = \"replacements.json\""
    );
}

#[test]
fn config_text_without_password() {
    assert_eq!(
        Config::default().to_text(),
        "nce config:\nnc_url = \"\"\nnc_user = \"\"\nnc_password = \"\"\nnc_replacement_config = \"replacements.json\""
    );
}

#[test]
fn counter_starts_at_zero_and_counts() {
    let mut counter = RequestCounter::new();
    assert_eq!(counter.start_count(), 0);
    assert_eq!(counter.end_count(), 0);
    counter.count_start();
    counter.count_start();
    counter.count_end();
    assert_eq!(counter.start_count(), 2);
    assert_eq!(counter.end_count(), 1);
}

#[test]
fn response_puts_the_measurements_first() {
    let mut counter = RequestCounter::new();
    counter.count_start();
    counter.count_start();
    counter.count_end();
    let body = index("0.5", "0.25", "0.75", &counter, "a 1\nnc_metric_names_hash 6338341");
    assert_eq!(
        body,
        "# exporter duration\nrust_nce_parse_duration 0.5\nrust_nce_load_duration 0.25\nrust_nce_total_duration 0.75\nrust_nce_request_start_count 2\nrust_nce_request_end_count 1\n# nextcloud metrics\nocs_meta_up 1\na 1\nnc_metric_names_hash 6338341"
    );
}
