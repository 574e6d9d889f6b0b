use trash::error::Error;
use trash::settings::Settings;

#[test]
fn defaults_have_both_toggles_off() {
    let s = Settings::default();
    assert!(!s.use_unicode());
    assert!(!s.use_colors());
}

#[test]
fn getters_report_the_chosen_toggles() {
    let s = Settings::new(true, false);
    assert!(s.use_unicode());
    assert!(!s.use_colors());
}

#[test]
fn settings_render_as_a_pretty_document() {
    let s = Settings::new(true, false);
    assert_eq!(
        s.render().as_str(),
        "{\n  \"use_unicode\": true,\n  \"use_colors\": false\n}"
    );
}

#[test]
fn rendered_settings_load_back_unchanged() {
    for (u, c) in [(false, false), (false, true), (true, false), (true, true)] {
        let s = Settings::new(u, c);
        let text = s.render();
        let reloaded = Settings::load(text.as_str()).unwrap();
        assert_eq!(reloaded.use_unicode(), u);
        assert_eq!(reloaded.use_colors(), c);
    }
}

#[test]
fn rendered_settings_are_json_other_readers_accept() {
    let text = Settings::new(true, true).render();
    let value: serde_json::Value = serde_json::from_str(text.as_str()).unwrap();
    assert_eq!(value["use_unicode"].as_bool().unwrap(), true);
    assert_eq!(value["use_colors"].as_bool().unwrap(), true);
}

#[test]
fn an_empty_settings_document_means_the_defaults() {
    let s = Settings::load("").unwrap();
    assert!(!s.use_unicode());
    assert!(!s.use_colors());
}

#[test]
fn a_truncated_settings_document_means_the_defaults() {
    let s = Settings::load("{\n  \"use_unicode\": tru").unwrap();
    assert!(!s.use_unicode());
    assert!(!s.use_colors());
}

#[test]
fn malformed_settings_report_line_and_column() {
    match Settings::load("{\n  \"use_unicode\": maybe,\n  \"use_colors\": false\n}") {
        Err(Error::InvalidJSON(line, column)) => {
            assert_eq!(line, 2);
            assert_eq!(column, 18);
        },
        _ => panic!("expected a syntax failure"),
    }
}
