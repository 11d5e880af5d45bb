use cargotom::config::{default_offline, Config};
use cargotom::info_api::ViewMode;

#[test]
fn settings_default_to_online_search() {
    let c = Config::default();
    assert_eq!(c.per_page, 25);
    assert!(c.feature_display_mode == ViewMode::UnusedOpt);
    assert!(!c.hide_docs_info_message);
    assert!(!c.sort_format);
    assert!(c.stable_version);
    assert!(!c.offline);
    assert!(!default_offline());
}
