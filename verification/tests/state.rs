use ultrapaper::hypr::hyprpaper::{HyprpaperConfig, WallpaperEntry};
use ultrapaper::state::{
    add_wallpaper, assign_wallpaper, directory_of, get_first_wallpaper_path, get_monitors,
    get_selected_monitor, has_config, has_empty_monitor_name, has_monitor,
    has_more_than_one_monitors,
    has_more_than_one_wallpaper, has_more_wallpapers_than_monitors, has_wallpapers,
    remove_wallpaper_of_monitor, save_config, set_config, set_monitors,
    set_preloads_from_wallpapers, set_selected_monitor, set_wallpapers, AppState,
};

fn state_with(text: &str, monitors: &[&str], selected: &str) -> AppState {
    let mut state = AppState::default();
    set_config(&mut state, HyprpaperConfig::new("/tmp/hyprpaper.conf".to_string(), text));
    set_monitors(&mut state, monitors.iter().map(|m| m.to_string()).collect());
    set_selected_monitor(&mut state, selected.to_string());
    state
}

fn pairs(state: &AppState) -> Vec<(String, String)> {
    let config = state.config.as_ref().unwrap();
    config.wallpapers.iter().map(|e| (e.monitor.clone(), e.path.clone())).collect()
}

fn preloads(state: &AppState) -> Vec<String> {
    state.config.as_ref().unwrap().preloads.clone()
}

fn pair(monitor: &str, path: &str) -> (String, String) {
    (monitor.to_string(), path.to_string())
}

fn entry(monitor: &str, path: &str) -> WallpaperEntry {
    WallpaperEntry::new(monitor.to_string(), path.to_string())
}

fn assign(state: &mut AppState, monitor: &str, path: &str) {
    set_selected_monitor(state, monitor.to_string());
    assign_wallpaper(state, path.to_string());
}

#[test]
fn default_state_is_empty() {
    let state = AppState::default();
    assert!(state.config.is_none());
    assert!(!has_config(&state));
    assert!(state.monitors.is_empty());
    assert_eq!(get_selected_monitor(&state), "");
    assert!(get_monitors(&state).is_empty());
    assert!(!has_more_than_one_monitors(&state));
}

#[test]
fn set_config_installs_the_config() {
    let mut state = AppState::default();
    set_monitors(&mut state, vec!["DP-1".to_string()]);
    set_selected_monitor(&mut state, "DP-1".to_string());
    set_config(
        &mut state,
        HyprpaperConfig::new("/c.conf".to_string(), "wallpaper = DP-1,/a.png\n"),
    );
    assert!(has_config(&state));
    assert_eq!(pairs(&state), vec![pair("DP-1", "/a.png")]);
    assert_eq!(state.config.as_ref().unwrap().config_path(), "/c.conf");
    assert_eq!(get_monitors(&state), vec!["DP-1"]);
    assert_eq!(get_selected_monitor(&state), "DP-1");
}

#[test]
fn set_wallpapers_replaces_the_entries_only() {
    let mut state = state_with("preload = /a.png\nwallpaper = DP-1,/a.png\n", &["DP-1"], "DP-1");
    set_wallpapers(&mut state, vec![entry("DP-2", "/b.png"), entry("", "/c.png")]);
    assert_eq!(pairs(&state), vec![pair("DP-2", "/b.png"), pair("", "/c.png")]);
    assert_eq!(preloads(&state), vec!["/a.png"]);
    set_wallpapers(&mut state, vec![]);
    assert!(pairs(&state).is_empty());
    assert_eq!(get_selected_monitor(&state), "DP-1");
}

#[test]
fn remove_wallpaper_of_monitor_removes_every_entry_of_it() {
    let mut state = state_with(
        "wallpaper = DP-1,/a.png\nwallpaper = DP-2,/b.png\nwallpaper = DP-1,/c.png\nwallpaper = ,/d.png\n",
        &["DP-1", "DP-2"],
        "",
    );
    remove_wallpaper_of_monitor(&mut state, "DP-1".to_string());
    assert_eq!(pairs(&state), vec![pair("DP-2", "/b.png"), pair("", "/d.png")]);
    remove_wallpaper_of_monitor(&mut state, "DP-3".to_string());
    assert_eq!(pairs(&state), vec![pair("DP-2", "/b.png"), pair("", "/d.png")]);
    remove_wallpaper_of_monitor(&mut state, String::new());
    assert_eq!(pairs(&state), vec![pair("DP-2", "/b.png")]);
}

#[test]
fn add_wallpaper_appends() {
    let mut state = state_with("wallpaper = DP-1,/a.png\n", &["DP-1"], "");
    add_wallpaper(&mut state, entry("DP-1", "/b.png"));
    assert_eq!(pairs(&state), vec![pair("DP-1", "/a.png"), pair("DP-1", "/b.png")]);
}

#[test]
fn set_preloads_from_wallpapers_keeps_each_path_once_in_first_order() {
    let mut state = state_with(
        "preload = /stale.png\nwallpaper = DP-1,/b.png\nwallpaper = DP-2,/a.png\nwallpaper = DP-3,/b.png\nwallpaper = DP-4,/c.png\nwallpaper = DP-5,/a.png\n",
        &[],
        "",
    );
    set_preloads_from_wallpapers(&mut state);
    assert_eq!(preloads(&state), vec!["/b.png", "/a.png", "/c.png"]);
    assert_eq!(pairs(&state).len(), 5);
}

#[test]
fn set_preloads_from_wallpapers_of_no_entries_is_empty() {
    let mut state = state_with("preload = /stale.png\n", &[], "");
    set_preloads_from_wallpapers(&mut state);
    assert!(preloads(&state).is_empty());
}

#[test]
fn monitors_are_kept_in_order() {
    let mut state = AppState::default();
    set_monitors(&mut state, vec!["DP-2".to_string(), "DP-1".to_string()]);
    assert_eq!(get_monitors(&state), vec!["DP-2", "DP-1"]);
    assert!(has_more_than_one_monitors(&state));
    set_monitors(&mut state, vec!["DP-1".to_string()]);
    assert_eq!(get_monitors(&state), vec!["DP-1"]);
    assert!(!has_more_than_one_monitors(&state));
}

#[test]
fn counting_queries() {
    let state = state_with("", &["DP-1"], "");
    assert!(!has_wallpapers(&state));
    assert!(!has_more_than_one_wallpaper(&state));
    assert!(!has_more_wallpapers_than_monitors(&state));
    let state = state_with("wallpaper = DP-1,/a.png\n", &["DP-1"], "");
    assert!(has_wallpapers(&state));
    assert!(!has_more_than_one_wallpaper(&state));
    assert!(!has_more_wallpapers_than_monitors(&state));
    let state = state_with("wallpaper = DP-1,/a.png\nwallpaper = ,/b.png\n", &["DP-1"], "");
    assert!(has_wallpapers(&state));
    assert!(has_more_than_one_wallpaper(&state));
    assert!(has_more_wallpapers_than_monitors(&state));
    let state = state_with("wallpaper = ,/b.png\n", &[], "");
    assert!(has_more_wallpapers_than_monitors(&state));
}

#[test]
fn first_wallpaper_path_is_the_directory_of_the_first_entry() {
    let state = state_with("wallpaper = DP-1,/img/nature/a.png\nwallpaper = DP-2,/other/b.png\n", &[], "");
    assert_eq!(get_first_wallpaper_path(&state), "/img/nature");
    let state = state_with("wallpaper = DP-1,/a.png\n", &[], "");
    assert_eq!(get_first_wallpaper_path(&state), "/");
    let state = state_with("wallpaper = DP-1,a.png\n", &[], "");
    assert_eq!(get_first_wallpaper_path(&state), "");
    let state = state_with("wallpaper = DP-1,img/a.png\n", &[], "");
    assert_eq!(get_first_wallpaper_path(&state), "img");
}

#[test]
fn first_wallpaper_path_falls_back_to_the_root() {
    let state = state_with("", &[], "");
    assert_eq!(get_first_wallpaper_path(&state), "/");
    let state = state_with("wallpaper = DP-1,/\n", &[], "");
    assert_eq!(get_first_wallpaper_path(&state), "/");
    let state = state_with("wallpaper = DP-1,\n", &[], "");
    assert_eq!(get_first_wallpaper_path(&state), "/");
}

#[test]
fn directory_of_gives_the_parent_or_the_root() {
    assert_eq!(directory_of(Some("/img".to_string())), "/img");
    assert_eq!(directory_of(Some(String::new())), "");
    assert_eq!(directory_of(None), "/");
}

#[test]
fn has_empty_monitor_name_finds_the_all_monitors_entry() {
    assert!(!has_empty_monitor_name(&state_with("", &[], "")));
    assert!(!has_empty_monitor_name(&state_with("wallpaper = DP-1,/a.png\n", &[], "")));
    assert!(has_empty_monitor_name(&state_with("wallpaper = ,/a.png\n", &[], "")));
    assert!(has_empty_monitor_name(&state_with(
        "wallpaper = DP-1,/a.png\nwallpaper = ,/a.png\n",
        &[],
        ""
    )));
}

#[test]
fn has_monitor_finds_an_entry_by_name() {
    let state = state_with("wallpaper = DP-1,/a.png\nwallpaper = ,/b.png\n", &[], "");
    assert!(has_monitor(&state, "DP-1".to_string()));
    assert!(has_monitor(&state, String::new()));
    assert!(!has_monitor(&state, "DP-2".to_string()));
    assert!(!has_monitor(&state, "dp-1".to_string()));
}

#[test]
fn save_config_gives_the_text_of_the_state() {
    let state = state_with("wallpaper = DP-1,/a.png\npreload = /a.png\n", &[], "");
    let write = save_config(&state);
    assert_eq!(write.path, "/tmp/hyprpaper.conf");
    assert_eq!(write.contents, "preload = /a.png\nwallpaper = DP-1,/a.png\n");
}

#[test]
fn selected_monitor_is_what_was_set() {
    let mut state = AppState::default();
    set_selected_monitor(&mut state, "DP-1".to_string());
    assert_eq!(get_selected_monitor(&state), "DP-1");
    set_selected_monitor(&mut state, String::new());
    assert_eq!(get_selected_monitor(&state), "");
}

#[test]
fn assign_reports_monitor_path_and_prior_count() {
    let mut state = state_with("wallpaper = DP-1,/a.png\nwallpaper = DP-2,/b.png\n", &["DP-1", "DP-2"], "DP-1");
    let assignment = assign_wallpaper(&mut state, "/c.png".to_string());
    assert_eq!(assignment.monitor, "DP-1");
    assert_eq!(assignment.path, "/c.png");
    assert!(assignment.had_multiple);
    let assignment = assign_wallpaper(&mut state, "/d.png".to_string());
    assert!(assignment.had_multiple);
    let mut state = state_with("wallpaper = DP-1,/a.png\n", &["DP-1"], "");
    let assignment = assign_wallpaper(&mut state, "/c.png".to_string());
    assert_eq!(assignment.monitor, "");
    assert!(!assignment.had_multiple);
}

#[test]
fn assign_replaces_the_entry_of_the_selected_monitor() {
    let mut state = state_with(
        "wallpaper = DP-1,/a.png\nwallpaper = DP-2,/b.png\n",
        &["DP-1", "DP-2"],
        "DP-1",
    );
    assign_wallpaper(&mut state, "/c.png".to_string());
    assert_eq!(pairs(&state), vec![pair("DP-2", "/b.png"), pair("DP-1", "/c.png")]);
    assert_eq!(preloads(&state), vec!["/b.png", "/c.png"]);
}

#[test]
fn assign_evicts_the_all_monitors_entry_when_entries_outnumber_monitors() {
    let mut state = state_with(
        "wallpaper = ,/a.png\nwallpaper = DP-1,/b.png\n",
        &["DP-1", "DP-2"],
        "DP-2",
    );
    assign_wallpaper(&mut state, "/c.png".to_string());
    assert_eq!(pairs(&state), vec![pair("DP-1", "/b.png"), pair("DP-2", "/c.png")]);
    assert_eq!(preloads(&state), vec!["/b.png", "/c.png"]);
}

#[test]
fn assign_to_all_monitors_without_monitors_leaves_nothing() {
    let mut state = state_with("wallpaper = DP-1,/b.png\n", &[], "");
    assign_wallpaper(&mut state, "/c.png".to_string());
    assert!(pairs(&state).is_empty());
    assert!(preloads(&state).is_empty());
}

#[test]
fn assignments_keep_one_entry_for_each_monitor() {
    let mut state = state_with("", &["DP-1", "DP-2", "DP-3"], "");
    let picks = [
        ("DP-1", "/a.png"),
        ("DP-2", "/b.png"),
        ("DP-1", "/c.png"),
        ("", "/d.png"),
        ("DP-3", "/e.png"),
        ("DP-3", "/f.png"),
        ("DP-2", "/a.png"),
        ("DP-1", "/a.png"),
        ("DP-2", "/g.png"),
    ];
    for (monitor, path) in picks {
        assign(&mut state, monitor, path);
        let all = pairs(&state);
        for (i, a) in all.iter().enumerate() {
            for b in all.iter().skip(i + 1) {
                assert_ne!(a.0, b.0);
            }
        }
    }
    assert_eq!(
        pairs(&state),
        vec![pair("DP-3", "/f.png"), pair("DP-1", "/a.png"), pair("DP-2", "/g.png")]
    );
}

#[test]
fn assignment_does_not_repair_entries_that_share_a_monitor() {
    let mut state = state_with(
        "wallpaper = DP-1,/a.png\nwallpaper = DP-1,/b.png\n",
        &["DP-1", "DP-2", "DP-3"],
        "DP-2",
    );
    assign_wallpaper(&mut state, "/c.png".to_string());
    assert_eq!(
        pairs(&state),
        vec![pair("DP-1", "/a.png"), pair("DP-1", "/b.png"), pair("DP-2", "/c.png")]
    );
}

#[test]
fn preloads_follow_the_entries_after_each_assignment() {
    let mut state = state_with("preload = /stale.png\n", &["DP-1", "DP-2", "DP-3"], "");
    assign(&mut state, "DP-1", "/a.png");
    assert_eq!(preloads(&state), vec!["/a.png"]);
    assign(&mut state, "DP-2", "/a.png");
    assert_eq!(preloads(&state), vec!["/a.png"]);
    assign(&mut state, "DP-3", "/b.png");
    assert_eq!(preloads(&state), vec!["/a.png", "/b.png"]);
    assign(&mut state, "DP-1", "/c.png");
    assert_eq!(pairs(&state), vec![pair("DP-2", "/a.png"), pair("DP-3", "/b.png"), pair("DP-1", "/c.png")]);
    assert_eq!(preloads(&state), vec!["/a.png", "/b.png", "/c.png"]);
    assign(&mut state, "", "/b.png");
    assert_eq!(preloads(&state), vec!["/b.png"]);
}

#[test]
fn all_monitors_entry_is_alone_after_an_all_monitors_assignment() {
    let mut state = state_with(
        "wallpaper = DP-1,/a.png\nwallpaper = DP-2,/b.png\nwallpaper = ,/c.png\n",
        &["DP-1", "DP-2"],
        "",
    );
    assign_wallpaper(&mut state, "/d.png".to_string());
    assert_eq!(pairs(&state), vec![pair("", "/d.png")]);
    assert!(has_empty_monitor_name(&state));
    assert!(!has_more_than_one_wallpaper(&state));
}

#[test]
fn all_monitors_entry_stays_beside_a_single_one_while_monitors_suffice() {
    let mut state = state_with("wallpaper = ,/a.png\n", &["DP-1", "DP-2"], "DP-1");
    assign_wallpaper(&mut state, "/c.png".to_string());
    assert!(has_empty_monitor_name(&state));
    assert!(has_more_than_one_wallpaper(&state));
}

#[test]
fn assigning_twice_is_assigning_once() {
    let cases = [
        ("", vec!["DP-1"], "", "/a.png"),
        ("wallpaper = DP-1,/a.png\nwallpaper = DP-2,/b.png\n", vec!["DP-1", "DP-2"], "DP-1", "/c.png"),
        ("wallpaper = ,/a.png\n", vec!["DP-1", "DP-2"], "DP-1", "/c.png"),
        ("wallpaper = ,/a.png\nwallpaper = DP-1,/b.png\n", vec!["DP-1", "DP-2"], "DP-2", "/c.png"),
        ("wallpaper = DP-1,/a.png\n", vec![], "", "/c.png"),
        ("wallpaper = DP-1,/a.png\nwallpaper = DP-1,/b.png\n", vec!["DP-1"], "DP-2", "/c.png"),
    ];
    for (text, monitors, selected, path) in cases {
        let mut state = state_with(text, &monitors, selected);
        assign_wallpaper(&mut state, path.to_string());
        let once = (pairs(&state), preloads(&state));
        assign_wallpaper(&mut state, path.to_string());
        assert_eq!((pairs(&state), preloads(&state)), once);
    }
}

#[test]
fn text_of_a_monitor_with_a_comma_reads_back_differently() {
    let mut state = state_with("", &[], "");
    set_wallpapers(&mut state, vec![entry("DP,1", "/a.png")]);
    let write = save_config(&state);
    assert_eq!(write.contents, "wallpaper = DP,1,/a.png\n");
    let read = HyprpaperConfig::new(write.path, &write.contents);
    assert_eq!(read.wallpapers.len(), 1);
    assert_eq!(read.wallpapers[0].monitor, "DP");
    assert_eq!(read.wallpapers[0].path, "1,/a.png");
}

#[test]
fn text_of_an_untrimmed_path_reads_back_trimmed() {
    let mut state = state_with("", &[], "");
    set_wallpapers(&mut state, vec![entry("DP-1", " /a.png ")]);
    set_preloads_from_wallpapers(&mut state);
    let write = save_config(&state);
    assert_eq!(write.contents, "preload =  /a.png \nwallpaper = DP-1, /a.png \n");
    let read = HyprpaperConfig::new(write.path, &write.contents);
    assert_eq!(read.preloads, vec!["/a.png"]);
    assert_eq!(read.wallpapers[0].path, "/a.png");
}

#[test]
fn text_of_an_empty_preload_reads_back_as_none() {
    let mut state = state_with("", &[], "");
    set_wallpapers(&mut state, vec![entry("DP-1", "")]);
    set_preloads_from_wallpapers(&mut state);
    let write = save_config(&state);
    assert_eq!(write.contents, "preload = \nwallpaper = DP-1,\n");
    let read = HyprpaperConfig::new(write.path, &write.contents);
    assert!(read.preloads.is_empty());
    assert_eq!(read.wallpapers.len(), 1);
}
