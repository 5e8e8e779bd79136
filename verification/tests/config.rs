use wpic::config::{
    config_path, cull_file, home_dir, rates_file, restore_file, view_cache_dir, Config,
};

#[test]
fn without_a_file_the_defaults_hold() {
    let c = Config::load(None, "/home/me", None);
    assert_eq!(c.rclone_dest, "gdrive:Pictures");
    assert_eq!(c.gap_hours, 5);
    assert_eq!(c.pictures, "/home/me/Pictures");
}

#[test]
fn the_template_says_the_defaults() {
    let t = Config::template_text();
    assert_eq!(
        t,
        "# wpic config\n\n# Google Drive upload destination (an rclone remote + base path).\n# Each occasion uploads to <rclone_dest>/<occasion name>.\nrclone_dest = gdrive:Pictures\n\n# Start a new occasion when consecutive shots are more than this\n# many hours apart.\ngap_hours = 5\n\n# Where sorted occasions live (card mode) and are managed (library mode).\npictures = ~/Pictures\n"
    );
    let c = Config::load(Some(&t), "/home/me", None);
    assert_eq!(c.rclone_dest, "gdrive:Pictures");
    assert_eq!(c.gap_hours, 5);
    assert_eq!(c.pictures, "/home/me/Pictures");
}

#[test]
fn comments_may_stand_behind_values() {
    let t = "rclone_dest = gdrive:Pictures   # uploads go to <rclone_dest>/<occasion>\ngap_hours   = 5                 # new occasion when shots are >N hours apart\npictures    = ~/Pictures        # library / sort destination\n";
    let c = Config::load(Some(t), "/home/me", None);
    assert_eq!(c.rclone_dest, "gdrive:Pictures");
    assert_eq!(c.gap_hours, 5);
    assert_eq!(c.pictures, "/home/me/Pictures");
    let d = Config::load(Some("gap_hours = 8 # hours\npictures = /a#b\nrclone_dest = # none"), "/h", None);
    assert_eq!(d.gap_hours, 8);
    assert_eq!(d.pictures, "/a#b");
    assert_eq!(d.rclone_dest, "gdrive:Pictures");
}

#[test]
fn lines_set_what_they_name() {
    let t = "\n  # gap_hours = 1\n gap_hours=3\nrclone_dest =  r:x = y \npictures= /p \nunknown = 1\nno equals sign\n";
    let c = Config::load(Some(t), "/h", None);
    assert_eq!(c.gap_hours, 3);
    assert_eq!(c.rclone_dest, "r:x = y");
    assert_eq!(c.pictures, "/p");
}

#[test]
fn useless_values_change_nothing() {
    let t = "gap_hours = 0\ngap_hours = -4\ngap_hours = five\nrclone_dest =\npictures = \n";
    let c = Config::load(Some(t), "/h", None);
    assert_eq!(c.gap_hours, 5);
    assert_eq!(c.rclone_dest, "gdrive:Pictures");
    assert_eq!(c.pictures, "/h/Pictures");
}

#[test]
fn the_later_line_counts() {
    let c = Config::load(Some("gap_hours = 2\ngap_hours = 7\n"), "/h", None);
    assert_eq!(c.gap_hours, 7);
}

#[test]
fn the_environment_overrides_the_destination() {
    assert_eq!(Config::load(Some("rclone_dest = a:"), "/h", Some("b:")).rclone_dest, "b:");
    assert_eq!(Config::load(Some("rclone_dest = a:"), "/h", Some("")).rclone_dest, "a:");
}

#[test]
fn files_have_their_places() {
    assert_eq!(home_dir(Some("/home/me")), "/home/me");
    assert_eq!(home_dir(None), "/root");
    assert_eq!(config_path(None, "/h"), "/h/.config/wpic/config");
    assert_eq!(config_path(Some("/x"), "/h"), "/x/wpic/config");
    assert_eq!(view_cache_dir(None, Some("/h")), "/h/.cache/wpic/views");
    assert_eq!(view_cache_dir(None, None), "/tmp/.cache/wpic/views");
    assert_eq!(view_cache_dir(Some("/c"), None), "/c/wpic/views");
    assert_eq!(cull_file("/tmp"), "/tmp/wpic-cull.txt");
    assert_eq!(rates_file("/tmp"), "/tmp/wpic-rates.txt");
    assert_eq!(restore_file("/tmp"), "/tmp/wpic-restore.txt");
}
