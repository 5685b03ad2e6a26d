//! Configuration values, list edits, dotfiles and locations.

use dotbak::config::{Config, FilesConfig};
use dotbak::dotfile::Dotfile;
use dotbak::locations::{config_path, dotbak_dir, repo_path};
use dotbak::paths::home_relative_path;

#[test]
fn default_patterns_track_the_configuration_itself() {
    let fc = FilesConfig::default();
    assert_eq!(fc.included, vec![String::from(".dotbak/config.toml")]);
    assert_eq!(fc.excluded, vec![String::from(".dotbak/dotfiles")]);
}

#[test]
fn default_config_has_no_remote_and_default_patterns() {
    let c = Config::default();
    assert_eq!(c.path, String::new());
    assert!(c.repository_url.is_none());
    assert_eq!(c.files.included, vec![String::from(".dotbak/config.toml")]);
    assert_eq!(c.files.excluded, vec![String::from(".dotbak/dotfiles")]);
}

#[test]
fn add_dotfile_appends_to_the_inclusion_list() {
    let mut c = Config::default();
    c.add_dotfile(String::from(".bashrc"));
    c.add_dotfile(String::from(".zshrc"));
    assert_eq!(
        c.files.included,
        vec![
            String::from(".dotbak/config.toml"),
            String::from(".bashrc"),
            String::from(".zshrc"),
        ]
    );
}

#[test]
fn remove_dotfile_removes_every_occurrence_and_keeps_order() {
    let mut c = Config::default();
    c.add_dotfile(String::from(".bashrc"));
    c.add_dotfile(String::from(".zshrc"));
    c.add_dotfile(String::from(".bashrc"));
    c.remove_dotfile(&String::from(".bashrc"));
    assert_eq!(
        c.files.included,
        vec![String::from(".dotbak/config.toml"), String::from(".zshrc")]
    );
}

#[test]
fn dotfile_keeps_its_path() {
    let d = Dotfile::new(String::from(".config/nvim/init.lua"));
    assert_eq!(d.path, String::from(".config/nvim/init.lua"));
}

#[test]
fn locations_are_joined_under_the_dotbak_directory() {
    let base = dotbak_dir("/home/user");
    assert_eq!(base, String::from("/home/user/.dotbak"));
    assert_eq!(
        config_path(base.as_str()),
        String::from("/home/user/.dotbak/config.toml")
    );
    assert_eq!(
        repo_path(base.as_str()),
        String::from("/home/user/.dotbak/dotfiles")
    );
}

#[test]
fn command_line_paths_are_made_home_relative() {
    assert_eq!(
        home_relative_path("/home/user", "/home/user/.bashrc"),
        String::from(".bashrc")
    );
    assert_eq!(
        home_relative_path("/home/user", "/home/user/.config/nvim/"),
        String::from(".config/nvim")
    );
    assert_eq!(home_relative_path("/home/user", ".vimrc"), String::from(".vimrc"));
    assert_eq!(home_relative_path("/home/user", "notes/"), String::from("notes"));
    assert_eq!(
        home_relative_path("/home/user", "/elsewhere/x"),
        String::from("/elsewhere/x")
    );
    // a textual prefix that is not a path boundary is not the home root
    assert_eq!(
        home_relative_path("/home/user", "/home/userx/.bashrc"),
        String::from("/home/userx/.bashrc")
    );
}
