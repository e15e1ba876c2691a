use cxp::action::Command;
use cxp::path::{base_name, join};
use cxp::store::Cxp;

#[test]
fn join_puts_one_separator_between() {
    assert_eq!(join("/home/alice/.local/share", "cxp"), "/home/alice/.local/share/cxp");
    assert_eq!(join("data", "a.txt"), "data/a.txt");
}

#[test]
fn join_keeps_a_separator_that_is_there() {
    assert_eq!(join("/home/alice/", "cxp"), "/home/alice/cxp");
    assert_eq!(join("/", "cxp"), "/cxp");
}

#[test]
fn join_with_an_empty_directory_is_the_name() {
    assert_eq!(join("", "cxp"), "cxp");
}

#[test]
fn join_counts_characters_not_bytes() {
    assert_eq!(join("/tmp/été", "à.txt"), "/tmp/été/à.txt");
    assert_eq!(join("/tmp/été/", "à.txt"), "/tmp/été/à.txt");
}

#[test]
fn base_name_is_the_last_component() {
    assert_eq!(base_name("/tmp/a.txt"), Some("a.txt".to_string()));
    assert_eq!(base_name("a.txt"), Some("a.txt".to_string()));
    assert_eq!(base_name("dir/sub/.hidden"), Some(".hidden".to_string()));
    assert_eq!(base_name("/tmp/été/à.txt"), Some("à.txt".to_string()));
}

#[test]
fn base_name_ignores_trailing_separators() {
    assert_eq!(base_name("/tmp/dir/"), Some("dir".to_string()));
    assert_eq!(base_name("/tmp/dir///"), Some("dir".to_string()));
    assert_eq!(base_name("//tmp//dir"), Some("dir".to_string()));
}

#[test]
fn base_name_of_a_path_without_components_is_none() {
    assert_eq!(base_name(""), None);
    assert_eq!(base_name("/"), None);
    assert_eq!(base_name("///"), None);
}

#[test]
fn base_name_of_dot_and_dot_dot_is_none() {
    assert_eq!(base_name("."), None);
    assert_eq!(base_name(".."), None);
    assert_eq!(base_name("/tmp/."), None);
    assert_eq!(base_name("/tmp/../"), None);
}

#[test]
fn base_name_keeps_names_that_only_begin_with_dots() {
    assert_eq!(base_name("..."), Some("...".to_string()));
    assert_eq!(base_name("/tmp/..a"), Some("..a".to_string()));
    assert_eq!(base_name("/tmp/.a"), Some(".a".to_string()));
    assert_eq!(base_name("a."), Some("a.".to_string()));
}

#[test]
fn parse_knows_the_six_commands() {
    assert_eq!(Command::parse("c"), Some(Command::Copy));
    assert_eq!(Command::parse("x"), Some(Command::Cut));
    assert_eq!(Command::parse("p"), Some(Command::Paste));
    assert_eq!(Command::parse("l"), Some(Command::List));
    assert_eq!(Command::parse("t"), Some(Command::Tree));
    assert_eq!(Command::parse("e"), Some(Command::Empty));
}

#[test]
fn parse_refuses_anything_else() {
    assert_eq!(Command::parse(""), None);
    assert_eq!(Command::parse("C"), None);
    assert_eq!(Command::parse("cp"), None);
    assert_eq!(Command::parse("copy"), None);
    assert_eq!(Command::parse(" c"), None);
    assert_eq!(Command::parse("é"), None);
}

#[test]
fn the_staging_directory_is_the_entry_cxp_of_the_data_directory() {
    assert_eq!(Cxp::in_data_dir("/home/alice/.local/share").data_dir(), "/home/alice/.local/share/cxp");
    assert_eq!(Cxp::in_data_dir("/data/").data_dir(), "/data/cxp");
}

#[test]
fn without_a_data_directory_there_is_no_clipboard() {
    assert!(Cxp::found_in(None).is_none());
    let cxp = Cxp::found_in(Some("/home/bob/.local/share".to_string())).unwrap();
    assert_eq!(cxp.data_dir(), "/home/bob/.local/share/cxp");
}

#[test]
fn the_clipboard_of_this_user_ends_in_cxp() {
    match Cxp::new() {
        Some(cxp) => {
            assert_eq!(base_name(cxp.data_dir()), Some("cxp".to_string()));
            assert!(cxp.data_dir().len() > 3);
        }
        None => {}
    }
}

#[test]
fn staged_path_is_the_base_name_in_the_staging_directory() {
    let cxp = Cxp::in_data_dir("/data");
    assert_eq!(cxp.staged_path("/tmp/a.txt"), Some("/data/cxp/a.txt".to_string()));
    assert_eq!(cxp.staged_path("docs/"), Some("/data/cxp/docs".to_string()));
    assert_eq!(cxp.staged_path("/"), None);
    assert_eq!(cxp.staged_path(".."), None);
}
