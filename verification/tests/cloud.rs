use cologna_karaoke::cloud::{
    account_from_whoami, cloud_status, login_args, mega_outcome, orphan_songs, remote_path_for, remote_song_names,
    safe_name_from_dir, sync_all_outcome,
};
use cologna_karaoke::settings::MegaSettings;

#[test]
fn status_needs_the_binary() {
    let s = cloud_status(None, Some("a@b.c".into()));
    assert!(!s.available && !s.logged_in && s.account.is_none());
    let s = cloud_status(Some("/usr/local/bin/mega-exec".into()), Some("a@b.c".into()));
    assert!(s.available && s.logged_in);
    assert_eq!(s.account.as_deref(), Some("a@b.c"));
    let s = cloud_status(Some("/x".into()), None);
    assert!(s.available && !s.logged_in);
}

#[test]
fn remote_path_uses_folder_name() {
    assert_eq!(safe_name_from_dir("/lib/Queen_Song"), "Queen_Song");
    assert_eq!(safe_name_from_dir("/lib/Queen_Song/"), "Queen_Song");
    assert_eq!(safe_name_from_dir("/lib/.."), "unknown");
    assert_eq!(remote_path_for("/lib/Queen_Song"), "/ColognaKaraoke/Queen_Song");
}

#[test]
fn login_needs_credentials_and_passes_mfa() {
    let mut m = MegaSettings::default();
    assert_eq!(login_args(&m).unwrap_err(), "Email MEGA non configurata");
    m.email = Some("a@b.c".into());
    assert_eq!(login_args(&m).unwrap_err(), "Password MEGA non configurata");
    m.password = Some("pw".into());
    assert_eq!(login_args(&m).unwrap(), vec!["login", "a@b.c", "pw"]);
    m.mfa = Some(String::new());
    assert_eq!(login_args(&m).unwrap(), vec!["login", "a@b.c", "pw"]);
    m.mfa = Some("123456".into());
    assert_eq!(login_args(&m).unwrap(), vec!["login", "a@b.c", "pw", "123456"]);
}

#[test]
fn reads_megacmd_output() {
    assert_eq!(mega_outcome(true, " ok \n", "warn"), Ok("ok".to_string()));
    assert_eq!(mega_outcome(false, "out", " bad "), Err("bad".to_string()));
    assert_eq!(mega_outcome(false, " out ", "  "), Err("out".to_string()));
    assert_eq!(account_from_whoami("Account e-mail: user@example.com\n"), "user@example.com");
    assert_eq!(account_from_whoami("banner\n  user@example.com  "), "user@example.com");
    assert_eq!(account_from_whoami(""), "");
}

#[test]
fn lists_remote_songs_missing_locally() {
    let names = remote_song_names("A_Song/\n\n  B_Song  \nC/\n");
    assert_eq!(names, vec!["A_Song", "B_Song", "C"]);
    let local = vec!["B_Song".to_string()];
    assert_eq!(orphan_songs(names, &local), vec!["A_Song", "C"]);
}

#[test]
fn sync_errors_are_joined() {
    assert_eq!(sync_all_outcome(&vec![]), Ok(()));
    assert_eq!(sync_all_outcome(&vec!["a".into(), "b".into()]), Err("a; b".to_string()));
}
