use keysync::keys::canonicalize;
use keysync::keys::clean_keys;
use keysync::keys::filter_keys;
use keysync::keys::split_keys;
use keysync::reconcile::read_keys;
use keysync::reconcile::reconcile;
use keysync::reconcile::AuthorizedKeys;
use keysync::sources::merge_provider_keys;

const KEY_A: &str = "ssh-rsa AAAAB3NzaC1yc2EAAAADAQABAAABgQDArNszFqR3vxzTe+pr/U/kmCn8aQAHNKfPMK4DJEvMvEbypiJV3Pm4iQG8jK6xBOTvcrFJTDX0VvgG0ky+iGOaLXw/M30BUsRhZlonasa0tbuu1PtHXlToXaCPyIPB39XucTjOQYtyFoS7yMfBuw0JhQ4ETJflvvHet5UkrbcqoSrac2ljtokmwR7z6cFEJTDXncEAhJsSJVQgPXWlf/j76XV8tP7ZFOBR7UVLSR2TXCLtg67o4Whu3ji/BV5Qa6t6Ef6rT4mndB29rY9D35qpASVlic84WzYKwRSfsc9FtryaA6mQMbfhN3xySKkfV5CgrVCH/rHGP09VzMlrlR+tHZDqznxeL4pr7+uJOHvMbgZHBvdbanQyApSGdB6HbRB1z8lVmbtOAsuK4TNkTQUNo8204NKJgtEsZnbqOWM0OMiJpjmhftqMq0Wl7OzZYWDzAEgS3ELoAl1DCkO4RkXsXWdHNK3p2MtxXOj3yM6MWZTPGT3dJXqATdu4lzknvSc=";
const KEY_B: &str = "ssh-rsa AAAAB3NzaC1yc2EAAAADAQABAAABAQDPx4jsUuivW/Yz0r7eD/InptzObq+qmwEP7fJrNZIOkKYyfVaxIxHYnAix7h4Qjk6dRq15to9slBSohRlXpXAx0WFpOMRgxC56uqnbGfh3fh8XxEIr23OHxiwoh4paS6CKu9Jz53S8lM6jSHsdH+0CmLm/iEw9Y0KtzOEzee6RR6EJUvs4TGSvaapOQJse4ZQNFJU0xBMVaGs4HQ2VitwrWVn/lvJoSoWk2fAAEGLcI2FOEoMBfnaAwyRj3F/L3hJ4vu77N7qvxdVCz7FRAEGPBcnoaeB4ivA2MXz3tEkHAilMTiUIMdPjS65lPyXfzWvlVQid3iMOb7oQcD4cI3oJ";
const KEY_C: &str = "ssh-rsa AAAAB3NzaC1yc2EAAAADAQABAAABgQDNYBebNl8QY24FWJZLmwDrtSvQZaiMXe8sNUHbDNkPPNKe1XPqH1tD8ZBjqxlz/mxMfLOR6izFYj6Y6OSo4kqmuhhXZvSST0sPashF7PM/sfiR4gjoisuE/CfUsjGbvSBfQ5nfUJkQoUrzMQjA5CltbGO8prd6mt0u37RJqdBzAUAKaflwlpei5AWnE3a0RAlm29s/1bec28oQWkxqjLf11SqqJNgOsL70NDByMk+8LQ2OqEJHVHAIQjml/oSgKBG+SLO3uOX6M3bhmtAaP2MYAZdp/84qDFMX5lKk37k3xMjWmlHstyqkgJ3Hfp/Ft2KC1pPTKNK+C5VYqlROO/qKNSlIf80HNSGHBJymU/ncjcxOaofSkrLHzANsloYJileuUZs9sN48Eebrx0enz5Bf6ySxp5mmjesbASd0nxHXjZ0k9fiacAVeUTs54H/1VfIhLfVz4L8laZ79Ncbi0rprK7TofAKIErOOddgp3Wlj6CKeF+v6yPRCimb+IUt0qf0=";

/// Tests that a new file will have no keys
#[test]
fn test_getting_empty_keys() {
    let (keys, ends_nl) = read_keys("");
    assert_eq!(keys.len(), 0);
    assert!(!ends_nl);
}

/// Tests that a file's keys are parsed, comments and indentation ignored
#[test]
fn test_getting_two_keys() {
    let content = format!("{} #maybe a comment\n        {}", KEY_A, KEY_B);
    let (keys, ends_nl) = read_keys(&content);
    assert_eq!(keys.len(), 2);
    assert!(!ends_nl);
}

/// Tests that we can write to an empty file
#[test]
fn test_writing_empty_file() {
    let keys = vec![KEY_A.to_owned(), KEY_B.to_owned()];
    let (count, append) = reconcile("", keys, false);
    assert_eq!(count, 2);
    let content = append.unwrap();
    assert_eq!(read_keys(&content).0.len(), 2);
}

/// Tests that a key already present is not written again
#[test]
fn test_writing_empty_file_one_dup() {
    let existing = format!("{} #maybe a comment\n        {}\n", KEY_A, KEY_B);
    let keys = vec![KEY_C.to_owned(), KEY_B.to_owned()];
    let (count, append) = reconcile(&existing, keys, false);
    assert_eq!(count, 1); // wrote one key only, since one was already there
    let content = existing + &append.unwrap();
    assert_eq!(read_keys(&content).0.len(), 3);
}

/// Tests that we can write to an existing file with data
#[test]
fn test_writing_existing_with_a_newline() {
    let existing = format!("{} #maybe a comment\n", KEY_A);
    let keys = vec![KEY_C.to_owned()];
    let (count, append) = reconcile(&existing, keys, false);
    assert_eq!(count, 1);
    let block = append.unwrap();
    assert!(!block.starts_with('\n'));
    let content = existing + &block;
    assert_eq!(read_keys(&content).0.len(), 2);
}

/// Tests that a missing final newline is supplied before the new block
#[test]
fn test_writing_existing_without_a_newline() {
    let existing = format!("{} #maybe a comment", KEY_A);
    let keys = vec![KEY_C.to_owned()];
    let (count, append) = reconcile(&existing, keys, false);
    assert_eq!(count, 1);
    let block = append.unwrap();
    assert!(block.starts_with('\n'));
    let content = existing + &block;
    assert_eq!(read_keys(&content).0.len(), 2);
}

/// Text with none of the six supported key-type prefixes yields no keys.
#[test]
fn test_split_keys_fuzz_text_empty() {
    let junk = "hello world\n12345\nssh-rsa\nssh-rsaAAAAB3NzaC1yc2 nope\n\
                rsa-ssh AAAAB3NzaC1yc2 tag swapped\n#comment ssh-ed25519\n \t \n";
    assert_eq!(split_keys(junk).len(), 0);
}

/// Every line kept by the parser starts with one of the six supported
/// type prefixes, whatever else the text holds.
#[test]
fn test_split_keys_keeps_only_supported() {
    let text = format!(
        "junk line\n  {}  \nssh-ed25519 AAAAC3NzaC1lZDI1NTE5AAAAIKWq comment\nssh-dss nope\n{}",
        KEY_A, KEY_B
    );
    let keys = split_keys(&text);
    assert_eq!(keys.len(), 3);
    let prefixes = [
        "ssh-rsa AAAAB3NzaC1yc2",
        "ecdsa-sha2-nistp256 AAAAE2VjZHNhLXNoYTItbmlzdHAyNT",
        "ecdsa-sha2-nistp384 AAAAE2VjZHNhLXNoYTItbmlzdHAzODQAAAAIbmlzdHAzOD",
        "ecdsa-sha2-nistp521 AAAAE2VjZHNhLXNoYTItbmlzdHA1MjEAAAAIbmlzdHA1Mj",
        "ssh-ed25519 AAAAC3NzaC1lZDI1NTE5",
        "ssh-dss AAAAB3NzaC1kc3",
    ];
    for k in &keys {
        assert!(prefixes.iter().any(|p| k.starts_with(p)));
    }
}

/// Canonicalisation keeps the first two fields and is idempotent.
#[test]
fn test_canonicalize_idempotent() {
    let samples = [
        "ssh-rsa AAAAB3 some comment here",
        "ssh-rsa AAAAB3",
        "ssh-ed25519 AAAAC3NzaC1lZDI1NTE5AAAAIKWq x y z",
        "word",
        "a  b",
        "",
    ];
    for s in &samples {
        let once = canonicalize(s);
        let twice = canonicalize(&once);
        assert_eq!(once, twice);
    }
    assert_eq!(canonicalize("ssh-rsa AAAAB3 comment"), "ssh-rsa AAAAB3");
    assert_eq!(canonicalize("ssh-rsa AAAAB3"), "ssh-rsa AAAAB3");
}

/// clean_keys strips trailing comments from every line.
#[test]
fn test_clean_keys_strips_comments() {
    let cleaned = clean_keys(vec![
        format!("{} #ssh-import", KEY_B),
        KEY_B.to_owned(),
    ]);
    assert_eq!(cleaned.len(), 2);
    assert_eq!(cleaned[0], KEY_B);
    assert_eq!(cleaned[1], KEY_B);
}

/// filter_keys compares by canonical form: a differing comment does not
/// make a key new, and duplicates within the additions collapse to the
/// first occurrence.
#[test]
fn test_filter_keys_canonical() {
    let to_add = vec![
        format!("{} #imported", KEY_A),
        KEY_B.to_owned(),
        format!("{} #again", KEY_B),
    ];
    let exist = vec![format!("{} #old comment", KEY_A)];
    let fresh = filter_keys(to_add, exist);
    assert_eq!(fresh.len(), 1);
    assert_eq!(fresh[0], KEY_B);
}

/// Reconciling the same keys twice adds nothing the second time.
#[test]
fn test_reconcile_idempotent() {
    let keys = vec![KEY_A.to_owned(), KEY_B.to_owned()];
    let (count, append) = reconcile("", keys.clone(), false);
    assert_eq!(count, 2);
    let content = append.unwrap();
    let (count2, append2) = reconcile(&content, keys, false);
    assert_eq!(count2, 0);
    assert!(append2.is_none());
}

/// A dry run counts the new keys and leaves nothing to write.
#[test]
fn test_reconcile_dry_run() {
    let keys = vec![KEY_A.to_owned(), KEY_B.to_owned()];
    let (count, append) = reconcile("", keys, true);
    assert_eq!(count, 2);
    assert!(append.is_none());
}

/// Round trip: appending the new keys re-reads as the old keys plus the
/// new ones, without duplicates, and the file ends with a single newline.
#[test]
fn test_reconcile_round_trip() {
    let existing = format!("{}\n", KEY_A);
    let keys = vec![KEY_B.to_owned(), KEY_C.to_owned(), KEY_B.to_owned()];
    let (count, append) = reconcile(&existing, keys, false);
    assert_eq!(count, 2);
    let content = existing + &append.unwrap();
    let (all, ends_nl) = read_keys(&content);
    assert_eq!(all, vec![KEY_A.to_owned(), KEY_B.to_owned(), KEY_C.to_owned()]);
    assert!(ends_nl);
    assert!(!content.ends_with("\n\n"));
}

/// End to end: an empty target and two distinct fetched keys give a count
/// of two and a file holding exactly those two lines and a final newline.
#[test]
fn test_reconcile_empty_target_exact_content() {
    let body = format!("{}\n{}\n", KEY_A, KEY_B);
    let fetched = merge_provider_keys(&vec![body]);
    let (count, append) = reconcile("", fetched, false);
    assert_eq!(count, 2);
    assert_eq!(append.unwrap(), format!("{}\n{}\n", KEY_A, KEY_B));
}

/// Fetched bodies are merged in order and deduplicated by canonical form.
#[test]
fn test_merge_provider_keys_dedup() {
    let body1 = format!("{} #from github\nnot a key\n{}\n", KEY_A, KEY_B);
    let body2 = format!("{}\n{}\n", KEY_B, KEY_C);
    let merged = merge_provider_keys(&vec![body1, body2]);
    assert_eq!(merged, vec![KEY_A.to_owned(), KEY_B.to_owned(), KEY_C.to_owned()]);
}

/// The target file path follows the fixed `/home/{user}` convention.
#[test]
fn test_authorized_keys_paths() {
    let a = AuthorizedKeys::for_user("alice");
    assert_eq!(a.path(), "/home/alice/.ssh/authorized_keys");
    let b = AuthorizedKeys::at_home("/root");
    assert_eq!(b.path(), "/root/.ssh/authorized_keys");
    let c = AuthorizedKeys::at_path("/tmp/authorized_keys");
    assert_eq!(c.path(), "/tmp/authorized_keys");
}
