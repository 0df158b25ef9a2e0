use keysync::daemon::poll_reload;
use keysync::daemon::VersionToken;
use keysync::schedule::is_cron;
use keysync::schedule::is_number;
use keysync::schedule::is_url_or_empty;
use keysync::schedule::parse_u32;
use keysync::schedule::DefaultCron;
use keysync::sources::create_urls;
use keysync::sources::get_github;
use keysync::sources::get_gitlab;
use keysync::sources::get_launchpad;
use url::Url;

/// Tests that we generate the correct url for each service
#[test]
fn test_url_completion() {
    assert_eq!(&get_github("budde25"), "https://github.com/budde25.keys");
    assert_eq!(&get_gitlab("budde25", None), "https://gitlab.com/budde25.keys");
    assert_eq!(
        &get_gitlab(
            "budde25",
            Some(Url::parse("https://gitlab.cs.wisc.edu/").unwrap().as_str())
        ),
        "https://gitlab.cs.wisc.edu/budde25.keys"
    );
    assert_eq!(
        &get_launchpad("budde25"),
        "https://launchpad.net/~budde25/+sshkeys"
    );
}

/// Tests that we can create all urls the the same time,
#[test]
fn test_create_urls_all() {
    let urls = create_urls("budde25", true, true, true, None);
    assert_eq!(urls.len(), 3);
}

/// Tests that we can pass no services, and a username and still return GitHub (our default)
#[test]
fn test_create_urls_none() {
    let urls = create_urls("budde25", false, false, false, None);
    assert_eq!(urls.len(), 1);
}

/// Tests that we can pass only github, and a username and still return GitHub (our default)
#[test]
fn test_create_urls_only_github() {
    let urls = create_urls("budde25", true, false, false, None);
    assert_eq!(urls.len(), 1);
}

/// Tests the we can pass only launchpad and a username and it will return a Launchpad url and not also GitHub
#[test]
fn test_create_urls_only_launchpad() {
    let urls = create_urls("budde25", false, true, false, None);
    assert_eq!(urls.len(), 1);
    assert_eq!(urls[0], "https://launchpad.net/~budde25/+sshkeys");
}

/// Tests the if we pass a GitLab url but not GitLab bool, only github will still be create, this should be considered bad input regardless
#[test]
fn test_create_urls_no_gitlab_but_url() {
    let gitlab_url = Url::parse("https://gitlab.com").unwrap();
    let urls = create_urls("budde25", false, false, false, Some(gitlab_url.as_str()));
    assert_eq!(urls.len(), 1);
    assert_eq!(urls[0], "https://github.com/budde25.keys");
}

/// The default-selection rule: no flags gives exactly the GitHub URL, and a
/// stray GitLab base URL without the GitLab flag changes nothing.
#[test]
fn test_create_urls_default_is_github() {
    let urls = create_urls("alice", false, false, false, None);
    assert_eq!(urls, vec!["https://github.com/alice.keys".to_owned()]);
    let urls = create_urls("alice", false, false, false, Some("https://gitlab.example.org/"));
    assert_eq!(urls, vec!["https://github.com/alice.keys".to_owned()]);
}

/// The cron validator accepts presets and full expressions, and refuses
/// junk.
#[test]
fn test_is_cron() {
    assert!(is_cron("@daily").is_ok());
    assert!(is_cron("0 0 * * * *").is_ok());
    assert!(is_cron("foo").is_err());
    assert!(is_cron("").is_err());
}

/// The URL validator accepts absolute URLs and the empty string.
#[test]
fn test_is_url_or_empty() {
    assert!(is_url_or_empty("").is_ok());
    assert!(is_url_or_empty("https://gitlab.cs.wisc.edu/").is_ok());
    assert!(is_url_or_empty("not a url").is_err());
}

/// Job ids are unsigned 32-bit decimals.
#[test]
fn test_is_number() {
    assert!(is_number("0").is_ok());
    assert!(is_number("123").is_ok());
    assert!(is_number("4294967295").is_ok());
    assert!(is_number("4294967296").is_err());
    assert!(is_number("").is_err());
    assert!(is_number("12a").is_err());
    assert!(is_number("-1").is_err());
    assert_eq!(parse_u32("4294967295"), Some(u32::MAX));
    assert_eq!(parse_u32("042"), Some(42));
}

/// Preset names parse without regard to case and map to their cron
/// expressions.
#[test]
fn test_default_cron() {
    assert_eq!(DefaultCron::from_name("Daily"), Some(DefaultCron::Daily));
    assert_eq!(DefaultCron::from_name("HOURLY"), Some(DefaultCron::Hourly));
    assert_eq!(DefaultCron::from_name("weekly"), Some(DefaultCron::Weekly));
    assert_eq!(DefaultCron::from_name("Monthly"), Some(DefaultCron::Monthly));
    assert_eq!(DefaultCron::from_name("yearly"), None);
    assert_eq!(DefaultCron::Daily.to_schedule(), "@daily");
    assert_eq!(DefaultCron::Hourly.to_schedule(), "@hourly");
    assert!(is_cron(&DefaultCron::Weekly.to_schedule()).is_ok());
}

/// The daemon reloads exactly when the polled version differs; an
/// unreadable version keeps the last seen one.
#[test]
fn test_poll_reload() {
    let t1 = VersionToken { secs: 100, nanos: 0 };
    let t2 = VersionToken { secs: 100, nanos: 5 };
    assert_eq!(poll_reload(t1, Some(t1)), (t1, false));
    assert_eq!(poll_reload(t1, Some(t2)), (t2, true));
    assert_eq!(poll_reload(t1, None), (t1, false));
}
