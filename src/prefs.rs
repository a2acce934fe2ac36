//! Browser-wide preferences and download states.
use vstd::prelude::*;

verus! {

/// User-facing browser settings.
#[derive(Debug, Clone)]
pub struct BrowserConfig {
    pub user_agent: String,
    pub default_homepage: String,
    pub max_concurrent_connections: usize,
    pub enable_javascript: bool,
    pub enable_cookies: bool,
    pub enable_private_browsing: bool,
    pub default_download_path: String,
    pub custom_css: Option<String>,
}

/// Where a download stands.
#[derive(Debug, Clone, Copy, PartialEq, Eq, Structural)]
pub enum DownloadStatus {
    Pending,
    InProgress,
    Completed,
    Failed,
    Cancelled,
}

/// The preferences a browser starts with when the user has saved none.
pub fn load_user_preferences() -> (r: BrowserConfig)
    ensures
        r.user_agent@ == "Aluminum/1.0 (https://aluminum.browser.org)"@,
        r.default_homepage@ == "https://www.aluminum.browser.org"@,
        r.max_concurrent_connections == 6,
        r.enable_javascript,
        r.enable_cookies,
        !r.enable_private_browsing,
        r.default_download_path@ == "/home/user/Downloads"@,
        r.custom_css is None,
{
    BrowserConfig {
        user_agent: "Aluminum/1.0 (https://aluminum.browser.org)".to_owned(),
        default_homepage: "https://www.aluminum.browser.org".to_owned(),
        max_concurrent_connections: 6,
        enable_javascript: true,
        enable_cookies: true,
        enable_private_browsing: false,
        default_download_path: "/home/user/Downloads".to_owned(),
        custom_css: None,
    }
}

} // verus!
