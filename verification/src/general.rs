//! The settings of a deployment and the summary that the service gives of
//! itself.

use vstd::prelude::*;
use vstd::string::*;

verus! {

/// What an operator has configured.
#[derive(Debug)]
pub struct Settings {
    title: String,
    header_link: String,
    timezone: String,
    enabled_plugins: Vec<String>,
    default_private_links: bool,
}

/// The mathematical content of [`Settings`].
pub struct SettingsView {
    pub title: Seq<char>,
    pub header_link: Seq<char>,
    pub timezone: Seq<char>,
    pub enabled_plugins: Seq<Seq<char>>,
    pub default_private_links: bool,
}

impl View for Settings {
    type V = SettingsView;

    closed spec fn view(&self) -> SettingsView {
        SettingsView {
            title: self.title@,
            header_link: self.header_link@,
            timezone: self.timezone@,
            enabled_plugins: self.enabled_plugins.deep_view(),
            default_private_links: self.default_private_links,
        }
    }
}

impl Settings {
    /// Settings with the given values.
    pub fn new(
        title: &str,
        header_link: &str,
        timezone: &str,
        enabled_plugins: Vec<String>,
        default_private_links: bool,
    ) -> (settings: Settings)
        ensures
            settings@ == (SettingsView {
                title: title@,
                header_link: header_link@,
                timezone: timezone@,
                enabled_plugins: enabled_plugins.deep_view(),
                default_private_links,
            }),
    {
        Settings {
            title: title.to_owned(),
            header_link: header_link.to_owned(),
            timezone: timezone.to_owned(),
            enabled_plugins,
            default_private_links,
        }
    }

    /// The title of the site.
    pub fn title(&self) -> (title: &str)
        ensures
            title@ == self@.title,
    {
        self.title.as_str()
    }

    /// Where the header of the site links to.
    pub fn header_link(&self) -> (link: &str)
        ensures
            link@ == self@.header_link,
    {
        self.header_link.as_str()
    }

    /// The name of the time zone in which dates are shown.
    pub fn timezone(&self) -> (zone: &str)
        ensures
            zone@ == self@.timezone,
    {
        self.timezone.as_str()
    }

    /// The names of the plugins that are switched on.
    pub fn enabled_plugins(&self) -> (plugins: &Vec<String>)
        ensures
            plugins.deep_view() == self@.enabled_plugins,
    {
        &self.enabled_plugins
    }

    /// Whether a new link is private unless its author says otherwise.
    pub fn default_private_links(&self) -> (private: bool)
        ensures
            private == self@.default_private_links,
    {
        self.default_private_links
    }
}

/// The summary of a deployment: how many links it holds, how many of them
/// are private, and its settings.
#[derive(Debug)]
pub struct Info {
    global_counter: i64,
    private_counter: i64,
    settings: Settings,
}

/// The mathematical content of [`Info`].
pub struct InfoView {
    pub global_counter: i64,
    pub private_counter: i64,
    pub settings: SettingsView,
}

impl View for Info {
    type V = InfoView;

    closed spec fn view(&self) -> InfoView {
        InfoView {
            global_counter: self.global_counter,
            private_counter: self.private_counter,
            settings: self.settings@,
        }
    }
}

impl Info {
    /// A summary with the given counters and settings.
    pub fn new(global_counter: i64, private_counter: i64, settings: Settings) -> (info: Info)
        ensures
            info@ == (InfoView { global_counter, private_counter, settings: settings@ }),
    {
        Info { global_counter, private_counter, settings }
    }

    /// The number of links.
    pub fn global_counter(&self) -> (count: i64)
        ensures
            count == self@.global_counter,
    {
        self.global_counter
    }

    /// The number of private links.
    pub fn private_counter(&self) -> (count: i64)
        ensures
            count == self@.private_counter,
    {
        self.private_counter
    }

    /// The settings.
    pub fn settings(&self) -> (settings: &Settings)
        ensures
            settings@ == self@.settings,
    {
        &self.settings
    }
}

} // verus!
