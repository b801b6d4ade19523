//! The LaunchAgent that starts the program at login: where its property list
//! lives, what it holds, and when it is installed or removed.
use vstd::prelude::*;

use crate::config::{AppConfig, ServiceMode};

verus! {

/// The label of the LaunchAgent.
pub const SERVICE_LABEL: &'static str = "cat.fennec.ergo";

/// The property list up to the label.
pub const PLIST_HEAD: &'static str = "<?xml version=\"1.0\" encoding=\"UTF-8\"?>
<!DOCTYPE plist PUBLIC \"-//Apple//DTD PLIST 1.0//EN\"
  \"http://www.apple.com/DTDs/PropertyList-1.0.dtd\">
<plist version=\"1.0\">
<dict>
    <key>Label</key>
    <string>";

/// The property list between the label and the program's path.
pub const PLIST_MIDDLE: &'static str = "</string>
    <key>ProgramArguments</key>
    <array>
        <string>";

/// The property list after the program's path.
pub const PLIST_TAIL: &'static str = "</string>
    </array>
    <key>RunAtLoad</key>
    <true/>
    <key>KeepAlive</key>
    <dict>
        <key>SuccesfulExit</key>
        <false/>
        <key>Crashed</key>
        <true/>
    </dict>
    <true/>
</dict>
</plist>";

/// The directory of the user's LaunchAgents.
pub fn service_plist_dir(home_dir: &str) -> (dir: String)
    ensures
        dir@ == home_dir@ + "/Library/LaunchAgents"@,
{
    let mut d = String::from_str(home_dir);
    d.append("/Library/LaunchAgents");
    d
}

/// The path of the LaunchAgent's property list.
pub fn service_plist_path(home_dir: &str) -> (path: String)
    ensures
        path@ == home_dir@ + "/Library/LaunchAgents"@ + "/"@ + SERVICE_LABEL@ + ".plist"@,
{
    let mut p = service_plist_dir(home_dir);
    p.append("/");
    p.append(SERVICE_LABEL);
    p.append(".plist");
    p
}

/// The property list that starts the program at `executable_path` at login and
/// restarts it when it crashes.
pub fn service_plist_content(executable_path: &str) -> (content: String)
    ensures
        content@ == PLIST_HEAD@ + SERVICE_LABEL@ + PLIST_MIDDLE@ + executable_path@ + PLIST_TAIL@,
{
    let mut c = String::from_str(PLIST_HEAD);
    c.append(SERVICE_LABEL);
    c.append(PLIST_MIDDLE);
    c.append(executable_path);
    c.append(PLIST_TAIL);
    c
}

/// What to do about the LaunchAgent.
#[derive(Debug, Clone, Copy, PartialEq, Eq, Structural)]
pub enum ServiceAction {
    Install,
    Uninstall,
    Nothing,
}

/// `yesservice` installs the LaunchAgent when it is missing, `noservice`
/// removes it when it is there; otherwise nothing is done.
pub open spec fn service_action_spec(mode: Option<ServiceMode>, installed: bool) -> ServiceAction {
    match mode {
        Some(ServiceMode::YesService) => if installed {
            ServiceAction::Nothing
        } else {
            ServiceAction::Install
        },
        Some(ServiceMode::NoService) => if installed {
            ServiceAction::Uninstall
        } else {
            ServiceAction::Nothing
        },
        None => ServiceAction::Nothing,
    }
}

/// What to do about the LaunchAgent, given the service mode and whether the
/// LaunchAgent is installed now.
pub fn service_action(mode: Option<ServiceMode>, installed: bool) -> (action: ServiceAction)
    ensures
        action == service_action_spec(mode, installed),
{
    match mode {
        Some(ServiceMode::YesService) => if installed {
            ServiceAction::Nothing
        } else {
            ServiceAction::Install
        },
        Some(ServiceMode::NoService) => if installed {
            ServiceAction::Uninstall
        } else {
            ServiceAction::Nothing
        },
        None => ServiceAction::Nothing,
    }
}

/// The first-run question is asked when there was no configuration file, or
/// when the configuration sets `firstrun`.
pub fn firstrun_needed(config: &AppConfig, no_config_existed: bool) -> (ask: bool)
    ensures
        ask == (config.firstrun || no_config_existed),
{
    config.firstrun || no_config_existed
}

/// The answer to the first-run question replaces the service mode and clears
/// `firstrun`; the rest of the configuration stays.
pub fn record_firstrun_choice(config: &mut AppConfig, choice: ServiceMode)
    ensures
        final(config).firstrun == false,
        final(config).service_mode == Some(choice),
        final(config).verbose == old(config).verbose,
        final(config).rules@ == old(config).rules@,
{
    config.firstrun = false;
    config.service_mode = Some(choice);
}

/// The dialog's first button (`Yes`, response 1000) chooses the service.
pub fn service_mode_from_response(response: isize) -> (mode: ServiceMode)
    ensures
        mode == (if response == 1000 {
            ServiceMode::YesService
        } else {
            ServiceMode::NoService
        }),
{
    if response == 1000 {
        ServiceMode::YesService
    } else {
        ServiceMode::NoService
    }
}

} // verus!
