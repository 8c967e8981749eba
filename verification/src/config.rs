//! Program configuration and the well-known paths: the host architecture
//! record and the directories the lockfile, configuration and binaries
//! live in.

use vstd::prelude::*;

verus! {

/// The persisted configuration: the architecture assets are resolved for,
/// and an optional API token.
#[derive(Clone, Debug)]
pub struct Config {
    pub arch: String,
    pub github_api_key: Option<String>,
}

/// Relies on target_lexicon::Triple::host and its Architecture variants:
/// which of the two supported architectures this build targets. The two
/// flags cannot both be set.
#[verifier::external_body]
fn host_arch_flags() -> (r: (bool, bool))
    ensures
        r.0 ==> !r.1,
{
    let triple = target_lexicon::Triple::host();
    (
        matches!(triple.architecture, target_lexicon::Architecture::X86_64),
        matches!(triple.architecture, target_lexicon::Architecture::Aarch64(_)),
    )
}

/// The architecture string recorded for a detection outcome: its own name
/// for either supported architecture, the default for anything else.
pub fn arch_from_flags(is_x86_64: bool, is_aarch64: bool) -> (r: String)
    ensures
        is_x86_64 ==> r@ == "x86_64"@,
        !is_x86_64 && is_aarch64 ==> r@ == "aarch64"@,
        !is_x86_64 && !is_aarch64 ==> r@ == "x86_64"@,
{
    if is_x86_64 {
        String::from_str("x86_64")
    } else if is_aarch64 {
        String::from_str("aarch64")
    } else {
        String::from_str("x86_64")
    }
}

impl Default for Config {
    /// The configuration written on first run: the detected architecture —
    /// the default one when detection recognizes neither — and no token.
    fn default() -> (r: Config)
        ensures
            r.arch@ == "x86_64"@ || r.arch@ == "aarch64"@,
            r.github_api_key is None,
    {
        let (x64, a64) = host_arch_flags();
        let arch = arch_from_flags(x64, a64);
        Config { arch, github_api_key: None }
    }
}

#[verifier::external_type_specification]
#[verifier::external_body]
pub struct ExProjectDirs(directories::ProjectDirs);

/// Relies on directories::ProjectDirs::from: the platform's directories
/// for the given qualifier, organization and application, when the system
/// reports a home for them.
#[verifier::external_body]
fn project_dirs_from(qualifier: &str, organization: &str, application: &str) -> (r: Option<
    directories::ProjectDirs,
>) {
    directories::ProjectDirs::from(qualifier, organization, application)
}

/// Relies on directories::ProjectDirs::config_dir: where this platform
/// keeps the application's configuration.
#[verifier::external_body]
fn config_dir_of(dirs: &directories::ProjectDirs) -> (r: String) {
    dirs.config_dir().to_string_lossy().into_owned()
}

/// Relies on directories::ProjectDirs::data_dir: where this platform
/// keeps the application's data.
#[verifier::external_body]
fn data_dir_of(dirs: &directories::ProjectDirs) -> (r: String) {
    dirs.data_dir().to_string_lossy().into_owned()
}

/// The directories everything persisted lives in.
#[derive(Clone, Debug)]
pub struct AxePaths {
    pub config_dir: String,
    pub data_dir: String,
    pub bin_dir: String,
}

impl AxePaths {
    /// The platform's directories for this application; binaries go in a
    /// `bin` directory under the data directory. Fails when the platform
    /// reports no home.
    pub fn new() -> (r: Result<AxePaths, String>)
        ensures
            r matches Ok(p) ==> p.bin_dir@ == p.data_dir@ + "/bin"@,
            r matches Err(m) ==> m@ == "Could not determine project directories"@,
    {
        match project_dirs_from("", "", "axe") {
            None => Err(String::from_str("Could not determine project directories")),
            Some(dirs) => {
                let config_dir = config_dir_of(&dirs);
                let data_dir = data_dir_of(&dirs);
                let mut bin_dir = data_dir.clone();
                bin_dir.append("/bin");
                Ok(AxePaths { config_dir, data_dir, bin_dir })
            },
        }
    }

    /// Where the lockfile lives: under the configuration directory.
    pub fn lockfile_path(&self) -> (r: String)
        ensures
            r@ == self.config_dir@ + "/axe.lock"@,
    {
        let mut p = self.config_dir.clone();
        p.append("/axe.lock");
        p
    }

    /// Where the configuration lives: under the configuration directory.
    pub fn config_path(&self) -> (r: String)
        ensures
            r@ == self.config_dir@ + "/axe.toml"@,
    {
        let mut p = self.config_dir.clone();
        p.append("/axe.toml");
        p
    }
}

} // verus!
