//! Full Disk Access on macOS, which a scan needs to see protected
//! directories.

use vstd::prelude::*;

verus! {

/// The files that can be read with Full Disk Access only, below the user's
/// directory.
pub const USER_PROBES: [&'static str; 3] = [
    "Library/Safari/Bookmarks.plist",
    "Library/Cookies",
    "Library/Mail",
];

/// The database that can be read with Full Disk Access only.
pub const ACCESS_DATABASE: &'static str =
    "/Library/Application Support/com.apple.TCC/TCC.db";

/// The settings that can be read with Full Disk Access only.
pub const TIME_MACHINE_SETTINGS: &'static str =
    "/Library/Preferences/com.apple.TimeMachine.plist";

/// Where the settings for Full Disk Access are.
pub const SETTINGS_ADDRESS: &'static str =
    "x-apple.systempreferences:com.apple.preference.security?Privacy_AllFiles";

/// What trying to read the protected files came to.
pub struct Probes {
    pub database: bool,
    pub user_files: Vec<bool>,
    pub time_machine: bool,
}

/// Whether one of the values is true.
fn any_holds(values: &Vec<bool>) -> (any: bool)
    ensures
        any == values@.contains(true),
{
    let mut i: usize = 0;
    while i < values.len()
        invariant
            i <= values@.len(),
            forall|k: int| 0 <= k < i ==> #[trigger] values@[k] != true,
        decreases values@.len() - i,
    {
        if values[i] {
            assert(values@[i as int] == true);
            return true;
        }
        i += 1;
    }
    false
}

/// Whether this process has Full Disk Access: whether one of the protected
/// files could be read. Where there is no such restriction it always has.
pub fn has_full_disk_access(probes: Option<&Probes>) -> (access: bool)
    ensures
        access == (match probes {
            Some(probes) => probes.database || probes.user_files@.contains(true)
                || probes.time_machine,
            None => true,
        }),
{
    match probes {
        Some(probes) => probes.database || any_holds(&probes.user_files) || probes.time_machine,
        None => true,
    }
}

/// The address to open for the settings of Full Disk Access; None where there
/// is no such restriction.
pub fn open_fda_settings(restricted: bool) -> (address: Option<&'static str>)
    ensures
        match address {
            Some(address) => restricted && address@ == SETTINGS_ADDRESS@,
            None => !restricted,
        },
{
    if restricted {
        Some(SETTINGS_ADDRESS)
    } else {
        None
    }
}

/// One protected file that can be read is enough; without one there is no access, and where
/// nothing is protected there always is.
pub proof fn lemma_access(probes: Probes, access: bool, unrestricted: bool, i: int)
    requires
        call_ensures(has_full_disk_access, (Some(&probes),), access),
        call_ensures(has_full_disk_access, (None,), unrestricted),
    ensures
        unrestricted,
        probes.database || probes.time_machine ==> access,
        0 <= i < probes.user_files@.len() && probes.user_files@[i] ==> access,
        access && !probes.database && !probes.time_machine ==> exists|k: int|
            0 <= k < probes.user_files@.len() && #[trigger] probes.user_files@[k],
{
    if 0 <= i < probes.user_files@.len() && probes.user_files@[i] {
        assert(probes.user_files@.contains(true));
    }
    if probes.user_files@.contains(true) {
        let k = probes.user_files@.index_of(true);
        assert(probes.user_files@[k]);
    }
}

} // verus!
