//! The property lists that an application bundle for a phone carries: the
//! bundle's description and the entitlements it is signed with.

use vstd::prelude::*;
use vstd::string::StringExecFns;
use vstd::string::StringSliceAdditionalSpecFns;
use vstd::string::StrSliceExecFns;
use vstd::slice::slice_index_get;
use crate::text::chars_of;

verus! {

pub const PLIST_OPENING: &'static str = "\n            <?xml version=\"1.0\" encoding=\"UTF-8\"?>\n            <!DOCTYPE plist PUBLIC \"-//Apple Computer//DTD PLIST 1.0//EN\" \"http://www.apple.com/DTDs/PropertyList-1.0.dtd\">\n            <plist version=\"1.0\">\n            <dict>\n              <key>CFBundleIdentifier</key>\n              <string>";

pub const PLIST_DISPLAY_NAME: &'static str = "</string>\n              <key>CFBundleDisplayName</key>\n              <string>";

pub const PLIST_NAME: &'static str = "</string>\n              <key>CFBundleName</key>\n              <string>";

pub const PLIST_EXECUTABLE: &'static str = "</string>\n              <key>CFBundleExecutable</key>\n              <string>";

pub const PLIST_VERSION: &'static str = "</string>\n              <key>CFBundleVersion</key>\n              <string>";

pub const PLIST_SHORT_VERSION: &'static str = "</string>\n              <key>CFBundleShortVersionString</key>\n              <string>";

pub const PLIST_CLOSING: &'static str = "</string>\n              <key>UILaunchStoryboardName</key>\n              <string></string>\n             \t<key>UIRequiredDeviceCapabilities</key>\n                \t<array>\n                \t\t<string>armv7</string>\n                \t</array>\n            \t<key>UISupportedInterfaceOrientations</key>\n            \t<array>\n            \t\t<string>UIInterfaceOrientationPortrait</string>\n            \t\t<string>UIInterfaceOrientationLandscapeLeft</string>\n            \t\t<string>UIInterfaceOrientationLandscapeRight</string>\n            \t</array>\n            \t<key>UISupportedInterfaceOrientations~ipad</key>\n            \t<array>\n            \t\t<string>UIInterfaceOrientationPortrait</string>\n            \t\t<string>UIInterfaceOrientationPortraitUpsideDown</string>\n            \t\t<string>UIInterfaceOrientationLandscapeLeft</string>\n            \t\t<string>UIInterfaceOrientationLandscapeRight</string>\n            \t</array>\n            </dict>\n            </plist>";

pub const SCENT_OPENING: &'static str = "\n            <?xml version=\"1.0\" encoding=\"UTF-8\"?>\n            <!DOCTYPE plist PUBLIC \"-//Apple//DTD PLIST 1.0//EN\" \"http://www.apple.com/DTDs/PropertyList-1.0.dtd\">\n            <plist version=\"1.0\">\n                <dict>\n                    <key>application-identifier</key>\n                    <string>";

pub const SCENT_TEAM: &'static str = "</string>\n                    <key>com.apple.developer.team-identifier</key>\n                    <string>";

pub const SCENT_KEYCHAIN: &'static str = "</string>\n                    <key>get-task-allow</key>\n                    <true/>\n                    <key>keychain-access-groups</key>\n                    <array>\n                        <string>";

pub const SCENT_CLOSING: &'static str = "</string>\n                    </array>\n                </dict>\n            </plist>\n        ";

/// What an application bundle's description is filled in with.
#[derive(Debug, PartialEq, Eq)]
pub struct PlistValues {
    pub identifier: String,
    pub display_name: String,
    pub name: String,
    pub executable: String,
    pub version: String,
}

/// The text of a bundle description with the given values in their places.
/// The version stands in it twice.
pub open spec fn plist_text(
    identifier: Seq<char>,
    display_name: Seq<char>,
    name: Seq<char>,
    executable: Seq<char>,
    version: Seq<char>,
) -> Seq<char> {
    PLIST_OPENING@ + identifier + PLIST_DISPLAY_NAME@ + display_name + PLIST_NAME@ + name
        + PLIST_EXECUTABLE@ + executable + PLIST_VERSION@ + version + PLIST_SHORT_VERSION@ + version
        + PLIST_CLOSING@
}

/// Where the last segment of a dotted name begins: behind its last dot,
/// or at its start where it has none.
pub open spec fn last_segment_start(s: Seq<char>) -> int
    decreases s.len(),
{
    if s.len() == 0 {
        0
    } else if s.last() == '.' {
        s.len() as int
    } else {
        last_segment_start(s.drop_last())
    }
}

/// The last segment of a dotted name.
pub open spec fn last_segment(s: Seq<char>) -> Seq<char> {
    s.subrange(last_segment_start(s), s.len() as int)
}

pub proof fn lemma_last_segment_start(s: Seq<char>)
    ensures
        0 <= last_segment_start(s) <= s.len(),
    decreases s.len(),
{
    if s.len() > 0 && s.last() != '.' {
        lemma_last_segment_start(s.drop_last());
    }
}

/// The last segment of a dotted name.
pub fn app_name(app_id: &str) -> (name: String)
    ensures
        name@ == last_segment(app_id@),
{
    let chars = chars_of(app_id);
    let mut n: usize = chars.len();
    assert(chars@.subrange(0, n as int) =~= chars@);
    while n > 0 && chars[n - 1] != '.'
        invariant
            n <= chars@.len(),
            last_segment_start(chars@.subrange(0, n as int)) == last_segment_start(chars@),
        decreases n,
    {
        proof {
            assert(chars@.subrange(0, n as int).drop_last() =~= chars@.subrange(0, n - 1));
        }
        n -= 1;
    }
    proof {
        if n > 0 {
            assert(chars@.subrange(0, n as int).last() == '.');
        }
    }
    String::from_str(app_id.substring_char(n, chars.len()))
}

impl PlistValues {
    /// The values for the application with the identifier `app_id`,
    /// whose program is built from the crate `build_crate`: it is shown
    /// and named by the last segment of its identifier, and its version
    /// is 1.
    pub fn for_app(app_id: &str, build_crate: &str) -> (v: PlistValues)
        ensures
            v.identifier@ == app_id@,
            v.display_name@ == last_segment(app_id@),
            v.name@ == last_segment(app_id@),
            v.executable@ == build_crate@,
            v.version@ == "1"@,
    {
        PlistValues {
            identifier: String::from_str(app_id),
            display_name: app_name(app_id),
            name: app_name(app_id),
            executable: String::from_str(build_crate),
            version: String::from_str("1"),
        }
    }

    /// The text of the bundle description.
    pub fn to_plist_file(&self) -> (text: String)
        ensures
            text@ == plist_text(
                self.identifier@,
                self.display_name@,
                self.name@,
                self.executable@,
                self.version@,
            ),
    {
        let mut text = String::from_str(PLIST_OPENING);
        text.append(self.identifier.as_str());
        text.append(PLIST_DISPLAY_NAME);
        text.append(self.display_name.as_str());
        text.append(PLIST_NAME);
        text.append(self.name.as_str());
        text.append(PLIST_EXECUTABLE);
        text.append(self.executable.as_str());
        text.append(PLIST_VERSION);
        text.append(self.version.as_str());
        text.append(PLIST_SHORT_VERSION);
        text.append(self.version.as_str());
        text.append(PLIST_CLOSING);
        text
    }
}

/// The entitlements that a bundle is signed with: the application's
/// identifier, with the team's identifier before it, and the team's
/// identifier.
#[derive(Debug, PartialEq, Eq)]
pub struct Scent {
    pub app_id: String,
    pub team_id: String,
}

/// The text of the entitlements with the given values in their places. The
/// application's identifier stands in it twice.
pub open spec fn scent_text(app_id: Seq<char>, team_id: Seq<char>) -> Seq<char> {
    SCENT_OPENING@ + app_id + SCENT_TEAM@ + team_id + SCENT_KEYCHAIN@ + app_id + SCENT_CLOSING@
}

impl Scent {
    /// The entitlements of the application `app_id` for the team `team`.
    pub fn for_team(team: &str, app_id: &str) -> (scent: Scent)
        ensures
            scent.app_id@ == team@ + "."@ + app_id@,
            scent.team_id@ == team@,
    {
        let mut id = String::from_str(team);
        id.append(".");
        id.append(app_id);
        Scent { app_id: id, team_id: String::from_str(team) }
    }

    /// The text of the entitlements.
    pub fn to_scent_file(&self) -> (text: String)
        ensures
            text@ == scent_text(self.app_id@, self.team_id@),
    {
        let mut text = String::from_str(SCENT_OPENING);
        text.append(self.app_id.as_str());
        text.append(SCENT_TEAM);
        text.append(self.team_id.as_str());
        text.append(SCENT_KEYCHAIN);
        text.append(self.app_id.as_str());
        text.append(SCENT_CLOSING);
        text
    }
}

/// What building a bundle gives: the bundle's directory, its description,
/// and the path of the program inside it.
#[derive(Debug, PartialEq, Eq)]
pub struct IosBuildResult {
    pub app_dir: String,
    pub plist: PlistValues,
    pub dst_bin: String,
}

/// What stands before the team's identifier in a provisioning profile.
pub const TEAM_PREFIX: &'static str =
    "<key>ApplicationIdentifierPrefix</key>\n\t<array>\n\t<string>";

/// What stands before the first device's identifier in a provisioning
/// profile.
pub const DEVICE_PREFIX: &'static str = "<key>ProvisionedDevices</key>\n\t<array>\n\t\t<string>";

/// What stands before the first signing identity in the list of them.
pub const IDENTITY_PREFIX: &'static str = "  1) ";

/// The length of a team's identifier.
pub const TEAM_LEN: usize = 10;

/// The length of a device's identifier.
pub const DEVICE_LEN: usize = 25;

/// The length of a signing identity.
pub const IDENTITY_LEN: usize = 40;

/// Whether `needle` stands in `hay` at index `i`.
pub open spec fn matches_at(hay: Seq<u8>, needle: Seq<u8>, i: int) -> bool {
    0 <= i && i + needle.len() <= hay.len() && hay.subrange(i, i + needle.len()) == needle
}

/// The first index at or behind `from` at which `needle` stands in
/// `hay`, or -1.
pub open spec fn first_match(hay: Seq<u8>, needle: Seq<u8>, from: int) -> int
    decreases hay.len() - from + 1,
{
    if from < 0 || from + needle.len() > hay.len() {
        -1
    } else if matches_at(hay, needle, from) {
        from
    } else {
        first_match(hay, needle, from + 1)
    }
}

/// The `len` bytes behind the first place at which `prefix` stands in
/// `hay`, if it stands there and so many bytes follow it.
pub open spec fn field_behind(hay: Seq<u8>, prefix: Seq<u8>, len: int) -> Option<Seq<u8>> {
    let at = first_match(hay, prefix, 0);
    if at < 0 || at + prefix.len() + len > hay.len() {
        None
    } else {
        Some(hay.subrange(at + prefix.len(), at + prefix.len() + len))
    }
}

pub proof fn lemma_first_match(hay: Seq<u8>, needle: Seq<u8>, from: int)
    requires
        0 <= from,
    ensures
        first_match(hay, needle, from) == -1 || (from <= first_match(hay, needle, from)
            && matches_at(hay, needle, first_match(hay, needle, from))),
    decreases hay.len() - from + 1,
{
    if from + needle.len() <= hay.len() && !matches_at(hay, needle, from) {
        lemma_first_match(hay, needle, from + 1);
    }
}

/// Whether `needle` stands in `hay` at index `i`.
pub fn stands_at(hay: &[u8], needle: &[u8], i: usize) -> (b: bool)
    ensures
        b == matches_at(hay@, needle@, i as int),
{
    let n = needle.len();
    let h = hay.len();
    if n > h || i > h - n {
        return false;
    }
    let mut k: usize = 0;
    while k < n
        invariant
            k <= n,
            n == needle@.len(),
            h == hay@.len(),
            i + n <= h,
            forall|j: int| 0 <= j < k ==> hay@[i + j] == needle@[j],
        decreases n - k,
    {
        if *slice_index_get(hay, i + k) != *slice_index_get(needle, k) {
            assert(hay@.subrange(i as int, i + n)[k as int] != needle@[k as int]);
            return false;
        }
        k += 1;
    }
    assert(hay@.subrange(i as int, i + n) =~= needle@);
    true
}

/// The first index at which `needle` stands in `hay`.
pub fn find_bytes(hay: &[u8], needle: &[u8]) -> (at: Option<usize>)
    ensures
        at is None <==> first_match(hay@, needle@, 0) == -1,
        at is Some ==> at->0 == first_match(hay@, needle@, 0) && at->0 + needle@.len() <= hay@.len(),
{
    let n = needle.len();
    let h = hay.len();
    if n > h {
        return None;
    }
    let last = h - n;
    let mut i: usize = 0;
    loop
        invariant
            n <= h,
            n == needle@.len(),
            h == hay@.len(),
            last == h - n,
            i <= last,
            first_match(hay@, needle@, i as int) == first_match(hay@, needle@, 0),
        decreases last - i,
    {
        if stands_at(hay, needle, i) {
            return Some(i);
        }
        if i == last {
            assert(first_match(hay@, needle@, i + 1) == -1);
            return None;
        }
        i += 1;
    }
}

/// A copy of the bytes of `hay` from `from` up to `to`.
pub fn copy_bytes(hay: &[u8], from: usize, to: usize) -> (out: Vec<u8>)
    requires
        from <= to <= hay@.len(),
    ensures
        out@ == hay@.subrange(from as int, to as int),
{
    let mut out: Vec<u8> = Vec::new();
    let mut i: usize = from;
    while i < to
        invariant
            from <= i <= to <= hay@.len(),
            out@ == hay@.subrange(from as int, i as int),
        decreases to - i,
    {
        out.push(*slice_index_get(hay, i));
        i += 1;
        assert(out@ =~= hay@.subrange(from as int, i as int));
    }
    assert(out@ =~= hay@.subrange(from as int, to as int));
    out
}

/// The `len` bytes behind the first place at which `prefix` stands in
/// `hay`.
pub fn read_field(hay: &[u8], prefix: &[u8], len: usize) -> (field: Option<Vec<u8>>)
    ensures
        field is Some <==> field_behind(hay@, prefix@, len as int) is Some,
        field is Some ==> field->0@ == field_behind(hay@, prefix@, len as int)->0,
{
    match find_bytes(hay, prefix) {
        None => None,
        Some(at) => {
            assert(at + prefix@.len() <= hay.len());
            let start = at + prefix.len();
            if len > hay.len() - start {
                None
            } else {
                Some(copy_bytes(hay, start, start + len))
            }
        },
    }
}

/// What a provisioning profile says of the team and of the first device
/// that it is for.
#[derive(Debug, PartialEq, Eq)]
pub struct ProvisionData {
    pub team: Vec<u8>,
    pub device: Vec<u8>,
}

/// What a provisioning profile says, as a value.
pub struct ProvisionView {
    pub team: Seq<u8>,
    pub device: Seq<u8>,
}

impl View for ProvisionData {
    type V = ProvisionView;

    open spec fn view(&self) -> ProvisionView {
        ProvisionView { team: self.team@, device: self.device@ }
    }
}

/// What the profile `bytes` says, if it is one for the application
/// `app_id`.
pub open spec fn provision_of(bytes: Seq<u8>, app_id: Seq<u8>) -> Option<ProvisionView> {
    let team = field_behind(bytes, TEAM_PREFIX.spec_bytes(), TEAM_LEN as int);
    let device = field_behind(bytes, DEVICE_PREFIX.spec_bytes(), DEVICE_LEN as int);
    if first_match(bytes, app_id, 0) >= 0 && team is Some && device is Some {
        Some(ProvisionView { team: team->0, device: device->0 })
    } else {
        None
    }
}

/// Reads a provisioning profile. Gives what it says of the team and of
/// the first device where the profile names the application and holds
/// both; none else.
pub fn parse_provision(bytes: &[u8], app_id: &str) -> (data: Option<ProvisionData>)
    ensures
        data is Some <==> provision_of(bytes@, app_id.spec_bytes()) is Some,
        data is Some ==> data->0@ == provision_of(bytes@, app_id.spec_bytes())->0,
{
    if find_bytes(bytes, app_id.as_bytes()).is_none() {
        return None;
    }
    let team = match read_field(bytes, TEAM_PREFIX.as_bytes(), TEAM_LEN) {
        None => {
            return None;
        },
        Some(team) => team,
    };
    match read_field(bytes, DEVICE_PREFIX.as_bytes(), DEVICE_LEN) {
        None => None,
        Some(device) => Some(ProvisionData { team, device }),
    }
}

/// The first signing identity in a list of them: what follows the mark
/// of the first entry at the start of the list, if it is long enough.
pub open spec fn identity_of(output: Seq<u8>) -> Option<Seq<u8>> {
    let mark = IDENTITY_PREFIX.spec_bytes();
    if matches_at(output, mark, 0) && mark.len() + IDENTITY_LEN <= output.len() {
        Some(output.subrange(mark.len() as int, mark.len() + IDENTITY_LEN))
    } else {
        None
    }
}

/// The first signing identity in a list of them.
pub fn signing_identity(output: &str) -> (id: Option<Vec<u8>>)
    ensures
        id is Some <==> identity_of(output.spec_bytes()) is Some,
        id is Some ==> id->0@ == identity_of(output.spec_bytes())->0,
{
    let bytes = output.as_bytes();
    let mark = IDENTITY_PREFIX.as_bytes();
    if !stands_at(bytes, mark, 0) {
        return None;
    }
    let start = mark.len();
    if IDENTITY_LEN > bytes.len() - start {
        return None;
    }
    Some(copy_bytes(bytes, start, start + IDENTITY_LEN))
}

/// Whether a line of the process list names a debugger that a former
/// run has left behind.
pub fn is_stale_debugger(line: &str) -> (b: bool)
    ensures
        b == (first_match(line.spec_bytes(), "lldb".spec_bytes(), 0) >= 0 && first_match(
            line.spec_bytes(),
            "fruitstrap".spec_bytes(),
            0,
        ) >= 0),
{
    let bytes = line.as_bytes();
    find_bytes(bytes, "lldb".as_bytes()).is_some() && find_bytes(
        bytes,
        "fruitstrap".as_bytes(),
    ).is_some()
}

/// The arguments with which the program is built for `toolchain`: the
/// fixed ones, the target, and then the caller's own.
pub open spec fn build_args_of(toolchain: Seq<char>, args: Seq<Seq<char>>) -> Seq<Seq<char>> {
    seq!["run"@, "nightly"@, "cargo"@, "build"@, "--release"@, "--target="@ + toolchain] + args
}

/// The strings held by a vector of strings.
pub open spec fn string_views(v: Seq<String>) -> Seq<Seq<char>> {
    Seq::new(v.len(), |i: int| v[i]@)
}

/// The arguments with which the program is built for `toolchain`.
pub fn build_args(toolchain: &str, args: &Vec<String>) -> (out: Vec<String>)
    ensures
        string_views(out@) == build_args_of(toolchain@, string_views(args@)),
{
    let mut out: Vec<String> = Vec::new();
    out.push(String::from_str("run"));
    out.push(String::from_str("nightly"));
    out.push(String::from_str("cargo"));
    out.push(String::from_str("build"));
    out.push(String::from_str("--release"));
    out.push(String::from_str("--target=").concat(toolchain));
    let ghost head = string_views(out@);
    assert(head =~= seq![
        "run"@,
        "nightly"@,
        "cargo"@,
        "build"@,
        "--release"@,
        "--target="@ + toolchain@,
    ]);
    let mut i: usize = 0;
    assert(string_views(out@) =~= head + string_views(args@).subrange(0, 0));
    while i < args.len()
        invariant
            i <= args@.len(),
            string_views(out@) == head + string_views(args@).subrange(0, i as int),
        decreases args@.len() - i,
    {
        let arg = args[i].clone();
        let ghost was = string_views(out@);
        out.push(arg);
        assert(string_views(out@) =~= was.push(args@[i as int]@));
        assert(was.push(args@[i as int]@) =~= head + string_views(args@).subrange(0, i + 1));
        i += 1;
    }
    assert(string_views(args@).subrange(0, i as int) =~= string_views(args@));
    out
}

} // verus!
