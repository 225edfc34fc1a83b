use code_editor::fold::FoldHeaderAction;
use code_editor::ios::{
    app_name, build_args, copy_bytes, find_bytes, is_stale_debugger, parse_provision, read_field,
    signing_identity, stands_at, IosBuildResult, PlistValues, ProvisionData, Scent,
};

fn values() -> PlistValues {
    PlistValues {
        identifier: "dev.makepad.example".to_string(),
        display_name: "example".to_string(),
        name: "example".to_string(),
        executable: "makepad-example".to_string(),
        version: "1".to_string(),
    }
}

#[test]
fn plist_holds_every_value_in_its_place() {
    let text = values().to_plist_file();
    assert!(text.starts_with("\n            <?xml version=\"1.0\" encoding=\"UTF-8\"?>\n"));
    assert!(text.contains(
        "<key>CFBundleIdentifier</key>\n              <string>dev.makepad.example</string>\n"
    ));
    assert!(text.contains("<key>CFBundleDisplayName</key>\n              <string>example</string>\n"));
    assert!(text.contains("<key>CFBundleName</key>\n              <string>example</string>\n"));
    assert!(text.contains(
        "<key>CFBundleExecutable</key>\n              <string>makepad-example</string>\n"
    ));
    assert!(text.contains("<key>CFBundleVersion</key>\n              <string>1</string>\n"));
    assert!(text.contains(
        "<key>CFBundleShortVersionString</key>\n              <string>1</string>\n"
    ));
    assert!(text.contains("             \t<key>UIRequiredDeviceCapabilities</key>\n"));
    assert!(text.ends_with("            </dict>\n            </plist>"));
    assert_eq!(text.len(), 1622 + 19 + 7 + 7 + 15 + 1 + 1);
}

#[test]
fn plist_with_empty_values_is_the_frame() {
    let empty = PlistValues {
        identifier: String::new(),
        display_name: String::new(),
        name: String::new(),
        executable: String::new(),
        version: String::new(),
    };
    assert_eq!(empty.to_plist_file().len(), 1622);
}

#[test]
fn scent_holds_the_identifier_twice() {
    let scent = Scent { app_id: "TEAM123456.dev.makepad.example".to_string(), team_id: "TEAM123456".to_string() };
    let text = scent.to_scent_file();
    assert_eq!(text.matches("<string>TEAM123456.dev.makepad.example</string>").count(), 2);
    assert_eq!(text.matches("<string>TEAM123456</string>").count(), 1);
    assert!(text.contains(
        "<key>application-identifier</key>\n                    <string>TEAM123456.dev.makepad.example</string>\n"
    ));
    assert!(text.contains(
        "<key>com.apple.developer.team-identifier</key>\n                    <string>TEAM123456</string>\n"
    ));
    assert!(text.ends_with("            </plist>\n        "));
    assert_eq!(text.len(), 701 + 30 + 10 + 30);
}

#[test]
fn build_result_holds_its_parts() {
    let result = IosBuildResult {
        app_dir: "target/makepad-ios-app/aarch64-apple-ios/release/x.app".to_string(),
        plist: values(),
        dst_bin: "target/makepad-ios-app/aarch64-apple-ios/release/x.app/x".to_string(),
    };
    assert_eq!(result.plist, values());
    assert!(result.dst_bin.starts_with(&result.app_dir));
}

#[test]
fn fold_header_actions_differ() {
    assert_ne!(FoldHeaderAction::Opening, FoldHeaderAction::Closing);
    assert_ne!(FoldHeaderAction::Opening, FoldHeaderAction::Idle);
    assert_eq!(FoldHeaderAction::Closing.clone(), FoldHeaderAction::Closing);
}

#[test]
fn values_for_an_application() {
    let v = PlistValues::for_app("dev.makepad.example", "makepad-example");
    assert_eq!(v, values());
    assert_eq!(app_name("plain"), "plain");
    assert_eq!(app_name("a.b."), "");
    assert_eq!(app_name(""), "");
    assert_eq!(app_name("é.ü"), "ü");
}

#[test]
fn scent_for_a_team() {
    let scent = Scent::for_team("TEAM123456", "dev.makepad.example");
    assert_eq!(
        scent,
        Scent { app_id: "TEAM123456.dev.makepad.example".to_string(), team_id: "TEAM123456".to_string() }
    );
}

fn profile(app: &str, team: &str, device: &str) -> Vec<u8> {
    let mut bytes = vec![0u8, 159, 146, 150];
    bytes.extend_from_slice(b"<key>ApplicationIdentifierPrefix</key>\n\t<array>\n\t<string>");
    bytes.extend_from_slice(team.as_bytes());
    bytes.extend_from_slice(b"</string>\n<key>application-identifier</key><string>");
    bytes.extend_from_slice(app.as_bytes());
    bytes.extend_from_slice(b"</string><key>ProvisionedDevices</key>\n\t<array>\n\t\t<string>");
    bytes.extend_from_slice(device.as_bytes());
    bytes.extend_from_slice(b"</string>");
    bytes
}

#[test]
fn provisioning_profile_gives_team_and_device() {
    let bytes = profile("TEAM123456.dev.makepad.example", "TEAM123456", "00008030-001A2B3C4D5E6F7G8");
    assert_eq!(
        parse_provision(&bytes, "dev.makepad.example"),
        Some(ProvisionData {
            team: b"TEAM123456".to_vec(),
            device: b"00008030-001A2B3C4D5E6F7G".to_vec(),
        })
    );
    assert_eq!(parse_provision(&bytes, "dev.makepad.other"), None);
    assert_eq!(parse_provision(&bytes[..bytes.len() - 12], "dev.makepad.example"), None);
    assert_eq!(parse_provision(&bytes[70..], "dev.makepad.example"), None);
    assert_eq!(parse_provision(b"", "dev.makepad.example"), None);
    assert_eq!(parse_provision(b"", ""), None);
}

#[test]
fn byte_search_finds_the_first_place() {
    assert_eq!(find_bytes(b"abcabc", b"bc"), Some(1));
    assert_eq!(find_bytes(b"abcabc", b"abcabc"), Some(0));
    assert_eq!(find_bytes(b"abcabc", b"cab"), Some(2));
    assert_eq!(find_bytes(b"abcabc", b"x"), None);
    assert_eq!(find_bytes(b"abc", b"abcd"), None);
    assert_eq!(find_bytes(b"abc", b""), Some(0));
    assert_eq!(find_bytes(b"", b""), Some(0));
    assert!(stands_at(b"abc", b"c", 2));
    assert!(stands_at(b"abc", b"", 3));
    assert!(!stands_at(b"abc", b"", 4));
    assert!(!stands_at(b"abc", b"c", usize::MAX));
    assert_eq!(copy_bytes(b"abcdef", 2, 4), b"cd".to_vec());
    assert_eq!(read_field(b"k=value;k=other", b"k=", 5), Some(b"value".to_vec()));
    assert_eq!(read_field(b"k=value", b"k=", 6), None);
    assert_eq!(read_field(b"k=value", b"j=", 1), None);
    assert_eq!(read_field(b"k=", b"k=", 0), Some(Vec::new()));
}

#[test]
fn signing_identity_is_the_first_of_the_list() {
    let id = "0123456789ABCDEF0123456789ABCDEF01234567";
    let output = format!("  1) {} \"Apple Development: someone\"\n     1 valid identities found\n", id);
    assert_eq!(signing_identity(&output), Some(id.as_bytes().to_vec()));
    assert_eq!(signing_identity(&format!("  1) {}", id)), Some(id.as_bytes().to_vec()));
    assert_eq!(signing_identity(&format!("  1) {}", &id[1..])), None);
    assert_eq!(signing_identity(&format!(" 1) {}", id)), None);
    assert_eq!(signing_identity("     0 valid identities found\n"), None);
    assert_eq!(signing_identity(""), None);
}

#[test]
fn stale_debugger_lines() {
    assert!(is_stale_debugger("123 ttys001 0:00.12 lldb -s /tmp/fruitstrap-lldb-prep-cmds"));
    assert!(is_stale_debugger("fruitstrap lldb"));
    assert!(!is_stale_debugger("123 ttys001 0:00.12 lldb"));
    assert!(!is_stale_debugger("123 ttys001 0:00.12 fruitstrap"));
    assert!(!is_stale_debugger(""));
}

#[test]
fn build_arguments() {
    let args = vec!["-p".to_string(), "makepad-example".to_string()];
    assert_eq!(
        build_args("aarch64-apple-ios", &args),
        vec!["run", "nightly", "cargo", "build", "--release", "--target=aarch64-apple-ios", "-p", "makepad-example"]
    );
    assert_eq!(
        build_args("", &Vec::new()),
        vec!["run", "nightly", "cargo", "build", "--release", "--target="]
    );
}

#[test]
fn fold_action_sets_the_target() {
    assert!(FoldHeaderAction::Opening.apply(false));
    assert!(!FoldHeaderAction::Closing.apply(true));
    assert!(FoldHeaderAction::Idle.apply(true));
    assert!(!FoldHeaderAction::Idle.apply(false));
}
