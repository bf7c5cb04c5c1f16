use mates::config::{Configuration, MainError};
use mates::contact::Contact;
use mates::mail::parse_from_header;

#[test]
fn test_generate_contact() {
    let dir = b"/contacts".to_vec();
    let c = Contact::generate(
        Some(&b"Erika".to_vec()),
        Some(&b"erika@example.com".to_vec()),
        &dir,
    );
    assert_eq!(c.path.len(), dir.len() + 1 + 36 + 4);
    assert!(c.path.starts_with(b"/contacts/"));
    assert!(c.path.ends_with(b".vcf"));
    let uid = &c.path[dir.len() + 1..c.path.len() - 4];
    assert!(uid
        .iter()
        .all(|b| b.is_ascii_digit() || (b'a'..=b'f').contains(b) || *b == b'-'));

    assert_eq!(c.item.name, b"VCARD".to_vec());
    assert_eq!(c.item.props.len(), 4);
    assert_eq!(c.item.single_value(&b"VERSION".to_vec()), Some(b"3.0".to_vec()));
    assert_eq!(c.item.single_value(&b"FN".to_vec()), Some(b"Erika".to_vec()));
    assert_eq!(
        c.item.single_value(&b"EMAIL".to_vec()),
        Some(b"erika@example.com".to_vec())
    );
    assert_eq!(c.item.single_value(&b"UID".to_vec()), Some(uid.to_vec()));
}

#[test]
fn test_generate_contact_minimal() {
    let c = Contact::generate(None, None, &b"/contacts".to_vec());
    assert_eq!(c.item.props.len(), 2);
    assert_eq!(c.item.single_value(&b"FN".to_vec()), None);
    assert_eq!(c.item.single_value(&b"EMAIL".to_vec()), None);
    assert!(c.item.single_value(&b"UID".to_vec()).is_some());
}

#[test]
fn test_generated_paths_differ() {
    let dir = b"/contacts".to_vec();
    let a = Contact::generate(None, None, &dir);
    let b = Contact::generate(None, None, &dir);
    assert_ne!(a.path, b.path);
}

#[test]
fn test_contact_from_text() {
    let text = b"BEGIN:VCARD\nFN:Erika\nEND:VCARD\n".to_vec();
    let c = Contact::from_text(b"/p/c.vcf".to_vec(), &text).unwrap();
    assert_eq!(c.path, b"/p/c.vcf".to_vec());
    assert_eq!(c.item.single_value(&b"FN".to_vec()), Some(b"Erika".to_vec()));
    assert!(Contact::from_text(b"/p/c.vcf".to_vec(), &b"junk".to_vec()).is_err());
}

#[test]
fn test_parse_from_header_with_name() {
    let (name, email) = parse_from_header(&b"Erika Mustermann <erika@example.com>".to_vec());
    assert_eq!(name, Some(b"Erika Mustermann ".to_vec()));
    assert_eq!(email, Some(b"erika@example.com".to_vec()));
}

#[test]
fn test_parse_from_header_bare_address() {
    let (name, email) = parse_from_header(&b"erika@example.com".to_vec());
    assert_eq!(name, None);
    assert_eq!(email, Some(b"erika@example.com".to_vec()));
}

#[test]
fn test_configuration_explicit() {
    let c = Configuration::new(
        &b"/cwd".to_vec(),
        Some(b"/idx".to_vec()),
        Some(b"/home/u".to_vec()),
        Some(b"/cards".to_vec()),
        Some(b"rg -i".to_vec()),
    )
    .unwrap();
    assert_eq!(c.index_path, b"/idx".to_vec());
    assert_eq!(c.vdir_path, b"/cards".to_vec());
    assert_eq!(c.grep_cmd, b"rg -i".to_vec());
}

#[test]
fn test_configuration_defaults() {
    let c = Configuration::new(
        &b"/cwd".to_vec(),
        None,
        Some(b"/home/u".to_vec()),
        Some(b"/cards".to_vec()),
        None,
    )
    .unwrap();
    assert_eq!(c.index_path, b"/home/u/.mates_index".to_vec());
    assert_eq!(c.grep_cmd, b"grep -i".to_vec());
}

#[test]
fn test_configuration_relative_home() {
    let c = Configuration::new(
        &b"/cwd".to_vec(),
        None,
        Some(b"nest".to_vec()),
        Some(b"/cards".to_vec()),
        None,
    )
    .unwrap();
    assert_eq!(c.index_path, b"/cwd/nest/.mates_index".to_vec());
}

#[test]
fn test_configuration_missing_dir() {
    let e = Configuration::new(
        &b"/cwd".to_vec(),
        Some(b"/idx".to_vec()),
        None,
        None,
        None,
    )
    .unwrap_err();
    assert_eq!(e, "MATES_DIR must be set to your vdir path (directory of vcf-files).");
}

#[test]
fn test_configuration_missing_home() {
    let e = Configuration::new(&b"/cwd".to_vec(), None, None, Some(b"/cards".to_vec()), None)
        .unwrap_err();
    assert_eq!(e, "Unable to determine user's home directory.");
}

#[test]
fn test_main_error_message() {
    let e = MainError::new("boom".to_string());
    assert_eq!(e.message(), "boom");
}
