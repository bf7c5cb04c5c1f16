use mates::contact::Contact;
use mates::index::{
    build_index, command_from_config, email_query, file_query, index_item_from_contact,
    is_vcf_path, mutt_query, CardFile, IndexError, IndexItem, IndexIterator,
};
use mates::item::{Item, PropertyValue};

fn named_item(fullname: &str, emails: &[&str]) -> Item {
    let mut item = Item::new();
    item.push(PropertyValue::new(
        b"FN".to_vec(),
        Vec::new(),
        fullname.as_bytes().to_vec(),
    ));
    for e in emails {
        item.push(PropertyValue::new(
            b"EMAIL".to_vec(),
            Vec::new(),
            e.as_bytes().to_vec(),
        ));
    }
    item
}

/// A stand-in for the configured filter command: a case-insensitive
/// substring match over each whole index line, as `grep -i` behaves.
fn filter_lines(index: &str, query: &str) -> Vec<u8> {
    let mut out = String::new();
    for line in index.lines() {
        if line.to_lowercase().contains(&query.to_lowercase()) {
            out.push_str(line);
            out.push('\n');
        }
    }
    out.into_bytes()
}

#[test]
fn test_index_entry_two_emails() {
    let item = named_item("Erika", &["a@x.com", "b@y.com"]);
    let contact = Contact { item, path: b"/p/c.vcf".to_vec() };
    let lines = index_item_from_contact(&contact).unwrap();
    assert_eq!(
        String::from_utf8(lines).unwrap(),
        "a@x.com\tErika\t/p/c.vcf\nb@y.com\tErika\t/p/c.vcf\n"
    );
}

#[test]
fn test_index_entry_no_name() {
    let mut item = Item::new();
    item.push(PropertyValue::new(b"EMAIL".to_vec(), Vec::new(), b"a@x.com".to_vec()));
    let contact = Contact { item, path: b"/p/c.vcf".to_vec() };
    assert_eq!(index_item_from_contact(&contact), Err(IndexError::NoName));
}

#[test]
fn test_index_entry_first_fn_wins() {
    let mut item = named_item("First", &["a@x.com"]);
    item.push(PropertyValue::new(b"FN".to_vec(), Vec::new(), b"Second".to_vec()));
    let contact = Contact { item, path: b"/p/c.vcf".to_vec() };
    let lines = index_item_from_contact(&contact).unwrap();
    assert_eq!(String::from_utf8(lines).unwrap(), "a@x.com\tFirst\t/p/c.vcf\n");
}

#[test]
fn test_index_entry_no_email_is_empty() {
    let item = named_item("Erika", &[]);
    let contact = Contact { item, path: b"/p/c.vcf".to_vec() };
    let lines = index_item_from_contact(&contact).unwrap();
    assert_eq!(lines.len(), 0);
}

#[test]
fn test_query_alice() {
    let index = "a@x.com\tAlice\t/p/1.vcf\nb@y.com\tBob\t/p/2.vcf\n";
    let output = filter_lines(index, "alice");
    let mut it = IndexIterator::new(&output);
    let mut found: Vec<IndexItem> = Vec::new();
    while let Some(entry) = it.next() {
        found.push(entry);
    }
    assert_eq!(found.len(), 1);
    assert_eq!(found[0].email, b"a@x.com".to_vec());
    assert_eq!(found[0].name, b"Alice".to_vec());
    assert_eq!(found[0].filepath, Some(b"/p/1.vcf".to_vec()));
}

#[test]
fn test_index_iterator_reverse_order() {
    let output = b"first\tF\nsecond\tS\n".to_vec();
    let mut it = IndexIterator::new(&output);
    let e1 = it.next().unwrap();
    assert_eq!(e1.email, b"second".to_vec());
    let e2 = it.next().unwrap();
    assert_eq!(e2.email, b"first".to_vec());
    assert!(it.next().is_none());
}

#[test]
fn test_index_iterator_empty_output() {
    let mut it = IndexIterator::new(&Vec::new());
    assert!(it.next().is_none());
}

#[test]
fn test_index_item_missing_fields() {
    let full = IndexItem::new(b"a\tb\tc".to_vec());
    assert_eq!(full.email, b"a".to_vec());
    assert_eq!(full.name, b"b".to_vec());
    assert_eq!(full.filepath, Some(b"c".to_vec()));

    let short = IndexItem::new(b"a".to_vec());
    assert_eq!(short.email, b"a".to_vec());
    assert_eq!(short.name, b"".to_vec());
    assert_eq!(short.filepath, None);

    let two = IndexItem::new(b"a\tb".to_vec());
    assert_eq!(two.name, b"b".to_vec());
    assert_eq!(two.filepath, None);
}

#[test]
fn test_file_query_dedup() {
    let output = b"a@x.com\tAlice\t/p/1.vcf\nalice2@x.com\tAlice\t/p/1.vcf\n".to_vec();
    let files = file_query(&output);
    assert_eq!(files.len(), 1);
    assert_eq!(files[0], b"/p/1.vcf".to_vec());
}

#[test]
fn test_file_query_drops_pathless() {
    let output = b"a@x.com\tAlice\t/p/1.vcf\nb@y.com\tBob\nc@z.com\tCarol\t/p/3.vcf\n".to_vec();
    let mut files = file_query(&output);
    files.sort();
    assert_eq!(files, vec![b"/p/1.vcf".to_vec(), b"/p/3.vcf".to_vec()]);
}

#[test]
fn test_mutt_query_output() {
    let output = b"a@x.com\tAlice\t/p/1.vcf\nb@y.com\tBob\t/p/2.vcf\n".to_vec();
    let text = mutt_query(&output);
    assert_eq!(String::from_utf8(text).unwrap(), "b@y.com\tBob\na@x.com\tAlice\n");
}

#[test]
fn test_mutt_query_skips_incomplete() {
    let output = b"a@x.com\t\t/p/1.vcf\n\tBob\t/p/2.vcf\nc@z.com\tCarol\n".to_vec();
    let text = mutt_query(&output);
    assert_eq!(String::from_utf8(text).unwrap(), "c@z.com\tCarol\n");
}

#[test]
fn test_email_query_output() {
    let output = b"a@x.com\tAlice\t/p/1.vcf\nb@y.com\tBob\t/p/2.vcf\n".to_vec();
    let text = email_query(&output);
    assert_eq!(
        String::from_utf8(text).unwrap(),
        "Bob <b@y.com>\nAlice <a@x.com>\n"
    );
}

#[test]
fn test_build_index_partial_failure() {
    let good = CardFile {
        path: b"/dir/good.vcf".to_vec(),
        content: b"BEGIN:VCARD\nFN:Alice\nEMAIL:a@x.com\nEND:VCARD\n".to_vec(),
    };
    let bad = CardFile {
        path: b"/dir/bad.vcf".to_vec(),
        content: b"not a card".to_vec(),
    };
    let (content, errors) = build_index(&vec![bad, good]);
    assert!(errors);
    assert_eq!(
        String::from_utf8(content).unwrap(),
        "a@x.com\tAlice\t/dir/good.vcf\n"
    );
}

#[test]
fn test_build_index_skips_other_files() {
    let readme = CardFile {
        path: b"/dir/readme.txt".to_vec(),
        content: b"whatever".to_vec(),
    };
    let good = CardFile {
        path: b"/dir/good.vcf".to_vec(),
        content: b"BEGIN:VCARD\nFN:Alice\nEMAIL:a@x.com\nEND:VCARD\n".to_vec(),
    };
    let (content, errors) = build_index(&vec![readme, good]);
    assert!(!errors);
    assert_eq!(
        String::from_utf8(content).unwrap(),
        "a@x.com\tAlice\t/dir/good.vcf\n"
    );
}

#[test]
fn test_build_index_nameless_card_is_error() {
    let nameless = CardFile {
        path: b"/dir/n.vcf".to_vec(),
        content: b"BEGIN:VCARD\nEMAIL:a@x.com\nEND:VCARD\n".to_vec(),
    };
    let (content, errors) = build_index(&vec![nameless]);
    assert!(errors);
    assert_eq!(content.len(), 0);
}

#[test]
fn test_is_vcf_path() {
    assert!(is_vcf_path(&b"/dir/c.vcf".to_vec()));
    assert!(is_vcf_path(&b"c.vcf".to_vec()));
    assert!(!is_vcf_path(&b"/dir/c.txt".to_vec()));
    assert!(!is_vcf_path(&b"/dir/.vcf".to_vec()));
    assert!(!is_vcf_path(&b"/dir/vcf".to_vec()));
    assert!(!is_vcf_path(&b"/dir.vcf/c".to_vec()));
}

#[test]
fn test_command_from_config() {
    let parts = command_from_config(&b"grep -i".to_vec());
    assert_eq!(parts, vec![b"grep".to_vec(), b"-i".to_vec()]);
    let single = command_from_config(&b"rg".to_vec());
    assert_eq!(single, vec![b"rg".to_vec()]);
}
