use spadefmt::document::{
    debug_print, decimal_string, print_resolved, Document, DocumentIdx, InternedDocumentStore,
    Writer,
};
use spadefmt::resolve::{resolve_try_catch, PrintingContext};

fn render(store: &InternedDocumentStore, root: DocumentIdx) -> String {
    let mut writer = Writer::new(String::new());
    let mut last_was_newline = false;
    print_resolved(store, &mut writer, root, false, &mut last_was_newline);
    writer.into_output()
}

#[test]
fn adding_an_equal_document_returns_its_index() {
    let mut store = InternedDocumentStore::new();
    let a = store.add(Document::Text("a".to_string()));
    let b = store.add(Document::Text("b".to_string()));
    let again = store.add(Document::Text("a".to_string()));
    assert_eq!(a, again);
    assert_ne!(a, b);
    assert_eq!(store.len(), 2);
    let list = store.add(Document::List(vec![a, b]));
    let list_again = store.add(Document::List(vec![a, b]));
    assert_eq!(list, list_again);
    assert_eq!(store.len(), 3);
}

#[test]
fn get_returns_what_was_added() {
    let mut store = InternedDocumentStore::new();
    let idx = store.add(Document::Text("hello".to_string()));
    match store.get(idx) {
        Document::Text(text) => assert_eq!(text, "hello"),
        other => panic!("unexpected {other:?}"),
    }
}

#[test]
fn get_mut_changes_one_entry() {
    let mut store = InternedDocumentStore::new();
    let a = store.add(Document::Text("a".to_string()));
    let b = store.add(Document::Text("b".to_string()));
    *store.get_mut(a) = Document::Text("z".to_string());
    match store.get(a) {
        Document::Text(text) => assert_eq!(text, "z"),
        other => panic!("unexpected {other:?}"),
    }
    match store.get(b) {
        Document::Text(text) => assert_eq!(text, "b"),
        other => panic!("unexpected {other:?}"),
    }
}

#[test]
fn writer_indents_every_line_and_drops_trailing_blanks() {
    let mut writer = Writer::new(String::new());
    writer.write_str("a   \nb");
    assert_eq!(writer.into_output(), "a\nb");
}

#[test]
fn writer_verbatim_keeps_whitespace() {
    let mut writer = Writer::new(String::new());
    writer.verbatim("\"a  \n  b\"");
    assert_eq!(writer.into_output(), "\"a  \n  b\"");
}

#[test]
fn printing_nests_lines() {
    let mut store = InternedDocumentStore::new();
    let x = store.add(Document::Text("x".to_string()));
    let newline = store.add(Document::Newline);
    let body = store.add(Document::List(vec![newline, x]));
    let nested = store.add(Document::Nest(body, 2));
    let a = store.add(Document::Text("a".to_string()));
    let root = store.add(Document::List(vec![a, nested, newline, x]));
    assert_eq!(render(&store, root), "a\n  x\nx");
}

#[test]
fn flattened_newlines_print_as_one_space() {
    let mut store = InternedDocumentStore::new();
    let x = store.add(Document::Text("x".to_string()));
    let newline = store.add(Document::Newline);
    let body = store.add(Document::List(vec![x, newline, newline, x]));
    let root = store.add(Document::Flatten(body));
    assert_eq!(render(&store, root), "x x");
}

#[test]
fn resolving_keeps_the_try_branch_when_it_fits() {
    let mut store = InternedDocumentStore::new();
    let flat = store.add(Document::Text("short".to_string()));
    let broken = store.add(Document::Text("broken".to_string()));
    let root = store.add(Document::TryCatch(flat, broken));
    let resolved = resolve_try_catch(&mut store, root, &PrintingContext::new(10));
    assert_eq!(render(&store, resolved), "short");
}

#[test]
fn resolving_takes_the_catch_branch_when_the_try_is_too_wide() {
    let mut store = InternedDocumentStore::new();
    let flat = store.add(Document::Text("much too long".to_string()));
    let broken = store.add(Document::Text("broken".to_string()));
    let root = store.add(Document::TryCatch(flat, broken));
    let resolved = resolve_try_catch(&mut store, root, &PrintingContext::new(10));
    assert_eq!(render(&store, resolved), "broken");
}

#[test]
fn debug_print_shows_the_tree() {
    let mut store = InternedDocumentStore::new();
    let x = store.add(Document::Text("x".to_string()));
    let root = store.add(Document::List(vec![x]));
    let mut writer = Writer::new(String::new());
    debug_print(&store, &mut writer, root);
    assert_eq!(writer.into_output(), "List(\n    Text(\"x\"),\n)");
}

#[test]
fn decimal_string_formats_signs() {
    assert_eq!(decimal_string(0), "0");
    assert_eq!(decimal_string(-42), "-42");
    assert_eq!(decimal_string(1234), "1234");
}

#[test]
fn printed_lines_end_without_whitespace() {
    let mut store = InternedDocumentStore::new();
    let a = store.add(Document::Text("a  ".to_string()));
    let newline = store.add(Document::Newline);
    let b = store.add(Document::Text("b ".to_string()));
    let root = store.add(Document::List(vec![a, newline, b]));
    assert_eq!(render(&store, root), "a\nb");
}
