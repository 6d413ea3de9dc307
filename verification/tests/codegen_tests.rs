use rustweb::codegen::props_path_for;
use rustweb::token::Tok;

fn texts(v: &[Tok]) -> Vec<String> {
    v.iter().map(|t| t.text()).collect()
}

#[test]
fn props_path_replaces_the_last_segment() {
    let path = vec![
        Tok::Ident("ui".into()),
        Tok::Punct(':'),
        Tok::Punct(':'),
        Tok::Ident("Button".into()),
    ];
    assert_eq!(texts(&props_path_for(&path, "Button")), vec!["ui", ":", ":", "ButtonProps"]);
}

#[test]
fn props_path_of_a_bare_name() {
    let path = vec![Tok::Ident("Card".into())];
    assert_eq!(texts(&props_path_for(&path, "Card")), vec!["CardProps"]);
}

#[test]
fn props_path_keeps_every_leading_segment() {
    let path = vec![
        Tok::Ident("crate".into()),
        Tok::Punct(':'),
        Tok::Punct(':'),
        Tok::Ident("widgets".into()),
        Tok::Punct(':'),
        Tok::Punct(':'),
        Tok::Ident("Tabs".into()),
    ];
    assert_eq!(
        texts(&props_path_for(&path, "Tabs")),
        vec!["crate", ":", ":", "widgets", ":", ":", "TabsProps"]
    );
}
