use iq::diver::Diver;
use iq::index::{parse_index_token, render_decimal};
use iq::{count_text, sizes_root, split_path, verdict_text, Flow, IqFormat, IqPath, Leaf, Sizer, Template, Verdict, Visit};

fn strings(v: &[&str]) -> Vec<String> {
    v.iter().map(|s| s.to_string()).collect()
}

#[test]
fn dotted_paths_are_cut_at_every_dot() {
    assert_eq!(split_path("a.b.2.c"), strings(&["a", "b", "2", "c"]));
    assert_eq!(split_path(""), strings(&[""]));
    assert_eq!(split_path("a."), strings(&["a", ""]));
    assert_eq!(split_path(".a"), strings(&["", "a"]));
    assert_eq!(split_path("Laïka.ü"), strings(&["Laïka", "ü"]));
}

#[test]
fn every_path_form_gives_the_same_tokens() {
    let expected = strings(&["coord", "0"]);
    assert_eq!("coord.0".iq_path(), expected);
    assert_eq!(vec!["coord", "0"].iq_path(), expected);
    assert_eq!((&vec!["coord", "0"]).iq_path(), expected);
    let slice: &[&str] = &["coord", "0"];
    assert_eq!(slice.iq_path(), expected);
    assert_eq!(expected.clone().iq_path(), expected);
    assert_eq!((&expected).iq_path(), expected);
    assert_eq!(expected.as_slice().iq_path(), expected);
    assert_eq!(Vec::<&str>::new().iq_path(), Vec::<String>::new());
}

#[test]
fn index_tokens() {
    assert_eq!(parse_index_token("0"), Some(0));
    assert_eq!(parse_index_token("42"), Some(42));
    assert_eq!(parse_index_token("+3"), Some(3));
    assert_eq!(parse_index_token("007"), Some(7));
    assert_eq!(parse_index_token(""), None);
    assert_eq!(parse_index_token("+"), None);
    assert_eq!(parse_index_token("-1"), None);
    assert_eq!(parse_index_token("1a"), None);
    assert_eq!(parse_index_token("name"), None);
    assert_eq!(parse_index_token(&usize::MAX.to_string()), Some(usize::MAX));
    assert_eq!(parse_index_token(&format!("{}0", usize::MAX)), None);
}

#[test]
fn decimal_rendering() {
    assert_eq!(render_decimal(0), "0");
    assert_eq!(render_decimal(7), "7");
    assert_eq!(render_decimal(1234), "1234");
    assert_eq!(render_decimal(usize::MAX), usize::MAX.to_string());
    assert_eq!(count_text(Some(12)), Some("12".to_string()));
    assert_eq!(count_text(None), None);
    assert_eq!(verdict_text(Verdict::Found("x".to_string())), Some("x".to_string()));
    assert_eq!(verdict_text(Verdict::NotFound), None);
}

#[test]
fn root_sizing_paths() {
    assert!(sizes_root(&Vec::new()));
    assert!(sizes_root(&strings(&[""])));
    assert!(sizes_root(&strings(&["", "a"])));
    assert!(!sizes_root(&strings(&["a"])));
}

#[test]
fn diver_on_a_sequence() {
    let mut d = Diver::new(strings(&["1"]), IqFormat::Json);
    assert_eq!(d.on_seq_start(), Flow::Go);
    assert_eq!(d.on_element(), Visit::Skip);
    assert_eq!(d.on_element(), Visit::Capture);

    let mut d = Diver::new(strings(&["1", "x"]), IqFormat::Primitive);
    assert_eq!(d.on_seq_start(), Flow::Go);
    assert_eq!(d.on_element(), Visit::Skip);
    assert_eq!(d.on_element(), Visit::Enter);
    assert_eq!(d.on_seq_start(), Flow::Done(Verdict::NotFound));

    let mut d = Diver::new(strings(&["name"]), IqFormat::Primitive);
    assert_eq!(d.on_seq_start(), Flow::Done(Verdict::NotFound));
}

#[test]
fn diver_on_structs_and_maps() {
    let mut d = Diver::new(strings(&["b", "k"]), IqFormat::Primitive);
    assert!(d.has_next_token("b"));
    assert!(!d.has_next_token("a"));
    assert_eq!(d.on_keyed_start(), Flow::Go);
    assert_eq!(d.on_field("a"), Visit::Skip);
    assert_eq!(d.on_field("b"), Visit::Enter);
    assert_eq!(d.on_keyed_start(), Flow::Go);
    d.on_key("\"j\"");
    assert_eq!(d.on_value(), Visit::Skip);
    d.on_key("\"k\"");
    assert_eq!(d.on_value(), Visit::Enter);
    assert_eq!(d.on_leaf(&Leaf::Plain("3".to_string())), Verdict::Found("3".to_string()));
    assert_eq!(d.on_end(), Verdict::NotFound);
}

#[test]
fn diver_leaves_and_variants() {
    let d = Diver::new(strings(&["a"]), IqFormat::Primitive);
    assert_eq!(d.on_leaf(&Leaf::Str("s".to_string())), Verdict::NotFound);
    assert_eq!(d.on_variant("V"), Flow::Go);

    let mut d = Diver::new(strings(&["a"]), IqFormat::Primitive);
    assert_eq!(d.on_keyed_start(), Flow::Go);
    assert_eq!(d.on_field("a"), Visit::Enter);
    assert_eq!(d.on_variant("V"), Flow::Done(Verdict::Found("V".to_string())));
    assert_eq!(d.on_leaf(&Leaf::Unit), Verdict::Found("unit".to_string()));
    assert_eq!(d.on_leaf(&Leaf::UnitStruct), Verdict::Found("unit".to_string()));
    assert_eq!(d.on_leaf(&Leaf::Nothing), Verdict::Found("none".to_string()));
    assert_eq!(d.on_leaf(&Leaf::Tag("Red".to_string())), Verdict::Found("Red".to_string()));
    assert_eq!(d.on_leaf(&Leaf::Bytes), Verdict::NotFound);
    assert_eq!(d.on_keyed_start(), Flow::Done(Verdict::NotFound));
}

#[test]
fn sizer_counts() {
    let s = Sizer::new();
    assert_eq!(s.finish(), Some(0));
    assert_eq!(s.uncountable(), None);
    assert_eq!(s.on_leaf(&Leaf::Str("Laïka".to_string())), Some(5));
    assert_eq!(s.on_leaf(&Leaf::Unit), Some(0));
    assert_eq!(s.on_leaf(&Leaf::UnitStruct), None);
    assert_eq!(s.on_leaf(&Leaf::Tag("Red".to_string())), None);
    assert_eq!(s.on_leaf(&Leaf::Plain("5".to_string())), None);
    assert_eq!(s.on_variant("Pair"), Some(4));

    let mut s = Sizer::new();
    assert_eq!(s.on_seq_start(Some(4)), Flow::Done(Some(4)));
    assert_eq!(s.on_seq_start(None), Flow::Go);
    s.on_item();
    s.on_item();
    assert_eq!(s.on_end(), Some(2));
    s.on_keyed_start();
    s.on_item();
    assert_eq!(s.on_end(), Some(1));
}

#[test]
fn template_placeholders() {
    let t = Template::new("{a.b} and {c}!");
    assert_eq!(t.paths(), vec![strings(&["a", "b"]), strings(&["c"])]);
    assert_eq!(
        t.fill(&vec![Some("X".to_string()), Some("Y".to_string())]),
        "X and Y!"
    );
    assert_eq!(t.fill(&vec![None, Some("Y".to_string())]), " and Y!");
    assert_eq!(t.fill(&vec![]), " and !");

    let t = Template::new("{{a}} {} {a b} {x");
    assert_eq!(t.paths(), vec![strings(&["a"])]);
    assert_eq!(t.fill(&vec![Some("1".to_string())]), "{1} {} {a b} {x");

    let t = Template::new("no placeholder");
    assert!(t.paths().is_empty());
    assert_eq!(t.fill(&vec![]), "no placeholder");
}

#[test]
fn placeholders_hold_no_whitespace() {
    let t = Template::new("{a\tb} {c}\n{d\ne}");
    assert_eq!(t.paths(), vec![strings(&["c"])]);
    assert_eq!(t.fill(&vec![Some("C".to_string())]), "{a\tb} C\n{d\ne}");
}
