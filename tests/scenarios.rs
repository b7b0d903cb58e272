use iq::{
    count_text, sizes_root, split_path, verdict_text, Diver, Flow, IqFormat, IqPath, Leaf, Sizer,
    Template, Verdict, Visit,
};

/// A value as the tests build it; it announces itself to the machines the
/// way a serde value does.
enum Node {
    Str(&'static str),
    Num(i64),
    Unit,
    Nothing,
    Tag(&'static str),
    List(Option<usize>, Vec<Node>),
    Mapping(Vec<(Node, Node)>),
    Record(Vec<(&'static str, Node)>),
    TupleVariant(&'static str, Vec<Node>),
}

fn leaf_of(node: &Node) -> Option<Leaf> {
    match node {
        Node::Str(s) => Some(Leaf::Str(s.to_string())),
        Node::Num(n) => Some(Leaf::Plain(n.to_string())),
        Node::Unit => Some(Leaf::Unit),
        Node::Nothing => Some(Leaf::Nothing),
        Node::Tag(t) => Some(Leaf::Tag(t.to_string())),
        _ => None,
    }
}

fn to_json(node: &Node) -> String {
    match node {
        Node::Str(s) | Node::Tag(s) => format!("\"{}\"", s),
        Node::Num(n) => n.to_string(),
        Node::Unit | Node::Nothing => "null".to_string(),
        Node::List(_, items) => {
            let parts: Vec<String> = items.iter().map(to_json).collect();
            format!("[{}]", parts.join(","))
        }
        Node::Mapping(entries) => {
            let parts: Vec<String> = entries
                .iter()
                .map(|(k, v)| format!("{}:{}", to_json(k), to_json(v)))
                .collect();
            format!("{{{}}}", parts.join(","))
        }
        Node::Record(fields) => {
            let parts: Vec<String> = fields
                .iter()
                .map(|(k, v)| format!("\"{}\":{}", k, to_json(v)))
                .collect();
            format!("{{{}}}", parts.join(","))
        }
        Node::TupleVariant(name, items) => {
            let parts: Vec<String> = items.iter().map(to_json).collect();
            format!("{{\"{}\":[{}]}}", name, parts.join(","))
        }
    }
}

fn count(node: &Node) -> Option<usize> {
    let mut sizer = Sizer::new();
    if let Some(leaf) = leaf_of(node) {
        return sizer.on_leaf(&leaf);
    }
    let n = match node {
        Node::List(len, items) => match sizer.on_seq_start(*len) {
            Flow::Done(c) => return c,
            Flow::Go => items.len(),
        },
        Node::Mapping(entries) => {
            sizer.on_keyed_start();
            entries.len()
        }
        Node::Record(fields) => {
            sizer.on_keyed_start();
            fields.len()
        }
        Node::TupleVariant(name, _) => return sizer.on_variant(name),
        _ => unreachable!(),
    };
    for _ in 0..n {
        sizer.on_item();
    }
    sizer.on_end()
}

enum Stop {
    Settled(Verdict),
    Count(Option<usize>),
}

fn go(flow: Flow<Verdict>) -> Result<(), Stop> {
    match flow {
        Flow::Go => Ok(()),
        Flow::Done(v) => Err(Stop::Settled(v)),
    }
}

fn visit(d: &mut Diver, v: Visit, child: &Node, format: IqFormat) -> Result<(), Stop> {
    match v {
        Visit::Skip => Ok(()),
        Visit::Enter => {
            walk(d, child, format)?;
            Err(Stop::Settled(Verdict::NotFound))
        }
        Visit::Capture => Err(match format {
            IqFormat::Size => Stop::Count(count(child)),
            _ => Stop::Settled(Verdict::Found(to_json(child))),
        }),
    }
}

fn walk(d: &mut Diver, node: &Node, format: IqFormat) -> Result<(), Stop> {
    if let Some(leaf) = leaf_of(node) {
        return Err(Stop::Settled(d.on_leaf(&leaf)));
    }
    match node {
        Node::List(_, items) => {
            go(d.on_seq_start())?;
            for item in items {
                let v = d.on_element();
                visit(d, v, item, format)?;
            }
        }
        Node::TupleVariant(name, items) => {
            go(d.on_variant(name))?;
            go(d.on_seq_start())?;
            for item in items {
                let v = d.on_element();
                visit(d, v, item, format)?;
            }
        }
        Node::Mapping(entries) => {
            go(d.on_keyed_start())?;
            for (k, val) in entries {
                d.on_key(&to_json(k));
                let v = d.on_value();
                visit(d, v, val, format)?;
            }
        }
        Node::Record(fields) => {
            go(d.on_keyed_start())?;
            for (name, val) in fields {
                let v = d.on_field(name);
                visit(d, v, val, format)?;
            }
        }
        _ => unreachable!(),
    }
    Err(Stop::Settled(d.on_end()))
}

fn extract<P: IqPath>(node: &Node, path: P, format: IqFormat) -> Option<String> {
    let mut d = Diver::new(path.iq_path(), format);
    match walk(&mut d, node, format) {
        Ok(()) => None,
        Err(Stop::Settled(v)) => verdict_text(v),
        Err(Stop::Count(c)) => count_text(c),
    }
}

fn primitive<P: IqPath>(node: &Node, path: P) -> Option<String> {
    extract(node, path, IqFormat::Primitive)
}

fn json<P: IqPath>(node: &Node, path: P) -> Option<String> {
    extract(node, path, IqFormat::Json)
}

fn size<P: IqPath>(node: &Node, path: P) -> Option<usize> {
    let keys = path.iq_path();
    if sizes_root(&keys) {
        return count(node);
    }
    let mut d = Diver::new(keys, IqFormat::Size);
    match walk(&mut d, node, IqFormat::Size) {
        Err(Stop::Count(c)) => c,
        _ => None,
    }
}

fn dog(name: &'static str, ears: i64) -> Node {
    Node::Record(vec![("name", Node::Str(name)), ("ears", Node::Num(ears))])
}

fn car() -> Node {
    Node::Record(vec![
        ("engine", Node::Str("V8")),
        (
            "passengers",
            Node::List(None, vec![dog("Roverandom", 1), dog("Laïka", 2)]),
        ),
        ("driver", dog("Rex", 2)),
    ])
}

fn world() -> Node {
    Node::Record(vec![
        (
            "targets",
            Node::Mapping(vec![
                (
                    Node::Str("Earth"),
                    Node::List(Some(3), vec![Node::Num(1), Node::Num(2), Node::Num(3)]),
                ),
                (
                    Node::Str("Moon"),
                    Node::List(Some(3), vec![Node::Num(4), Node::Num(5), Node::Num(6)]),
                ),
            ]),
        ),
        (
            "masters",
            Node::Mapping(vec![
                (Node::Tag("fantasy"), dog("Roverandom", 1)),
                (Node::Tag("real"), dog("Laïka", 2)),
            ]),
        ),
    ])
}

#[test]
fn test_extract_size() {
    let thing = Node::Record(vec![
        (
            "coord",
            Node::List(Some(2), vec![Node::Str("Earth"), Node::Num(4)]),
        ),
        ("name", Node::Str("some name")),
        (
            "v",
            Node::List(None, vec![Node::Num(1), Node::Num(2), Node::Num(3), Node::Num(4)]),
        ),
    ]);
    assert_eq!(size(&thing, "coord").unwrap(), 2);
    assert_eq!(size(&thing, "coord.0").unwrap(), 5);
    assert_eq!(size(&thing, vec!["coord", "0"]).unwrap(), 5);
    assert_eq!(size(&thing, "name").unwrap(), 9);
    assert_eq!(size(&thing, "v").unwrap(), 4);
    assert_eq!(size(&thing, "").unwrap(), 3);
    assert_eq!(size(&thing, Vec::<&str>::new()).unwrap(), 3);
}

#[test]
fn structs_and_arrays() {
    let car = car();
    assert_eq!(primitive(&car, "driver.ears").unwrap(), "2");
    assert_eq!(primitive(&car, "driver.name").unwrap(), "Rex");
    assert_eq!(primitive(&car, "passengers.1.name").unwrap(), "Laïka");
    assert_eq!(primitive(&car, "passengers.1"), None);

    assert_eq!(json(&car, "wrong.path"), None);
    assert_eq!(json(&car, "driver.ears").unwrap(), "2");
    assert_eq!(json(&car, "driver.name").unwrap(), r#""Rex""#);
    assert_eq!(
        json(&car, "passengers.0").unwrap(),
        r#"{"name":"Roverandom","ears":1}"#
    );
    assert_eq!(json(&car, "passengers.3"), None);
    assert_eq!(
        json(&car, "passengers.1").unwrap(),
        r#"{"name":"Laïka","ears":2}"#
    );

    assert_eq!(primitive(&car, vec!["passengers", "0", "ears"]).unwrap(), "1");

    assert_eq!(size(&car, "passengers"), Some(2));
    assert_eq!(size(&car, "passengers.1.name"), Some(5));
    assert_eq!(size(&car, "passengers.1"), Some(2));
    assert_eq!(size(&car, "passengers.3"), None);
    assert_eq!(size(&car, ""), Some(3));
}

#[test]
fn structs_enums_maps_and_tuples() {
    let world = world();
    assert_eq!(primitive(&world, "targets.Earth.1").unwrap(), "2");
    assert_eq!(json(&world, "targets.Moon").unwrap(), "[4,5,6]");
    assert_eq!(primitive(&world, "targets.Moon.2").unwrap(), "6");
    assert_eq!(primitive(&world, "targets.Moon.3"), None);
    assert_eq!(
        primitive(&world, "masters.fantasy.name").unwrap(),
        "Roverandom"
    );
    assert_eq!(primitive(&world, "masters.real.ears").unwrap(), "2");
    assert_eq!(
        json(&world, "masters.fantasy").unwrap(),
        r#"{"name":"Roverandom","ears":1}"#
    );
}

#[test]
fn test_sizer() {
    let array = Node::List(Some(3), vec![Node::Num(1), Node::Num(2), Node::Num(3)]);
    assert_eq!(count(&array), Some(3));
    assert_eq!(count(&Node::Str("abcdefg")), Some(7));
    assert_eq!(count(&Node::Unit), Some(0));
    assert_eq!(count(&Node::List(Some(2), vec![Node::Num(0), Node::Num(1)])), Some(2));
    assert_eq!(count(&Node::Num(5)), None);
    assert_eq!(count(&Node::Nothing), None);
}

#[test]
fn test_templates() {
    let span = |text: &'static str, age: i64| {
        Node::Record(vec![("text", Node::Str(text)), ("age", Node::Num(age))])
    };
    let data = Node::Record(vec![
        ("spans", Node::List(None, vec![span("hello", 1), span("world", 2)])),
        (
            "diag",
            Node::Record(vec![
                ("disease", Node::Str("covid")),
                ("diag_span", span("diagnosis", 3)),
            ]),
        ),
        ("stuf", Node::List(Some(2), vec![Node::Num(4), Node::Num(5)])),
    ]);
    let template = Template::new(
        "spans: {spans.0.text} {spans.1.age}, diag: {diag.disease} {diag.diag_span.text}, stuf: {stuf.0} {stuf.1}",
    );
    let values: Vec<Option<String>> =
        template.paths().iter().map(|p| primitive(&data, p)).collect();
    assert_eq!(
        template.fill(&values),
        "spans: hello 2, diag: covid diagnosis, stuf: 4 5",
    );
}

#[test]
fn primitive_of_scalar_leaves() {
    let v = Node::Record(vec![
        ("u", Node::Unit),
        ("n", Node::Nothing),
        ("t", Node::Tag("Red")),
        ("s", Node::Str("text")),
        ("v", Node::TupleVariant("Pair", vec![Node::Num(7), Node::Num(8)])),
    ]);
    assert_eq!(primitive(&v, "u").unwrap(), "unit");
    assert_eq!(primitive(&v, "n").unwrap(), "none");
    assert_eq!(primitive(&v, "t").unwrap(), "Red");
    assert_eq!(primitive(&v, "s").unwrap(), "text");
    assert_eq!(json(&v, "s").unwrap(), "\"text\"");
    assert_eq!(primitive(&v, "v").unwrap(), "Pair");
    assert_eq!(primitive(&v, "v.1").unwrap(), "8");
    assert_eq!(size(&v, "v"), Some(4));
}

#[test]
fn index_within_and_past_bounds() {
    let list = Node::List(
        None,
        vec![Node::Str("ab"), Node::Str("cde"), Node::List(None, vec![])],
    );
    assert_eq!(size(&list, "0"), Some(2));
    assert_eq!(size(&list, "1"), Some(3));
    assert_eq!(size(&list, "2"), Some(0));
    assert_eq!(size(&list, "3"), None);
    assert_eq!(size(&list, "x"), None);
    assert_eq!(size(&list, "+1"), Some(3));
}

#[test]
fn empty_paths_find_nothing_but_size_the_root() {
    let car = car();
    assert_eq!(primitive(&car, ""), None);
    assert_eq!(json(&car, Vec::<&str>::new()), None);
    assert_eq!(size(&car, ""), size(&car, Vec::<&str>::new()));
    assert_eq!(size(&car, ""), count(&car));
}

#[test]
fn same_call_twice_gives_same_result() {
    let world = world();
    let path = split_path("masters.real.name");
    let a = primitive(&world, &path);
    let b = primitive(&world, &path);
    assert_eq!(a, b);
    assert_eq!(a.unwrap(), "Laïka");
    assert_eq!(size(&world, "targets"), size(&world, "targets"));
}

#[test]
fn quoted_tokens_match_unquoted_keys() {
    let world = world();
    assert_eq!(primitive(&world, "targets.\"Earth\".0").unwrap(), "1");
    assert_eq!(primitive(&world, "masters.\"real\".ears").unwrap(), "2");
    assert_eq!(primitive(&world, "masters.Real.ears"), None);
}

#[test]
fn a_sibling_after_a_dead_end_is_not_matched() {
    let v = Node::Record(vec![
        ("a", Node::Num(5)),
        ("b", Node::Record(vec![("c", Node::Num(1))])),
    ]);
    assert_eq!(primitive(&v, "a.b"), None);
    let l = Node::List(
        None,
        vec![
            Node::List(None, vec![Node::Num(1), Node::Num(2), Node::Num(3)]),
            Node::Num(10),
            Node::Num(20),
        ],
    );
    assert_eq!(primitive(&l, "0.5"), None);
    assert_eq!(primitive(&l, "0.2").unwrap(), "3");
}
