use org_headline::config::ParseConfig;
use org_headline::drawer::parse_properties_drawer;
use org_headline::headline::parse_headline;
use org_headline::title::{Planning, Title};

fn s(x: &str) -> String {
    x.to_string()
}

#[test]
fn parse_headline_() {
    let config = ParseConfig::default();
    assert_eq!(
        parse_headline("**** DONE [#A] COMMENT Title :tag:a2%:", &config),
        Some((
            s(""),
            (
                4,
                Some(s("DONE")),
                Some('A'),
                s("COMMENT Title"),
                vec![s("tag"), s("a2%")]
            )
        ))
    );
    assert_eq!(
        parse_headline("**** ToDO [#A] COMMENT Title", &config),
        Some((s(""), (4, None, None, s("ToDO [#A] COMMENT Title"), vec![])))
    );
    assert_eq!(
        parse_headline("**** T0DO [#A] COMMENT Title", &config),
        Some((s(""), (4, None, None, s("T0DO [#A] COMMENT Title"), vec![])))
    );
    assert_eq!(
        parse_headline("**** DONE [#1] COMMENT Title", &config),
        Some((
            s(""),
            (4, Some(s("DONE")), None, s("[#1] COMMENT Title"), vec![])
        ))
    );
    assert_eq!(
        parse_headline("**** DONE [#a] COMMENT Title", &config),
        Some((
            s(""),
            (4, Some(s("DONE")), None, s("[#a] COMMENT Title"), vec![])
        ))
    );
    assert_eq!(
        parse_headline("**** Title :tag:a2%", &config),
        Some((s(""), (4, None, None, s("Title :tag:a2%"), vec![])))
    );
    assert_eq!(
        parse_headline("**** Title tag:a2%:", &config),
        Some((s(""), (4, None, None, s("Title tag:a2%:"), vec![])))
    );

    assert_eq!(
        parse_headline(
            "**** DONE Title",
            &ParseConfig {
                done_keywords: vec![],
                ..Default::default()
            }
        ),
        Some((s(""), (4, None, None, s("DONE Title"), vec![])))
    );
    assert_eq!(
        parse_headline(
            "**** TASK [#A] Title",
            &ParseConfig {
                todo_keywords: vec![s("TASK")],
                ..Default::default()
            }
        ),
        Some((s(""), (4, Some(s("TASK")), Some('A'), s("Title"), vec![])))
    );
}

#[test]
fn parse_properties_drawer_() {
    let r = parse_properties_drawer("   :PROPERTIES:\n   :CUSTOM_ID: id\n   :END:");
    let (rest, props) = r.expect("drawer should parse");
    assert_eq!(rest, s(""));
    assert_eq!(props.len(), 1);
    assert_eq!(props.get(&s("CUSTOM_ID")), Some(&s("id")));
}

#[test]
fn level_counts_markers() {
    let config = ParseConfig::default();
    for n in 1..6usize {
        let line = format!("{} Title", "*".repeat(n));
        let (_, (level, _, _, _, _)) = parse_headline(&line, &config).unwrap();
        assert_eq!(level, n);
    }
    // no marker run: the one failing input
    assert_eq!(parse_headline("Title", &config), None);
    assert_eq!(parse_headline("", &config), None);
}

#[test]
fn keyword_needs_vocabulary() {
    let empty = ParseConfig {
        todo_keywords: vec![],
        done_keywords: vec![],
    };
    assert_eq!(
        parse_headline("* DONE Title", &empty),
        Some((s(""), (1, None, None, s("DONE Title"), vec![])))
    );
    assert_eq!(
        parse_headline("* TODO Title", &ParseConfig::default()),
        Some((s(""), (1, Some(s("TODO")), None, s("Title"), vec![])))
    );
}

#[test]
fn priority_without_keyword() {
    // a cookie is consumed even when no keyword precedes it
    let config = ParseConfig::default();
    assert_eq!(
        parse_headline("* [#A] Title", &config),
        Some((s(""), (1, None, Some('A'), s("Title"), vec![])))
    );
    // but only as the next whitespace-delimited word, matched exactly
    assert_eq!(
        parse_headline("* [#A]x Title", &config),
        Some((s(""), (1, None, None, s("[#A]x Title"), vec![])))
    );
}

#[test]
fn tag_block_boundaries() {
    let config = ParseConfig::default();
    // shortest accepted block has three characters
    assert_eq!(
        parse_headline("* Title :a:", &config),
        Some((s(""), (1, None, None, s("Title"), vec![s("a")])))
    );
    // a two-character block is kept as title text
    assert_eq!(
        parse_headline("* Title ::", &config),
        Some((s(""), (1, None, None, s("Title ::"), vec![])))
    );
    // empty segments are dropped, duplicates kept
    assert_eq!(
        parse_headline("* Title :a::a:", &config),
        Some((s(""), (1, None, None, s("Title"), vec![s("a"), s("a")])))
    );
}

#[test]
fn rest_follows_the_line() {
    let config = ParseConfig::default();
    assert_eq!(
        parse_headline("* Title\nbody text", &config),
        Some((s("body text"), (1, None, None, s("Title"), vec![])))
    );
    assert_eq!(
        parse_headline("* Title\r\nbody", &config),
        Some((s("body"), (1, None, None, s("Title"), vec![])))
    );
}

#[test]
fn tags_round_trip() {
    let config = ParseConfig::default();
    let (_, (_, _, _, raw, tags)) = parse_headline("* Head text :x:y2%:", &config).unwrap();
    assert_eq!(raw, s("Head text"));
    assert_eq!(tags, vec![s("x"), s("y2%")]);
    // rebuild the tail and parse again: same raw, same tags
    let rebuilt = format!("* {} :{}:", raw, tags.join(":"));
    let (_, (_, _, _, raw2, tags2)) = parse_headline(&rebuilt, &config).unwrap();
    assert_eq!(raw2, raw);
    assert_eq!(tags2, tags);
}

#[test]
fn properties_drawer_details() {
    // later duplicate names overwrite earlier ones
    let (rest, props) =
        parse_properties_drawer(":PROPERTIES:\n:VAR: a\n:VAR: b\n:END:\ntail").unwrap();
    assert_eq!(rest, s("tail"));
    assert_eq!(props.len(), 1);
    assert_eq!(props.get(&s("VAR")), Some(&s("b")));
    // a trailing '+' is stripped from the name
    let (_, props) = parse_properties_drawer(":PROPERTIES:\n:VAR+: x\n:END:").unwrap();
    assert_eq!(props.get(&s("VAR")), Some(&s("x")));
    // the closing line matches ignoring case
    let (_, props) = parse_properties_drawer(":PROPERTIES:\n:K: v\n:end:").unwrap();
    assert_eq!(props.get(&s("K")), Some(&s("v")));
}

#[test]
fn properties_drawer_absent() {
    // wrong name: signals "no properties drawer", not a hard error
    assert!(parse_properties_drawer(":LOGBOOK:\n:A: b\n:END:").is_none());
    // no closing line
    assert!(parse_properties_drawer(":PROPERTIES:\n:A: b").is_none());
    // no drawer at all
    assert!(parse_properties_drawer("plain text").is_none());
}

#[test]
fn title_parse_assembles() {
    let config = ParseConfig::default();
    let input = "* TODO [#B] Call :work:\n:PROPERTIES:\n:ID: 42\n:END:\nrest";
    let (rest, title, raw) = Title::parse(input, &config).unwrap();
    assert_eq!(rest, s("rest"));
    assert_eq!(raw, s("Call"));
    assert_eq!(title.level, 1);
    assert_eq!(title.keyword, Some(s("TODO")));
    assert_eq!(title.priority, Some('B'));
    assert_eq!(title.raw, s("Call"));
    assert_eq!(title.tags, vec![s("work")]);
    assert!(title.planning.is_none());
    assert_eq!(title.properties.get(&s("ID")), Some(&s("42")));
    assert!(Title::parse("no marker", &config).is_none());
}

#[test]
fn title_without_drawer() {
    let config = ParseConfig::default();
    let (rest, title, _) = Title::parse("** Plain\nfollows", &config).unwrap();
    assert_eq!(rest, s("follows"));
    assert_eq!(title.level, 2);
    assert_eq!(title.properties.len(), 0);
}

#[test]
fn detach_is_field_equal() {
    let config = ParseConfig::default();
    let input = "* TODO [#A] Work :a:b:\n:PROPERTIES:\n:K: v\n:END:";
    let (_, title, _) = Title::parse(input, &config).unwrap();
    let title = title.with_planning(Planning {
        text: s("SCHEDULED: soon"),
    });
    let level = title.level;
    let keyword = title.keyword.clone();
    let priority = title.priority;
    let raw = title.raw.clone();
    let tags = title.tags.clone();
    let owned = title.into_owned();
    assert_eq!(owned.level, level);
    assert_eq!(owned.keyword, keyword);
    assert_eq!(owned.priority, priority);
    assert_eq!(owned.raw, raw);
    assert_eq!(owned.tags, tags);
    assert_eq!(owned.planning.as_ref().unwrap().text, s("SCHEDULED: soon"));
    assert_eq!(owned.properties.get(&s("K")), Some(&s("v")));
}

#[test]
fn archived_tag() {
    let config = ParseConfig::default();
    let (_, title, _) = Title::parse("* Old :ARCHIVE:", &config).unwrap();
    assert!(title.is_archived());
    let (_, title, _) = Title::parse("* Fresh :work:", &config).unwrap();
    assert!(!title.is_archived());
}
