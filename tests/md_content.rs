use whim::md_content::{title_of_events, MdContent, MdEvent};

#[test]
fn title_is_first_text_after_first_h1() {
    let md = MdContent::new("intro\n\n## Sub\n\n# The *Title* here\n\nbody\n");
    assert_eq!(md.title(), Some("The ".to_string()));
    assert_eq!(MdContent::new("no heading at all\n").title(), None);
    assert_eq!(MdContent::new("# Plain\n").title(), Some("Plain".to_string()));
}

#[test]
fn title_from_events() {
    let events = vec![
        MdEvent::Text("before".into()),
        MdEvent::HeadingStart(2),
        MdEvent::Text("sub".into()),
        MdEvent::HeadingStart(1),
        MdEvent::Other,
        MdEvent::Text("title".into()),
    ];
    assert_eq!(title_of_events(&events), Some("title".to_string()));
    assert_eq!(title_of_events(&vec![MdEvent::HeadingStart(1), MdEvent::Other]), None);
    assert_eq!(title_of_events(&vec![]), None);
}

#[test]
fn html_rendering() {
    let html = MdContent::new("# Hi\n").to_html_string();
    assert_eq!(html, "<h1>Hi</h1>\n");
}
