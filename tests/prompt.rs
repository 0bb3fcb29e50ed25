use whim::prompt::{No, PromptItem, Yes};

#[test]
fn yes_prompt_answers() {
    assert_eq!(Yes::parse_input("n\n".to_string()), Ok(Yes::No));
    assert_eq!(Yes::parse_input("NO\n".to_string()), Ok(Yes::No));
    assert_eq!(Yes::parse_input("\n".to_string()), Ok(Yes::Yes));
    assert_eq!(Yes::parse_input("nope\n".to_string()), Ok(Yes::Yes));
    assert_eq!(Yes::from_folded("no\n"), Yes::No);
    assert_eq!(Yes::from_folded("No\n"), Yes::Yes);
    assert_eq!(Yes::OPTIONS, "Y/n");
}

#[test]
fn no_prompt_answers() {
    assert_eq!(No::parse_input("Yes".to_string()), Ok(No::Yes));
    assert_eq!(No::parse_input("y".to_string()), Ok(No::Yes));
    assert_eq!(No::parse_input("y\n".to_string()), Ok(No::No));
    assert_eq!(No::from_folded("YES"), No::No);
    assert_eq!(No::OPTIONS, "y/N");
}
