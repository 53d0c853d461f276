use redgex::parse;

#[test]
fn or_in_root1() {
    assert_eq!(
        Vec::<usize>::new(),
        parse::or_in_root("(awed|dwaevsr)[awdef|adefsrvr]a")
    );
    assert_eq!(
        Vec::<usize>::new(),
        parse::or_in_root("(awed|dwaevsr)[awdef|adefsrvr]\\|a")
    );
    assert_eq!(
        vec![30],
        parse::or_in_root("(awed|dwaevsr)[awdef|adefsrvr]|a")
    );
    assert_eq!(
        vec![14, 31],
        parse::or_in_root("(awed|dwaevsr)|[awdef|adefsrvr]|a")
    );
}

#[test]
fn get_end_of_group1() {
    assert_eq!(None, parse::get_end_of_group(""));
    assert_eq!(None, parse::get_end_of_group("("));
    assert_eq!(None, parse::get_end_of_group("(\\)"));
    assert_eq!(Some(1), parse::get_end_of_group("()"));
    assert_eq!(Some(2), parse::get_end_of_group("(a)"));
    assert_eq!(Some(2), parse::get_end_of_group("(|)"));
}

#[test]
fn get_end_of_any1() {
    assert_eq!(None, parse::get_end_of_any(""));
    assert_eq!(None, parse::get_end_of_any("["));
    assert_eq!(Some(1), parse::get_end_of_any("[]"));
    assert_eq!(Some(2), parse::get_end_of_any("[a]"));
    assert_eq!(Some(2), parse::get_end_of_any("[|]"));
}

const WORD: &str = "abcdefghijklmnopqrstuvwxyzABCDEFGHIJKLMNOPQRSTUVWXYZ0123456789_";

#[test]
fn expand_any1() {
    assert_eq!("", parse::expand_any(""));
    assert_eq!("a", parse::expand_any("a"));
    assert_eq!(WORD, parse::expand_any("\\w"));
    assert_eq!("a|bghijkl", parse::expand_any("a|bg-l"));

    assert_eq!("", parse::expand_any(""));
    assert_eq!("a", parse::expand_any("a"));
    assert_eq!(WORD, parse::expand_any("\\w"));
    assert_eq!("a|bghijkl", parse::expand_any("a|bg-l"));
}

#[test]
fn get_end_of_static1() {
    assert_eq!(1, parse::get_end_of_static("l"));
    assert_eq!(5, parse::get_end_of_static("lawdf"));
    assert_eq!(5, parse::get_end_of_static("lawdf(defsvrfb)"));
    assert_eq!(5, parse::get_end_of_static("lawdf?"));
    assert_eq!(5, parse::get_end_of_static("lawdf+"));
    assert_eq!(5, parse::get_end_of_static("lawdf[ae]"));
}
