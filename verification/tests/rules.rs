use rslex::builder::NFABuilder;
use rslex::label::Label;
use rslex::rules::{alternate_to_spec, concat_to_spec, regex_to_nfa_spec, Expr, Repeater};
use rslex::thompson::Spec;

fn lower_repeater(r: &regex_syntax::Repeater) -> Repeater {
    match *r {
        regex_syntax::Repeater::ZeroOrOne => Repeater::ZeroOrOne,
        regex_syntax::Repeater::ZeroOrMore => Repeater::ZeroOrMore,
        regex_syntax::Repeater::OneOrMore => Repeater::OneOrMore,
        regex_syntax::Repeater::Range { min, max } => Repeater::Range { min: min, max: max },
    }
}

fn lower(e: &regex_syntax::Expr) -> Expr {
    match *e {
        regex_syntax::Expr::Empty => Expr::Empty,
        regex_syntax::Expr::Literal { ref chars, casei } => {
            Expr::Literal { chars: chars.clone(), casei: casei }
        }
        regex_syntax::Expr::LiteralBytes { .. } => Expr::LiteralBytes,
        regex_syntax::Expr::AnyChar => Expr::AnyChar,
        regex_syntax::Expr::AnyCharNoNL => Expr::AnyCharNoNL,
        regex_syntax::Expr::AnyByte => Expr::AnyByte,
        regex_syntax::Expr::AnyByteNoNL => Expr::AnyByteNoNL,
        regex_syntax::Expr::Class(_) => Expr::Class,
        regex_syntax::Expr::ClassBytes(_) => Expr::ClassBytes,
        regex_syntax::Expr::StartLine => Expr::StartLine,
        regex_syntax::Expr::EndLine => Expr::EndLine,
        regex_syntax::Expr::StartText => Expr::StartText,
        regex_syntax::Expr::EndText => Expr::EndText,
        regex_syntax::Expr::WordBoundary => Expr::WordBoundary,
        regex_syntax::Expr::NotWordBoundary => Expr::NotWordBoundary,
        regex_syntax::Expr::WordBoundaryAscii => Expr::WordBoundaryAscii,
        regex_syntax::Expr::NotWordBoundaryAscii => Expr::NotWordBoundaryAscii,
        regex_syntax::Expr::Group { ref e, .. } => Expr::Group { e: Box::new(lower(e)) },
        regex_syntax::Expr::Repeat { ref e, ref r, greedy } => {
            Expr::Repeat { e: Box::new(lower(e)), r: lower_repeater(r), greedy: greedy }
        }
        regex_syntax::Expr::Concat(ref es) => Expr::Concat(es.iter().map(lower).collect()),
        regex_syntax::Expr::Alternate(ref es) => Expr::Alternate(es.iter().map(lower).collect()),
    }
}

fn parse(pattern: &str) -> Expr {
    lower(&regex_syntax::Expr::parse(pattern).unwrap())
}

#[test]
fn test_nfa_dfa() {
    //test 1
    let re1 = parse(r"a{4,}");
    let spc1 = regex_to_nfa_spec(&re1).unwrap();
    let nfa1 = NFABuilder::build_from_spec(spc1);
    let dfa1 = nfa1.to_dfa();
    assert!(nfa1.simulate("aaaaa"));
    assert!(dfa1.simulate("aaaaa"));
    assert!(!nfa1.simulate("aa"));
    assert!(!dfa1.simulate("aa"));

    //test 2
    let re2 = parse(r"ab|cd");
    let spc2 = regex_to_nfa_spec(&re2).unwrap();
    let nfa2 = NFABuilder::build_from_spec(spc2);
    let dfa2 = nfa2.to_dfa();
    assert!(nfa2.simulate("ab"));
    assert!(dfa2.simulate("ab"));
    assert!(nfa2.simulate("cd"));
    assert!(dfa2.simulate("cd"));
    assert!(!nfa2.simulate("abcd"));
    assert!(!dfa2.simulate("abcd"));

    //test 3
    let re3 = parse(r"ab*");
    let spc3 = regex_to_nfa_spec(&re3).unwrap();
    println!("regex!!");
    println!("{:?}", spc3);
    let nfa3 = NFABuilder::build_from_spec(spc3);
    let dfa3 = nfa3.to_dfa();
    assert!(nfa3.dot_text().starts_with("digraph {\n"));
    assert!(dfa3.dot_text().ends_with("}\n"));

    assert!(nfa3.simulate("abbbbb"));
    assert!(dfa3.simulate("abbbbb"));
    assert!(nfa3.simulate("a"));
    assert!(dfa3.simulate("a"));
    assert!(!nfa3.simulate("abbabbbb"));
    assert!(!dfa3.simulate("abbabbbb"));
}

#[test]
fn test_repeater_zero_or_more1() {
    let re = parse(r".*");
    let spec = regex_to_nfa_spec(&re).unwrap();

    println!("regex: {:?}", re);
    assert_eq!(spec, *Spec::star(Spec::single(Label::Any)));
}

#[test]
fn test_literal() {
    let re = parse(r"ab");
    let spec = regex_to_nfa_spec(&re).unwrap();

    println!("regex: {:?}", re);
    assert_eq!(
        spec,
        *Spec::concat(Spec::single(Label::Symbol('a')), Spec::single(Label::Symbol('b')))
    );
}

#[test]
fn test_concat() {
    let re1 = parse(r"ab");
    let re2 = parse(r"cd");

    let mut tmp: Vec<Expr> = Vec::with_capacity(2);

    tmp.push(re1);
    tmp.push(re2);

    let aux = concat_to_spec(&tmp).unwrap();

    let aux2 = NFABuilder::build_from_spec(aux);

    assert!(aux2.simulate("abcd"));
    assert!(!aux2.simulate("ab"));
    assert!(!aux2.simulate("cd"));
}

#[test]
fn test_altenate() {
    let re1 = parse(r"ab");
    let re2 = parse(r"cd");

    let mut tmp: Vec<Expr> = Vec::with_capacity(2);

    tmp.push(re1);
    tmp.push(re2);
    let aux = alternate_to_spec(&tmp).unwrap();

    let aux2 = NFABuilder::build_from_spec(aux);

    assert!(!aux2.simulate("abcd"));
    assert!(aux2.simulate("ab"));
    assert!(aux2.simulate("cd"));
}

#[test]
fn test_repeater_range() {
    let re = parse(r"a{0,4}");
    let spec = regex_to_nfa_spec(&re).unwrap();
    let n = NFABuilder::build_from_spec(spec);

    println!("regex: {:?}", re);
    assert!(n.simulate("aaaa"));
    assert!(n.simulate(""));
    assert!(!n.simulate("aaaaaaaaaaaa"));
}
