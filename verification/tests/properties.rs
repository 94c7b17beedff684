use std::collections::BTreeSet;

use rslex::buffer::Pos;
use rslex::builder::NFABuilder;
use rslex::key::{canonical_set_string, sorted_members};
use rslex::label::{insert_label, Label, StateID};
use rslex::nfa::{any_accepting, earliest_rule, state_set, Outcome, NFA};
use rslex::rules::{
    literal_to_spec, regex_to_nfa_spec, repeater_range, repeater_to_spec, Expr, Repeater,
    TranslateError,
};
use rslex::subset::sets_equal;
use rslex::text::{digit_char, push_decimal};
use rslex::thompson::Spec;

fn sym(c: char) -> Box<Spec> {
    Spec::single(Label::Symbol(c))
}

fn lit(s: &str) -> Expr {
    Expr::Literal { chars: s.chars().collect(), casei: false }
}

fn set_of(ids: &[StateID]) -> BTreeSet<StateID> {
    ids.iter().cloned().collect()
}

fn edges(nfa: &NFA) -> Vec<Vec<(Label, StateID)>> {
    let mut res = Vec::new();
    let mut i = 0;
    while let Some(st) = nfa.get_state(i) {
        res.push(st.trans.iter().map(|t| (t.label, t.target)).collect());
        i += 1;
    }
    res
}

fn sample_spec() -> Spec {
    *Spec::concat(
        Spec::star(Spec::union(sym('a'), Spec::single(Label::Any))),
        Spec::union(Spec::single(Label::Epsilon), Spec::concat(sym('b'), sym('c'))),
    )
}

#[test]
fn arena_keeps_targets_inside() {
    let mut ns = NFABuilder::new();
    let mut ids = Vec::new();
    for _ in 0..5 {
        ids.push(ns.new_state());
    }
    assert_eq!(ids, vec![0, 1, 2, 3, 4]);
    assert!(ns.add_transition(4, 0, Label::Any));
    assert!(!ns.add_transition(4, 5, Label::Any));
    assert!(!ns.add_transition(5, 4, Label::Any));
    assert!(ns.add_transition(4, 4, Label::Epsilon));
    let extra = ns.new_state();
    assert_eq!(extra, 5);
    assert!(ns.add_transition(4, 5, Label::Symbol('x')));
    for id in 0..6 {
        let st = ns.get_state(id).unwrap();
        for t in st.trans.iter() {
            assert!(ns.check_id(t.target));
        }
    }
    assert_eq!(ns.get_state(4).unwrap().trans.len(), 3);
    assert!(ns.get_state(6).is_none());
}

#[test]
fn failed_add_transition_changes_nothing() {
    let mut ns = NFABuilder::new();
    let a = ns.new_state();
    assert!(!ns.add_transition(a, 9, Label::Epsilon));
    assert_eq!(ns.get_state(a).unwrap().trans.len(), 0);
    assert!(!ns.check_id(1));
}

#[test]
fn set_accepting_marks_and_tags() {
    let mut ns = NFABuilder::new();
    let a = ns.new_state();
    let b = ns.new_state();
    assert!(!ns.get_state(a).unwrap().accept);
    ns.set_accepting(a, Some(3));
    ns.set_accepting(b, None);
    ns.set_accepting(7, Some(1));
    assert!(ns.get_state(a).unwrap().accept);
    assert_eq!(ns.get_state(a).unwrap().tag, Some(3));
    assert!(ns.get_state(b).unwrap().accept);
    assert_eq!(ns.get_state(b).unwrap().tag, None);
    assert!(ns.get_state(2).is_none());
}

#[test]
fn thompson_builds_the_same_twice() {
    let n1 = NFABuilder::build_from_spec(sample_spec());
    let n2 = NFABuilder::build_from_spec(sample_spec());
    assert_eq!(n1.start(), n2.start());
    assert_eq!(edges(&n1), edges(&n2));
    assert_eq!(edges(&n1).len(), 16);
    assert_eq!(n1.start(), 6);
}

#[test]
fn thompson_numbers_states_left_to_right() {
    let nfa = NFABuilder::build_from_spec(*Spec::concat(sym('a'), Spec::star(sym('b'))));
    assert_eq!(nfa.start(), 0);
    assert_eq!(
        edges(&nfa),
        vec![
            vec![(Label::Symbol('a'), 1)],
            vec![(Label::Epsilon, 4)],
            vec![(Label::Symbol('b'), 3)],
            vec![(Label::Epsilon, 5), (Label::Epsilon, 2)],
            vec![(Label::Epsilon, 2), (Label::Epsilon, 5)],
            vec![],
        ]
    );
    assert!(nfa.get_state(5).unwrap().accept);
    assert!(!nfa.get_state(3).unwrap().accept);
}

#[test]
fn closure_is_idempotent_and_extensive() {
    let nfa = NFABuilder::build_from_spec(sample_spec());
    for start in 0..16 {
        let s = state_set(start);
        let once = nfa.epsilon_closure(&s);
        let twice = nfa.epsilon_closure(&once);
        assert_eq!(once, twice);
        assert!(s.is_subset(&once));
    }
    let big = nfa.epsilon_closure(&set_of(&[0, 7, 99]));
    assert!(big.contains(&99));
    assert_eq!(nfa.epsilon_closure(&big), big);
    assert!(nfa.epsilon_closure(&BTreeSet::new()).is_empty());
}

#[test]
fn closure_is_monotone() {
    let nfa = NFABuilder::build_from_spec(sample_spec());
    let small = set_of(&[4]);
    let large = set_of(&[4, 6, 12]);
    let cs = nfa.epsilon_closure(&small);
    let cl = nfa.epsilon_closure(&large);
    assert!(cs.is_subset(&cl));
    assert_eq!(nfa.epsilon_closure(&state_set(4)), set_of(&[0, 2, 4]));
    assert_eq!(
        nfa.epsilon_closure(&state_set(nfa.start())),
        set_of(&[0, 2, 4, 6, 7, 8, 9, 10, 14, 15])
    );
}

#[test]
fn steps_follow_symbols_and_wildcards() {
    let nfa = NFABuilder::build_from_spec(sample_spec());
    let all = nfa.epsilon_closure(&state_set(nfa.start()));
    assert_eq!(nfa.steps(&all, 'a'), set_of(&[1, 3]));
    assert_eq!(nfa.steps(&all, 'b'), set_of(&[3, 11]));
    assert_eq!(nfa.step(0, 'a'), set_of(&[1]));
    assert_eq!(nfa.step(0, 'b'), BTreeSet::new());
    assert_eq!(nfa.step(2, 'z'), set_of(&[3]));
    assert_eq!(nfa.step(77, 'a'), BTreeSet::new());
    assert_eq!(nfa.label_steps(&all, Label::Any), set_of(&[3]));
    assert_eq!(nfa.successor(&all, Label::Symbol('b')), nfa.epsilon_closure(&set_of(&[3, 11])));
}

#[test]
fn labels_of_a_set_come_in_order() {
    let nfa = NFABuilder::build_from_spec(sample_spec());
    let all = nfa.epsilon_closure(&state_set(nfa.start()));
    assert_eq!(
        nfa.transitions_from_set(&all),
        vec![Label::Epsilon, Label::Any, Label::Symbol('a'), Label::Symbol('b')]
    );
    assert_eq!(nfa.transitions_from_set(&set_of(&[15, 40])), Vec::<Label>::new());
    assert_eq!(nfa.transitions_from_set(&set_of(&[13])), vec![Label::Epsilon]);
    let mut labels = vec![Label::Any, Label::Symbol('m')];
    insert_label(&mut labels, Label::Symbol('c'));
    insert_label(&mut labels, Label::Epsilon);
    insert_label(&mut labels, Label::Symbol('m'));
    insert_label(&mut labels, Label::Symbol('z'));
    assert_eq!(
        labels,
        vec![
            Label::Epsilon,
            Label::Any,
            Label::Symbol('c'),
            Label::Symbol('m'),
            Label::Symbol('z')
        ]
    );
    assert_eq!(Label::Symbol('a').order(), 99);
}

#[test]
fn nfa_and_dfa_agree_on_samples() {
    let specs = vec![
        sample_spec(),
        *Spec::star(Spec::single(Label::Any)),
        *Spec::concat(Spec::single(Label::Any), sym('x')),
        *Spec::union(Spec::concat(sym('a'), Spec::single(Label::Any)), sym('a')),
        Spec::Single(Label::Epsilon),
    ];
    let words = [
        "", "a", "b", "x", "ab", "bc", "ax", "xx", "abc", "aabc", "zzbc", "bcbc", "aaaa", "a\n",
        "éx", "abcx",
    ];
    for spec in specs {
        let nfa = NFABuilder::build_from_spec(spec);
        let dfa = nfa.to_dfa();
        for w in words.iter() {
            assert_eq!(nfa.simulate(w), dfa.simulate(w), "word {:?}", w);
            assert_eq!(nfa.recognize(w), dfa.recognize(w), "word {:?}", w);
        }
    }
}

#[test]
fn dfa_prefers_the_symbol_edge() {
    // `a.` or `.b` read "ab", "ax" and "xb", and nothing else of two characters
    let spec = Spec::union(
        Spec::concat(sym('a'), Spec::single(Label::Any)),
        Spec::concat(Spec::single(Label::Any), sym('b')),
    );
    let nfa = NFABuilder::build_from_spec(*spec);
    let dfa = nfa.to_dfa();
    let start = dfa.get_state(dfa.start()).unwrap();
    let labels: Vec<Label> = start.trans.iter().map(|t| t.label).collect();
    assert_eq!(labels, vec![Label::Any, Label::Symbol('a')]);
    let by_any = dfa.next_state(dfa.start(), 'x').unwrap();
    let by_a = dfa.next_state(dfa.start(), 'a').unwrap();
    assert_ne!(by_any, by_a);
    assert_eq!(dfa.next_state(by_any, 'x'), None);
    assert_eq!(dfa.next_state(99, 'x'), None);
    for (w, ok) in [("ab", true), ("ax", true), ("xb", true), ("xx", false), ("a", false)] {
        assert_eq!(dfa.simulate(w), ok);
        assert_eq!(nfa.simulate(w), ok);
    }
    assert_eq!(dfa.land("abab"), None);
    for id in 0..16 {
        if let Some(st) = dfa.get_state(id) {
            let mut seen = BTreeSet::new();
            for t in st.trans.iter() {
                assert!(t.label != Label::Epsilon);
                assert!(seen.insert(t.label));
            }
        }
    }
}

#[test]
fn translator_takes_the_supported_core() {
    let re = Expr::Concat(vec![
        Expr::AnyChar,
        Expr::Alternate(vec![lit("ab"), Expr::AnyCharNoNL]),
        Expr::Repeat { e: Box::new(lit("c")), r: Repeater::ZeroOrOne, greedy: true },
        Expr::Repeat { e: Box::new(lit("d")), r: Repeater::OneOrMore, greedy: false },
        Expr::Repeat {
            e: Box::new(lit("e")),
            r: Repeater::Range { min: 1, max: Some(2) },
            greedy: true,
        },
    ]);
    let spec = regex_to_nfa_spec(&re).unwrap();
    let any = || Spec::single(Label::Any);
    let expected = Spec::concat(
        Spec::concat(
            Spec::concat(
                Spec::concat(any(), Spec::union(Spec::concat(sym('a'), sym('b')), any())),
                Spec::union(Spec::single(Label::Epsilon), sym('c')),
            ),
            Spec::concat(sym('d'), Spec::star(sym('d'))),
        ),
        Spec::union(sym('e'), Spec::concat(sym('e'), sym('e'))),
    );
    assert_eq!(spec, *expected);
}

#[test]
fn translator_rejects_the_rest() {
    assert_eq!(regex_to_nfa_spec(&Expr::StartLine), Err(TranslateError::UnsupportedConstruct));
    assert_eq!(regex_to_nfa_spec(&Expr::Class), Err(TranslateError::UnsupportedConstruct));
    assert_eq!(
        regex_to_nfa_spec(&Expr::Group { e: Box::new(lit("a")) }),
        Err(TranslateError::UnsupportedConstruct)
    );
    assert_eq!(regex_to_nfa_spec(&lit("")), Err(TranslateError::EmptyLiteral));
    assert_eq!(
        regex_to_nfa_spec(&Expr::Concat(vec![])),
        Err(TranslateError::UnsupportedConstruct)
    );
    assert_eq!(
        regex_to_nfa_spec(&Expr::Alternate(vec![lit("a"), lit(""), Expr::Empty])),
        Err(TranslateError::EmptyLiteral)
    );
    assert_eq!(
        regex_to_nfa_spec(&Expr::Concat(vec![lit("a"), Expr::Empty, lit("")])),
        Err(TranslateError::UnsupportedConstruct)
    );
    assert_eq!(
        repeater_to_spec(&Expr::WordBoundary, &Repeater::ZeroOrMore),
        Err(TranslateError::UnsupportedConstruct)
    );
}

#[test]
fn counted_repetition_shapes() {
    let a = || sym('a');
    let eps = || Spec::single(Label::Epsilon);
    assert_eq!(repeater_range(a(), 0, None), *Spec::concat(eps(), Spec::star(a())));
    assert_eq!(
        repeater_range(a(), 2, None),
        *Spec::concat(Spec::concat(a(), a()), Spec::star(a()))
    );
    assert_eq!(repeater_range(a(), 1, Some(1)), *a());
    assert_eq!(repeater_range(a(), 0, Some(0)), *eps());
    assert_eq!(
        repeater_range(a(), 0, Some(2)),
        *Spec::union(
            Spec::union(eps(), Spec::concat(eps(), a())),
            Spec::concat(Spec::concat(eps(), a()), a())
        )
    );
    assert_eq!(
        repeater_range(a(), 2, Some(3)),
        *Spec::union(Spec::concat(a(), a()), Spec::concat(Spec::concat(a(), a()), a()))
    );
    assert_eq!(repeater_range(a(), 3, Some(1)), *Spec::concat(Spec::concat(a(), a()), a()));
    assert_eq!(literal_to_spec(&vec!['x']), *sym('x'));
    assert_eq!(
        literal_to_spec(&vec!['x', 'y', 'z']),
        *Spec::concat(Spec::concat(sym('x'), sym('y')), sym('z'))
    );
}

#[test]
fn counted_repetition_bounds() {
    for (m, n) in [(0u32, 0u32), (0, 3), (1, 1), (2, 5), (4, 4)] {
        let re = Expr::Repeat {
            e: Box::new(lit("a")),
            r: Repeater::Range { min: m, max: Some(n) },
            greedy: true,
        };
        let nfa = NFABuilder::build_from_spec(regex_to_nfa_spec(&re).unwrap());
        let dfa = nfa.to_dfa();
        for k in 0..8u32 {
            let word: String = std::iter::repeat('a').take(k as usize).collect();
            assert_eq!(nfa.simulate(&word), m <= k && k <= n, "a{{{},{}}} on {}", m, n, k);
            assert_eq!(dfa.simulate(&word), m <= k && k <= n);
        }
        assert!(!nfa.simulate("b"));
    }
}

#[test]
fn zero_or_more_wildcard() {
    let nfa = NFABuilder::build_from_spec(*Spec::star(Spec::single(Label::Any)));
    for w in ["", "a", "hello"] {
        assert!(nfa.simulate(w));
        assert!(nfa.to_dfa().simulate(w));
    }
}

#[test]
fn literal_concat() {
    let nfa = NFABuilder::build_from_spec(regex_to_nfa_spec(&lit("ab")).unwrap());
    assert!(nfa.simulate("ab"));
    for w in ["", "a", "abc", "aab"] {
        assert!(!nfa.simulate(w));
    }
}

#[test]
fn alternation() {
    let re = Expr::Alternate(vec![lit("ab"), lit("cd")]);
    let nfa = NFABuilder::build_from_spec(regex_to_nfa_spec(&re).unwrap());
    assert!(nfa.simulate("ab"));
    assert!(nfa.simulate("cd"));
    for w in ["", "a", "abcd"] {
        assert!(!nfa.simulate(w));
    }
}

#[test]
fn repetition_lower_bound() {
    let re = Expr::Repeat {
        e: Box::new(lit("a")),
        r: Repeater::Range { min: 4, max: None },
        greedy: true,
    };
    let nfa = NFABuilder::build_from_spec(regex_to_nfa_spec(&re).unwrap());
    assert!(nfa.simulate("aaaa"));
    assert!(nfa.simulate("aaaaa"));
    assert!(!nfa.simulate(""));
    assert!(!nfa.simulate("aaa"));
}

#[test]
fn kleene_star_of_union() {
    let nfa = NFABuilder::build_from_spec(*Spec::star(Spec::union(sym('a'), sym('b'))));
    for w in ["", "a", "aabb", "bbaa", "aaaaaaaba"] {
        assert!(nfa.simulate(w));
    }
    assert!(!nfa.simulate("aaaaaaabbbbcaaa"));
}

#[test]
fn multi_rule_fuse() {
    let mut specs = vec![*sym('a'), *Spec::concat(sym('b'), sym('a'))];
    let nfa = NFABuilder::build_from_specs(&mut specs, &vec![0, 1]);
    assert!(specs.is_empty());
    assert_eq!(nfa.recognize("a"), Outcome { accepted: true, rule_tag: Some(0) });
    assert_eq!(nfa.recognize("ba"), Outcome { accepted: true, rule_tag: Some(1) });
    assert_eq!(nfa.recognize("baa"), Outcome { accepted: false, rule_tag: None });
    let dfa = nfa.to_dfa();
    assert_eq!(dfa.recognize("a"), Outcome { accepted: true, rule_tag: Some(0) });
    assert_eq!(dfa.recognize("ba"), Outcome { accepted: true, rule_tag: Some(1) });
    assert_eq!(dfa.recognize("baa"), Outcome { accepted: false, rule_tag: None });
    assert_eq!(nfa.start(), 6);
}

#[test]
fn earliest_rule_wins() {
    let mut specs = vec![
        *Spec::star(sym('a')),
        *Spec::concat(sym('a'), sym('a')),
        *Spec::single(Label::Any),
    ];
    let nfa = NFABuilder::build_from_specs(&mut specs, &vec![7, 2, 5]);
    assert_eq!(nfa.recognize("aa").rule_tag, Some(2));
    assert_eq!(nfa.recognize("a").rule_tag, Some(5));
    assert_eq!(nfa.recognize("aaa").rule_tag, Some(7));
    assert_eq!(nfa.recognize("b").rule_tag, Some(5));
    assert_eq!(nfa.recognize("bb"), Outcome { accepted: false, rule_tag: None });
    let dfa = nfa.to_dfa();
    assert_eq!(dfa.recognize("aa").rule_tag, Some(2));
    assert_eq!(dfa.recognize("").rule_tag, Some(7));

    let single = NFABuilder::build_from_spec(*sym('a'));
    assert_eq!(single.recognize("a"), Outcome { accepted: true, rule_tag: None });
    let empty = NFABuilder::build_from_specs(&mut Vec::new(), &Vec::new());
    assert!(!empty.simulate(""));
}

#[test]
fn accepting_members_of_a_set() {
    let mut specs = vec![*sym('a'), *sym('b')];
    let nfa = NFABuilder::build_from_specs(&mut specs, &vec![4, 1]);
    let mut states = Vec::new();
    for id in 0..5 {
        let st = nfa.get_state(id).unwrap();
        states.push(rslex::state::State {
            accept: st.accept,
            tag: st.tag,
            trans: st.trans.clone(),
        });
    }
    assert!(any_accepting(&states, &set_of(&[0, 1])));
    assert!(!any_accepting(&states, &set_of(&[0, 2, 4, 9])));
    assert_eq!(earliest_rule(&states, &set_of(&[1, 3])), Some(1));
    assert_eq!(earliest_rule(&states, &set_of(&[1])), Some(4));
    assert_eq!(earliest_rule(&states, &set_of(&[0, 2])), None);
}

#[test]
fn state_step_and_find() {
    let mut ns = NFABuilder::new();
    for _ in 0..4 {
        ns.new_state();
    }
    ns.add_transition(0, 1, Label::Symbol('a'));
    ns.add_transition(0, 2, Label::Any);
    ns.add_transition(0, 3, Label::Epsilon);
    ns.add_transition(0, 1, Label::Symbol('b'));
    let st = ns.get_state(0).unwrap();
    assert_eq!(st.step('a'), set_of(&[1, 2]));
    assert_eq!(st.step('c'), set_of(&[2]));
    let found = st.find_transition(Label::Any);
    assert_eq!(found.len(), 1);
    assert_eq!(found[0].target, 2);
    assert!(Label::Any.matches('q'));
    assert!(Label::Symbol('q').matches('q'));
    assert!(!Label::Symbol('q').matches('r'));
    assert!(!Label::Epsilon.matches('q'));
}

#[test]
fn label_texts() {
    assert_eq!(Label::Any.to_string(), "*");
    assert_eq!(Label::Epsilon.to_string(), "&epsilon;");
    assert_eq!(Label::Symbol('ß').to_string(), "ß");
}

#[test]
fn decimal_digits() {
    let mut s = String::from("n=");
    push_decimal(&mut s, 0);
    s.push(',');
    push_decimal(&mut s, 7);
    s.push(',');
    push_decimal(&mut s, 10);
    s.push(',');
    push_decimal(&mut s, 9075);
    s.push(',');
    push_decimal(&mut s, usize::MAX);
    assert_eq!(s, format!("n=0,7,10,9075,{}", usize::MAX));
    assert_eq!(digit_char(0), '0');
    assert_eq!(digit_char(9), '9');
}

#[test]
fn canonical_keys() {
    assert_eq!(canonical_set_string(&BTreeSet::new()), "");
    assert_eq!(canonical_set_string(&set_of(&[100, 3, 20])), "3 20 100 ");
    assert_eq!(sorted_members(&set_of(&[5, 1, 3])), vec![1, 3, 5]);
    assert!(sets_equal(&set_of(&[1, 2]), &set_of(&[2, 1])));
    assert!(!sets_equal(&set_of(&[1, 2]), &set_of(&[1, 3])));
    assert!(!sets_equal(&set_of(&[1, 2]), &set_of(&[1])));
}

#[test]
fn spec_copies_are_equal() {
    let spec = sample_spec();
    assert_eq!(spec.duplicate(), spec);
    assert_eq!(spec.clone(), sample_spec());
}

#[test]
fn positions_count_lines_and_columns() {
    let mut pos = Pos::start();
    assert_eq!((pos.line, pos.col), (1, 0));
    pos.next('a');
    pos.next('b');
    assert_eq!((pos.line, pos.col), (1, 2));
    pos.next('\n');
    assert_eq!((pos.line, pos.col), (2, 0));
    pos.next('\r');
    assert_eq!((pos.line, pos.col), (2, 1));
}

#[test]
fn dot_text_of_a_single_edge() {
    let nfa = NFABuilder::build_from_spec(Spec::Single(Label::Any));
    assert_eq!(
        nfa.dot_text(),
        "digraph {\n  graph [rankdir=LR]\n  node [shape=circle]\n  1 [shape=doublecircle]\n  0 -> 1 [label = \"*\"]\n  p [shape=point, style=invis]\n  p -> 0\n}\n"
    );
}

#[test]
fn dfa_states_are_numbered_as_found() {
    // (b|a)(c|a): from the start the successors are sought for `a` before `b`
    let spec = Spec::concat(Spec::union(sym('b'), sym('a')), Spec::union(sym('c'), sym('a')));
    let dfa = NFABuilder::build_from_spec(*spec).to_dfa();
    assert_eq!(dfa.start(), 0);
    assert_eq!(dfa.next_state(0, 'a'), Some(1));
    assert_eq!(dfa.next_state(0, 'b'), Some(2));
    assert_eq!(dfa.next_state(1, 'a'), Some(3));
    assert_eq!(dfa.next_state(1, 'c'), Some(4));
    assert_eq!(dfa.next_state(2, 'a'), Some(3));
    assert_eq!(dfa.next_state(2, 'c'), Some(4));
    assert_eq!(dfa.next_state(3, 'a'), None);
    assert!(dfa.get_state(4).is_some());
    assert!(dfa.get_state(5).is_none());
    assert!(dfa.get_state(3).unwrap().accept && dfa.get_state(4).unwrap().accept);
    assert!(!dfa.get_state(1).unwrap().accept);
}

#[test]
fn rules_hold_an_expression_and_an_action() {
    let rule = rslex::rules::Rule { regex: lit("if"), action: "Token::If".to_string() };
    assert_eq!(regex_to_nfa_spec(&rule.regex).unwrap(), *Spec::concat(sym('i'), sym('f')));
    assert_eq!(rule.action, "Token::If");
}
