use std::collections::BTreeSet;

use rslex::builder::NFABuilder;
use rslex::key::canonical_set_string;
use rslex::label::Label::{Any, Epsilon, Symbol};
use rslex::label::{Label, StateID};
use rslex::nfa::state_set;
use rslex::thompson::Spec;

#[test]
fn states() {
    let mut ns = NFABuilder::new();
    let id1 = ns.new_state();
    let id2 = ns.new_state();
    assert_eq!(id1, 0);
    assert_eq!(id2, 1);

    assert!(ns.check_id(id1));
    assert!(ns.check_id(id2));
    assert!(!ns.check_id(100));
}

#[test]
fn add_transition() {
    let mut ns = NFABuilder::new();
    let id1 = ns.new_state();
    let id2 = ns.new_state();
    let id3 = ns.new_state();
    assert!(ns.add_transition(id1, id2, Label::Epsilon));
    assert!(ns.add_transition(id2, id3, Label::Symbol('a')));

    assert!(!ns.add_transition(id1, 1200, Label::Epsilon));
    assert!(!ns.add_transition(1020, id2, Label::Epsilon));
    assert!(!ns.add_transition(1320, 1200, Label::Epsilon));
}

#[test]
fn transitions() {
    let mut ns = NFABuilder::new();
    let id1 = ns.new_state();
    let id2 = ns.new_state();
    let id3 = ns.new_state();
    assert!(ns.add_transition(id1, id2, Label::Epsilon));
    assert!(ns.add_transition(id1, id3, Label::Epsilon));
    assert!(ns.add_transition(id2, id3, Label::Symbol('a')));

    let st1 = ns.get_state(id1).unwrap();
    let t0 = st1.find_transition(Label::Symbol('b'));
    assert_eq!(t0.len(), 0);
    let t1 = st1.find_transition(Label::Epsilon);
    assert_eq!(t1.len(), 2);

    let st2 = ns.get_state(t1[0].target).unwrap();
    let t2 = st2.find_transition(Label::Symbol('a'));
    assert_eq!(t2.len(), 1);

    assert_eq!(t2[0].target, id3);
    assert_eq!(t1[1].target, id3);
}

#[test]
fn canonical_string() {
    let mut set: BTreeSet<StateID> = BTreeSet::new();

    set.insert(15);
    set.insert(12);
    set.insert(8);

    assert!(set.contains(&12));
    assert_eq!(canonical_set_string(&set), "8 12 15 ");
}

#[test]
fn test_single() {
    let n1 = NFABuilder::build_from_spec(Spec::Single(Label::Epsilon));

    let s0 = n1.get_state(n1.start()).unwrap();
    assert_eq!(s0.trans.len(), 1);
    assert_eq!(s0.trans[0].label, Label::Epsilon);

    let ts = s0.find_transition(Label::Epsilon);
    assert_eq!(ts.len(), 1);
    assert!(n1.get_state(ts[0].target).unwrap().accept);

    let s1 = n1.get_state(ts[0].target).unwrap();
    assert_eq!(s1.trans.len(), 0);
    let t1 = s1.find_transition(Label::Epsilon);
    assert_eq!(t1.len(), 0);
}

#[test]
fn test_union() {
    let spec = Spec::union(Spec::single(Epsilon), Spec::single(Any));
    let nfa = NFABuilder::build_from_spec(*spec);
    let dot = nfa.dot_text();
    assert!(dot.starts_with("digraph {\n"));

    let s0 = nfa.get_state(nfa.start()).unwrap();
    assert_eq!(s0.trans.len(), 2);
    assert_eq!(s0.trans[0].label, Epsilon);
    assert_eq!(s0.trans[1].label, Epsilon);

    let t0 = s0.find_transition(Epsilon);
    assert_eq!(t0.len(), 2);

    let s1 = nfa.get_state(t0[0].target).unwrap();
    assert_eq!(s1.trans.len(), 1);
    let s2 = nfa.get_state(t0[1].target).unwrap();
    assert_eq!(s2.trans.len(), 1);

    let s3 = nfa.get_state(s1.trans[0].target).unwrap();
    assert_eq!(s3.trans.len(), 1);
    assert_eq!(s3.trans[0].label, Epsilon);
    let s4 = nfa.get_state(s2.trans[0].target).unwrap();
    assert_eq!(s4.trans.len(), 1);
    assert_eq!(s4.trans[0].label, Epsilon);

    assert_eq!(s3.trans[0].target, s4.trans[0].target);
    assert!(nfa.get_state(s3.trans[0].target).unwrap().accept);

    let acc = nfa.get_state(s4.trans[0].target).unwrap();
    assert_eq!(acc.trans.len(), 0);
}

#[test]
fn to_dfa() {
    let spec = Spec::union(Spec::single(Label::Symbol('a')), Spec::single(Label::Symbol('b')));
    let nfa = NFABuilder::build_from_spec(*spec);
    let nfa_dot = nfa.dot_text();

    let dfa = nfa.to_dfa();
    let dfa_dot = dfa.dot_text();

    assert_eq!(
        nfa_dot,
        "digraph {\n  graph [rankdir=LR]\n  node [shape=circle]\n  0 -> 1 [label = \"a\"]\n  5 [shape=doublecircle]\n  1 -> 5 [label = \"&epsilon;\"]\n  2 -> 3 [label = \"b\"]\n  5 [shape=doublecircle]\n  3 -> 5 [label = \"&epsilon;\"]\n  4 -> 0 [label = \"&epsilon;\"]\n  4 -> 2 [label = \"&epsilon;\"]\n  p [shape=point, style=invis]\n  p -> 4\n}\n"
    );
    assert_eq!(
        dfa_dot,
        "digraph {\n  graph [rankdir=LR]\n  node [shape=circle]\n  1 [shape=doublecircle]\n  0 -> 1 [label = \"a\"]\n  2 [shape=doublecircle]\n  0 -> 2 [label = \"b\"]\n  p [shape=point, style=invis]\n  p -> 0\n}\n"
    );
}

#[test]
fn test_eps_clos() {
    let n1 = NFABuilder::build_from_spec(Spec::Single(Any));
    let cls1 = n1.epsilon_closure(&state_set(n1.start()));
    assert_eq!(cls1.len(), 1);
    assert!(cls1.contains(&n1.start()));

    let n2 = NFABuilder::build_from_spec(Spec::Single(Epsilon));
    let cls2 = n2.epsilon_closure(&state_set(n2.start()));
    assert_eq!(cls2.len(), 2);
    assert!(cls2.contains(&n2.start()));
}

#[test]
fn test_simulation() {
    let sp1 = Spec::single(Symbol('a'));

    let n1 = NFABuilder::build_from_spec(*sp1);
    assert!(n1.simulate("a"));
    assert!(!n1.simulate("x"));
    assert!(!n1.simulate("aaa"));

    let sym_a = Spec::single(Symbol('a'));
    let sym_b = Spec::single(Symbol('b'));
    let sp2 = Spec::star(Spec::union(sym_a, sym_b));
    let n2 = NFABuilder::build_from_spec(*sp2);
    assert!(n2.simulate("aabb"));
    assert!(n2.simulate("bbaa"));
    assert!(n2.simulate(""));
    assert!(n2.simulate("aaaaaaaba"));
    assert!(!n2.simulate("aaaaaaabbbbcaaa"));
}

#[test]
fn test_build_specs() {
    let sp1 = Spec::single(Symbol('a'));
    let sp2 = Spec::concat(Spec::single(Symbol('b')), Spec::single(Symbol('a')));

    let mut v: Vec<Spec> = Vec::with_capacity(2);
    v.push(*sp1);
    v.push(*sp2);

    let n = NFABuilder::build_from_specs(&mut v, &vec![0, 1]);

    assert!(n.simulate("ba"));
    assert!(n.simulate("a"));
    assert!(!n.simulate("baa"));
}
