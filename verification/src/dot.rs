use vstd::prelude::*;
use crate::label::{StateID, Transition};
use crate::model::{Automaton, StateModel, arena_wf};
use crate::state::State;
use crate::builder::states_view;
use crate::text::{decimal, push_decimal};
use crate::nfa::NFA;
use crate::dfa::DFA;

verus! {

/// The lines for one edge of state `sid`: a line that draws the target with a
/// double circle if it accepts, then the line of the edge with its label.
pub open spec fn edge_text(states: Seq<StateModel>, sid: StateID, t: Transition) -> Seq<char> {
    let mark = if states[t.target as int].accept {
        "  "@ + decimal(t.target as nat) + " [shape=doublecircle]\n"@
    } else {
        Seq::empty()
    };
    mark + "  "@ + decimal(sid as nat) + " -> "@ + decimal(t.target as nat) + " [label = \""@
        + t.label.text() + "\"]\n"@
}

/// The lines for the first `j` edges of state `sid`.
pub open spec fn state_text(states: Seq<StateModel>, sid: StateID, j: nat) -> Seq<char>
    decreases j,
{
    if j == 0 {
        Seq::empty()
    } else {
        state_text(states, sid, (j - 1) as nat) + edge_text(
            states,
            sid,
            states[sid as int].trans[j - 1],
        )
    }
}

/// The lines for the edges of the first `n` states.
pub open spec fn states_text(states: Seq<StateModel>, n: nat) -> Seq<char>
    decreases n,
{
    if n == 0 {
        Seq::empty()
    } else {
        states_text(states, (n - 1) as nat) + state_text(
            states,
            (n - 1) as StateID,
            states[n - 1].trans.len(),
        )
    }
}

/// A description of the automaton as a directed graph, drawn from left to
/// right: every edge with its label, accepting states with a double circle,
/// and an invisible point with an arrow to the start state.
pub open spec fn dot_text(a: Automaton) -> Seq<char> {
    "digraph {\n"@ + "  graph [rankdir=LR]\n"@ + "  node [shape=circle]\n"@ + states_text(
        a.states,
        a.states.len(),
    ) + "  p [shape=point, style=invis]\n"@ + "  p -> "@ + decimal(a.start as nat) + "\n"@ + "}\n"@
}

/// Appends the lines for one edge of state `sid` to `out`.
fn push_edge(out: &mut String, states: &Vec<State>, sid: StateID, t: Transition)
    requires
        t.target < states.len(),
    ensures
        final(out)@ == old(out)@ + edge_text(states_view(states@), sid, t),
{
    if states[t.target].accept {
        out.append("  ");
        push_decimal(out, t.target);
        out.append(" [shape=doublecircle]\n");
    }
    out.append("  ");
    push_decimal(out, sid);
    out.append(" -> ");
    push_decimal(out, t.target);
    out.append(" [label = \"");
    let l = t.label.to_string();
    out.append(l.as_str());
    out.append("\"]\n");
}

/// The description of the automaton with start state `start` and the arena
/// `states` as a directed graph.
pub fn render_dot(start: StateID, states: &Vec<State>) -> (res: String)
    requires
        arena_wf(states_view(states@)),
    ensures
        res@ == dot_text(Automaton { start: start, states: states_view(states@) }),
{
    let ghost arena = states_view(states@);
    let mut res = String::new();
    res.append("digraph {\n");
    res.append("  graph [rankdir=LR]\n");
    res.append("  node [shape=circle]\n");
    let ghost head = res@;
    let mut sid: usize = 0;
    while sid < states.len()
        invariant
            sid <= states.len(),
            arena == states_view(states@),
            arena_wf(arena),
            res@ == head + states_text(arena, sid as nat),
        decreases states.len() - sid,
    {
        let ghost before = res@;
        let st = &states[sid];
        let mut j: usize = 0;
        while j < st.trans.len()
            invariant
                j <= st.trans.len(),
                sid < states.len(),
                *st == states@[sid as int],
                arena == states_view(states@),
                arena_wf(arena),
                res@ == before + state_text(arena, sid, j as nat),
            decreases st.trans.len() - j,
        {
            let t = st.trans[j];
            push_edge(&mut res, states, sid, t);
            j = j + 1;
        }
        sid = sid + 1;
    }
    res.append("  p [shape=point, style=invis]\n");
    res.append("  p -> ");
    push_decimal(&mut res, start);
    res.append("\n");
    res.append("}\n");
    res
}

impl NFA {
    /// A description of this automaton as a directed graph.
    pub fn dot_text(&self) -> (res: String)
        ensures
            res@ == dot_text(self@),
    {
        proof {
            self.lemma_view();
        }
        render_dot(self.start(), &self.states)
    }
}

impl DFA {
    /// A description of this automaton as a directed graph.
    pub fn dot_text(&self) -> (res: String)
        ensures
            res@ == dot_text(self@),
    {
        proof {
            self.lemma_view();
        }
        render_dot(self.start(), &self.states)
    }
}

} // verus!
