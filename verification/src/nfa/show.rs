//! An automaton written as a table, one row for each state.

use vstd::prelude::*;
use super::model::Automaton;
use super::nfa::{Transition, NFA};
use super::nfa_set::NFASet;
use super::state::State;
use crate::table::{row_texts, table_text, Table};
use crate::text::{dec_digits, push_text};

verus! {

/// The headers of the table.
pub open spec fn headers() -> Seq<Seq<char>> {
    seq!["Type"@, "State"@, "Label"@, "e1"@, "e2"@]
}

/// What kind of state `s` is: the start, the accepting state, the
/// end-of-input state, or none of these.
pub open spec fn kind_text(a: Automaton, s: int) -> Seq<char> {
    if s == a.start.0 {
        "Start:"@
    } else if s == a.accept.0 {
        "Accept:"@
    } else if s == a.eof.0 {
        "Eof"@
    } else {
        ""@
    }
}

/// A successor that may be missing.
pub open spec fn edge_text(e: Option<State>) -> Seq<char> {
    match e {
        Some(s) => dec_digits(s.0 as nat),
        None => Seq::empty(),
    }
}

/// The row of state `s`: its kind, its index, its label and its two
/// successors.
pub open spec fn row_of(a: Automaton, s: int) -> Seq<Seq<char>> {
    let index = dec_digits(s as nat);
    match a.ts[s] {
        Transition::Label(label, e) => seq![
            kind_text(a, s),
            index,
            label.text(),
            dec_digits(e.0 as nat),
            Seq::empty(),
        ],
        Transition::Split(e1, e2) => seq![
            kind_text(a, s),
            index,
            Seq::empty(),
            edge_text(e1),
            edge_text(e2),
        ],
        Transition::Group(g, e) => seq!["G:"@, index, g@, dec_digits(e.0 as nat), Seq::empty()],
        Transition::Accept => seq![kind_text(a, s), index, Seq::empty(), Seq::empty(), Seq::empty()],
        Transition::Eof => seq![kind_text(a, s), index, Seq::empty(), Seq::empty(), Seq::empty()],
    }
}

/// The rows of the automaton.
pub open spec fn rows_of(a: Automaton) -> Seq<Seq<Seq<char>>> {
    Seq::new(a.ts.len(), |s: int| row_of(a, s))
}

/// A successor that may be missing, as a text.
fn edge(e: Option<State>) -> (r: String)
    ensures
        r@ == edge_text(e),
{
    match e {
        Some(s) => s.to_text(),
        None => String::new(),
    }
}

impl NFA {
    /// The automaton as a table, one row for each state.
    pub fn to_text(&self) -> (r: String)
        ensures
            r@ == table_text(headers(), rows_of(self@)),
    {
        let ghost a = self@;
        let mut head0 = String::new();
        push_text(&mut head0, "Type");
        let mut head1 = String::new();
        push_text(&mut head1, "State");
        let mut head2 = String::new();
        push_text(&mut head2, "Label");
        let mut head3 = String::new();
        push_text(&mut head3, "e1");
        let mut head4 = String::new();
        push_text(&mut head4, "e2");
        let headers: [String; 5] = [head0, head1, head2, head3, head4];
        assert(row_texts(headers@) =~= self::headers());

        let mut data: Vec<[String; 5]> = Vec::new();

        let n = self.transitions.len();
        let mut state: usize = 0;
        while state < n
            invariant
                state <= n,
                a == self@,
                n == a.ts.len(),
                data@.len() == state,
                forall|s: int| 0 <= s < state ==> row_texts((#[trigger] data@[s])@) == row_of(a, s),
            decreases n - state,
        {
            let transition = self.transitions[state];
            let mut ty = String::new();
            if state == self.start.0 {
                push_text(&mut ty, "Start:");
            } else if state == self.accept.0 {
                push_text(&mut ty, "Accept:");
            } else if state == self.eof.0 {
                push_text(&mut ty, "Eof");
            } else {
                push_text(&mut ty, "");
            }
            let mut lab = String::new();
            let mut edge1 = String::new();
            let mut edge2 = String::new();

            match transition {
                Transition::Label(label, e) => {
                    lab = label.to_text();
                    edge1 = e.to_text();
                },
                Transition::Split(e1, e2) => {
                    edge1 = edge(e1);
                    edge2 = edge(e2);
                },
                Transition::Group(g, e) => {
                    ty = String::new();
                    push_text(&mut ty, "G:");
                    lab = g.to_text();
                    edge1 = e.to_text();
                },
                Transition::Accept | Transition::Eof => {
                    // Covered in `ty` above
                },
            }
            let index = State(state).to_text();
            let row: [String; 5] = [ty, index, lab, edge1, edge2];
            assert(row_texts(row@) =~= row_of(a, state as int));
            data.push(row);
            state = state + 1;
        }

        let table = Table::<5>::new(headers, data);
        assert(table.data_texts() =~= rows_of(a));
        table.to_text()
    }
}

impl NFASet {
    /// The fused automaton as a table, one row for each state.
    pub fn to_text(&self) -> (r: String)
        ensures
            r@ == table_text(headers(), rows_of(self.0@)),
    {
        self.0.to_text()
    }
}

} // verus!
