//! A preflop line that ends heads-up, as a spot to solve after the flop.

use crate::classes;
use crate::classes::{class_label, class_prob, NUM_CLASSES};
use crate::num::{smaller, Num, Single};
use crate::preflop_solver::PreflopSolver;
use crate::preflop_tree;
use crate::preflop_tree::{live_seats, KIND_POT_SHARE};
use crate::preflop_view;
use crate::preflop_view::{PreflopExport, PreflopQueryError};
use crate::seats;
use crate::seats::count_seats;
use crate::strategy;
use crate::text::{chars_of, push_all, string_of};
use vstd::prelude::*;

verus! {

/// How a class stands in a range's text: by its name where all of it is in
/// the range, with its weight where a part is, else not at all.
pub open spec fn class_entry<S: Num>(h: int, w: S) -> Seq<char> {
    if S::decimal_spec(995, 3).below_spec(w) {
        classes::class_text(h)
    } else if S::decimal_spec(5, 3).below_spec(w) {
        classes::class_text(h) + ":"@ + w.fixed_spec(3)
    } else {
        Seq::empty()
    }
}

/// The entries of the first `k` classes, with commas between them.
pub open spec fn entries<S: Num>(weights: Seq<S>, k: int) -> Seq<char>
    decreases k,
{
    if k <= 0 {
        Seq::empty()
    } else {
        let before = entries(weights, k - 1);
        let entry = class_entry(k - 1, weights[k - 1]);
        if entry.len() == 0 {
            before
        } else if before.len() == 0 {
            entry
        } else {
            before + ","@ + entry
        }
    }
}

/// A range as text.
pub open spec fn range_text<S: Num>(reach: Seq<S>) -> Seq<char> {
    entries(preflop_view::kept(reach), 169)
}

fn range_of<S: Num>(reach: &Vec<S>) -> (r: String)
    requires
        reach@.len() == 169,
    ensures
        r@ == range_text(reach@),
{
    let ghost weights = preflop_view::kept(reach@);
    let mut out: Vec<char> = Vec::new();
    let mut h: usize = 0;
    assert(out@ =~= entries(weights, 0));
    while h < NUM_CLASSES
        invariant
            h <= 169,
            reach@.len() == 169,
            weights == preflop_view::kept(reach@),
            out@ == entries(weights, h as int),
        decreases 169 - h,
    {
        let w = smaller(reach[h].over(class_prob(h)), S::decimal(1, 0));
        assert(w == weights[h as int]);
        let mut entry: Vec<char> = Vec::new();
        if S::decimal(995, 3).below(w) {
            let name = class_label(h);
            push_all(&mut entry, &chars_of(name.as_str()));
        } else if S::decimal(5, 3).below(w) {
            let name = class_label(h);
            push_all(&mut entry, &chars_of(name.as_str()));
            push_all(&mut entry, &chars_of(":"));
            let part = w.fixed(3);
            push_all(&mut entry, &chars_of(part.as_str()));
        }
        assert(entry@ =~= class_entry(h as int, w));
        if entry.len() > 0 {
            if out.len() > 0 {
                push_all(&mut out, &chars_of(","));
            }
            push_all(&mut out, &entry);
        }
        assert(out@ =~= entries(weights, h + 1));
        h = h + 1;
    }
    string_of(&out)
}

impl<S: Single> PreflopSolver<S> {
    /// The seats still live at a node, in the order of play after the flop.
    pub open spec fn line_up(&self, node: int) -> Seq<usize> {
        preflop_tree::live_of(
            preflop_tree::order_of(self.cfg.posts@, self.n as int),
            self.nodes@[node].live,
        )
    }

    /// Whether an export shows a flop that a line has led to.
    pub open spec fn exports(&self, ex: PreflopExport<S::Wide>, at: preflop_view::Standing<S>) -> bool {
        let nd = self.nodes@[at.node];
        let oop = self.line_up(at.node)[0] as int;
        let ip = self.line_up(at.node)[1] as int;
        &&& ex.oop_pos@ == self.cfg.positions@[oop]@
        &&& ex.ip_pos@ == self.cfg.positions@[ip]@
        &&& ex.range_oop@ == range_text(at.reaches[oop])
        &&& ex.range_ip@ == range_text(at.reaches[ip])
        &&& ex.pot_bb == nd.pot
        &&& ex.eff_stack_bb == self.cfg.stack.minus_spec(nd.invested@[oop]).plus_spec(self.cfg.ante)
    }

    /// The ranges, pot and stack at a flop between two seats.
    pub fn export_spot(&self, path: &[usize]) -> (r: Result<
        PreflopExport<S::Wide>,
        PreflopQueryError,
    >)
        requires
            self.wf(),
        ensures
            match self.field().led(self.strat_sum@, path@) {
                None => r is Err && r->Err_0 == PreflopQueryError::BadPath,
                Some(at) => {
                    let nd = self.nodes@[at.node];
                    if nd.kind == KIND_POT_SHARE && seats::seats_in(nd.live, self.n as int) == 2 {
                        r is Ok && self.exports(r->Ok_0, at)
                    } else {
                        r is Err && r->Err_0 == PreflopQueryError::NotHeadsUp
                    }
                },
            },
    {
        let (node, reaches) = match self.walk(path) {
            Ok(found) => found,
            Err(e) => {
                return Err(e);
            },
        };
        let nd = &self.nodes[node];
        if nd.kind != KIND_POT_SHARE || count_seats(nd.live, self.n) != 2 {
            return Err(PreflopQueryError::NotHeadsUp);
        }
        proof {
            self.lemma_node(node as int);
            preflop_tree::law_order_lists_live_seats(self.cfg.posts@, self.n as int, nd.live);
        }
        let order = self.postflop_order();
        let line = live_seats(&order, nd.live);
        assert(line@.len() == 2);
        let oop: usize = line[0];
        let ip: usize = line[1];
        assert(order@.contains(line@[0]) && order@.contains(line@[1]));
        let ghost rows = strategy::lines(reaches@);
        assert(rows[oop as int] == reaches@[oop as int]@ && rows[oop as int].len() == 169);
        assert(rows[ip as int] == reaches@[ip as int]@ && rows[ip as int].len() == 169);
        Ok(
            PreflopExport {
                oop_pos: self.cfg.positions[oop].clone(),
                ip_pos: self.cfg.positions[ip].clone(),
                range_oop: range_of(&reaches[oop]),
                range_ip: range_of(&reaches[ip]),
                pot_bb: nd.pot,
                eff_stack_bb: self.cfg.stack.minus(nd.invested[oop]).plus(self.cfg.ante),
            },
        )
    }
}

} // verus!
