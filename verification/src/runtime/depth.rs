//! Critical paths: how deep the active pairs of a net are.
use vstd::prelude::*;

use crate::runtime::net::Net;
use crate::runtime::port::Port;
use crate::runtime::traversal::{Traversal, Turn};

verus! {

/// A net whose active pairs have levels: those that wait at the start have level one, and
/// those that an interaction queues are one level above the pair that interacted. The
/// levels do not change how the net reduces.
#[verifier::ext_equal]
pub struct Levelled {
    pub net: Net,
    /// The levels of the fast active pairs.
    pub fast: Seq<nat>,
    /// The levels of the slow active pairs.
    pub slow: Seq<nat>,
    /// The greatest level of a pair that has interacted: the length of the longest critical
    /// path so far.
    pub deepest: nat,
}

impl Levelled {
    /// A net at the start.
    pub open spec fn start(net: Net) -> Levelled {
        Levelled {
            net,
            fast: Seq::new(net.fast.len(), |i: int| 1nat),
            slow: Seq::new(net.slow.len(), |i: int| 1nat),
            deepest: 0,
        }
    }

    /// The levels of a queue that has grown to `len` pairs, the new ones with level `level`.
    pub open spec fn grown(levels: Seq<nat>, len: nat, level: nat) -> Seq<nat> {
        Seq::new(
            len,
            |i: int|
                if i < levels.len() {
                    levels[i]
                } else {
                    level
                },
        )
    }

    /// The net after the interaction of an active pair with level `level`.
    pub open spec fn interacted(self, a: Port, b: Port, level: nat) -> Levelled {
        let net = self.net.interacted(a, b);
        Levelled {
            net,
            fast: Levelled::grown(self.fast, net.fast.len(), level + 1),
            slow: Levelled::grown(self.slow, net.slow.len(), level + 1),
            deepest: if level > self.deepest {
                level
            } else {
                self.deepest
            },
        }
    }

    /// The active pairs in `pairs`, which have the levels `levels`, interact in turn.
    pub open spec fn swept(self, pairs: Seq<(Port, Port)>, levels: Seq<nat>) -> Levelled
        decreases pairs.len(),
    {
        if pairs.len() == 0 {
            self
        } else {
            self.swept(pairs.drop_last(), levels.drop_last()).interacted(
                pairs.last().0,
                pairs.last().1,
                levels.last(),
            )
        }
    }

    /// The net without its active pairs.
    pub open spec fn emptied(self) -> Levelled {
        Levelled {
            net: Net { fast: Seq::empty(), slow: Seq::empty(), ..self.net },
            fast: Seq::empty(),
            slow: Seq::empty(),
            deepest: self.deepest,
        }
    }

    /// The net after one round.
    pub open spec fn round(self) -> Levelled {
        if self.net.quiescent() {
            self
        } else {
            let swept = self.emptied().swept(self.net.fast + self.net.slow, self.fast + self.slow);
            Levelled { net: swept.net.with_stats(swept.net.stats.deepened()), ..swept }
        }
    }

    /// The net after `n` rounds.
    pub open spec fn rounds(self, n: nat) -> Levelled
        decreases n,
    {
        if n == 0 {
            self
        } else {
            self.rounds((n - 1) as nat).round()
        }
    }

    /// Whether all active pairs have level `level`.
    pub open spec fn all_at(self, level: nat) -> bool {
        &&& self.fast =~= Seq::new(self.net.fast.len(), |i: int| level)
        &&& self.slow =~= Seq::new(self.net.slow.len(), |i: int| level)
    }

    proof fn lemma_swept(self, pairs: Seq<(Port, Port)>, levels: Seq<nat>, level: nat)
        requires
            self.all_at(level + 1),
            levels =~= Seq::new(pairs.len(), |i: int| level),
            self.deepest <= level,
        ensures
            self.swept(pairs, levels).net == self.net.swept(pairs),
            self.swept(pairs, levels).all_at(level + 1),
            self.swept(pairs, levels).deepest == (if pairs.len() == 0 {
                self.deepest
            } else {
                level
            }),
        decreases pairs.len(),
    {
        if pairs.len() > 0 {
            self.lemma_swept(pairs.drop_last(), levels.drop_last(), level);
            let swept = self.swept(pairs.drop_last(), levels.drop_last());
            swept.net.lemma_interacted_keeps(pairs.last().0, pairs.last().1);
        }
    }

    /// In a round all active pairs have the same level.
    pub proof fn lemma_rounds(net: Net, n: nat)
        requires
            net.goes_on_in_rounds(n),
        ensures
            Levelled::start(net).rounds(n).net == net.rounds(n),
            Levelled::start(net).rounds(n).all_at(n + 1),
            Levelled::start(net).rounds(n).deepest == n,
        decreases n,
    {
        if n > 0 {
            let rest = (n - 1) as nat;
            Levelled::lemma_rounds(net, rest);
            let before = Levelled::start(net).rounds(rest);
            before.emptied().lemma_swept(
                before.net.fast + before.net.slow,
                before.fast + before.slow,
                n,
            );
        }
    }
}

/// A traversal whose active pairs have levels, as those of a [`Levelled`] net have. What the
/// host queues when it answers a call counts as queued by the interaction that made the call.
#[verifier::ext_equal]
pub struct LevelledTraversal {
    pub traversal: Traversal,
    /// The levels of the fast active pairs.
    pub fast: Seq<nat>,
    /// The levels of the slow active pairs.
    pub slow: Seq<nat>,
    /// The levels of the active pairs of the round that have not interacted yet.
    pub work: Seq<nat>,
    /// The level of the pair that has interacted last.
    pub last: nat,
    /// The greatest level of a pair that has interacted.
    pub deepest: nat,
}

impl LevelledTraversal {
    /// A traversal at the start.
    pub open spec fn start(net: Net) -> LevelledTraversal {
        LevelledTraversal {
            traversal: Traversal { net, work: None },
            fast: Levelled::start(net).fast,
            slow: Levelled::start(net).slow,
            work: Seq::empty(),
            last: 0,
            deepest: 0,
        }
    }

    /// The same with the traversal `after`, whose new active pairs are one level above the
    /// pair that has interacted last.
    pub open spec fn grown(self, after: Traversal) -> LevelledTraversal {
        LevelledTraversal {
            traversal: after,
            fast: Levelled::grown(self.fast, after.net.fast.len(), self.last + 1),
            slow: Levelled::grown(self.slow, after.net.slow.len(), self.last + 1),
            ..self
        }
    }

    /// The traversal after one turn.
    pub open spec fn turned(self, turn: Turn) -> LevelledTraversal {
        let after = self.traversal.turned(turn);
        if turn is Answer {
            self.grown(after)
        } else if self.traversal.stops() {
            self
        } else {
            match self.traversal.work {
                None => LevelledTraversal {
                    traversal: after,
                    fast: Seq::empty(),
                    slow: Seq::empty(),
                    work: self.fast + self.slow,
                    ..self
                },
                Some(work) => if work.len() > 0 {
                    let level = self.work[0];
                    LevelledTraversal {
                        work: self.work.drop_first(),
                        last: level,
                        deepest: if level > self.deepest {
                            level
                        } else {
                            self.deepest
                        },
                        ..self
                    }.grown(after)
                } else {
                    LevelledTraversal { traversal: after, ..self }
                },
            }
        }
    }

    /// The traversal after `turns`.
    pub open spec fn turns(self, turns: Seq<Turn>) -> LevelledTraversal
        decreases turns.len(),
    {
        if turns.len() == 0 {
            self
        } else {
            self.turns(turns.drop_last()).turned(turns.last())
        }
    }

    /// Whether `rounds` rounds are over, and the levels are those of the next one.
    pub open spec fn in_step(self, first: Net, rounds: nat) -> bool {
        let net = self.traversal.net;
        let next: nat = match self.traversal.work {
            Some(work) => rounds + 2,
            None => rounds + 1,
        };
        &&& net.stats.depth == (first.stats.depth + rounds) % 0x1_0000_0000_0000_0000
        &&& self.fast =~= Seq::new(net.fast.len(), |i: int| next)
        &&& self.slow =~= Seq::new(net.slow.len(), |i: int| next)
        &&& match self.traversal.work {
            Some(work) => {
                &&& self.work =~= Seq::new(work.len(), |i: int| rounds + 1)
                &&& {
                    ||| self.deepest == rounds + 1 && self.last == rounds + 1
                    ||| self.deepest == rounds && work.len() > 0 && !net.waits()
                }
            },
            None => self.deepest == rounds && !net.waits(),
        }
    }

    proof fn lemma_turned(self, first: Net, rounds: nat, turn: Turn) -> (later: nat)
        requires
            self.in_step(first, rounds),
        ensures
            self.turned(turn).in_step(first, later),
            self.turned(turn).traversal == self.traversal.turned(turn),
    {
        let net = self.traversal.net;
        match turn {
            Turn::Move => if self.traversal.stops() {
                rounds
            } else {
                match self.traversal.work {
                    None => rounds,
                    Some(work) => if work.len() > 0 {
                        net.lemma_interacted_keeps(work[0].0, work[0].1);
                        assert(self.work[0] == rounds + 1);
                        rounds
                    } else {
                        rounds + 1
                    },
                }
            },
            Turn::Answer { left, right } => {
                if net.waits() {
                    let taken = Net { calls: net.calls.drop_first(), ..net };
                    let call = net.calls[0];
                    taken.lemma_linked_quiet(Port::Wire(call.left), left);
                    taken.linked(Port::Wire(call.left), left).lemma_linked_quiet(
                        Port::Wire(call.right),
                        right,
                    );
                }
                rounds
            },
        }
    }

    /// Whatever the turns, all active pairs of a round have the same level.
    pub proof fn lemma_turns(net: Net, turns: Seq<Turn>) -> (rounds: nat)
        requires
            !net.waits(),
        ensures
            LevelledTraversal::start(net).turns(turns).in_step(net, rounds),
            LevelledTraversal::start(net).turns(turns).traversal == (Traversal {
                net,
                work: None,
            }).turns(turns),
        decreases turns.len(),
    {
        if turns.len() == 0 {
            0
        } else {
            let earlier = LevelledTraversal::lemma_turns(net, turns.drop_last());
            LevelledTraversal::start(net).turns(turns.drop_last()).lemma_turned(
                net,
                earlier,
                turns.last(),
            )
        }
    }
}

} // verus!
