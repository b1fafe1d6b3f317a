//! The accumulator's node state: a grow-only set of strings.
//!
//! Each node adds what clients hand it and merges what peers broadcast;
//! all nodes converge to the same set. The state logic is here; binding
//! sockets, receiving datagrams and broadcasting are the surrounding
//! program's work, driven by what `handle_msg` decides.

use vstd::prelude::*;

verus! {

/// A message an accumulator node receives.
#[derive(Debug)]
pub enum Message {
    /// A client contributes one item.
    FromClient { item: String },
    /// A peer broadcasts its whole state.
    FromServer { state: Vec<String> },
    /// An operator shuts the node down.
    Terminate,
}

/// Whether the string `x` occurs in the list.
pub open spec fn has_str(s: Seq<String>, x: Seq<char>) -> bool {
    exists|i: int| 0 <= i < s.len() && (#[trigger] s[i])@ == x
}

/// No string occurs twice.
pub open spec fn unique_strs(s: Seq<String>) -> bool {
    forall|i: int, j: int| 0 <= i < j < s.len() ==> s[i]@ != s[j]@
}

/// An accumulator node's state: the set of strings seen so far, kept
/// without duplicates, and whether the node keeps serving.
#[derive(Debug)]
pub struct ServerState {
    items: Vec<String>,
    running: bool,
}

impl ServerState {
    /// The items held.
    pub closed spec fn spec_items(&self) -> Seq<String> {
        self.items@
    }

    /// Whether the node keeps serving.
    pub closed spec fn spec_running(&self) -> bool {
        self.running
    }

    /// The representation invariant: no item occurs twice.
    pub open spec fn wf(&self) -> bool {
        unique_strs(self.spec_items())
    }

    /// A fresh node: no items, not yet serving.
    pub fn new() -> (r: Self)
        ensures
            r.wf(),
            r.spec_items() =~= Seq::<String>::empty(),
            !r.spec_running(),
    {
        ServerState { items: Vec::new(), running: false }
    }

    /// Marks the node as serving; its event loop runs until a terminate
    /// message clears this again.
    pub fn start(&mut self)
        ensures
            final(self).spec_items() == old(self).spec_items(),
            final(self).spec_running(),
            old(self).wf() ==> final(self).wf(),
    {
        self.running = true;
    }

    /// Whether the node keeps serving.
    pub fn is_running(&self) -> (r: bool)
        ensures
            r == self.spec_running(),
    {
        self.running
    }

    /// The items held, in the order first seen.
    pub fn items(&self) -> (r: &Vec<String>)
        ensures
            r@ == self.spec_items(),
    {
        &self.items
    }

    /// Whether an item is already held.
    fn contains_item(&self, x: &String) -> (r: bool)
        ensures
            r == has_str(self.items@, x@),
    {
        let n = self.items.len();
        let mut i: usize = 0;
        while i < n
            invariant
                n == self.items@.len(),
                0 <= i <= n,
                forall|j: int| 0 <= j < i ==> (#[trigger] self.items@[j])@ != x@,
            decreases n - i,
        {
            if self.items[i].eq(x) {
                return true;
            }
            i += 1;
        }
        false
    }

    /// Merges a peer's state into this node's: every incoming item not yet
    /// held is adopted, in the order it arrives. Returns whether the state
    /// grew — exactly then the new state must be broadcast to the peers.
    pub fn merge(&mut self, state: &Vec<String>) -> (grew: bool)
        requires
            old(self).wf(),
        ensures
            final(self).wf(),
            final(self).spec_running() == old(self).spec_running(),
            forall|x: Seq<char>| #[trigger] has_str(final(self).spec_items(), x) <==> (has_str(
                old(self).spec_items(),
                x,
            ) || has_str(state@, x)),
            grew == (final(self).spec_items().len() > old(self).spec_items().len()),
    {
        let old_len = self.items.len();
        let n = state.len();
        let mut i: usize = 0;
        proof {
            assert(state@.take(0) =~= Seq::<String>::empty());
        }
        while i < n
            invariant
                n == state@.len(),
                0 <= i <= n,
                self.running == old(self).running,
                old(self).items@.len() <= self.items@.len(),
                unique_strs(self.items@),
                forall|x: Seq<char>| #[trigger] has_str(self.items@, x) <==> (has_str(
                    old(self).items@,
                    x,
                ) || has_str(state@.take(i as int), x)),
            decreases n - i,
        {
            let ghost before = self.items@;
            let absent = !self.contains_item(&state[i]);
            if absent {
                self.items.push(state[i].clone());
            }
            proof {
                let cur = state@[i as int]@;
                if absent {
                    // The pushed item's characters are the incoming ones.
                    assert(self.items@.last()@ == cur);
                    assert forall|a: int, b: int| 0 <= a < b < self.items@.len() implies
                        self.items@[a]@ != self.items@[b]@ by {
                        if b == self.items@.len() - 1 {
                            assert(self.items@[a] == before[a]);
                            assert(has_str(before, before[a]@));
                        }
                    }
                    assert forall|x: Seq<char>| #[trigger] has_str(self.items@, x) <==> (has_str(
                        before,
                        x,
                    ) || cur == x) by {
                        if has_str(self.items@, x) {
                            let w = choose|w: int|
                                0 <= w < self.items@.len() && (#[trigger] self.items@[w])@ == x;
                            if w < self.items@.len() - 1 {
                                assert(before[w]@ == x);
                            }
                        }
                        if has_str(before, x) {
                            let w = choose|w: int|
                                0 <= w < before.len() && (#[trigger] before[w])@ == x;
                            assert(self.items@[w]@ == x);
                        }
                        if cur == x {
                            assert(self.items@[self.items@.len() - 1]@ == x);
                        }
                    }
                }
                assert forall|x: Seq<char>| #[trigger] has_str(state@.take(i as int + 1), x)
                    <==> (has_str(state@.take(i as int), x) || cur == x) by {
                    if has_str(state@.take(i as int + 1), x) {
                        let w = choose|w: int|
                            0 <= w < i + 1 && (#[trigger] state@.take(i as int + 1)[w])@ == x;
                        if w < i {
                            assert(state@.take(i as int)[w]@ == x);
                        }
                    }
                    if has_str(state@.take(i as int), x) {
                        let w = choose|w: int|
                            0 <= w < i && (#[trigger] state@.take(i as int)[w])@ == x;
                        assert(state@.take(i as int + 1)[w]@ == x);
                    }
                    if cur == x {
                        assert(state@.take(i as int + 1)[i as int]@ == x);
                    }
                }
            }
            i += 1;
        }
        proof {
            assert(state@.take(n as int) =~= state@);
        }
        self.items.len() > old_len
    }

    /// Consumes one received message: a client item or a peer state is
    /// merged in, a terminate request stops the node. Returns whether the
    /// grown state must be broadcast to the peers; a terminate message
    /// never broadcasts.
    pub fn handle_msg(&mut self, msg: &Message) -> (broadcast: bool)
        requires
            old(self).wf(),
        ensures
            final(self).wf(),
            match msg {
                Message::FromClient { item } => final(self).spec_running() == old(
                    self,
                ).spec_running() && (forall|x: Seq<char>|
                    #[trigger] has_str(final(self).spec_items(), x) <==> (has_str(
                        old(self).spec_items(),
                        x,
                    ) || item@ == x)) && broadcast == (final(self).spec_items().len() > old(
                    self,
                ).spec_items().len()),
                Message::FromServer { state } => final(self).spec_running() == old(
                    self,
                ).spec_running() && (forall|x: Seq<char>|
                    #[trigger] has_str(final(self).spec_items(), x) <==> (has_str(
                        old(self).spec_items(),
                        x,
                    ) || has_str(state@, x))) && broadcast == (final(self).spec_items().len()
                    > old(self).spec_items().len()),
                Message::Terminate => final(self).spec_items() == old(self).spec_items()
                    && !final(self).spec_running() && !broadcast,
            },
    {
        match msg {
            Message::FromClient { item } => {
                let mut single: Vec<String> = Vec::new();
                single.push(item.clone());
                let grew = self.merge(&single);
                proof {
                    assert forall|x: Seq<char>| #[trigger] has_str(single@, x) <==> item@ == x by {
                        if has_str(single@, x) {
                            let w = choose|w: int|
                                0 <= w < single@.len() && (#[trigger] single@[w])@ == x;
                        }
                        if item@ == x {
                            assert(single@[0]@ == x);
                        }
                    }
                }
                grew
            },
            Message::FromServer { state } => self.merge(state),
            Message::Terminate => {
                self.running = false;
                false
            },
        }
    }
}

} // verus!
