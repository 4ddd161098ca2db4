use std::sync::Arc;
use vstd::prelude::*;
use im::Vector;
use crate::chain::{ChainTrie, SearchResult, strict_prefix};
use crate::chars::{copy_symbols, empty_symbols, push_symbol, symbols, symbols_empty};
use crate::key::Key;
use crate::vim_mode::Mode;

verus! {

/// The leader sequence under which the default action is bound: two spaces.
pub open spec fn leader() -> Seq<char> {
    seq![' ', ' ']
}

/// Some stored sequence of `m` strictly extends `b`.
pub open spec fn pending<A>(m: Map<Seq<char>, A>, b: Seq<char>) -> bool {
    exists|k: Seq<char>| #[trigger] m.contains_key(k) && strict_prefix(b, k)
}

/// Turns key events into chords: in normal mode, symbols accumulate in a
/// buffer until they spell a bound sequence, whose action is then handed back.
pub struct Commander<A> {
    leader_mapping: ChainTrie<A>,
}

impl<A> Commander<A> {
    /// The bound sequences and their actions.
    pub closed spec fn bindings(&self) -> Map<Seq<char>, A> {
        self.leader_mapping@
    }

    /// The tree of bindings is well formed.
    pub closed spec fn wf(&self) -> bool {
        self.leader_mapping.wf()
    }

    /// A dispatcher with `f` bound to the leader sequence, and nothing else.
    pub fn new(f: A) -> (r: Self)
        ensures
            r.wf(),
            r.bindings() == Map::<Seq<char>, A>::empty().insert(leader(), f),
    {
        let key = "  ".to_owned();
        proof {
            reveal_strlit("  ");
            assert(key@ == leader());
        }
        let empty: ChainTrie<A> = ChainTrie::new();
        match empty.with(key, f) {
            Ok(leader_mapping) => Self { leader_mapping },
            Err(_) => {
                proof {
                    assert(!exists|j: int| 0 <= j < 2 && #[trigger] empty@.contains_key(
                        leader().take(j),
                    ));
                }
                Self { leader_mapping: empty }
            },
        }
    }

    /// Handles one key event. Escape returns to normal mode and clears the
    /// buffer. In normal mode a symbol is appended to the buffer; where the
    /// buffer then spells a bound sequence its action is returned and the buffer
    /// cleared, where it begins one it is kept, and otherwise it is cleared.
    /// In the other modes a symbol changes nothing.
    pub fn on_key_press(&self, mode: &mut Mode, current_command_chain: &mut Vector<char>, key: Key)
        -> (r: Option<Arc<A>>)
        requires
            self.wf(),
        ensures
            match key {
                Key::Esc => *final(mode) == Mode::Normal && symbols(*final(current_command_chain))
                    == Seq::<char>::empty() && r is None,
                Key::Char(c) => match *old(mode) {
                    Mode::Normal => {
                        let b = symbols(*old(current_command_chain)).push(c);
                        let m = self.bindings();
                        &&& *final(mode) == Mode::Normal
                        &&& m.contains_key(b) ==> (r matches Some(a) && *a == m[b]) && symbols(
                            *final(current_command_chain),
                        ) == Seq::<char>::empty()
                        &&& !m.contains_key(b) && pending(m, b) ==> r is None && symbols(
                            *final(current_command_chain),
                        ) == b
                        &&& !m.contains_key(b) && !pending(m, b) ==> r is None && symbols(
                            *final(current_command_chain),
                        ) == Seq::<char>::empty()
                    },
                    _ => *final(mode) == *old(mode) && *final(current_command_chain)
                        == *old(current_command_chain) && r is None,
                },
            },
    {
        match key {
            Key::Esc => {
                *mode = Mode::Normal;
                *current_command_chain = empty_symbols();
                None
            },
            Key::Char(c) => match *mode {
                Mode::Normal => {
                    push_symbol(current_command_chain, c);
                    let ghost b = symbols(*current_command_chain);
                    match self.leader_mapping.search(copy_symbols(current_command_chain)) {
                        SearchResult::NoMatch => {
                            if symbols_empty(current_command_chain) {
                            } else {
                                *current_command_chain = empty_symbols();
                            }
                            proof {
                                assert(b.take(b.len() as int) == b);
                                if pending(self.bindings(), b) {
                                    let k = choose|k: Seq<char>| #[trigger] self.bindings().contains_key(k) && strict_prefix(b, k);
                                    assert(k.take(b.len() as int) == b);
                                }
                            }
                            None
                        },
                        SearchResult::Value(f) => {
                            *current_command_chain = empty_symbols();
                            Some(f)
                        },
                        SearchResult::Children(_) => None,
                    }
                },
                Mode::Insert => None,
                Mode::Visual => None,
            },
        }
    }
}

} // verus!
