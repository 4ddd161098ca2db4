use vstd::prelude::*;
use vstd::string::StringExecFns;
use im::Vector;
use crate::chars::{copy_symbols, pop_symbol, symbols};

verus! {

/// How one symbol of a chord is shown: a space as `<SPC>`, any other symbol as itself.
pub open spec fn token(c: char) -> Seq<char> {
    if c == ' ' {
        seq!['<', 'S', 'P', 'C', '>']
    } else {
        seq![c]
    }
}

/// How a chord is shown: the tokens of its symbols, separated by single spaces.
pub open spec fn chain_text(s: Seq<char>) -> Seq<char>
    decreases s.len(),
{
    if s.len() == 0 {
        Seq::empty()
    } else if s.len() == 1 {
        token(s[0])
    } else {
        chain_text(s.drop_last()) + seq![' '] + token(s.last())
    }
}

/// Relies on `char::to_string`: a string that holds just that character.
#[verifier::external_body]
fn char_text(c: char) -> (r: String)
    ensures
        r@ == seq![c],
{
    c.to_string()
}

/// The text under which an in-progress chord is shown.
pub fn command_chain_to_string(command_chain: &Vector<char>) -> (r: String)
    ensures
        r@ == chain_text(symbols(*command_chain)),
{
    let ghost all = symbols(*command_chain);
    let mut rest = copy_symbols(command_chain);
    let mut out = String::new();
    let mut first = true;
    let ghost mut done: int = 0;
    loop
        invariant
            all == symbols(*command_chain),
            0 <= done <= all.len(),
            symbols(rest) == all.skip(done),
            out@ == chain_text(all.take(done)),
            first == (done == 0),
        decreases all.len() - done,
    {
        let ghost before = all.take(done);
        match pop_symbol(&mut rest) {
            None => {
                assert(all.skip(done).len() == 0);
                assert(done == all.len());
                assert(all.take(done) == all);
                return out;
            },
            Some(c) => {
                if !first {
                    out.append(" ");
                    proof {
                        reveal_strlit(" ");
                    }
                }
                if c == ' ' {
                    out.append("<SPC>");
                    proof {
                        reveal_strlit("<SPC>");
                    }
                } else {
                    let t = char_text(c);
                    out.append(t.as_str());
                }
                first = false;
                proof {
                    assert(c == all[done]);
                    let after = all.take(done + 1);
                    assert(after.drop_last() == before);
                    assert(after.last() == c);
                    assert(all.skip(done).drop_first() == all.skip(done + 1));
                    done = done + 1;
                }
            },
        }
    }
}

} // verus!
