//! The greeting that the playground's `greet` tool answers with.

use vstd::prelude::*;

verus! {

/// The greeting for `name`: `Hello, ` and the name, closed by `!` when
/// `excited` and by `.` otherwise.
pub open spec fn greeting_text(name: Seq<char>, excited: bool) -> Seq<char> {
    "Hello, "@ + name + if excited {
        "!"@
    } else {
        "."@
    }
}

/// The greeting is `Hello, ` (seven characters), then the name unchanged,
/// then one closing mark: `!` exactly when `excited`, `.` otherwise,
/// whatever the name.
pub proof fn lemma_greeting_shape(name: Seq<char>, excited: bool)
    ensures
        greeting_text(name, excited).len() == name.len() + 8,
        greeting_text(name, excited).take(7) == seq!['H', 'e', 'l', 'l', 'o', ',', ' '],
        greeting_text(name, excited).subrange(7, 7 + name.len() as int) == name,
        greeting_text(name, excited).last() == if excited {
            '!'
        } else {
            '.'
        },
{
    reveal_strlit("Hello, ");
    reveal_strlit("!");
    reveal_strlit(".");
    let g = greeting_text(name, excited);
    assert(g.take(7) =~= seq!['H', 'e', 'l', 'l', 'o', ',', ' ']);
    assert(g.subrange(7, 7 + name.len() as int) =~= name);
}

/// Greets `name`, with an exclamation mark when `excited`.
pub fn greeting(name: &str, excited: bool) -> (g: String)
    ensures
        g@ == greeting_text(name@, excited),
        g@.len() == name@.len() + 8,
        g@.take(7) == seq!['H', 'e', 'l', 'l', 'o', ',', ' '],
        g@.subrange(7, 7 + name@.len() as int) == name@,
        g@.last() == if excited {
            '!'
        } else {
            '.'
        },
{
    proof {
        lemma_greeting_shape(name@, excited);
    }
    let mut g = String::from_str("Hello, ");
    g.append(name);
    if excited {
        g.append("!");
    } else {
        g.append(".");
    }
    g
}

} // verus!
