//! Polymer reduction: adjacent units of the same type and opposite polarity
//! (the same letter in different case) destroy each other.

use vstd::prelude::*;

verus! {

/// The ASCII lower case of a character code.
pub open spec fn lower(c: char) -> u32 {
    if 'A' <= c && c <= 'Z' {
        (c as u32 + 32) as u32
    } else {
        c as u32
    }
}

/// Two units react: same letter, opposite case.
pub open spec fn reacts_spec(a: char, b: char) -> bool {
    a != b && lower(a) == lower(b)
}

fn lower_code(c: char) -> (r: u32)
    ensures
        r == lower(c),
{
    if 'A' <= c && c <= 'Z' {
        c as u32 + 32
    } else {
        c as u32
    }
}

/// Whether two units react with each other.
pub fn reacts(a: char, b: char) -> (r: bool)
    ensures
        r == reacts_spec(a, b),
{
    a != b && lower_code(a) == lower_code(b)
}

/// The units left after reacting the polymer `s` from left to right, with
/// every unit of type `skip` (in either case) taken out first.
pub open spec fn reduced(s: Seq<char>, skip: Option<char>) -> Seq<char>
    decreases s.len(),
{
    if s.len() == 0 {
        Seq::empty()
    } else {
        let stack = reduced(s.drop_last(), skip);
        let c = s.last();
        if skip is Some && skip->Some_0 as u32 == lower(c) {
            stack
        } else if stack.len() > 0 && reacts_spec(stack.last(), c) {
            stack.drop_last()
        } else {
            stack.push(c)
        }
    }
}

/// Length of the polymer once all reactions are done, the units of type
/// `skip` (given in lower case) removed beforehand.
pub fn reduce(polymer: &str, skip: Option<char>) -> (n: usize)
    ensures
        n == reduced(polymer@, skip).len(),
{
    let mut stack: Vec<char> = Vec::new();
    let ghost mut done: Seq<char> = Seq::empty();
    for ch in it: polymer.chars()
        invariant
            it.seq() == polymer@,
            done == it.seq().subrange(0, it.index() as int),
            stack@ == reduced(done, skip),
    {
        proof {
            let next = done.push(ch);
            assert(next.drop_last() == done);
            done = next;
        }
        let drop = match skip {
            Some(s) => s as u32 == lower_code(ch),
            None => false,
        };
        if !drop {
            if stack.len() > 0 && reacts(stack[stack.len() - 1], ch) {
                stack.pop();
            } else {
                stack.push(ch);
            }
        }
    }
    assert(done == polymer@);
    stack.len()
}

} // verus!
