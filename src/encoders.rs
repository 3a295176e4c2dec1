//! Ready-made encodings: the lower-case Latin letters, optionally with the
//! digits and the space, each folding upper case into lower case.

use crate::encoding::{lemma_code_injective, Encoding};
use vstd::prelude::*;

verus! {

/// The letters `a` to `z`.
pub open spec fn letters() -> Seq<char> {
    Seq::new(26, |i: int| (97 + i) as char)
}

/// The digits `1` to `9`.
pub open spec fn digits() -> Seq<char> {
    Seq::new(9, |i: int| (49 + i) as char)
}

/// The first `n` upper-case letters, each mapped to its lower-case letter.
pub open spec fn upper_to_lower(n: int) -> Map<char, char> {
    Map::new(|c: char| 65 <= (c as u32) && (c as u32) < 65 + n, |c: char| (c as u32 + 32) as char)
}

/// Newline and tab, each mapped to the space.
pub open spec fn whitespace_to_space() -> Map<char, char> {
    map!['\n' => ' ', '\t' => ' ']
}

/// The character `offset` places after `base`.
fn char_num(base: char, offset: u8) -> (r: char)
    requires
        base as u32 + offset as u32 <= 127,
    ensures
        r as u32 == base as u32 + offset as u32,
        r == (base as u32 + offset as u32) as char,
{
    (offset + base as u8) as char
}

fn add_num(e: &mut Encoding)
    requires
        old(e).wf(),
        old(e).alphabet().len() + 9 < usize::MAX,
    ensures
        final(e).wf(),
        final(e).alphabet() == old(e).alphabet() + digits(),
        final(e).mapping() == old(e).mapping(),
{
    let ghost start = e.alphabet();
    for i in 0..9u8
        invariant
            e.wf(),
            e.alphabet() == start + digits().subrange(0, i as int),
            e.mapping() == old(e).mapping(),
            start.len() + 9 < usize::MAX,
    {
        e.insert_char(char_num('1', i));
        assert(e.alphabet() =~= start + digits().subrange(0, i + 1));
    }
    assert(digits().subrange(0, 9) =~= digits());
}

fn add_az(e: &mut Encoding)
    requires
        old(e).wf(),
        old(e).alphabet().len() + 26 < usize::MAX,
    ensures
        final(e).wf(),
        final(e).alphabet() == old(e).alphabet() + letters(),
        final(e).mapping() == old(e).mapping(),
{
    let ghost start = e.alphabet();
    for i in 0..26u8
        invariant
            e.wf(),
            e.alphabet() == start + letters().subrange(0, i as int),
            e.mapping() == old(e).mapping(),
            start.len() + 26 < usize::MAX,
    {
        e.insert_char(char_num('a', i));
        assert(e.alphabet() =~= start + letters().subrange(0, i + 1));
    }
    assert(letters().subrange(0, 26) =~= letters());
}

fn add_space(e: &mut Encoding)
    requires
        old(e).wf(),
        old(e).alphabet().len() + 1 < usize::MAX,
    ensures
        final(e).wf(),
        final(e).alphabet() == old(e).alphabet().push(' '),
        final(e).mapping() == old(e).mapping(),
{
    e.insert_char(' ');
}

#[allow(non_snake_case)]
fn map_AZ(e: &mut Encoding)
    requires
        old(e).wf(),
    ensures
        final(e).wf(),
        final(e).alphabet() == old(e).alphabet(),
        final(e).mapping() == old(e).mapping().union_prefer_right(upper_to_lower(26)),
{
    for i in 0..26u8
        invariant
            e.wf(),
            e.alphabet() == old(e).alphabet(),
            e.mapping() == old(e).mapping().union_prefer_right(upper_to_lower(i as int)),
    {
        let upper = char_num('A', i);
        let lower = char_num('a', i);
        e.insert_map(upper, lower);
        proof {
            let before = old(e).mapping().union_prefer_right(upper_to_lower(i as int));
            let after = old(e).mapping().union_prefer_right(upper_to_lower(i + 1));
            assert(lower == (upper as u32 + 32) as char);
            assert forall|c: char| #[trigger] after.contains_key(c) == e.mapping().contains_key(c) && (
            after.contains_key(c) ==> after[c] == e.mapping()[c]) by {
                lemma_code_injective(c, upper);
                if c != upper {
                    assert(upper_to_lower(i + 1).contains_key(c) == upper_to_lower(
                        i as int,
                    ).contains_key(c));
                }
            }
            assert(e.mapping() =~= after);
        }
    }
}

fn map_whitespace(e: &mut Encoding)
    requires
        old(e).wf(),
    ensures
        final(e).wf(),
        final(e).alphabet() == old(e).alphabet(),
        final(e).mapping() == old(e).mapping().union_prefer_right(whitespace_to_space()),
{
    e.insert_map('\n', ' ');
    e.insert_map('\t', ' ');
    assert(e.mapping() =~= old(e).mapping().union_prefer_right(whitespace_to_space()));
}

/// The letters `a` to `z`, then the digits `1` to `9`; upper-case letters
/// fold into lower case.
pub fn alphanumeric() -> (e: Encoding)
    ensures
        e.wf(),
        e.alphabet() == letters() + digits(),
        e.mapping() == upper_to_lower(26),
{
    let mut e: Encoding = Encoding::new();
    add_az(&mut e);
    map_AZ(&mut e);
    add_num(&mut e);
    assert(Seq::<char>::empty() + letters() =~= letters());
    assert(Map::<char, char>::empty().union_prefer_right(upper_to_lower(26)) =~= upper_to_lower(26));
    e
}

/// The letters `a` to `z`, the digits `1` to `9` and the space; upper-case
/// letters fold into lower case, newline and tab into the space.
pub fn alphanumeric_space() -> (e: Encoding)
    ensures
        e.wf(),
        e.alphabet() == (letters() + digits()).push(' '),
        e.mapping() == upper_to_lower(26).union_prefer_right(whitespace_to_space()),
{
    let mut e: Encoding = Encoding::new();
    add_az(&mut e);
    map_AZ(&mut e);
    add_num(&mut e);
    add_space(&mut e);
    map_whitespace(&mut e);
    assert(Seq::<char>::empty() + letters() =~= letters());
    assert(Map::<char, char>::empty().union_prefer_right(upper_to_lower(26)) =~= upper_to_lower(26));
    e
}

/// The letters `a` to `z`; upper-case letters fold into lower case.
pub fn alpha() -> (e: Encoding)
    ensures
        e.wf(),
        e.alphabet() == letters(),
        e.mapping() == upper_to_lower(26),
{
    let mut e: Encoding = Encoding::new();
    add_az(&mut e);
    map_AZ(&mut e);
    assert(Seq::<char>::empty() + letters() =~= letters());
    assert(Map::<char, char>::empty().union_prefer_right(upper_to_lower(26)) =~= upper_to_lower(26));
    e
}

/// The letters `a` to `z` and the space; upper-case letters fold into lower
/// case, newline and tab into the space.
pub fn alpha_space() -> (e: Encoding)
    ensures
        e.wf(),
        e.alphabet() == letters().push(' '),
        e.mapping() == upper_to_lower(26).union_prefer_right(whitespace_to_space()),
{
    let mut e: Encoding = Encoding::new();
    add_az(&mut e);
    map_AZ(&mut e);
    add_space(&mut e);
    map_whitespace(&mut e);
    assert(Seq::<char>::empty() + letters() =~= letters());
    assert(Map::<char, char>::empty().union_prefer_right(upper_to_lower(26)) =~= upper_to_lower(26));
    e
}

/// The letters `a`, `b` and `c`, with `A`, `B` and `C` folding into them.
pub fn short_abc() -> (e: Encoding)
    ensures
        e.wf(),
        e.alphabet() == seq!['a', 'b', 'c'],
        e.mapping() == map!['A' => 'a', 'B' => 'b', 'C' => 'c'],
{
    let mut e = Encoding::new();
    e.insert_char('a');
    e.insert_char('b');
    e.insert_char('c');
    e.insert_map('A', 'a');
    e.insert_map('B', 'b');
    e.insert_map('C', 'c');
    assert(e.alphabet() =~= seq!['a', 'b', 'c']);
    assert(e.mapping() =~= map!['A' => 'a', 'B' => 'b', 'C' => 'c']);
    e
}

} // verus!
