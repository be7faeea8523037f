//! Building texts character by character.

use crate::lexer::keyword_text;
use vstd::prelude::*;

verus! {

/// `String::push` of the standard library, which vstd leaves without a
/// contract: the string afterwards is the string before with `c` as one more
/// character at its end.
pub assume_specification[ String::push ](s: &mut String, c: char)
    ensures
        final(s)@ == old(s)@.push(c),
;

/// Appends `true` or `false`.
pub fn push_keyword(out: &mut String, value: bool)
    ensures
        final(out)@ == old(out)@ + keyword_text(value),
{
    if value {
        out.push('t');
        out.push('r');
        out.push('u');
        out.push('e');
        assert(out@ =~= old(out)@ + keyword_text(true));
    } else {
        out.push('f');
        out.push('a');
        out.push('l');
        out.push('s');
        out.push('e');
        assert(out@ =~= old(out)@ + keyword_text(false));
    }
}

/// The connective of a conjunction or of a disjunction, with a space on either side.
pub open spec fn junction_text(conjunction: bool) -> Seq<char> {
    if conjunction {
        seq![' ', '∧', ' ']
    } else {
        seq![' ', '∨', ' ']
    }
}

/// Appends ` ∧ ` or ` ∨ `.
pub fn push_junction(out: &mut String, conjunction: bool)
    ensures
        final(out)@ == old(out)@ + junction_text(conjunction),
{
    out.push(' ');
    if conjunction {
        out.push('∧');
    } else {
        out.push('∨');
    }
    out.push(' ');
    assert(out@ =~= old(out)@ + junction_text(conjunction));
}

/// The sequences in `parts` with `separator` between neighbours.
pub open spec fn join<T>(parts: Seq<Seq<T>>, separator: Seq<T>) -> Seq<T>
    decreases parts.len(),
{
    if parts.len() == 0 {
        Seq::empty()
    } else if parts.len() == 1 {
        parts[0]
    } else {
        join(parts.drop_last(), separator) + separator + parts.last()
    }
}

/// Whether `part` stands in `whole` from the index `at` on.
pub open spec fn occurs_at<T>(whole: Seq<T>, at: int, part: Seq<T>) -> bool {
    &&& 0 <= at
    &&& at + part.len() <= whole.len()
    &&& forall|k: int| 0 <= k < part.len() ==> whole[at + k] == #[trigger] part[k]
}

/// The index in `join(parts, separator)` at which the part at `i` starts.
pub open spec fn part_start<T>(parts: Seq<Seq<T>>, separator: Seq<T>, i: int) -> int {
    join(parts.take(i), separator).len() + if i > 0 {
        separator.len() as int
    } else {
        0
    }
}

/// Where the parts and the separators stand in a joined sequence: the part
/// at `i` starts at `part_start`, the join of the parts up to it ends where
/// it ends, and a separator follows every part but the last.
pub proof fn lemma_join_parts<T>(parts: Seq<Seq<T>>, separator: Seq<T>, i: int)
    requires
        0 <= i < parts.len(),
    ensures
        occurs_at(join(parts, separator), part_start(parts, separator, i), parts[i]),
        join(parts.take(i + 1), separator).len() == part_start(parts, separator, i)
            + parts[i].len(),
        i + 1 < parts.len() ==> occurs_at(
            join(parts, separator),
            join(parts.take(i + 1), separator).len() as int,
            separator,
        ),
        i + 1 == parts.len() ==> join(parts.take(i + 1), separator) == join(parts, separator),
    decreases parts.len(),
{
    let whole = join(parts, separator);
    let init = parts.drop_last();
    let n = parts.len() as int;
    assert(parts.take(n) =~= parts);
    assert(parts.take(n - 1) =~= init);
    if i + 1 == n {
        if n == 1 {
            assert(parts.take(0) =~= Seq::<Seq<T>>::empty());
        }
    } else {
        lemma_join_parts(init, separator, i);
        assert(init.take(i) =~= parts.take(i));
        assert(init.take(i + 1) =~= parts.take(i + 1));
        assert(init[i] == parts[i]);
        if i + 2 == n {
            assert(join(parts.take(i + 1), separator) == join(init, separator));
        }
    }
}

} // verus!
