//! Truth tables of expressions with variables, and the normal forms read off them.
//!
//! A variable is one of the letters `A` to `Z` other than `T` and `F`, which
//! abbreviate the two truth values.

use crate::assignment::{as_map, lemma_as_map, mentions, Assignment};
use crate::calculator::{analyse, truth_value, Calculator, SyntaxError};
use crate::lexer::{characters, keyword_text};
use crate::parser::Node;
use crate::text::{join, junction_text, push_junction, push_keyword};
use vstd::string::StringExecFns;
use vstd::arithmetic::div_mod::lemma_div_denominator;
use vstd::arithmetic::power2::{lemma2_to64, lemma_pow2_strictly_increases, lemma_pow2_unfold, pow2};
use vstd::prelude::*;

verus! {

/// Whether `c` names a variable.
pub open spec fn is_variable(c: char) -> bool {
    'A' <= c <= 'Z' && c != 'T' && c != 'F'
}

/// What stands for the character `c` under an assignment: the keyword for
/// `T`, for `F` and for a variable that has a value, else `c` itself.
pub open spec fn substitute_char(c: char, assignment: Map<char, bool>) -> Seq<char> {
    if c == 'T' {
        keyword_text(true)
    } else if c == 'F' {
        keyword_text(false)
    } else if is_variable(c) && assignment.dom().contains(c) {
        keyword_text(assignment[c])
    } else {
        seq![c]
    }
}

/// The text with every character replaced by what stands for it.
pub open spec fn substitute(text: Seq<char>, assignment: Map<char, bool>) -> Seq<char>
    decreases text.len(),
{
    if text.len() == 0 {
        Seq::empty()
    } else {
        substitute(text.drop_last(), assignment) + substitute_char(text.last(), assignment)
    }
}

/// The text of `expr` under `assignments`.
fn substituted(expr: &str, assignments: &Assignment) -> (text: String)
    ensures
        text@ == substitute(expr@, assignments@),
{
    let chars = characters(expr);
    let mut out = String::new();
    let mut i: usize = 0;
    while i < chars.len()
        invariant
            chars@ == expr@,
            i <= chars.len(),
            out@ == substitute(chars@.take(i as int), assignments@),
        decreases chars.len() - i,
    {
        let c = chars[i];
        proof {
            assert(chars@.take(i + 1).drop_last() =~= chars@.take(i as int));
            assert(chars@.take(i + 1).last() == c);
        }
        if c == 'T' {
            push_keyword(&mut out, true);
        } else if c == 'F' {
            push_keyword(&mut out, false);
        } else if 'A' <= c && c <= 'Z' {
            match assignments.get(c) {
                Some(value) => {
                    push_keyword(&mut out, value);
                },
                None => {
                    out.push(c);
                },
            }
        } else {
            out.push(c);
        }
        i = i + 1;
    }
    proof {
        assert(chars@.take(chars.len() as int) =~= chars@);
    }
    out
}

/// The truth value of `expr` under `assignments`, or the stage at which the
/// substituted text fails.
pub fn try_calculate_with_assignment(expr: &str, assignments: &Assignment) -> (value: Result<
    bool,
    SyntaxError,
>)
    ensures
        match value {
            Ok(v) => truth_value(substitute(expr@, assignments@)) == Some(v),
            Err(e) => analyse(substitute(expr@, assignments@)) == Err::<Node, SyntaxError>(e),
        },
{
    let replaced_expr = substituted(expr, assignments);
    match Calculator::try_build(replaced_expr.as_str()) {
        Ok(mut calculator) => Ok(calculator.eval()),
        Err(e) => Err(e),
    }
}

/// The truth value of `expr` under `assignments`, for an expression whose
/// substituted text is well formed.
pub fn calculate_with_assignment(expr: &str, assignments: &Assignment) -> (value: bool)
    requires
        analyse(substitute(expr@, assignments@)) is Ok,
    ensures
        truth_value(substitute(expr@, assignments@)) == Some(value),
{
    let replaced_expr = substituted(expr, assignments);
    Calculator::build(replaced_expr.as_str()).eval()
}

/// The letter of the alphabet at `j`, counted from `A` at 0.
pub open spec fn letter(j: nat) -> char {
    (('A' as nat) + j) as char
}

/// The variables of `text` among the first `n` letters of the alphabet, in
/// the order of the alphabet.
pub open spec fn variables_among(text: Seq<char>, n: nat) -> Seq<char>
    decreases n,
{
    if n == 0 {
        Seq::empty()
    } else {
        let before = variables_among(text, (n - 1) as nat);
        let c = letter((n - 1) as nat);
        if is_variable(c) && text.contains(c) {
            before.push(c)
        } else {
            before
        }
    }
}

/// The variables that occur in `text`, each once, in the order of the alphabet.
pub open spec fn variables(text: Seq<char>) -> Seq<char> {
    variables_among(text, 26)
}

/// The variables among the first `n` letters are at most `n`, occur in the
/// text, and stand in strictly ascending order.
pub proof fn lemma_variables_among(text: Seq<char>, n: nat)
    requires
        n <= 26,
    ensures
        variables_among(text, n).len() <= n,
        forall|j: int|
            0 <= j < variables_among(text, n).len() ==> {
                let c = #[trigger] variables_among(text, n)[j];
                is_variable(c) && text.contains(c) && (c as nat) < ('A' as nat) + n
            },
        forall|i: int, j: int|
            0 <= i < j < variables_among(text, n).len() ==> (#[trigger] variables_among(text, n)[i]
                as nat) < (#[trigger] variables_among(text, n)[j] as nat),
    decreases n,
{
    if n > 0 {
        lemma_variables_among(text, (n - 1) as nat);
    }
}

/// A variable that occurs in the text is among its variables.
proof fn lemma_variables_among_has(text: Seq<char>, n: nat, c: char)
    requires
        n <= 26,
        is_variable(c),
        text.contains(c),
        (c as nat) < ('A' as nat) + n,
    ensures
        variables_among(text, n).contains(c),
    decreases n,
{
    let vars = variables_among(text, n);
    let before = variables_among(text, (n - 1) as nat);
    if c == letter((n - 1) as nat) {
        assert(vars[vars.len() - 1] == c);
    } else {
        lemma_variables_among_has(text, (n - 1) as nat, c);
        let j = choose|j: int| 0 <= j < before.len() && before[j] == c;
        assert(vars[j] == c);
    }
}

/// The variables of a text are the variables that occur in it, each once:
/// their number is the number of distinct variables of the text.
pub proof fn lemma_variables(text: Seq<char>)
    ensures
        variables(text).no_duplicates(),
        forall|c: char|
            #![trigger variables(text).contains(c)]
            variables(text).contains(c) <==> is_variable(c) && text.contains(c),
{
    lemma_variables_among(text, 26);
    assert forall|c: char| #![trigger variables(text).contains(c)] is_variable(c) && text.contains(
        c,
    ) implies variables(text).contains(c) by {
        lemma_variables_among_has(text, 26, c);
    }
}

/// Whether the bit of `i` at `j` is set, the lowest bit being at 0.
pub open spec fn bit(i: nat, j: nat) -> bool {
    (i / pow2(j)) % 2 == 1
}

/// Row `i` of a table over `vars`: the variable at `j` is true where the bit
/// of `i` at `j` is set.
pub open spec fn row_entries(vars: Seq<char>, i: nat) -> Seq<(char, bool)> {
    Seq::new(vars.len(), |j: int| (vars[j], bit(i, j as nat)))
}

/// The text under the assignment of row `i`.
pub open spec fn row_text(text: Seq<char>, i: nat) -> Seq<char> {
    substitute(text, as_map(row_entries(variables(text), i)))
}

/// The number of rows of the table of `text`: two to the number of its variables.
pub open spec fn row_count(text: Seq<char>) -> nat {
    pow2(variables(text).len())
}

/// Whether the text is an expression under every assignment of its variables.
pub open spec fn tabulable(text: Seq<char>) -> bool {
    forall|i: nat| i < row_count(text) ==> (#[trigger] analyse(row_text(text, i))) is Ok
}

/// Whether row `i` is the first under which the text is no expression.
pub open spec fn first_failure(text: Seq<char>, i: nat) -> bool {
    &&& i < row_count(text)
    &&& analyse(row_text(text, i)) is Err
    &&& forall|j: nat| j < i ==> (#[trigger] analyse(row_text(text, j))) is Ok
}

/// Whether `row` is row `i` of the table of `text`.
pub open spec fn is_row_of(row: (Assignment, bool), text: Seq<char>, i: nat) -> bool {
    &&& row.0.entries() == row_entries(variables(text), i)
    &&& truth_value(row_text(text, i)) == Some(row.1)
}

/// Whether `table` is the table of `text`: one row for each assignment of
/// its variables, with the truth value of the text under it.
pub open spec fn is_truth_table_of(table: Seq<(Assignment, bool)>, text: Seq<char>) -> bool {
    &&& table.len() == row_count(text)
    &&& forall|i: int| 0 <= i < table.len() ==> is_row_of(#[trigger] table[i], text, i as nat)
}

/// No two rows hold the same assignment.
pub open spec fn rows_differ(table: Seq<(Assignment, bool)>) -> bool {
    forall|i: int, j: int|
        0 <= i < j < table.len() ==> (#[trigger] table[i]).0@ != (#[trigger] table[j]).0@
}

/// Two numbers below `pow2(k)` with the same lowest `k` bits are equal.
pub proof fn lemma_bits_determine(i: nat, j: nat, k: nat)
    requires
        i < pow2(k),
        j < pow2(k),
        forall|b: nat| b < k ==> bit(i, b) == bit(j, b),
    ensures
        i == j,
    decreases k,
{
    lemma2_to64();
    if k > 0 {
        lemma_pow2_unfold(k);
        let hi = i / 2;
        let hj = j / 2;
        assert forall|b: nat| b < k - 1 implies #[trigger] bit(hi, b) == bit(hj, b) by {
            lemma_pow2_unfold(b + 1);
            vstd::arithmetic::power2::lemma_pow2_pos(b);
            lemma_div_denominator(i as int, 2, pow2(b) as int);
            lemma_div_denominator(j as int, 2, pow2(b) as int);
            assert(bit(i, b + 1) == bit(j, b + 1));
        }
        lemma_bits_determine(hi, hj, (k - 1) as nat);
        assert(bit(i, 0) == bit(j, 0));
    }
}

/// Two different rows over variables that are all different give different maps.
pub proof fn lemma_rows_differ(vars: Seq<char>, i: nat, j: nat)
    requires
        i != j,
        i < pow2(vars.len()),
        j < pow2(vars.len()),
        forall|a: int, b: int| 0 <= a < b < vars.len() ==> vars[a] != vars[b],
    ensures
        as_map(row_entries(vars, i)) != as_map(row_entries(vars, j)),
{
    if forall|b: nat| b < vars.len() ==> bit(i, b) == bit(j, b) {
        lemma_bits_determine(i, j, vars.len());
    }
    let b = choose|b: nat| b < vars.len() && bit(i, b) != bit(j, b);
    let ri = row_entries(vars, i);
    let rj = row_entries(vars, j);
    lemma_as_map(ri);
    lemma_as_map(rj);
    assert(ri[b as int] == (vars[b as int], bit(i, b)));
    assert(rj[b as int] == (vars[b as int], bit(j, b)));
    assert(as_map(ri)[ri[b as int].0] == bit(i, b));
    assert(as_map(rj)[rj[b as int].0] == bit(j, b));
}

/// Whether `c` occurs in `chars`.
fn occurs(chars: &Vec<char>, c: char) -> (found: bool)
    ensures
        found == chars@.contains(c),
{
    let mut i: usize = 0;
    while i < chars.len()
        invariant
            i <= chars.len(),
            forall|j: int| 0 <= j < i ==> chars@[j] != c,
        decreases chars.len() - i,
    {
        if chars[i] == c {
            return true;
        }
        i = i + 1;
    }
    false
}

/// The variables of `expr`, each once, in the order of the alphabet.
pub fn variables_of(expr: &str) -> (vars: Vec<char>)
    ensures
        vars@ == variables(expr@),
        vars@.len() <= 26,
{
    let chars = characters(expr);
    let mut vars: Vec<char> = Vec::new();
    let mut n: u8 = 0;
    while n < 26
        invariant
            n <= 26,
            chars@ == expr@,
            vars@ == variables_among(expr@, n as nat),
        decreases 26 - n,
    {
        let c = (65u8 + n) as char;
        assert(c == letter(n as nat));
        if c != 'T' && c != 'F' && occurs(&chars, c) {
            vars.push(c);
        }
        n = n + 1;
    }
    proof {
        lemma_variables_among(expr@, 26);
    }
    vars
}

/// The assignment of row `i` over `vars`.
fn row_assignment(vars: &Vec<char>, i: usize) -> (assignment: Assignment)
    requires
        forall|a: int, b: int| 0 <= a < b < vars@.len() ==> vars@[a] != vars@[b],
    ensures
        assignment.entries() == row_entries(vars@, i as nat),
{
    let mut assignment = Assignment::new();
    let mut rest = i;
    let mut j: usize = 0;
    proof {
        lemma2_to64();
    }
    while j < vars.len()
        invariant
            j <= vars.len(),
            forall|a: int, b: int| 0 <= a < b < vars@.len() ==> vars@[a] != vars@[b],
            rest == i as nat / pow2(j as nat),
            assignment.entries() == row_entries(vars@, i as nat).take(j as int),
        decreases vars.len() - j,
    {
        let ghost before = assignment.entries();
        proof {
            lemma_as_map(before);
            if mentions(before, vars@[j as int]) {
                let a = choose|a: int| 0 <= a < before.len() && (#[trigger] before[a]).0 == vars@[j as int];
                assert(before[a].0 == vars@[a]);
            }
            vstd::arithmetic::power2::lemma_pow2_pos(j as nat);
            lemma_pow2_unfold((j + 1) as nat);
            lemma_div_denominator(i as int, pow2(j as nat) as int, 2);
            assert(pow2((j + 1) as nat) == pow2(j as nat) * 2);
        }
        assignment.insert(vars[j], rest % 2 == 1);
        rest = rest / 2;
        proof {
            assert(assignment.entries() =~= row_entries(vars@, i as nat).take(j + 1));
        }
        j = j + 1;
    }
    proof {
        assert(row_entries(vars@, i as nat).take(vars@.len() as int) =~= row_entries(
            vars@,
            i as nat,
        ));
    }
    assignment
}

/// The truth table of `expr`, or the stage at which the text fails under the
/// first assignment that makes it fail.
///
/// The table has one row for each assignment of the variables of `expr`: in
/// row `i` the variable at `j` of `variables` is true where the bit of `i`
/// at `j` is set.
pub fn try_truth_table(expr: &str) -> (table: Result<Vec<(Assignment, bool)>, SyntaxError>)
    ensures
        match table {
            Ok(rows) => tabulable(expr@) && is_truth_table_of(rows@, expr@) && rows_differ(rows@),
            Err(e) => exists|i: nat|
                first_failure(expr@, i) && #[trigger] analyse(row_text(expr@, i)) == Err::<
                    Node,
                    SyntaxError,
                >(e),
        },
{
    let vars = variables_of(expr);
    proof {
        lemma_variables_among(expr@, 26);
        lemma2_to64();
    }
    let mut count: usize = 1;
    let mut k: usize = 0;
    while k < vars.len()
        invariant
            k <= vars.len() <= 26,
            count == pow2(k as nat),
            count <= 0x4000000,
        decreases vars.len() - k,
    {
        proof {
            lemma_pow2_unfold((k + 1) as nat);
            if k + 1 < 26 {
                lemma_pow2_strictly_increases((k + 1) as nat, 26);
            }
            lemma2_to64();
        }
        count = count * 2;
        k = k + 1;
    }
    let mut truth_values: Vec<(Assignment, bool)> = Vec::new();
    let mut i: usize = 0;
    while i < count
        invariant
            i <= count,
            count == row_count(expr@),
            vars@ == variables(expr@),
            forall|a: int, b: int| 0 <= a < b < vars@.len() ==> vars@[a] != vars@[b],
            truth_values@.len() == i,
            forall|r: int|
                0 <= r < i ==> is_row_of(#[trigger] truth_values@[r], expr@, r as nat),
            forall|r: nat| r < i ==> (#[trigger] analyse(row_text(expr@, r))) is Ok,
        decreases count - i,
    {
        let var_assignments = row_assignment(&vars, i);
        match try_calculate_with_assignment(expr, &var_assignments) {
            Ok(result) => {
                truth_values.push((var_assignments, result));
            },
            Err(e) => {
                proof {
                    assert(first_failure(expr@, i as nat));
                }
                return Err(e);
            },
        }
        i = i + 1;
    }
    proof {
        assert(rows_differ(truth_values@)) by {
            assert forall|a: int, b: int| 0 <= a < b < truth_values@.len() implies (
            #[trigger] truth_values@[a]).0@ != (#[trigger] truth_values@[b]).0@ by {
                assert(is_row_of(truth_values@[a], expr@, a as nat));
                assert(is_row_of(truth_values@[b], expr@, b as nat));
                lemma_rows_differ(vars@, a as nat, b as nat);
            }
        }
    }
    Ok(truth_values)
}

/// The truth table of an expression that is well formed under every
/// assignment of its variables.
pub fn truth_table(expr: &str) -> (table: Vec<(Assignment, bool)>)
    requires
        tabulable(expr@),
    ensures
        is_truth_table_of(table@, expr@),
        rows_differ(table@),
{
    try_truth_table(expr).unwrap()
}

/// A variable, with the negation sign in front where it is negated.
pub open spec fn literal(var: char, negated: bool) -> Seq<char> {
    if negated {
        seq!['¬', var]
    } else {
        seq![var]
    }
}

/// The literals of a row in the normal form that collects the rows with the
/// result `wanted`: a variable is negated where its value is not `wanted`.
pub open spec fn literals(entries: Seq<(char, bool)>, wanted: bool) -> Seq<Seq<char>> {
    Seq::new(entries.len(), |j: int| literal(entries[j].0, entries[j].1 != wanted))
}

/// The bracketed clause of a row: its literals, joined by `∧` where `wanted`
/// is true and by `∨` where it is false.
pub open spec fn clause(entries: Seq<(char, bool)>, wanted: bool) -> Seq<char> {
    seq!['('] + join(literals(entries, wanted), junction_text(wanted)) + seq![')']
}

/// The entries of the rows whose result is `wanted`, in the order of the rows.
pub open spec fn selected(rows: Seq<(Assignment, bool)>, wanted: bool) -> Seq<Seq<(char, bool)>>
    decreases rows.len(),
{
    if rows.len() == 0 {
        Seq::empty()
    } else {
        let before = selected(rows.drop_last(), wanted);
        if rows.last().1 == wanted {
            before.push(rows.last().0.entries())
        } else {
            before
        }
    }
}

/// The clause of each of some rows.
pub open spec fn clauses(chosen: Seq<Seq<(char, bool)>>, wanted: bool) -> Seq<Seq<char>> {
    Seq::new(chosen.len(), |i: int| clause(chosen[i], wanted))
}

/// The normal form over the rows whose result is `wanted`: the disjunctive
/// one for `true`, a disjunction of conjunctions, and the conjunctive one for
/// `false`, a conjunction of disjunctions.
pub open spec fn normal_form(rows: Seq<(Assignment, bool)>, wanted: bool) -> Seq<char> {
    join(clauses(selected(rows, wanted), wanted), junction_text(!wanted))
}

/// Appends the literals of a row with their connective between them.
fn push_literals(out: &mut String, entries: &[(char, bool)], wanted: bool)
    ensures
        final(out)@ == old(out)@ + join(literals(entries@, wanted), junction_text(wanted)),
{
    let ghost base = out@;
    let ghost parts = literals(entries@, wanted);
    let mut j: usize = 0;
    proof {
        assert(out@ =~= base + join(parts.take(0), junction_text(wanted)));
    }
    while j < entries.len()
        invariant
            j <= entries.len(),
            parts == literals(entries@, wanted),
            out@ == base + join(parts.take(j as int), junction_text(wanted)),
        decreases entries.len() - j,
    {
        let ghost before = out@;
        if j > 0 {
            push_junction(out, wanted);
        }
        let (var, value) = entries[j];
        if value != wanted {
            out.push('¬');
        }
        out.push(var);
        proof {
            assert(parts.take(j + 1).drop_last() =~= parts.take(j as int));
            assert(parts.take(j + 1).last() == literal(var, value != wanted));
            if j > 0 {
                assert(out@ =~= before + junction_text(wanted) + literal(var, value != wanted));
            } else {
                assert(out@ =~= before + literal(var, value != wanted));
            }
            assert(out@ =~= base + join(parts.take(j + 1), junction_text(wanted)));
        }
        j = j + 1;
    }
    proof {
        assert(parts.take(entries@.len() as int) =~= parts);
    }
}

/// The normal form over the rows of `table` whose result is `wanted`.
fn render_normal_form(table: &[(Assignment, bool)], wanted: bool) -> (text: String)
    ensures
        text@ == normal_form(table@, wanted),
{
    let mut out = String::new();
    let mut first = true;
    let mut r: usize = 0;
    proof {
        assert(table@.take(0) =~= Seq::<(Assignment, bool)>::empty());
    }
    while r < table.len()
        invariant
            r <= table.len(),
            out@ == join(
                clauses(selected(table@.take(r as int), wanted), wanted),
                junction_text(!wanted),
            ),
            first == (selected(table@.take(r as int), wanted).len() == 0),
        decreases table.len() - r,
    {
        let ghost before = out@;
        let ghost done = clauses(selected(table@.take(r as int), wanted), wanted);
        proof {
            assert(table@.take(r + 1).drop_last() =~= table@.take(r as int));
            assert(table@.take(r + 1).last() == table@[r as int]);
        }
        if table[r].1 == wanted {
            if !first {
                push_junction(&mut out, !wanted);
            }
            out.push('(');
            push_literals(&mut out, table[r].0.as_slice(), wanted);
            out.push(')');
            proof {
                let this = clause(table@[r as int].0.entries(), wanted);
                let all = clauses(selected(table@.take(r + 1), wanted), wanted);
                assert(all =~= done.push(this));
                assert(all.drop_last() =~= done);
                assert(all.last() == this);
                if first {
                    assert(out@ =~= this);
                } else {
                    assert(out@ =~= before + junction_text(!wanted) + this);
                }
            }
            first = false;
        }
        r = r + 1;
    }
    proof {
        assert(table@.take(table@.len() as int) =~= table@);
    }
    out
}

/// The disjunctive normal form of a table: for each row whose result is
/// true the conjunction of its literals in brackets, a variable negated where
/// the row makes it false; the clauses joined by ` ∨ `. Empty where no row is true.
pub fn disjunctive_normal_form(truth_table: &[(Assignment, bool)]) -> (text: String)
    ensures
        text@ == normal_form(truth_table@, true),
{
    render_normal_form(truth_table, true)
}

/// The conjunctive normal form of a table: for each row whose result is
/// false the disjunction of its literals in brackets, a variable negated
/// where the row makes it true; the clauses joined by ` ∧ `. Empty where no
/// row is false.
pub fn conjunctive_normal_form(truth_table: &[(Assignment, bool)]) -> (text: String)
    ensures
        text@ == normal_form(truth_table@, false),
{
    render_normal_form(truth_table, false)
}

/// The variables of some entries, in order.
pub open spec fn columns(entries: Seq<(char, bool)>) -> Seq<char> {
    Seq::new(entries.len(), |j: int| entries[j].0)
}

/// Whether every variable of `vars` has a value.
pub open spec fn covers(values: Map<char, bool>, vars: Seq<char>) -> bool {
    forall|j: int| 0 <= j < vars.len() ==> values.dom().contains(#[trigger] vars[j])
}

/// Each variable followed by a tab.
pub open spec fn column_heads(vars: Seq<char>) -> Seq<char>
    decreases vars.len(),
{
    if vars.len() == 0 {
        Seq::empty()
    } else {
        column_heads(vars.drop_last()) + seq![vars.last(), '\t']
    }
}

/// The value of each variable followed by a tab.
pub open spec fn row_cells(vars: Seq<char>, values: Map<char, bool>) -> Seq<char>
    decreases vars.len(),
{
    if vars.len() == 0 {
        Seq::empty()
    } else {
        row_cells(vars.drop_last(), values) + keyword_text(values[vars.last()]) + seq!['\t']
    }
}

/// The line of a row: its cells, its result and a line feed.
pub open spec fn row_line(vars: Seq<char>, row: (Assignment, bool)) -> Seq<char> {
    row_cells(vars, row.0@) + keyword_text(row.1) + seq!['\n']
}

/// The lines of some rows, one after the other.
pub open spec fn row_lines(vars: Seq<char>, rows: Seq<(Assignment, bool)>) -> Seq<char>
    decreases rows.len(),
{
    if rows.len() == 0 {
        Seq::empty()
    } else {
        row_lines(vars, rows.drop_last()) + row_line(vars, rows.last())
    }
}

/// The table as text: a heading with the variables of the first row and
/// `Result`, then one line per row, every cell but the last followed by a
/// tab. None where some row lacks a value for one of the columns. A table
/// without rows is a line that says so.
pub open spec fn table_text(rows: Seq<(Assignment, bool)>) -> Option<Seq<char>> {
    if rows.len() == 0 {
        Some("Table is empty!\n"@)
    } else {
        let vars = columns(rows[0].0.entries());
        if forall|i: int| 0 <= i < rows.len() ==> covers((#[trigger] rows[i]).0@, vars) {
            Some(column_heads(vars) + "Result\n"@ + row_lines(vars, rows))
        } else {
            None
        }
    }
}

/// The table as text, for printing.
pub fn format_truth_table(table: &[(Assignment, bool)]) -> (text: Option<String>)
    ensures
        match text {
            Some(t) => table_text(table@) == Some(t@),
            None => table_text(table@) is None,
        },
{
    if table.len() == 0 {
        return Some(String::from_str("Table is empty!\n"));
    }
    let heads = table[0].0.as_slice();
    let ghost vars = columns(heads@);
    let mut out = String::new();
    let mut j: usize = 0;
    while j < heads.len()
        invariant
            j <= heads.len(),
            vars == columns(heads@),
            out@ == column_heads(vars.take(j as int)),
        decreases heads.len() - j,
    {
        proof {
            assert(vars.take(j + 1).drop_last() =~= vars.take(j as int));
        }
        out.push(heads[j].0);
        out.push('\t');
        proof {
            assert(out@ =~= column_heads(vars.take(j as int)) + seq![heads@[j as int].0, '\t']);
        }
        j = j + 1;
    }
    proof {
        assert(vars.take(heads@.len() as int) =~= vars);
    }
    out.append("Result\n");
    let ghost heading = out@;
    let mut r: usize = 0;
    proof {
        assert(table@.take(0) =~= Seq::<(Assignment, bool)>::empty());
        assert(out@ =~= heading + row_lines(vars, table@.take(0)));
    }
    while r < table.len()
        invariant
            r <= table.len(),
            table@.len() > 0,
            heads@ == table@[0].0.entries(),
            vars == columns(heads@),
            heading == column_heads(vars) + "Result\n"@,
            forall|i: int| 0 <= i < r ==> covers((#[trigger] table@[i]).0@, vars),
            out@ == heading + row_lines(vars, table@.take(r as int)),
        decreases table.len() - r,
    {
        let ghost before = out@;
        let mut c: usize = 0;
        proof {
            assert(out@ =~= before + row_cells(vars.take(0), table@[r as int].0@));
        }
        while c < heads.len()
            invariant
                c <= heads.len(),
                r < table.len(),
                table@.len() > 0,
                heads@ == table@[0].0.entries(),
                vars == columns(heads@),
                forall|i: int| 0 <= i < c ==> table@[r as int].0@.dom().contains(#[trigger] vars[i]),
                out@ == before + row_cells(vars.take(c as int), table@[r as int].0@),
            decreases heads.len() - c,
        {
            let ghost cells = out@;
            proof {
                assert(vars.take(c + 1).drop_last() =~= vars.take(c as int));
                assert(vars.take(c + 1).last() == vars[c as int]);
            }
            match table[r].0.get(heads[c].0) {
                Some(value) => {
                    push_keyword(&mut out, value);
                    out.push('\t');
                    proof {
                        assert(out@ =~= cells + keyword_text(value) + seq!['\t']);
                    }
                },
                None => {
                    proof {
                        assert(!covers(table@[r as int].0@, vars)) by {
                            assert(!table@[r as int].0@.dom().contains(vars[c as int]));
                        }
                    }
                    return None;
                },
            }
            c = c + 1;
        }
        push_keyword(&mut out, table[r].1);
        out.push('\n');
        proof {
            assert(vars.take(heads@.len() as int) =~= vars);
            assert(table@.take(r + 1).drop_last() =~= table@.take(r as int));
            assert(table@.take(r + 1).last() == table@[r as int]);
            assert(out@ =~= before + row_line(vars, table@[r as int]));
            assert(covers(table@[r as int].0@, vars));
        }
        r = r + 1;
    }
    proof {
        assert(table@.take(table@.len() as int) =~= table@);
    }
    Some(out)
}

} // verus!
