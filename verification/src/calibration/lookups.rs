//! Which lookup files an expression names, told by its characters, and what
//! becomes of an expression once they are at hand.

use super::error::ErrorView;
use super::solution::{
    curve_of, files_before, first_quote, follows, include_file, include_files, labelled_from,
    law_the_first_failing_count_is_reported, named_from, own_file, own_quote, quoted_at, solved,
    tables_of, without_files, CalibrationSolution, Interpreter, LookupTables, Meaning,
};
use super::solution::{lemma_own_quote, lemma_tables, lemma_values};
use crate::num::Num;
use crate::text::{decimal, find_from, law_find_is_first, lowered, stands_at};
use vstd::prelude::*;

verus! {

/// The six characters `table(` stand at `i`.
pub open spec fn calls_at(s: Seq<char>, i: int) -> bool {
    &&& 0 <= i
    &&& i + 6 <= s.len()
    &&& s[i] == 't' && s[i + 1] == 'a' && s[i + 2] == 'b' && s[i + 3] == 'l' && s[i + 4] == 'e' && s[
        i + 5] == '('
}

/// `name` is what stands between the quote at `open` and the next quote.
pub open spec fn names_between(s: Seq<char>, open: int, close: int, name: Seq<char>) -> bool {
    &&& 0 <= open < close < s.len()
    &&& s[open] == '"'
    &&& s[close] == '"'
    &&& forall|k: int| open < k < close ==> #[trigger] s[k] != '"'
    &&& name == s.subrange(open + 1, close)
}

/// The quote at `open` is the first behind the first `table(`, which stands at
/// `call`.
pub open spec fn opens_first(s: Seq<char>, call: int, open: int) -> bool {
    &&& calls_at(s, call)
    &&& forall|k: int| 0 <= k < call ==> !#[trigger] calls_at(s, k)
    &&& call <= open < s.len()
    &&& s[open] == '"'
    &&& forall|k: int| call <= k < open ==> #[trigger] s[k] != '"'
}

proof fn lemma_calls_at(s: Seq<char>, i: int)
    ensures
        stands_at(s, "table("@, i) == calls_at(s, i),
{
    reveal_strlit("table(");
    if stands_at(s, "table("@, i) {
        let part = s.subrange(i, i + 6);
        assert(part[0] == s[i] && part[1] == s[i + 1] && part[2] == s[i + 2] && part[3] == s[i + 3]
            && part[4] == s[i + 4] && part[5] == s[i + 5]);
    }
    if calls_at(s, i) {
        assert(s.subrange(i, i + 6) =~= "table("@);
    }
}

proof fn lemma_quote_at(s: Seq<char>, i: int)
    ensures
        stands_at(s, "\""@, i) == (0 <= i < s.len() && s[i] == '"'),
{
    reveal_strlit("\"");
    if stands_at(s, "\""@, i) {
        assert(s.subrange(i, i + 1)[0] == s[i]);
    }
    if 0 <= i < s.len() && s[i] == '"' {
        assert(s.subrange(i, i + 1) =~= "\""@);
    }
}

/// The first quote from `start` on.
proof fn lemma_find_quote(s: Seq<char>, start: int)
    requires
        0 <= start,
    ensures
        match find_from(s, "\""@, start) {
            Some(i) => start <= i < s.len() && s[i] == '"' && forall|k: int|
                start <= k < i ==> #[trigger] s[k] != '"',
            None => forall|k: int| start <= k < s.len() ==> #[trigger] s[k] != '"',
        },
{
    law_find_is_first(s, "\""@, start);
    match find_from(s, "\""@, start) {
        Some(i) => {
            lemma_quote_at(s, i);
            assert forall|k: int| start <= k < i implies #[trigger] s[k] != '"' by {
                lemma_quote_at(s, k);
            }
        },
        None => {
            assert forall|k: int| start <= k < s.len() implies #[trigger] s[k] != '"' by {
                lemma_quote_at(s, k);
            }
        },
    }
}

proof fn lemma_quoted_text(s: Seq<char>, open: int)
    requires
        0 <= open < s.len(),
        s[open] == '"',
    ensures
        forall|name: Seq<char>|
            (quoted_at(s, open) == Some(name)) <==> exists|close: int| #[trigger]
                names_between(s, open, close, name),
{
    lemma_find_quote(s, open + 1);
    assert forall|name: Seq<char>|
        (quoted_at(s, open) == Some(name)) <==> exists|close: int| #[trigger]
            names_between(s, open, close, name) by {
        if quoted_at(s, open) == Some(name) {
            let close = find_from(s, "\""@, open + 1)->0;
            assert(names_between(s, open, close, name));
        }
        if exists|close: int| #[trigger] names_between(s, open, close, name) {
            let close = choose|close: int| #[trigger] names_between(s, open, close, name);
            assert(s[close] == '"');
            let found = find_from(s, "\""@, open + 1)->0;
            assert(found == close);
        }
    }
}

proof fn lemma_opens_first(s: Seq<char>, open: int)
    ensures
        (first_quote(s) == Some(open)) <==> exists|call: int| opens_first(s, call, open),
{
    law_find_is_first(s, "table("@, 0);
    let found = find_from(s, "table("@, 0);
    if let Some(call) = found {
        lemma_calls_at(s, call);
        lemma_find_quote(s, call);
        assert forall|k: int| 0 <= k < call implies !#[trigger] calls_at(s, k) by {
            lemma_calls_at(s, k);
        }
    }
    if first_quote(s) == Some(open) {
        assert(opens_first(s, found->0, open));
    }
    if exists|call: int| opens_first(s, call, open) {
        let call = choose|call: int| opens_first(s, call, open);
        lemma_calls_at(s, call);
        assert(found is Some);
        assert(found->0 == call);
        assert(s[open] == '"');
    }
}

/// The file that is read first is what stands in the first pair of quotes
/// behind the first `table(`; without a call or a pair of quotes there is none.
pub proof fn law_the_first_file_stands_behind_the_first_call(s: Seq<char>, name: Seq<char>)
    ensures
        (include_file(s) == Some(name)) <==> exists|call: int, open: int, close: int|
            #[trigger] opens_first(s, call, open) && #[trigger] names_between(s, open, close, name),
{
    if include_file(s) == Some(name) {
        let open = first_quote(s)->0;
        lemma_opens_first(s, open);
        let call = choose|call: int| opens_first(s, call, open);
        lemma_quoted_text(s, open);
        let close = choose|close: int| #[trigger] names_between(s, open, close, name);
        assert(opens_first(s, call, open) && names_between(s, open, close, name));
    }
    if exists|call: int, open: int, close: int|
        #[trigger] opens_first(s, call, open) && #[trigger] names_between(s, open, close, name) {
        let (call, open, close) = choose|call: int, open: int, close: int|
            #[trigger] opens_first(s, call, open) && #[trigger] names_between(s, open, close, name);
        lemma_opens_first(s, open);
        lemma_quoted_text(s, open);
    }
}

/// How many quotes stand in `a .. b`.
pub open spec fn quotes_in(s: Seq<char>, a: int, b: int) -> int
    decreases b - a,
{
    if b <= a {
        0
    } else {
        quotes_in(s, a, b - 1) + if s[b - 1] == '"' {
            1int
        } else {
            0
        }
    }
}

/// How many brackets are open at `b`, of a call whose arguments start at `a`:
/// one, and those that open and do not close in `a .. b`. Brackets between
/// quotes do not count.
pub open spec fn brackets_open(s: Seq<char>, a: int, b: int) -> int
    decreases b - a,
{
    if b <= a {
        1
    } else {
        brackets_open(s, a, b - 1) + if quotes_in(s, a, b - 1) % 2 == 1 {
            0int
        } else if s[b - 1] == '(' {
            1
        } else if s[b - 1] == ')' {
            -1
        } else {
            0
        }
    }
}

/// At `i` a quote opens that belongs to the call itself: no bracket is open
/// there but the call's own.
pub open spec fn opens_own(s: Seq<char>, a: int, i: int) -> bool {
    &&& a <= i < s.len()
    &&& s[i] == '"'
    &&& quotes_in(s, a, i) % 2 == 0
    &&& brackets_open(s, a, i) == 1
}

/// The first quote that opens among the arguments of the call itself, which
/// start at `a`, before the call's bracket closes.
pub open spec fn opens_own_first(s: Seq<char>, a: int, i: int) -> bool {
    &&& opens_own(s, a, i)
    &&& forall|k: int| a <= k < i ==> !#[trigger] opens_own(s, a, k)
    &&& forall|k: int| a <= k < i ==> #[trigger] brackets_open(s, a, k) >= 1
}

proof fn lemma_own_quote_by_count(s: Seq<char>, a: int, i: int, at: int)
    requires
        a <= i,
        brackets_open(s, a, i) >= 0,
        forall|k: int| a <= k < i ==> !#[trigger] opens_own(s, a, k),
        forall|k: int| a <= k < i ==> #[trigger] brackets_open(s, a, k) >= 1,
    ensures
        (own_quote(s, i, brackets_open(s, a, i), quotes_in(s, a, i) % 2 == 1) == Some(at))
            <==> opens_own_first(s, a, at),
    decreases s.len() - i,
{
    let (depth, quoted) = (brackets_open(s, a, i), quotes_in(s, a, i) % 2 == 1);
    if i >= s.len() {
    } else if depth < 1 {
        if opens_own_first(s, a, at) {
            assert(opens_own(s, a, at));
            if at > i {
                assert(brackets_open(s, a, i) >= 1);
            }
        }
    } else if s[i] == '"' && !quoted && depth == 1 {
        assert(opens_own(s, a, i));
    } else {
        assert(!opens_own(s, a, i));
        lemma_own_quote_by_count(s, a, i + 1, at);
    }
}

/// A call names the file whose name stands behind the first quote that opens
/// among its own arguments; what stands in the brackets of a call among them,
/// or between quotes, is passed over.
pub proof fn law_a_call_names_a_file_of_its_own(s: Seq<char>, call: int, name: Seq<char>)
    requires
        0 <= call,
    ensures
        (own_file(s, call) == Some(name)) <==> exists|open: int, close: int|
            #[trigger] opens_own_first(s, call + 6, open) && #[trigger] names_between(
                s,
                open,
                close,
                name,
            ),
{
    reveal_strlit("table(");
    let a = call + 6;
    let found = own_quote(s, a, 1, false);
    assert forall|at: int| (found == Some(at)) <==> #[trigger] opens_own_first(s, a, at) by {
        lemma_own_quote_by_count(s, a, a, at);
    }
    lemma_own_quote(s, a, 1, false);
    if own_file(s, call) == Some(name) {
        let open = found->0;
        assert(opens_own_first(s, a, open));
        lemma_quoted_text(s, open);
        let close = choose|close: int| #[trigger] names_between(s, open, close, name);
        assert(names_between(s, open, close, name));
    }
    if exists|open: int, close: int|
        #[trigger] opens_own_first(s, a, open) && #[trigger] names_between(s, open, close, name) {
        let (open, close) = choose|open: int, close: int|
            #[trigger] opens_own_first(s, a, open) && #[trigger] names_between(s, open, close, name);
        lemma_quoted_text(s, open);
    }
}

/// The call at `call` names a file behind another quote than the first one.
pub open spec fn names_another(s: Seq<char>, call: int) -> bool {
    &&& calls_at(s, call)
    &&& exists|open: int, close: int, name: Seq<char>|
        {
            &&& #[trigger] opens_own_first(s, call + 6, open)
            &&& #[trigger] names_between(s, open, close, name)
            &&& forall|first: int| !opens_first(s, first, open)
        }
}

proof fn lemma_names_another(s: Seq<char>, call: int)
    ensures
        names_another(s, call) <==> {
            &&& stands_at(s, "table("@, call)
            &&& own_file(s, call) is Some
            &&& own_quote(s, call + "table("@.len(), 1, false) != first_quote(s)
        },
{
    reveal_strlit("table(");
    lemma_calls_at(s, call);
    let a = call + 6;
    let found = own_quote(s, a, 1, false);
    if calls_at(s, call) {
        lemma_own_quote(s, a, 1, false);
        assert forall|at: int| (found == Some(at)) <==> #[trigger] opens_own_first(s, a, at) by {
            lemma_own_quote_by_count(s, a, a, at);
        }
        if names_another(s, call) {
            let (open, close, name) = choose|open: int, close: int, name: Seq<char>|
                {
                    &&& #[trigger] opens_own_first(s, call + 6, open)
                    &&& #[trigger] names_between(s, open, close, name)
                    &&& forall|first: int| !opens_first(s, first, open)
                };
            assert(found == Some(open));
            lemma_quoted_text(s, open);
            assert(names_between(s, open, close, name));
            assert(quoted_at(s, open) == Some(name));
            lemma_opens_first(s, open);
            assert(first_quote(s) != Some(open));
        }
        if own_file(s, call) is Some && found != first_quote(s) {
            let open = found->0;
            let name = own_file(s, call)->0;
            lemma_quoted_text(s, open);
            lemma_opens_first(s, open);
            let close = choose|close: int| #[trigger] names_between(s, open, close, name);
            assert(opens_own_first(s, a, open) && names_between(s, open, close, name));
            assert(forall|first: int| !opens_first(s, first, open));
            assert(names_another(s, call));
        }
    }
}

/// `calls` holds every place before `n` where a call names another file than
/// the one behind the first quote, in order.
pub open spec fn lists_calls(s: Seq<char>, calls: Seq<int>, n: int) -> bool {
    &&& forall|i: int, j: int| 0 <= i < j < calls.len() ==> calls[i] < calls[j]
    &&& forall|i: int| 0 <= i < calls.len() ==> names_another(s, #[trigger] calls[i]) && calls[i] < n
    &&& forall|call: int| #[trigger] names_another(s, call) && call < n ==> calls.contains(call)
}

/// The file that is read first, and behind it that of each of the calls.
pub open spec fn files_of_calls(s: Seq<char>, calls: Seq<int>, files: Seq<Seq<char>>) -> bool {
    let first = if include_file(s) is Some {
        1int
    } else {
        0
    };
    &&& files.len() == first + calls.len()
    &&& include_file(s) matches Some(name) ==> files[0] == name
    &&& forall|i: int|
        0 <= i < calls.len() ==> Some(files[first + i]) == own_file(s, #[trigger] calls[i])
}

proof fn lemma_files_of_calls(s: Seq<char>, n: int) -> (calls: Seq<int>)
    ensures
        lists_calls(s, calls, n),
        files_of_calls(s, calls, files_before(s, n)),
    decreases n,
{
    reveal_strlit("table(");
    if n <= 0 {
        Seq::empty()
    } else {
        let before = lemma_files_of_calls(s, n - 1);
        lemma_names_another(s, n - 1);
        if names_another(s, n - 1) {
            let calls = before.push(n - 1);
            assert forall|call: int| #[trigger] names_another(s, call) && call < n implies calls.contains(
                call,
            ) by {
                if call < n - 1 {
                    assert(before.contains(call));
                    let i = choose|i: int| 0 <= i < before.len() && before[i] == call;
                    assert(calls[i] == call);
                } else {
                    assert(calls[before.len() as int] == call);
                }
            }
            let (files, old) = (files_before(s, n), files_before(s, n - 1));
            let first = if include_file(s) is Some {
                1int
            } else {
                0
            };
            assert forall|i: int| 0 <= i < calls.len() implies Some(files[first + i]) == own_file(
                s,
                #[trigger] calls[i],
            ) by {
                if i < before.len() {
                    assert(calls[i] == before[i]);
                    assert(files[first + i] == old[first + i]);
                }
            }
            calls
        } else {
            assert forall|call: int| #[trigger] names_another(s, call) && call < n implies before.contains(
                call,
            ) by {
                assert(call != n - 1);
            }
            before
        }
    }
}

/// The files resolved for an expression are the one that is read first, and
/// behind it those that its calls name behind other quotes, one for each such
/// call, in the order of the calls.
pub proof fn law_files_come_in_the_order_of_their_calls(s: Seq<char>)
    ensures
        exists|calls: Seq<int>| #[trigger]
            lists_calls(s, calls, s.len() as int) && files_of_calls(s, calls, include_files(s)),
{
    let calls = lemma_files_of_calls(s, s.len() as int);
    assert(lists_calls(s, calls, s.len() as int));
}

/// Where every lookup file can be found, the expression is parsed and then
/// evaluated at each of the 1024 counts, with each file's own table: a curve
/// comes out where all counts have a value, the parser's words where it does
/// not parse, and those of the first count that fails.
pub proof fn law_an_expression_is_read_and_then_evaluated<T, X>(
    m: Meaning<T, X>,
    expression: Seq<char>,
)
    requires
        forall|i: int|
            0 <= i < include_files(expression).len() ==> (m.load)(
                #[trigger] include_files(expression)[i],
            ) is Some,
    ensures
        ({
            let files = include_files(expression);
            let tables = Seq::new(files.len(), |i: int| (files[i], (m.load)(files[i])->0));
            match (m.parse)(expression) {
                Err(why) => curve_of(m, expression) == Err::<Seq<Num>, ErrorView>(
                    ErrorView::ParseFailed(why + " (in `"@ + expression + "`)"@),
                ),
                Ok(x) => {
                    &&& (forall|adc: int|
                        0 <= adc < 1024 ==> (#[trigger] (m.evaluate)(x, "adcValue"@, adc, tables))
                            is Ok) ==> (curve_of(m, expression) matches Ok(curve) && curve.len()
                        == 1024 && forall|adc: int|
                        0 <= adc < 1024 ==> (m.evaluate)(x, "adcValue"@, adc, tables) == Ok::<
                            Num,
                            Seq<char>,
                        >(#[trigger] curve[adc]))
                    &&& forall|adc: int|
                        {
                            &&& 0 <= adc < 1024
                            &&& (#[trigger] (m.evaluate)(x, "adcValue"@, adc, tables)) is Err
                            &&& forall|k: int|
                                0 <= k < adc ==> (#[trigger] (m.evaluate)(x, "adcValue"@, k, tables))
                                    is Ok
                        } ==> curve_of(m, expression) == Err::<Seq<Num>, ErrorView>(
                            ErrorView::EvalFailed(
                                (m.evaluate)(x, "adcValue"@, adc, tables)->Err_0
                                    + " (at adcValue="@ + decimal(adc) + ")"@,
                            ),
                        )
                },
            }
        }),
{
    let files = include_files(expression);
    let tables = Seq::new(files.len(), |i: int| (files[i], (m.load)(files[i])->0));
    lemma_tables(m, files);
    let found = tables_of(m, files)->Ok_0;
    assert(found =~= tables) by {
        assert forall|i: int| 0 <= i < files.len() implies #[trigger] found[i] == tables[i] by {
            assert(found[i].0 == files[i]);
        }
    }
    if let Ok(x) = (m.parse)(expression) {
        lemma_values(m, x, tables, 1024);
        assert forall|adc: int|
            {
                &&& 0 <= adc < 1024
                &&& (#[trigger] (m.evaluate)(x, "adcValue"@, adc, tables)) is Err
                &&& forall|k: int|
                    0 <= k < adc ==> (#[trigger] (m.evaluate)(x, "adcValue"@, k, tables)) is Ok
            } implies curve_of(m, expression) == Err::<Seq<Num>, ErrorView>(
            ErrorView::EvalFailed(
                (m.evaluate)(x, "adcValue"@, adc, tables)->Err_0 + " (at adcValue="@ + decimal(adc)
                    + ")"@,
            ),
        ) by {
            law_the_first_failing_count_is_reported(
                m,
                x,
                tables,
                adc as nat,
                (m.evaluate)(x, "adcValue"@, adc, tables)->Err_0,
            );
        }
    }
}

/// A table is found under its name: the first of those that stand under it.
pub proof fn law_the_first_table_of_a_name_is_found<T>(
    tables: Seq<(Seq<char>, T)>,
    name: Seq<char>,
    i: int,
)
    requires
        0 <= i,
    ensures
        named_from(tables, name, i) is None <==> forall|k: int|
            i <= k < tables.len() ==> (#[trigger] tables[k]).0 != name,
        forall|k: int|
            {
                &&& i <= k < tables.len()
                &&& (#[trigger] tables[k]).0 == name
                &&& forall|j: int| i <= j < k ==> (#[trigger] tables[j]).0 != name
            } ==> named_from(tables, name, i) == Some(tables[k].1),
    decreases tables.len() - i,
{
    if i < tables.len() {
        law_the_first_table_of_a_name_is_found(tables, name, i + 1);
        if tables[i].0 != name {
            assert forall|k: int|
                {
                    &&& i <= k < tables.len()
                    &&& (#[trigger] tables[k]).0 == name
                    &&& forall|j: int| i <= j < k ==> (#[trigger] tables[j]).0 != name
                } implies named_from(tables, name, i) == Some(tables[k].1) by {
                assert(i + 1 <= k);
            }
        }
    }
}

/// A solution is found under its label, whatever the case of ASCII letters: the
/// first of those that stand under it.
pub proof fn law_the_first_solution_of_a_label_is_found(
    solutions: Seq<(String, CalibrationSolution)>,
    label: Seq<char>,
    i: int,
)
    requires
        0 <= i,
    ensures
        labelled_from(solutions, label, i) is None <==> forall|k: int|
            i <= k < solutions.len() ==> lowered((#[trigger] solutions[k]).0@) != lowered(label),
        forall|k: int|
            {
                &&& i <= k < solutions.len()
                &&& lowered((#[trigger] solutions[k]).0@) == lowered(label)
                &&& forall|j: int|
                    i <= j < k ==> lowered((#[trigger] solutions[j]).0@) != lowered(label)
            } ==> labelled_from(solutions, label, i) == Some(solutions[k].1),
    decreases solutions.len() - i,
{
    if i < solutions.len() {
        law_the_first_solution_of_a_label_is_found(solutions, label, i + 1);
        if lowered(solutions[i].0@) != lowered(label) {
            assert forall|k: int|
                {
                    &&& i <= k < solutions.len()
                    &&& lowered((#[trigger] solutions[k]).0@) == lowered(label)
                    &&& forall|j: int|
                        i <= j < k ==> lowered((#[trigger] solutions[j]).0@) != lowered(label)
                } implies labelled_from(solutions, label, i) == Some(solutions[k].1) by {
                assert(i + 1 <= k);
            }
        }
    }
}

/// An expression gives its curve; a generator gives none, and is named.
pub proof fn law_a_generator_is_no_expression<T, X>(m: Meaning<T, X>, solution: CalibrationSolution)
    ensures
        solution matches CalibrationSolution::Expression { expression } ==> solved(m, solution)
            == curve_of(m, expression@),
        solution matches CalibrationSolution::Generator { generator } ==> solved(m, solution) == Err::<
            Seq<Num>,
            ErrorView,
        >(ErrorView::NotAnExpression(generator@)),
{
}

/// An interpreter follows every meaning that names all the answers it can give.
pub proof fn law_an_interpreter_follows_its_answers<T, X, L, P, E>(
    interpreter: Interpreter<L, P, E>,
    m: Meaning<T, X>,
) where
    L: Fn(&str) -> Option<T>,
    P: FnOnce(&str) -> Result<X, String>,
    E: Fn(&X, &str, u64, &LookupTables<T>) -> Result<Num, String>,

    requires
        forall|name: &str, r: Option<T>| #[trigger]
            call_ensures(interpreter.load, (name,), r) ==> r == (m.load)(name@),
        forall|text: &str, r: Result<X, String>| #[trigger]
            call_ensures(interpreter.parse, (text,), r) ==> (match r {
                Ok(x) => (m.parse)(text@) == Ok::<X, Seq<char>>(x),
                Err(why) => (m.parse)(text@) == Err::<X, Seq<char>>(why@),
            }),
        forall|
            x: &X,
            variable: &str,
            value: u64,
            tables: &LookupTables<T>,
            r: Result<Num, String>,
        | #[trigger]
            call_ensures(interpreter.evaluate, (x, variable, value, tables), r) ==> (match r {
                Ok(n) => (m.evaluate)(*x, variable@, value as int, tables@) == Ok::<
                    Num,
                    Seq<char>,
                >(n),
                Err(why) => (m.evaluate)(*x, variable@, value as int, tables@) == Err::<
                    Num,
                    Seq<char>,
                >(why@),
            }),
    ensures
        follows(interpreter, m),
{
}

/// Lookup tables are seen as they stand: each under the characters of its name.
pub proof fn law_tables_are_seen_as_they_stand<T>(tables: LookupTables<T>, i: int)
    requires
        0 <= i < tables.entries@.len(),
    ensures
        tables@.len() == tables.entries@.len(),
        tables@[i].0 == tables.entries@[i].0@,
        tables@[i].1 == tables.entries@[i].1,
{
}

/// Without files, every lookup file is missing, and all else is as it was.
pub proof fn law_without_files_none_is_found<T, X>(m: Meaning<T, X>, name: Seq<char>)
    ensures
        (without_files(m).load)(name) is None,
        without_files(m).parse == m.parse,
        without_files(m).evaluate == m.evaluate,
{
}

} // verus!
