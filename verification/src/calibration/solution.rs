//! `solution` expressions of an INI `referenceTable`.
//!
//! The expressions are plain arithmetic over `adcValue` save for the
//! non-linear presets, which call `table(volts, "sensor.inc")`. Those `.inc`
//! files do not ship with the INI, so a preset that needs one which is not at
//! hand, were it one of several, is reported as
//! [`CalibrationError::MissingIncludeFile`] rather than silently evaluating to
//! zero: an all-zero AFR table written to an ECU would make the wideband read
//! 0.0 AFR everywhere and, if anything trusted it for closed-loop, command
//! maximum enrichment.

use super::error::{CalibrationError, ErrorView};
use super::ADC_COUNTS;
use crate::num::Num;
use crate::text::{
    characters, decimal, decimal_text, find, find_from, law_find_is_first, lowered, stands, stands_at,
};
use vstd::prelude::*;

verus! {

/// One solution of a `referenceTable` block.
#[derive(Clone, Debug, PartialEq, Eq)]
pub enum CalibrationSolution {
    /// A closed-form formula.
    Expression { expression: String },
    /// An interactive generator.
    Generator { generator: String },
}

/// A `referenceTable` block: its solutions, each under its label.
#[derive(Clone, Debug, PartialEq, Eq)]
pub struct ReferenceTable {
    pub solutions: Vec<(String, CalibrationSolution)>,
}

/// The `.inc` tables that an expression's lookups need, each under the name of
/// its file.
#[derive(Debug)]
pub struct LookupTables<T> {
    pub entries: Vec<(String, T)>,
}

impl<T> View for LookupTables<T> {
    type V = Seq<(Seq<char>, T)>;

    open spec fn view(&self) -> Seq<(Seq<char>, T)> {
        self.entries@.map_values(|e: (String, T)| (e.0@, e.1))
    }
}

/// The first table, from `i` on, that stands under a name.
pub open spec fn named_from<T>(tables: Seq<(Seq<char>, T)>, name: Seq<char>, i: int) -> Option<T>
    decreases tables.len() - i,
{
    if i >= tables.len() {
        None
    } else if tables[i].0 == name {
        Some(tables[i].1)
    } else {
        named_from(tables, name, i + 1)
    }
}

impl<T> LookupTables<T> {
    /// The table for a lookup in the file of that name.
    pub fn get(&self, name: &str) -> (r: Option<&T>)
        ensures
            owned(r) == named_from(self@, name@, 0),
    {
        let wanted = String::from_str(name);
        let mut i: usize = 0;
        while i < self.entries.len()
            invariant
                i <= self.entries.len(),
                wanted@ == name@,
                named_from(self@, name@, 0) == named_from(self@, name@, i as int),
            decreases self.entries.len() - i,
        {
            if self.entries[i].0 == wanted {
                return Some(&self.entries[i].1);
            }
            i += 1;
        }
        None
    }
}

/// What reads and evaluates the INI's expressions: `load` finds an `.inc`
/// table by its name, `parse` reads an expression, and `evaluate` gives its
/// value where a variable has a value, with the tables for its lookups.
pub struct Interpreter<L, P, E> {
    pub load: L,
    pub parse: P,
    pub evaluate: E,
}

/// The answers of an interpreter, as mathematical functions.
#[verifier::reject_recursive_types(T)]
#[verifier::reject_recursive_types(X)]
pub struct Meaning<T, X> {
    pub load: spec_fn(Seq<char>) -> Option<T>,
    pub parse: spec_fn(Seq<char>) -> Result<X, Seq<char>>,
    pub evaluate: spec_fn(X, Seq<char>, int, Seq<(Seq<char>, T)>) -> Result<Num, Seq<char>>,
}

/// A result, with its error text as a sequence of characters.
pub open spec fn read<V>(r: Result<V, String>) -> Result<V, Seq<char>> {
    match r {
        Ok(v) => Ok(v),
        Err(e) => Err(e@),
    }
}

/// A borrowed value, owned.
pub open spec fn owned<T>(t: Option<&T>) -> Option<T> {
    match t {
        Some(v) => Some(*v),
        None => None,
    }
}

/// Every answer that `load` can give is the one that `m` names.
pub open spec fn loads<T, X, L: Fn(&str) -> Option<T>>(load: L, m: Meaning<T, X>) -> bool {
    forall|name: &str, r: Option<T>| #[trigger]
        call_ensures(load, (name,), r) ==> r == (m.load)(name@)
}

/// Every answer that `parse` can give is the one that `m` names.
pub open spec fn parses<T, X, P: FnOnce(&str) -> Result<X, String>>(
    parse: P,
    m: Meaning<T, X>,
) -> bool {
    forall|text: &str, r: Result<X, String>| #[trigger]
        call_ensures(parse, (text,), r) ==> read(r) == (m.parse)(text@)
}

/// Every answer that `evaluate` can give is the one that `m` names.
pub open spec fn evaluates<
    T,
    X,
    E: Fn(&X, &str, u64, &LookupTables<T>) -> Result<Num, String>,
>(evaluate: E, m: Meaning<T, X>) -> bool {
    forall|x: &X, variable: &str, value: u64, tables: &LookupTables<T>, r: Result<Num, String>|
        #[trigger]
        call_ensures(evaluate, (x, variable, value, tables), r) ==> read(r) == (m.evaluate)(
            *x,
            variable@,
            value as int,
            tables@,
        )
}

/// Every answer that the interpreter can give is the one that `m` names.
pub open spec fn follows<T, X, L, P, E>(i: Interpreter<L, P, E>, m: Meaning<T, X>) -> bool where
    L: Fn(&str) -> Option<T>,
    P: FnOnce(&str) -> Result<X, String>,
    E: Fn(&X, &str, u64, &LookupTables<T>) -> Result<Num, String>,
 {
    loads(i.load, m) && parses(i.parse, m) && evaluates(i.evaluate, m)
}

/// `parse` and `evaluate` take every question.
pub open spec fn answers<T, X, P, E>(parse: P, evaluate: E) -> bool where
    P: FnOnce(&str) -> Result<X, String>,
    E: Fn(&X, &str, u64, &LookupTables<T>) -> Result<Num, String>,
 {
    &&& forall|text: &str| call_requires(parse, (text,))
    &&& forall|x: &X, variable: &str, value: u64, tables: &LookupTables<T>|
        call_requires(evaluate, (x, variable, value, tables))
}

/// The interpreter takes every question.
pub open spec fn total<T, X, L, P, E>(i: Interpreter<L, P, E>) -> bool where
    L: Fn(&str) -> Option<T>,
    P: FnOnce(&str) -> Result<X, String>,
    E: Fn(&X, &str, u64, &LookupTables<T>) -> Result<Num, String>,
 {
    &&& forall|name: &str| call_requires(i.load, (name,))
    &&& answers::<T, X, P, E>(i.parse, i.evaluate)
}

/// Where the text begins that a call names itself: the first quote, from `i`
/// on, that stands in the call's own brackets and not in those of a call among
/// its arguments. `depth` counts the brackets that are open at `i`, and
/// `quoted` says that `i` lies between quotes.
pub open spec fn own_quote(s: Seq<char>, i: int, depth: int, quoted: bool) -> Option<int>
    decreases s.len() - i,
{
    if i >= s.len() || depth < 1 {
        None
    } else if s[i] == '"' {
        if !quoted && depth == 1 {
            Some(i)
        } else {
            own_quote(s, i + 1, depth, !quoted)
        }
    } else if !quoted && s[i] == '(' {
        own_quote(s, i + 1, depth + 1, quoted)
    } else if !quoted && s[i] == ')' {
        own_quote(s, i + 1, depth - 1, quoted)
    } else {
        own_quote(s, i + 1, depth, quoted)
    }
}

/// The text that begins behind the quote at `open`: up to the next quote.
pub open spec fn quoted_at(s: Seq<char>, open: int) -> Option<Seq<char>> {
    match find_from(s, "\""@, open + 1) {
        None => None,
        Some(close) => Some(s.subrange(open + 1, close)),
    }
}

/// The first quote behind the first `table(`.
pub open spec fn first_quote(s: Seq<char>) -> Option<int> {
    match find_from(s, "table("@, 0) {
        None => None,
        Some(call) => find_from(s, "\""@, call),
    }
}

/// Name of the `.inc` lookup file that is read first: what stands in the first
/// pair of quotes behind the first `table(`.
pub open spec fn include_file(s: Seq<char>) -> Option<Seq<char>> {
    match first_quote(s) {
        None => None,
        Some(open) => quoted_at(s, open),
    }
}

/// Name of the `.inc` lookup file that the `table(` call at `call` names among
/// its own arguments.
pub open spec fn own_file(s: Seq<char>, call: int) -> Option<Seq<char>> {
    match own_quote(s, call + "table("@.len(), 1, false) {
        None => None,
        Some(open) => quoted_at(s, open),
    }
}

/// The file that is read first, and behind it those that the `table(` calls
/// before `n` name among their own arguments.
pub open spec fn files_before(s: Seq<char>, n: int) -> Seq<Seq<char>>
    decreases n,
{
    if n <= 0 {
        match include_file(s) {
            Some(name) => seq![name],
            None => Seq::empty(),
        }
    } else {
        let before = files_before(s, n - 1);
        if stands_at(s, "table("@, n - 1) && own_file(s, n - 1) is Some && own_quote(
            s,
            n - 1 + "table("@.len(),
            1,
            false,
        ) != first_quote(s) {
            before.push(own_file(s, n - 1)->0)
        } else {
            before
        }
    }
}

/// The lookup files that an expression's `table(` calls reference: the one
/// that is read first, then the others in the order of their calls.
pub open spec fn include_files(expression: Seq<char>) -> Seq<Seq<char>> {
    files_before(expression, expression.len() as int)
}

/// Texts, as sequences of characters.
pub open spec fn texts(s: Seq<String>) -> Seq<Seq<char>> {
    s.map_values(|t: String| t@)
}

/// The tables of some files, or the first file that cannot be found.
pub open spec fn tables_of<T, X>(m: Meaning<T, X>, files: Seq<Seq<char>>) -> Result<
    Seq<(Seq<char>, T)>,
    Seq<char>,
>
    decreases files.len(),
{
    if files.len() == 0 {
        Ok(Seq::empty())
    } else {
        match tables_of(m, files.drop_last()) {
            Err(name) => Err(name),
            Ok(tables) => match (m.load)(files.last()) {
                None => Err(files.last()),
                Some(table) => Ok(tables.push((files.last(), table))),
            },
        }
    }
}

/// The values of a parsed expression at the first `n` ADC counts, or the error
/// of the first count that fails.
pub open spec fn values_of<T, X>(
    m: Meaning<T, X>,
    x: X,
    tables: Seq<(Seq<char>, T)>,
    n: nat,
) -> Result<Seq<Num>, ErrorView>
    decreases n,
{
    if n == 0 {
        Ok(Seq::empty())
    } else {
        match values_of(m, x, tables, (n - 1) as nat) {
            Err(e) => Err(e),
            Ok(values) => match (m.evaluate)(x, "adcValue"@, n - 1, tables) {
                Err(e) => Err(
                    ErrorView::EvalFailed(e + " (at adcValue="@ + decimal(n - 1) + ")"@),
                ),
                Ok(v) => Ok(values.push(v)),
            },
        }
    }
}

/// The curve of an expression, with the tables that it needs.
pub open spec fn curve_with<T, X>(
    m: Meaning<T, X>,
    expression: Seq<char>,
    tables: Seq<(Seq<char>, T)>,
) -> Result<Seq<Num>, ErrorView> {
    match (m.parse)(expression) {
        Err(e) => Err(ErrorView::ParseFailed(e + " (in `"@ + expression + "`)"@)),
        Ok(x) => values_of(m, x, tables, ADC_COUNTS as nat),
    }
}

/// The curve of an expression.
pub open spec fn curve_of<T, X>(m: Meaning<T, X>, expression: Seq<char>) -> Result<
    Seq<Num>,
    ErrorView,
> {
    match tables_of(m, include_files(expression)) {
        Err(name) => Err(ErrorView::MissingIncludeFile(name)),
        Ok(tables) => curve_with(m, expression, tables),
    }
}

/// `load` can give a table for the file of that name.
pub open spec fn finds<T, L: Fn(&str) -> Option<T>>(load: L, name: Seq<char>) -> bool {
    exists|asked: &str, found: Option<T>|
        asked@ == name && #[trigger] call_ensures(load, (asked,), found) && found is Some
}

/// `load` can fail to give a table for the file of that name.
pub open spec fn misses<T, L: Fn(&str) -> Option<T>>(load: L, name: Seq<char>) -> bool {
    exists|asked: &str, found: Option<T>|
        asked@ == name && #[trigger] call_ensures(load, (asked,), found) && found is None
}

/// `load` can give a table for each of the first `n` files.
pub open spec fn finds_all<T, L: Fn(&str) -> Option<T>>(
    load: L,
    files: Seq<Seq<char>>,
    n: int,
) -> bool {
    forall|i: int| 0 <= i < n ==> finds(load, #[trigger] files[i])
}

/// The same answers, where no `.inc` file can be found.
pub open spec fn without_files<T, X>(m: Meaning<T, X>) -> Meaning<T, X> {
    Meaning { load: |name: Seq<char>| None, parse: m.parse, evaluate: m.evaluate }
}

/// The first solution, from `i` on, whose label is `label` but for ASCII case.
pub open spec fn labelled_from(
    solutions: Seq<(String, CalibrationSolution)>,
    label: Seq<char>,
    i: int,
) -> Option<CalibrationSolution>
    decreases solutions.len() - i,
{
    if i >= solutions.len() {
        None
    } else if lowered(solutions[i].0@) == lowered(label) {
        Some(solutions[i].1)
    } else {
        labelled_from(solutions, label, i + 1)
    }
}

/// The curve of one solution.
pub open spec fn solved<T, X>(m: Meaning<T, X>, solution: CalibrationSolution) -> Result<
    Seq<Num>,
    ErrorView,
> {
    match solution {
        CalibrationSolution::Expression { expression } => curve_of(m, expression@),
        CalibrationSolution::Generator { generator } => Err(
            ErrorView::NotAnExpression(generator@),
        ),
    }
}

/// A curve or an error, as mathematical values.
pub open spec fn curve_told(r: Result<Vec<Num>, CalibrationError>) -> Result<Seq<Num>, ErrorView> {
    match r {
        Ok(curve) => Ok(curve@),
        Err(e) => Err(e@),
    }
}

/// The text that begins behind the quote at `open`, if it ends.
fn quoted_text(expression: &str, text: &Vec<char>, open: usize) -> (r: Option<String>)
    requires
        text@ == expression@,
        open < text.len(),
    ensures
        match r {
            Some(name) => quoted_at(expression@, open as int) == Some(name@),
            None => quoted_at(expression@, open as int) is None,
        },
{
    proof {
        reveal_strlit("\"");
    }
    match find(text, &characters("\""), open + 1) {
        Some(close) => Some(String::from_str(expression.substring_char(open + 1, close))),
        None => None,
    }
}

/// The first quote behind the first `table(`.
fn find_first_quote(text: &Vec<char>) -> (r: Option<usize>)
    ensures
        match r {
            Some(open) => first_quote(text@) == Some(open as int) && open < text.len(),
            None => first_quote(text@) is None,
        },
{
    proof {
        reveal_strlit("\"");
        reveal_strlit("table(");
    }
    match find(text, &characters("table("), 0) {
        Some(call) => find(text, &characters("\""), call),
        None => None,
    }
}

/// The quote at which the text begins that the `table(` call at `call` names
/// among its own arguments.
fn find_own_quote(text: &Vec<char>, call: usize) -> (r: Option<usize>)
    requires
        stands_at(text@, "table("@, call as int),
    ensures
        own_quote(text@, call + "table("@.len(), 1, false) == (match r {
            Some(open) => Some(open as int),
            None => None,
        }),
        r matches Some(open) ==> open < text.len(),
{
    proof {
        reveal_strlit("table(");
    }
    assert(call + 6 <= text.len());
    let first: usize = call + 6;
    let mut i: usize = first;
    let mut depth: usize = 1;
    let mut quoted = false;
    while i < text.len() && depth > 0 && (quoted || depth > 1 || text[i] != '"')
        invariant
            6 <= first <= i <= text.len(),
            depth <= 1 + i - first,
            own_quote(text@, first as int, 1, false) == own_quote(
                text@,
                i as int,
                depth as int,
                quoted,
            ),
        decreases text.len() - i,
    {
        let c = text[i];
        if c == '"' {
            quoted = !quoted;
        } else if !quoted && c == '(' {
            depth += 1;
        } else if !quoted && c == ')' {
            depth -= 1;
        }
        i += 1;
    }
    if i < text.len() && depth > 0 {
        Some(i)
    } else {
        None
    }
}

/// Name of the `.inc` lookup file a `table(...)` call references, if any: of
/// several, the one that is read first.
pub fn referenced_include_file(expression: &str) -> (r: Option<String>)
    ensures
        match r {
            Some(name) => include_file(expression@) == Some(name@),
            None => include_file(expression@) is None,
        },
{
    let text = characters(expression);
    match find_first_quote(&text) {
        Some(open) => quoted_text(expression, &text, open),
        None => None,
    }
}

/// Names of the `.inc` lookup files that the `table(...)` calls of an
/// expression reference: the one that is read first, then the others in the
/// order of their calls.
pub fn referenced_include_files(expression: &str) -> (r: Vec<String>)
    ensures
        texts(r@) == include_files(expression@),
{
    let text = characters(expression);
    let call = characters("table(");
    let mut files: Vec<String> = Vec::new();
    if let Some(name) = referenced_include_file(expression) {
        files.push(name);
    }
    let first = find_first_quote(&text);
    let mut i: usize = 0;
    assert(texts(files@) =~= files_before(expression@, 0));
    while i < text.len()
        invariant
            i <= text.len(),
            text@ == expression@,
            call@ == "table("@,
            first_quote(text@) == (match first {
                Some(open) => Some(open as int),
                None => None,
            }),
            texts(files@) == files_before(expression@, i as int),
        decreases text.len() - i,
    {
        if stands(&text, &call, i) {
            if let Some(open) = find_own_quote(&text, i) {
                let read_first = match first {
                    Some(at) => at == open,
                    None => false,
                };
                if !read_first {
                    if let Some(name) = quoted_text(expression, &text, open) {
                        let ghost before = files@;
                        files.push(name);
                        assert(texts(files@) =~= texts(before).push(name@));
                    }
                }
            }
        }
        i += 1;
    }
    files
}

/// The tables of some files, or the first file that cannot be found.
fn load_all<T, X, L: Fn(&str) -> Option<T>>(files: &Vec<String>, load: &L) -> (r: Result<
    LookupTables<T>,
    String,
>)
    requires
        forall|name: &str| call_requires(*load, (name,)),
    ensures
        forall|m: Meaning<T, X>| #[trigger]
            loads(*load, m) ==> tables_of(m, texts(files@)) == (match r {
                Ok(tables) => Ok::<Seq<(Seq<char>, T)>, Seq<char>>(tables@),
                Err(name) => Err(name@),
            }),
        match r {
            Ok(_) => finds_all(*load, texts(files@), files.len() as int),
            Err(name) => exists|i: int|
                {
                    &&& 0 <= i < files.len()
                    &&& #[trigger] texts(files@)[i] == name@
                    &&& misses(*load, name@)
                    &&& finds_all(*load, texts(files@), i)
                },
        },
{
    let mut entries: Vec<(String, T)> = Vec::new();
    let mut i: usize = 0;
    let ghost names = texts(files@);
    assert((LookupTables { entries })@ =~= Seq::<(Seq<char>, T)>::empty());
    while i < files.len()
        invariant
            i <= files.len(),
            names == texts(files@),
            forall|name: &str| call_requires(*load, (name,)),
            forall|m: Meaning<T, X>| #[trigger]
                loads(*load, m) ==> tables_of(m, names.take(i as int)) == Ok::<
                    Seq<(Seq<char>, T)>,
                    Seq<char>,
                >((LookupTables { entries })@),
            finds_all(*load, names, i as int),
        decreases files.len() - i,
    {
        let name = String::from_str(files[i].as_str());
        assert(names[i as int] == name@);
        assert(names.take(i + 1).drop_last() =~= names.take(i as int));
        match load(name.as_str()) {
            Some(table) => {
                let ghost before = (LookupTables { entries })@;
                assert(finds(*load, names[i as int]));
                entries.push((name, table));
                assert((LookupTables { entries })@ =~= before.push((name@, table)));
            },
            None => {
                assert(misses(*load, name@));
                assert forall|m: Meaning<T, X>| #[trigger] loads(*load, m) implies tables_of(
                    m,
                    names,
                ) == Err::<Seq<(Seq<char>, T)>, Seq<char>>(name@) by {
                    lemma_first_miss_stands(m, names, i + 1);
                }
                return Err(name);
            },
        }
        i += 1;
    }
    assert(names.take(i as int) =~= names);
    Ok(LookupTables { entries })
}

/// Evaluate a `solution` expression across every ADC count, yielding the
/// engineering value (AFR) per count, with the `.inc` tables that the
/// interpreter can find.
///
/// Every file is resolved up-front and a miss is an error, never a zero; each
/// lookup is answered from the table of its own file.
pub fn evaluate_solution_with_tables<T, X, L, P, E>(
    expression: &str,
    interpreter: Interpreter<L, P, E>,
) -> (r: Result<Vec<Num>, CalibrationError>) where
    L: Fn(&str) -> Option<T>,
    P: FnOnce(&str) -> Result<X, String>,
    E: Fn(&X, &str, u64, &LookupTables<T>) -> Result<Num, String>,

    requires
        total::<T, X, L, P, E>(interpreter),
    ensures
        forall|m: Meaning<T, X>| #[trigger]
            follows(interpreter, m) ==> curve_told(r) == curve_of(m, expression@),
        r matches Ok(curve) ==> curve.len() == ADC_COUNTS,
        match r {
            Err(CalibrationError::MissingIncludeFile(name)) => exists|i: int|
                {
                    &&& 0 <= i < include_files(expression@).len()
                    &&& #[trigger] include_files(expression@)[i] == name@
                    &&& misses(interpreter.load, name@)
                    &&& finds_all(interpreter.load, include_files(expression@), i)
                },
            _ => finds_all(
                interpreter.load,
                include_files(expression@),
                include_files(expression@).len() as int,
            ),
        },
{
    let files = referenced_include_files(expression);
    assert(files.len() == texts(files@).len());
    let load = interpreter.load;
    let tables: LookupTables<T> = match load_all::<T, X, L>(&files, &load) {
        Ok(tables) => tables,
        Err(name) => {
            return Err(CalibrationError::MissingIncludeFile(name));
        },
    };
    let parse = interpreter.parse;
    let x: X = match parse(expression) {
        Ok(x) => x,
        Err(e) => {
            let text = e.concat(" (in `").concat(expression).concat("`)");
            return Err(CalibrationError::ParseFailed(text));
        },
    };
    let evaluate = interpreter.evaluate;
    let mut out: Vec<Num> = Vec::new();
    while out.len() < ADC_COUNTS
        invariant
            out.len() <= ADC_COUNTS,
            forall|x: &X, variable: &str, value: u64, tables: &LookupTables<T>|
                call_requires(evaluate, (x, variable, value, tables)),
            evaluate == interpreter.evaluate,
            finds_all(
                interpreter.load,
                include_files(expression@),
                include_files(expression@).len() as int,
            ),
            forall|m: Meaning<T, X>| #[trigger]
                follows(interpreter, m) ==> {
                    &&& curve_of(m, expression@) == values_of(m, x, tables@, ADC_COUNTS as nat)
                    &&& values_of(m, x, tables@, out.len() as nat) == Ok::<Seq<Num>, ErrorView>(
                        out@,
                    )
                },
        decreases ADC_COUNTS - out.len(),
    {
        let adc: usize = out.len();
        match evaluate(&x, "adcValue", adc as u64, &tables) {
            Ok(v) => {
                out.push(v);
            },
            Err(e) => {
                let text = e.concat(" (at adcValue=").concat(
                    decimal_text(adc as u64).as_str(),
                ).concat(")");
                assert forall|m: Meaning<T, X>| #[trigger] follows(interpreter, m) implies values_of(
                    m,
                    x,
                    tables@,
                    ADC_COUNTS as nat,
                ) == Err::<Seq<Num>, ErrorView>(ErrorView::EvalFailed(text@)) by {
                    lemma_first_failure_stands(m, x, tables@, (adc + 1) as nat, ADC_COUNTS as nat);
                }
                return Err(CalibrationError::EvalFailed(text));
            },
        }
    }
    Ok(out)
}

/// Evaluate a `solution` expression across every ADC count, yielding the
/// engineering value (AFR) per count, where no `.inc` table is at hand: an
/// expression that needs one is refused.
pub fn evaluate_solution<T, X, P, E>(expression: &str, parse: P, evaluate: E) -> (r: Result<
    Vec<Num>,
    CalibrationError,
>) where
    P: FnOnce(&str) -> Result<X, String>,
    E: Fn(&X, &str, u64, &LookupTables<T>) -> Result<Num, String>,

    requires
        answers::<T, X, P, E>(parse, evaluate),
    ensures
        forall|m: Meaning<T, X>|
            #![trigger parses(parse, m), evaluates(evaluate, m)]
            parses(parse, m) && evaluates(evaluate, m) ==> curve_told(r) == curve_of(
                without_files(m),
                expression@,
            ),
        r matches Ok(curve) ==> curve.len() == ADC_COUNTS,
        match include_file(expression@) {
            Some(name) => curve_told(r) == Err::<Seq<Num>, ErrorView>(
                ErrorView::MissingIncludeFile(name),
            ),
            None => !(r matches Err(e) && e is MissingIncludeFile),
        },
{
    let load = |name: &str| -> (found: Option<T>)
        ensures
            found is None,
        { None };
    let interpreter = Interpreter { load, parse, evaluate };
    let r = evaluate_solution_with_tables(expression, interpreter);
    proof {
        law_the_first_file_is_read_first(expression@);
    }
    assert forall|m: Meaning<T, X>|
        #![trigger parses(parse, m), evaluates(evaluate, m)]
        parses(parse, m) && evaluates(evaluate, m) implies curve_told(r) == curve_of(
        without_files(m),
        expression@,
    ) by {
        assert(follows(interpreter, without_files(m)));
    }
    r
}

/// Build the AFR curve for a named solution of a `referenceTable` block.
pub fn solution_curve<T, X, L, P, E>(
    table: &ReferenceTable,
    label: &str,
    interpreter: Interpreter<L, P, E>,
) -> (r: Option<Result<Vec<Num>, CalibrationError>>) where
    L: Fn(&str) -> Option<T>,
    P: FnOnce(&str) -> Result<X, String>,
    E: Fn(&X, &str, u64, &LookupTables<T>) -> Result<Num, String>,

    requires
        total::<T, X, L, P, E>(interpreter),
    ensures
        r is None <==> labelled_from(table.solutions@, label@, 0) is None,
        labelled_from(table.solutions@, label@, 0) matches Some(
            CalibrationSolution::Generator { generator },
        ) ==> (r matches Some(outcome) && curve_told(outcome) == Err::<Seq<Num>, ErrorView>(
            ErrorView::NotAnExpression(generator@),
        )),
        forall|m: Meaning<T, X>| #[trigger]
            follows(interpreter, m) ==> (r matches Some(outcome) ==> curve_told(outcome) == solved(
                m,
                labelled_from(table.solutions@, label@, 0)->0,
            )),
{
    let mut i: usize = 0;
    while i < table.solutions.len()
        invariant
            i <= table.solutions.len(),
            total::<T, X, L, P, E>(interpreter),
            labelled_from(table.solutions@, label@, 0) == labelled_from(
                table.solutions@,
                label@,
                i as int,
            ),
        decreases table.solutions.len() - i,
    {
        if table.solutions[i].0.as_str().eq_ignore_ascii_case(label) {
            return Some(
                match &table.solutions[i].1 {
                    CalibrationSolution::Expression { expression } => {
                        evaluate_solution_with_tables(expression.as_str(), interpreter)
                    },
                    CalibrationSolution::Generator { generator } => {
                        Err(CalibrationError::NotAnExpression(String::from_str(generator.as_str())))
                    },
                },
            );
        }
        i += 1;
    }
    None
}

/// Once a count has failed, its error is what comes out.
proof fn lemma_first_failure_stands<T, X>(
    m: Meaning<T, X>,
    x: X,
    tables: Seq<(Seq<char>, T)>,
    n: nat,
    more: nat,
)
    requires
        n <= more,
        values_of(m, x, tables, n) is Err,
    ensures
        values_of(m, x, tables, more) == values_of(m, x, tables, n),
    decreases more,
{
    if n < more {
        lemma_first_failure_stands(m, x, tables, n, (more - 1) as nat);
    }
}

/// Once a file has been missed, it is what comes out.
proof fn lemma_first_miss_stands<T, X>(m: Meaning<T, X>, files: Seq<Seq<char>>, n: int)
    requires
        0 <= n <= files.len(),
        tables_of(m, files.take(n)) is Err,
    ensures
        tables_of(m, files) == tables_of(m, files.take(n)),
    decreases files.len(),
{
    if n == files.len() {
        assert(files.take(n) =~= files);
    } else {
        assert(files.drop_last().take(n) =~= files.take(n));
        lemma_first_miss_stands(m, files.drop_last(), n);
    }
}

pub(crate) proof fn lemma_tables<T, X>(m: Meaning<T, X>, files: Seq<Seq<char>>)
    ensures
        match tables_of(m, files) {
            Ok(tables) => {
                &&& tables.len() == files.len()
                &&& forall|i: int|
                    0 <= i < files.len() ==> (#[trigger] tables[i]).0 == files[i] && (m.load)(
                        files[i],
                    ) == Some(tables[i].1)
            },
            Err(_) => exists|i: int|
                0 <= i < files.len() && (m.load)(#[trigger] files[i]) is None,
        },
    decreases files.len(),
{
    if files.len() > 0 {
        let front = files.drop_last();
        lemma_tables(m, front);
        if tables_of(m, front) is Err {
            let i = choose|i: int|
                0 <= i < front.len() && (m.load)(#[trigger] front[i]) is None;
            assert(files[i] == front[i]);
        } else {
            assert(files[files.len() - 1] == files.last());
        }
    }
}

proof fn lemma_named<T>(tables: Seq<(Seq<char>, T)>, name: Seq<char>, i: int, at: int)
    requires
        0 <= i <= at < tables.len(),
        tables[at].0 == name,
    ensures
        exists|k: int|
            i <= k < tables.len() && (#[trigger] tables[k]).0 == name && named_from(
                tables,
                name,
                i,
            ) == Some(tables[k].1),
    decreases at - i,
{
    if tables[i].0 != name {
        lemma_named(tables, name, i + 1, at);
    }
}

/// A lookup file that cannot be found is an error, never a curve, whichever of
/// the expression's lookups needs it: nothing is parsed and nothing evaluated.
/// Of several such files the first is reported.
pub proof fn law_a_missing_file_is_refused<T, X>(
    m: Meaning<T, X>,
    expression: Seq<char>,
    i: int,
)
    requires
        0 <= i < include_files(expression).len(),
        (m.load)(include_files(expression)[i]) is None,
        forall|j: int|
            0 <= j < i ==> (m.load)(#[trigger] include_files(expression)[j]) is Some,
    ensures
        curve_of(m, expression) == Err::<Seq<Num>, ErrorView>(
            ErrorView::MissingIncludeFile(include_files(expression)[i]),
        ),
{
    let files = include_files(expression);
    let found = files.take(i);
    lemma_tables(m, found);
    assert forall|j: int| 0 <= j < found.len() implies (m.load)(#[trigger] found[j]) is Some by {
        assert(found[j] == files[j]);
    }
    assert(files.take(i + 1).drop_last() =~= found);
    lemma_first_miss_stands(m, files, i + 1);
}

/// Where a curve comes out, every lookup file was found, and a lookup in it
/// is answered from its own table.
pub proof fn law_every_lookup_has_its_own_table<T, X>(
    m: Meaning<T, X>,
    expression: Seq<char>,
    i: int,
)
    requires
        curve_of(m, expression) is Ok,
        0 <= i < include_files(expression).len(),
    ensures
        (m.load)(include_files(expression)[i]) is Some,
        tables_of(m, include_files(expression)) matches Ok(tables) && named_from(
            tables,
            include_files(expression)[i],
            0,
        ) == (m.load)(include_files(expression)[i]),
{
    let files = include_files(expression);
    lemma_tables(m, files);
    let tables = tables_of(m, files)->Ok_0;
    assert(tables[i].0 == files[i]);
    lemma_named(tables, files[i], 0, i);
}

/// The first file resolved is the one that is read first, and where there is
/// none such, no file is resolved at all.
pub proof fn law_the_first_file_is_read_first(expression: Seq<char>)
    ensures
        match include_file(expression) {
            Some(name) => include_files(expression).len() > 0 && include_files(expression)[0]
                == name,
            None => include_files(expression).len() == 0,
        },
{
    lemma_first_file(expression, expression.len() as int);
}

proof fn lemma_first_file(s: Seq<char>, n: int)
    ensures
        match include_file(s) {
            Some(name) => files_before(s, n).len() > 0 && files_before(s, n)[0] == name,
            None => files_before(s, n).len() == 0,
        },
    decreases n,
{
    if n > 0 {
        lemma_first_file(s, n - 1);
        let call = n - 1;
        if stands_at(s, "table("@, call) && own_file(s, call) is Some {
            reveal_strlit("\"");
            reveal_strlit("table(");
            let open = own_quote(s, call + 6, 1, false)->0;
            lemma_own_quote(s, call + 6, 1, false);
            law_find_is_first(s, "table("@, 0);
            let first = find_from(s, "table("@, 0)->0;
            assert(s.subrange(open, open + 1) =~= "\""@);
            assert(stands_at(s, "\""@, open));
            law_find_is_first(s, "\""@, open + 1);
            law_find_is_first(s, "\""@, first);
            law_find_is_first(s, "\""@, first_quote(s)->0 + 1);
        }
    }
}

/// The file that a `table(` call names among its own arguments is among those
/// that are resolved.
pub proof fn law_every_call_counts(expression: Seq<char>, call: int)
    requires
        stands_at(expression, "table("@, call),
        own_file(expression, call) is Some,
    ensures
        include_files(expression).contains(own_file(expression, call)->0),
{
    reveal_strlit("table(");
    lemma_call_counts(expression, call, expression.len() as int);
}

proof fn lemma_call_counts(expression: Seq<char>, call: int, n: int)
    requires
        stands_at(expression, "table("@, call),
        own_file(expression, call) is Some,
        call < n,
    ensures
        files_before(expression, n).contains(own_file(expression, call)->0),
    decreases n,
{
    let files = files_before(expression, n);
    let name = own_file(expression, call)->0;
    if call < n - 1 {
        lemma_call_counts(expression, call, n - 1);
        let before = files_before(expression, n - 1);
        let k = choose|k: int| 0 <= k < before.len() && before[k] == name;
        assert(files[k] == before[k]);
    } else if own_quote(expression, call + "table("@.len(), 1, false) == first_quote(expression) {
        lemma_first_file(expression, n);
        assert(files[0] == name);
    } else {
        assert(files.last() == name);
    }
}

pub(crate) proof fn lemma_values<T, X>(m: Meaning<T, X>, x: X, tables: Seq<(Seq<char>, T)>, n: nat)
    ensures
        values_of(m, x, tables, n) matches Ok(values) ==> {
            &&& values.len() == n
            &&& forall|adc: int|
                0 <= adc < n ==> (m.evaluate)(x, "adcValue"@, adc, tables) == Ok::<Num, Seq<char>>(
                    #[trigger] values[adc],
                )
        },
        (forall|adc: int|
            0 <= adc < n ==> (#[trigger] (m.evaluate)(x, "adcValue"@, adc, tables)) is Ok)
            ==> values_of(m, x, tables, n) is Ok,
    decreases n,
{
    if n > 0 {
        lemma_values(m, x, tables, (n - 1) as nat);
    }
}

/// A curve is whole: it has one entry for each ADC count, and each entry is
/// the value of the expression at its own count.
pub proof fn law_a_curve_is_whole<T, X>(m: Meaning<T, X>, expression: Seq<char>)
    ensures
        curve_of(m, expression) matches Ok(curve) ==> {
            &&& curve.len() == ADC_COUNTS
            &&& match ((m.parse)(expression), tables_of(m, include_files(expression))) {
                (Ok(x), Ok(tables)) => forall|adc: int|
                    0 <= adc < ADC_COUNTS ==> (m.evaluate)(x, "adcValue"@, adc, tables) == Ok::<
                        Num,
                        Seq<char>,
                    >(#[trigger] curve[adc]),
                _ => false,
            }
        },
{
    if let Ok(tables) = tables_of(m, include_files(expression)) {
        if let Ok(x) = (m.parse)(expression) {
            lemma_values(m, x, tables, ADC_COUNTS as nat);
        }
    }
}

/// An evaluation that fails at some count is reported with the first such
/// count, whatever the other counts give.
pub proof fn law_the_first_failing_count_is_reported<T, X>(
    m: Meaning<T, X>,
    x: X,
    tables: Seq<(Seq<char>, T)>,
    adc: nat,
    why: Seq<char>,
)
    requires
        adc < ADC_COUNTS,
        forall|k: int|
            0 <= k < adc ==> (#[trigger] (m.evaluate)(x, "adcValue"@, k, tables)) is Ok,
        (m.evaluate)(x, "adcValue"@, adc as int, tables) == Err::<Num, Seq<char>>(why),
    ensures
        values_of(m, x, tables, ADC_COUNTS as nat) == Err::<Seq<Num>, ErrorView>(
            ErrorView::EvalFailed(why + " (at adcValue="@ + decimal(adc as int) + ")"@),
        ),
{
    lemma_values(m, x, tables, adc);
    lemma_first_failure_stands(m, x, tables, adc + 1, ADC_COUNTS as nat);
}

/// The name of a lookup file holds no quote.
pub proof fn law_a_file_name_holds_no_quote(expression: Seq<char>, i: int)
    requires
        0 <= i < include_files(expression).len(),
    ensures
        !include_files(expression)[i].contains('"'),
{
    lemma_no_quote(expression, expression.len() as int, i);
}

proof fn lemma_no_quote(s: Seq<char>, n: int, i: int)
    requires
        0 <= i < files_before(s, n).len(),
    ensures
        !files_before(s, n)[i].contains('"'),
    decreases n,
{
    reveal_strlit("\"");
    reveal_strlit("table(");
    if n <= 0 {
        law_find_is_first(s, "table("@, 0);
        law_find_is_first(s, "\""@, find_from(s, "table("@, 0)->0);
        lemma_quoted(s, first_quote(s)->0);
    } else if i < files_before(s, n - 1).len() {
        lemma_no_quote(s, n - 1, i);
    } else {
        lemma_own_quote(s, n - 1 + 6, 1, false);
        lemma_quoted(s, own_quote(s, n - 1 + 6, 1, false)->0);
    }
}

proof fn lemma_quoted(s: Seq<char>, open: int)
    requires
        0 <= open,
    ensures
        quoted_at(s, open) matches Some(name) ==> !name.contains('"'),
{
    reveal_strlit("\"");
    law_find_is_first(s, "\""@, open + 1);
    if let Some(name) = quoted_at(s, open) {
        if name.contains('"') {
            let k = choose|k: int| 0 <= k < name.len() && name[k] == '"';
            let at = open + 1 + k;
            assert(s.subrange(at, at + 1) =~= "\""@);
            assert(stands_at(s, "\""@, at));
        }
    }
}

pub(crate) proof fn lemma_own_quote(s: Seq<char>, i: int, depth: int, quoted: bool)
    ensures
        own_quote(s, i, depth, quoted) matches Some(quote) ==> i <= quote < s.len() && s[quote]
            == '"',
    decreases s.len() - i,
{
    if i < s.len() && depth >= 1 {
        lemma_own_quote(s, i + 1, depth, quoted);
        lemma_own_quote(s, i + 1, depth, !quoted);
        lemma_own_quote(s, i + 1, depth + 1, quoted);
        lemma_own_quote(s, i + 1, depth - 1, quoted);
    }
}

} // verus!
