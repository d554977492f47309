//! LQL, the query language of the field: `SELECT`, `SUBSCRIBE`,
//! `UNSUBSCRIBE` and `INTROSPECT` statements.
//!
//! A query is split into words at Unicode whitespace. Keywords are matched
//! on the uppercase form of a word (`str::to_uppercase`); patterns, numbers
//! and `WHERE` conditions are read from the word as written.
use vstd::prelude::*;
use vstd::string::*;

use crate::text::{
    chars_eq_ignore_ascii_case, chars_of, eq_ignore_ascii_case, has_prefix, parse_u64, parse_uint,
    split_whitespace, str_eq, str_upper, strip_prefix, to_uppercase, words, is_ascii_text, ascii_upper_of,
    is_digit, all_digits, uint_digits,
};
use crate::threshold::{classify, classify_threshold, ThresholdClass};
use crate::views::{FilterView, ViewFilter};

verus! {

/// A parsed LQL statement.
#[derive(Debug, Clone, PartialEq)]
pub enum LqlAst {
    Select { pattern: String, window_ms: Option<u32>, filter: ViewFilter },
    Subscribe {
        pattern: String,
        window_ms: Option<u32>,
        every_ms: Option<u32>,
        filter: ViewFilter,
    },
    Unsubscribe { id: u64 },
    IntrospectModel { top_n: Option<usize> },
    IntrospectInfluence { top_n: Option<usize> },
    IntrospectTension { top_n: Option<usize> },
    IntrospectEpochs { top_n: Option<usize> },
    IntrospectEpoch { id: u64 },
}

/// The abstract value of an [`LqlAst`].
pub enum LqlQuery {
    Select { pattern: Seq<char>, window_ms: Option<u32>, filter: FilterView },
    Subscribe {
        pattern: Seq<char>,
        window_ms: Option<u32>,
        every_ms: Option<u32>,
        filter: FilterView,
    },
    Unsubscribe { id: u64 },
    IntrospectModel { top_n: Option<usize> },
    IntrospectInfluence { top_n: Option<usize> },
    IntrospectTension { top_n: Option<usize> },
    IntrospectEpochs { top_n: Option<usize> },
    IntrospectEpoch { id: u64 },
}

impl View for LqlAst {
    type V = LqlQuery;

    open spec fn view(&self) -> LqlQuery {
        match self {
            LqlAst::Select { pattern, window_ms, filter } => LqlQuery::Select {
                pattern: pattern@,
                window_ms: *window_ms,
                filter: filter@,
            },
            LqlAst::Subscribe { pattern, window_ms, every_ms, filter } => LqlQuery::Subscribe {
                pattern: pattern@,
                window_ms: *window_ms,
                every_ms: *every_ms,
                filter: filter@,
            },
            LqlAst::Unsubscribe { id } => LqlQuery::Unsubscribe { id: *id },
            LqlAst::IntrospectModel { top_n } => LqlQuery::IntrospectModel { top_n: *top_n },
            LqlAst::IntrospectInfluence { top_n } => LqlQuery::IntrospectInfluence { top_n: *top_n },
            LqlAst::IntrospectTension { top_n } => LqlQuery::IntrospectTension { top_n: *top_n },
            LqlAst::IntrospectEpochs { top_n } => LqlQuery::IntrospectEpochs { top_n: *top_n },
            LqlAst::IntrospectEpoch { id } => LqlQuery::IntrospectEpoch { id: *id },
        }
    }
}

/// A rejected query, with the reason.
#[derive(Debug, Clone, PartialEq)]
pub struct LqlError {
    message: String,
}

impl LqlError {
    pub fn new(message: &str) -> (e: LqlError)
        ensures
            e.spec_message() == message@,
    {
        LqlError { message: message.to_string() }
    }

    pub closed spec fn spec_message(&self) -> Seq<char> {
        self.message@
    }

    /// The reason, as the error's `Display` writes it.
    pub fn to_string(&self) -> (s: String)
        ensures
            s@ == self.spec_message(),
    {
        self.message.clone()
    }

    fn with_detail(prefix: &str, detail: &String) -> (e: LqlError)
        ensures
            e.message@ == prefix@ + detail@,
    {
        let mut message = prefix.to_string();
        message.append(detail.as_str());
        LqlError { message }
    }
}

/// The answer to an `UNSUBSCRIBE`: the view asked for, and whether it was
/// there to remove.
#[derive(Debug, Clone, Copy, PartialEq, Eq, Structural)]
pub struct LqlUnsubscribeResult {
    pub id: u64,
    pub removed: bool,
}

/// A word of a query with its uppercase form.
pub struct LqlToken {
    pub text: String,
    pub upper: String,
}

pub struct TokenView {
    pub text: Seq<char>,
    pub upper: Seq<char>,
}

impl View for LqlToken {
    type V = TokenView;

    open spec fn view(&self) -> TokenView {
        TokenView { text: self.text@, upper: self.upper@ }
    }
}

pub open spec fn token_views(toks: Seq<LqlToken>) -> Seq<TokenView> {
    Seq::new(toks.len(), |i: int| toks[i]@)
}

/// The words of `input` with their uppercase forms.
pub open spec fn lql_tokens(input: Seq<char>) -> Seq<TokenView> {
    Seq::new(words(input).len(), |i: int| TokenView { text: words(input)[i], upper: str_upper(words(input)[i]) })
}

pub open spec fn result_view(r: Result<LqlAst, LqlError>) -> Result<LqlQuery, Seq<char>> {
    match r {
        Ok(a) => Ok(a@),
        Err(e) => Err(e.spec_message()),
    }
}

// ---------------------------------------------------------------------------
// What a statement means
// ---------------------------------------------------------------------------

/// The filter that a `WHERE` condition leaves, or the reason it is refused.
pub open spec fn spec_condition(text: Seq<char>, f: FilterView) -> Result<FilterView, Seq<char>> {
    if has_prefix(text, "strength>="@) {
        let v = text.skip("strength>="@.len() as int);
        match classify_threshold(v) {
            ThresholdClass::Malformed => Err("invalid strength threshold"@),
            ThresholdClass::OutOfRange => Err("strength must be within 0.0..=1.0"@),
            ThresholdClass::InRange => Ok(FilterView { min_strength: Some(v), ..f }),
        }
    } else if has_prefix(text, "salience>="@) {
        let v = text.skip("salience>="@.len() as int);
        match classify_threshold(v) {
            ThresholdClass::Malformed => Err("invalid salience threshold"@),
            ThresholdClass::OutOfRange => Err("salience must be within 0.0..=1.0"@),
            ThresholdClass::InRange => Ok(FilterView { min_salience: Some(v), ..f }),
        }
    } else if has_prefix(text, "adreno="@) {
        let v = text.skip("adreno="@.len() as int);
        if eq_ignore_ascii_case(v, "true"@) {
            Ok(FilterView { adreno: Some(true), ..f })
        } else if eq_ignore_ascii_case(v, "false"@) {
            Ok(FilterView { adreno: Some(false), ..f })
        } else {
            Err("adreno must be true or false"@)
        }
    } else {
        Err("unsupported WHERE clause"@)
    }
}

pub open spec fn where_end(i: nat, expect: bool, f: FilterView) -> Result<(nat, FilterView), Seq<char>> {
    if i == 0 || expect {
        Err("WHERE requires a condition"@)
    } else {
        Ok((i, f))
    }
}

/// The conditions of a `WHERE` clause from word `i` on: conditions joined
/// by `AND`, up to `WINDOW`, `EVERY` or the end. The result is the number of
/// words taken and the filter they leave.
pub open spec fn spec_where(toks: Seq<TokenView>, i: nat, expect: bool, f: FilterView) -> Result<
    (nat, FilterView),
    Seq<char>,
>
    decreases toks.len() - i,
{
    if i >= toks.len() {
        where_end(i, expect, f)
    } else {
        let u = toks[i as int].upper;
        if u == "WINDOW"@ || u == "EVERY"@ {
            where_end(i, expect, f)
        } else if !expect {
            if u == "AND"@ {
                spec_where(toks, i + 1, true, f)
            } else {
                Err("expected AND between WHERE clauses"@)
            }
        } else {
            match spec_condition(toks[i as int].text, f) {
                Err(e) => Err(e),
                Ok(f2) => spec_where(toks, i + 1, false, f2),
            }
        }
    }
}

/// A positive millisecond count after `WINDOW` (`every` false) or `EVERY`
/// (`every` true) at word `i`.
pub open spec fn spec_ms_value(r: Seq<TokenView>, i: nat, every: bool) -> Result<u32, Seq<char>> {
    if r.len() - i < 2 {
        if every {
            Err("EVERY requires milliseconds value"@)
        } else {
            Err("WINDOW requires milliseconds value"@)
        }
    } else {
        match parse_uint(r[i + 1 as int].text, u32::MAX as nat) {
            None => if every {
                Err("invalid EVERY value"@)
            } else {
                Err("invalid WINDOW value"@)
            },
            Some(v) => if v == 0 {
                if every {
                    Err("EVERY must be greater than zero"@)
                } else {
                    Err("WINDOW must be greater than zero"@)
                }
            } else {
                Ok(v as u32)
            },
        }
    }
}

/// The clauses of a `SELECT` (`every` false) or `SUBSCRIBE` (`every` true)
/// after its pattern, from word `i` on.
pub open spec fn spec_clauses(
    r: Seq<TokenView>,
    i: nat,
    every: bool,
    window: Option<u32>,
    every_ms: Option<u32>,
    f: FilterView,
) -> Result<(Option<u32>, Option<u32>, FilterView), Seq<char>>
    decreases r.len() - i,
{
    if i >= r.len() {
        Ok((window, every_ms, f))
    } else {
        let u = r[i as int].upper;
        if u == "WHERE"@ {
            match spec_where(r.skip(i + 1 as int), 0, true, f) {
                Err(e) => Err(e),
                Ok((n, f2)) => {
                    proof {
                        lemma_where_taken(r.skip(i + 1 as int), 0, true, f);
                    }
                    spec_clauses(r, i + 1 + n, every, window, every_ms, f2)
                },
            }
        } else if u == "WINDOW"@ {
            match spec_ms_value(r, i, false) {
                Err(e) => Err(e),
                Ok(v) => spec_clauses(r, i + 2, every, Some(v), every_ms, f),
            }
        } else if every && u == "EVERY"@ {
            match spec_ms_value(r, i, true) {
                Err(e) => Err(e),
                Ok(v) => spec_clauses(r, i + 2, every, window, Some(v), f),
            }
        } else if every {
            Err("unexpected token in SUBSCRIBE: "@ + u)
        } else {
            Err("unexpected token in SELECT: "@ + u)
        }
    }
}

/// A `WHERE` clause never takes more words than there are.
pub proof fn lemma_where_taken(toks: Seq<TokenView>, i: nat, expect: bool, f: FilterView)
    requires
        i <= toks.len(),
    ensures
        spec_where(toks, i, expect, f) matches Ok((n, _)) ==> i <= n <= toks.len(),
    decreases toks.len() - i,
{
    if i < toks.len() {
        let u = toks[i as int].upper;
        if u == "WINDOW"@ || u == "EVERY"@ {
        } else if !expect {
            if u == "AND"@ {
                lemma_where_taken(toks, i + 1, true, f);
            }
        } else {
            match spec_condition(toks[i as int].text, f) {
                Err(e) => {},
                Ok(f2) => lemma_where_taken(toks, i + 1, false, f2),
            }
        }
    }
}

pub open spec fn empty_filter() -> FilterView {
    FilterView { min_strength: None, min_salience: None, adreno: None }
}

pub open spec fn spec_select(r: Seq<TokenView>) -> Result<LqlQuery, Seq<char>> {
    if r.len() == 0 {
        Err("SELECT requires a pattern"@)
    } else {
        match spec_clauses(r.drop_first(), 0, false, None, None, empty_filter()) {
            Err(e) => Err(e),
            Ok((w, _, f)) => Ok(LqlQuery::Select { pattern: r[0].text, window_ms: w, filter: f }),
        }
    }
}

pub open spec fn spec_subscribe(r: Seq<TokenView>) -> Result<LqlQuery, Seq<char>> {
    if r.len() == 0 {
        Err("SUBSCRIBE requires a pattern"@)
    } else {
        match spec_clauses(r.drop_first(), 0, true, None, None, empty_filter()) {
            Err(e) => Err(e),
            Ok((w, e, f)) => Ok(
                LqlQuery::Subscribe { pattern: r[0].text, window_ms: w, every_ms: e, filter: f },
            ),
        }
    }
}

pub open spec fn spec_unsubscribe(r: Seq<TokenView>) -> Result<LqlQuery, Seq<char>> {
    if r.len() == 0 {
        Err("UNSUBSCRIBE requires an id"@)
    } else if r.len() > 1 {
        Err("UNSUBSCRIBE takes exactly one argument"@)
    } else {
        match parse_uint(r[0].text, u64::MAX as nat) {
            None => Err("invalid view id"@),
            Some(v) => Ok(LqlQuery::Unsubscribe { id: v as u64 }),
        }
    }
}

/// An optional `TOP n` clause, `n` a positive integer.
pub open spec fn spec_top_clause(r: Seq<TokenView>) -> Result<Option<usize>, Seq<char>> {
    if r.len() == 0 {
        Ok(None)
    } else if !eq_ignore_ascii_case(r[0].text, "TOP"@) {
        Err("unexpected token in INTROSPECT: "@ + r[0].text)
    } else if r.len() < 2 {
        Err("TOP requires a numeric value"@)
    } else if r.len() > 2 {
        Err("unexpected tokens after TOP clause"@)
    } else {
        match parse_uint(r[1].text, usize::MAX as nat) {
            None => Err("TOP requires a positive integer"@),
            Some(v) => if v == 0 {
                Err("TOP must be greater than zero"@)
            } else {
                Ok(Some(v as usize))
            },
        }
    }
}

pub open spec fn spec_introspect(r: Seq<TokenView>) -> Result<LqlQuery, Seq<char>> {
    if r.len() == 0 {
        Err("INTROSPECT requires a target"@)
    } else {
        let target = r[0].upper;
        let rest = r.drop_first();
        if target == "MODEL"@ {
            match spec_top_clause(rest) {
                Err(e) => Err(e),
                Ok(t) => Ok(LqlQuery::IntrospectModel { top_n: t }),
            }
        } else if target == "INFLUENCE"@ {
            match spec_top_clause(rest) {
                Err(e) => Err(e),
                Ok(t) => Ok(LqlQuery::IntrospectInfluence { top_n: t }),
            }
        } else if target == "TENSION"@ {
            match spec_top_clause(rest) {
                Err(e) => Err(e),
                Ok(t) => Ok(LqlQuery::IntrospectTension { top_n: t }),
            }
        } else if target == "EPOCHS"@ {
            match spec_top_clause(rest) {
                Err(e) => Err(e),
                Ok(t) => Ok(LqlQuery::IntrospectEpochs { top_n: t }),
            }
        } else if target == "EPOCH"@ {
            if rest.len() == 0 {
                Err("INTROSPECT EPOCH requires an id"@)
            } else if rest.len() > 1 {
                Err("INTROSPECT EPOCH takes a single id"@)
            } else {
                match parse_uint(rest[0].text, u64::MAX as nat) {
                    None => Err("INTROSPECT EPOCH id must be numeric"@),
                    Some(v) => Ok(LqlQuery::IntrospectEpoch { id: v as u64 }),
                }
            }
        } else {
            Err("unexpected INTROSPECT target: "@ + target)
        }
    }
}

/// What a query of the given words means.
pub open spec fn spec_parse(toks: Seq<TokenView>) -> Result<LqlQuery, Seq<char>> {
    if toks.len() == 0 {
        Err("empty LQL query"@)
    } else {
        let command = toks[0].upper;
        let rest = toks.drop_first();
        if command == "SELECT"@ {
            spec_select(rest)
        } else if command == "SUBSCRIBE"@ {
            spec_subscribe(rest)
        } else if command == "UNSUBSCRIBE"@ {
            spec_unsubscribe(rest)
        } else if command == "INTROSPECT"@ {
            spec_introspect(rest)
        } else {
            Err("unknown LQL command: "@ + command)
        }
    }
}

/// A query without words is refused.
pub proof fn lemma_blank_query_refused(input: Seq<char>)
    requires
        words(input).len() == 0,
    ensures
        spec_parse(lql_tokens(input)) is Err,
{
}

/// The command word is read by its uppercase form alone: two queries that
/// differ only in the first word's text, its uppercase form the same, mean
/// the same.
pub proof fn lemma_command_read_by_uppercase(a: Seq<TokenView>, b: Seq<TokenView>)
    requires
        a.len() > 0,
        b.len() > 0,
        a[0].upper == b[0].upper,
        a.drop_first() == b.drop_first(),
    ensures
        spec_parse(a) == spec_parse(b),
{
}

/// So is the target of `INTROSPECT`: two introspections that differ only
/// in the texts of their first two words, the uppercase forms the same,
/// mean the same.
pub proof fn lemma_introspect_target_read_by_uppercase(a: Seq<TokenView>, b: Seq<TokenView>)
    requires
        a.len() > 1,
        b.len() > 1,
        a[0].upper == "INTROSPECT"@,
        a[0].upper == b[0].upper,
        a[1].upper == b[1].upper,
        a.skip(2) == b.skip(2),
    ensures
        spec_parse(a) == spec_parse(b),
{
    reveal_strlit("INTROSPECT");
    reveal_strlit("SELECT");
    reveal_strlit("SUBSCRIBE");
    reveal_strlit("UNSUBSCRIBE");
    let ra = a.drop_first();
    let rb = b.drop_first();
    assert(ra.drop_first() =~= a.skip(2));
    assert(rb.drop_first() =~= b.skip(2));
    assert(ra[0].upper == rb[0].upper);
    assert(ra.drop_first() == rb.drop_first());
    assert(spec_introspect(ra) == spec_introspect(rb));
    assert("INTROSPECT"@[0] == 'I' && "SELECT"@[0] == 'S' && "SUBSCRIBE"@[0] == 'S' && "UNSUBSCRIBE"@[0] == 'U');
    assert(spec_parse(a) == spec_introspect(ra));
    assert(spec_parse(b) == spec_introspect(rb));
}

/// The limit an introspection of a model, influence, tension or epochs
/// carries; `None` for any other query.
pub open spec fn introspection_limit(q: LqlQuery) -> Option<Option<usize>> {
    match q {
        LqlQuery::IntrospectModel { top_n } => Some(top_n),
        LqlQuery::IntrospectInfluence { top_n } => Some(top_n),
        LqlQuery::IntrospectTension { top_n } => Some(top_n),
        LqlQuery::IntrospectEpochs { top_n } => Some(top_n),
        _ => None,
    }
}

proof fn lemma_keyword_literals()
    ensures
        "SELECT"@.len() == 6,
        "SUBSCRIBE"@.len() == 9,
        "UNSUBSCRIBE"@.len() == 11,
        "INTROSPECT"@.len() == 10,
        "MODEL"@.len() == 5,
        "INFLUENCE"@.len() == 9,
        "TENSION"@.len() == 7,
        "EPOCHS"@.len() == 6,
        "EPOCH"@.len() == 5,
        "SELECT"@[0] == 'S',
        "SUBSCRIBE"@[0] == 'S',
        "UNSUBSCRIBE"@[0] == 'U',
        "INTROSPECT"@[0] == 'I',
        "MODEL"@[0] == 'M',
        "INFLUENCE"@[0] == 'I',
        "TENSION"@[0] == 'T',
        "EPOCHS"@[0] == 'E',
        "EPOCH"@[0] == 'E',
{
    reveal_strlit("SELECT");
    reveal_strlit("SUBSCRIBE");
    reveal_strlit("UNSUBSCRIBE");
    reveal_strlit("INTROSPECT");
    reveal_strlit("MODEL");
    reveal_strlit("INFLUENCE");
    reveal_strlit("TENSION");
    reveal_strlit("EPOCHS");
    reveal_strlit("EPOCH");
}

/// Which query an accepted statement is follows from its first words:
/// `SELECT` gives a selection, `SUBSCRIBE` a subscription, `UNSUBSCRIBE` an
/// unsubscription, and `INTROSPECT` followed by `MODEL`, `INFLUENCE`,
/// `TENSION`, `EPOCHS` or `EPOCH` the introspection of that target, each
/// its own kind.
pub proof fn lemma_statement_kind(toks: Seq<TokenView>)
    requires
        spec_parse(toks) is Ok,
    ensures
        toks.len() > 0,
        (spec_parse(toks) matches Ok(LqlQuery::Select { .. })) <==> toks[0].upper == "SELECT"@,
        (spec_parse(toks) matches Ok(LqlQuery::Subscribe { .. })) <==> toks[0].upper == "SUBSCRIBE"@,
        (spec_parse(toks) matches Ok(LqlQuery::Unsubscribe { .. })) <==> toks[0].upper == "UNSUBSCRIBE"@,
        (spec_parse(toks) matches Ok(LqlQuery::IntrospectModel { .. })) <==> (toks[0].upper == "INTROSPECT"@
            && toks.len() > 1 && toks[1].upper == "MODEL"@),
        (spec_parse(toks) matches Ok(LqlQuery::IntrospectInfluence { .. })) <==> (toks[0].upper
            == "INTROSPECT"@ && toks.len() > 1 && toks[1].upper == "INFLUENCE"@),
        (spec_parse(toks) matches Ok(LqlQuery::IntrospectTension { .. })) <==> (toks[0].upper == "INTROSPECT"@
            && toks.len() > 1 && toks[1].upper == "TENSION"@),
        (spec_parse(toks) matches Ok(LqlQuery::IntrospectEpochs { .. })) <==> (toks[0].upper == "INTROSPECT"@
            && toks.len() > 1 && toks[1].upper == "EPOCHS"@),
        (spec_parse(toks) matches Ok(LqlQuery::IntrospectEpoch { .. })) <==> (toks[0].upper == "INTROSPECT"@
            && toks.len() > 1 && toks[1].upper == "EPOCH"@),
{
    lemma_keyword_literals();
    if toks.len() > 1 {
        assert(toks.drop_first()[0] == toks[1]);
    }
}

/// The numbers an accepted statement carries are its words': an
/// introspection of a model, influence, tension or epochs without `TOP`
/// has no limit and with `TOP n` has limit `n`; `INTROSPECT EPOCH n` asks
/// for epoch `n`; `UNSUBSCRIBE n` drops view `n`.
pub proof fn lemma_statement_numbers(toks: Seq<TokenView>)
    requires
        spec_parse(toks) is Ok,
    ensures
        toks[0].upper == "INTROSPECT"@ && toks[1].upper != "EPOCH"@ && toks.len() == 2 ==> introspection_limit(
            spec_parse(toks)->Ok_0,
        ) == Some(None::<usize>),
        toks[0].upper == "INTROSPECT"@ && toks[1].upper != "EPOCH"@ && toks.len() == 4 ==> (eq_ignore_ascii_case(
            toks[2].text,
            "TOP"@,
        ) && parse_uint(toks[3].text, usize::MAX as nat) is Some && introspection_limit(spec_parse(toks)->Ok_0)
            == Some(Some(parse_uint(toks[3].text, usize::MAX as nat)->0 as usize))),
        toks[0].upper == "INTROSPECT"@ && toks[1].upper == "EPOCH"@ ==> (toks.len() == 3 && spec_parse(toks)
            == Ok::<LqlQuery, Seq<char>>(
            LqlQuery::IntrospectEpoch { id: parse_uint(toks[2].text, u64::MAX as nat)->0 as u64 },
        )),
        toks[0].upper == "UNSUBSCRIBE"@ ==> (toks.len() == 2 && spec_parse(toks) == Ok::<LqlQuery, Seq<char>>(
            LqlQuery::Unsubscribe { id: parse_uint(toks[1].text, u64::MAX as nat)->0 as u64 },
        )),
{
    lemma_keyword_literals();
    if toks.len() > 1 {
        let r = toks.drop_first();
        assert(r[0] == toks[1]);
        if r.len() > 1 {
            assert(r.drop_first()[0] == toks[2]);
            if r.len() > 2 {
                assert(r.drop_first()[1] == toks[3]);
            }
        }
    }
}

proof fn lemma_clause_literals()
    ensures
        "WHERE"@.len() == 5 && "WHERE"@[0] == 'W',
        "WINDOW"@.len() == 6 && "WINDOW"@[0] == 'W',
        "EVERY"@.len() == 5 && "EVERY"@[0] == 'E',
        "AND"@.len() == 3,
        "strength>="@.len() == 10 && "strength>="@[0] == 's' && "strength>="@[1] == 't',
        "salience>="@.len() == 10 && "salience>="@[0] == 's' && "salience>="@[1] == 'a',
        "adreno="@.len() == 7 && "adreno="@[0] == 'a',
{
    reveal_strlit("WHERE");
    reveal_strlit("WINDOW");
    reveal_strlit("EVERY");
    reveal_strlit("AND");
    reveal_strlit("strength>=");
    reveal_strlit("salience>=");
    reveal_strlit("adreno=");
}

/// `SELECT p WINDOW n` is accepted exactly when `n` is a positive count of
/// milliseconds that fits a `u32`, and then selects `p` over a window of
/// `n` ms with no filter.
pub proof fn lemma_select_window(toks: Seq<TokenView>)
    requires
        toks.len() == 4,
        toks[0].upper == "SELECT"@,
        toks[2].upper == "WINDOW"@,
    ensures
        ({
            let n = parse_uint(toks[3].text, u32::MAX as nat);
            &&& (spec_parse(toks) is Ok) <==> (n is Some && n->0 > 0)
            &&& spec_parse(toks) is Ok ==> spec_parse(toks) == Ok::<LqlQuery, Seq<char>>(
                LqlQuery::Select { pattern: toks[1].text, window_ms: Some(n->0 as u32), filter: empty_filter() },
            )
        }),
{
    lemma_keyword_literals();
    lemma_clause_literals();
    reveal_with_fuel(spec_clauses, 4);
    reveal_with_fuel(spec_where, 3);
    let r = toks.drop_first();
    let c = r.drop_first();
    assert(r[0] == toks[1]);
    assert(c[0] == toks[2] && c[1] == toks[3] && c.len() == 2);
}

/// `SUBSCRIBE p WINDOW a EVERY b`, when accepted, subscribes to `p` over a
/// window of `a` ms, reported every `b` ms, with no filter.
pub proof fn lemma_subscribe_window_every(toks: Seq<TokenView>)
    requires
        toks.len() == 6,
        toks[0].upper == "SUBSCRIBE"@,
        toks[2].upper == "WINDOW"@,
        toks[4].upper == "EVERY"@,
        spec_parse(toks) is Ok,
    ensures
        spec_parse(toks) == Ok::<LqlQuery, Seq<char>>(
            LqlQuery::Subscribe {
                pattern: toks[1].text,
                window_ms: Some(parse_uint(toks[3].text, u32::MAX as nat)->0 as u32),
                every_ms: Some(parse_uint(toks[5].text, u32::MAX as nat)->0 as u32),
                filter: empty_filter(),
            },
        ),
{
    lemma_keyword_literals();
    lemma_clause_literals();
    reveal_with_fuel(spec_clauses, 4);
    reveal_with_fuel(spec_where, 3);
    let r = toks.drop_first();
    let c = r.drop_first();
    assert(r[0] == toks[1]);
    assert(c[0] == toks[2] && c[1] == toks[3] && c[2] == toks[4] && c[3] == toks[5] && c.len() == 4);
}

/// `SELECT p WHERE cond`, when accepted, selects `p` with no window and the
/// one threshold the condition names: `strength>=v` a least strength `v`,
/// `salience>=v` a least salience `v`, `adreno=b` the adreno mark `b`.
pub proof fn lemma_select_where(toks: Seq<TokenView>)
    requires
        toks.len() == 4,
        toks[0].upper == "SELECT"@,
        toks[2].upper == "WHERE"@,
        spec_parse(toks) is Ok,
    ensures
        ({
            let c = toks[3].text;
            let f = if has_prefix(c, "strength>="@) {
                FilterView { min_strength: Some(c.skip(10)), min_salience: None, adreno: None }
            } else if has_prefix(c, "salience>="@) {
                FilterView { min_strength: None, min_salience: Some(c.skip(10)), adreno: None }
            } else {
                FilterView { min_strength: None, min_salience: None, adreno: Some(eq_ignore_ascii_case(c.skip(7), "true"@)) }
            };
            &&& has_prefix(c, "strength>="@) || has_prefix(c, "salience>="@) || has_prefix(c, "adreno="@)
            &&& spec_parse(toks) == Ok::<LqlQuery, Seq<char>>(
                LqlQuery::Select { pattern: toks[1].text, window_ms: None, filter: f },
            )
        }),
{
    lemma_keyword_literals();
    lemma_clause_literals();
    reveal_strlit("true");
    reveal_strlit("false");
    let r = toks.drop_first();
    let c = r.drop_first();
    assert(r[0] == toks[1]);
    assert(c[0] == toks[2] && c[1] == toks[3] && c.len() == 2);
    let w = c.skip(1);
    assert(w[0] == toks[3] && w.len() == 1);
    let t = toks[3].text;
    if has_prefix(t, "strength>="@) {
        assert(t.take(10)[1] == t[1]);
    }
    if has_prefix(t, "salience>="@) {
        assert(t.take(10)[1] == t[1]);
    }
    let u = w[0].upper;
    assert(u != "WINDOW"@ && u != "EVERY"@) by {
        if u == "WINDOW"@ || u == "EVERY"@ {
            assert(spec_where(w, 0, true, empty_filter()) is Err);
        }
    }
    match spec_condition(t, empty_filter()) {
        Ok(f2) => {
            assert(spec_where(w, 1, false, f2) == Ok::<(nat, FilterView), Seq<char>>((1nat, f2)));
            assert(spec_where(w, 0, true, empty_filter()) == Ok::<(nat, FilterView), Seq<char>>((1nat, f2)));
            assert(spec_clauses(c, 2, false, None, None, f2) == Ok::<(Option<u32>, Option<u32>, FilterView), Seq<char>>(
                (None, None, f2),
            ));
        },
        Err(e) => {
            assert(spec_where(w, 0, true, empty_filter()) is Err);
        },
    }
}

/// A `SELECT` or `SUBSCRIBE` that is accepted keeps its pattern word as
/// written.
pub proof fn lemma_pattern_kept_verbatim(toks: Seq<TokenView>)
    ensures
        spec_parse(toks) matches Ok(LqlQuery::Select { pattern, .. }) ==> pattern == toks[1].text,
        spec_parse(toks) matches Ok(LqlQuery::Subscribe { pattern, .. }) ==> pattern == toks[1].text,
{
    if toks.len() > 1 {
        assert(toks.drop_first()[0] == toks[1]);
    }
}

/// What `str::to_uppercase` gave for the ASCII words of `input`: each
/// with `a`..`z` made `A`..`Z`. Parsing or tokenizing `input` ensures it.
pub open spec fn uppercased_ascii(input: Seq<char>) -> bool {
    forall|k: int|
        0 <= k < words(input).len() && is_ascii_text(#[trigger] words(input)[k]) ==> ascii_upper_of(
            str_upper(words(input)[k]),
            words(input)[k],
        )
}

/// Two parse results are both refusals, or the same query.
pub open spec fn same_outcome<A>(r1: Result<A, Seq<char>>, r2: Result<A, Seq<char>>) -> bool {
    &&& (r1 is Ok <==> r2 is Ok)
    &&& (r1 is Ok ==> r1 == r2)
}

pub open spec fn is_ascii_letter(c: char) -> bool {
    ('a' <= c && c <= 'z') || ('A' <= c && c <= 'Z')
}

/// A word of ASCII letters only, as every keyword is.
pub open spec fn letter_word(t: Seq<char>) -> bool {
    &&& t.len() > 0
    &&& forall|i: int| 0 <= i < t.len() ==> is_ascii_letter(#[trigger] t[i])
}

/// Two words read alike: the same uppercase form, and the same text, or
/// both letter words equal up to ASCII case.
pub open spec fn alike_token(x: TokenView, y: TokenView) -> bool {
    &&& x.upper == y.upper
    &&& (x.text == y.text || (letter_word(x.text) && letter_word(y.text) && eq_ignore_ascii_case(x.text, y.text)))
}

pub open spec fn case_alike(a: Seq<TokenView>, b: Seq<TokenView>) -> bool {
    &&& a.len() == b.len()
    &&& forall|i: int| 0 <= i < a.len() ==> alike_token(#[trigger] a[i], b[i])
}

proof fn lemma_case_alike_skip(a: Seq<TokenView>, b: Seq<TokenView>, k: int)
    requires
        case_alike(a, b),
        0 <= k <= a.len(),
    ensures
        case_alike(a.skip(k), b.skip(k)),
{
    assert forall|i: int| 0 <= i < a.skip(k).len() implies alike_token(#[trigger] a.skip(k)[i], b.skip(k)[i]) by {
        assert(a.skip(k)[i] == a[i + k]);
        assert(b.skip(k)[i] == b[i + k]);
    }
}

/// A letter word is no number.
proof fn lemma_letter_no_uint(t: Seq<char>, max: nat)
    requires
        letter_word(t),
    ensures
        parse_uint(t, max) is None,
{
    assert(is_ascii_letter(t[0]));
    assert(uint_digits(t) == t);
    assert(!is_digit(t[0]));
    assert(!all_digits(t));
}

/// A letter word is no `WHERE` condition.
proof fn lemma_letter_no_condition(t: Seq<char>, f: FilterView)
    requires
        letter_word(t),
    ensures
        spec_condition(t, f) is Err,
{
    reveal_strlit("strength>=");
    reveal_strlit("salience>=");
    reveal_strlit("adreno=");
    if has_prefix(t, "strength>="@) {
        assert(t.take(10)[8] == t[8]);
        assert(is_ascii_letter(t[8]));
    }
    if has_prefix(t, "salience>="@) {
        assert(t.take(10)[8] == t[8]);
        assert(is_ascii_letter(t[8]));
    }
    if has_prefix(t, "adreno="@) {
        assert(t.take(7)[6] == t[6]);
        assert(is_ascii_letter(t[6]));
    }
}

/// Equality up to ASCII case carries over: `a` matches `c` exactly when `b`
/// does.
proof fn lemma_ascii_case_trans(a: Seq<char>, b: Seq<char>, c: Seq<char>)
    requires
        eq_ignore_ascii_case(a, b),
    ensures
        eq_ignore_ascii_case(a, c) == eq_ignore_ascii_case(b, c),
{
    if eq_ignore_ascii_case(a, c) {
        assert forall|i: int| 0 <= i < b.len() implies crate::text::ascii_lower(#[trigger] b[i])
            == crate::text::ascii_lower(c[i]) by {
            assert(crate::text::ascii_lower(a[i]) == crate::text::ascii_lower(b[i]));
            assert(crate::text::ascii_lower(a[i]) == crate::text::ascii_lower(c[i]));
        }
    }
    if eq_ignore_ascii_case(b, c) {
        assert forall|i: int| 0 <= i < a.len() implies crate::text::ascii_lower(#[trigger] a[i])
            == crate::text::ascii_lower(c[i]) by {
            assert(crate::text::ascii_lower(a[i]) == crate::text::ascii_lower(b[i]));
            assert(crate::text::ascii_lower(b[i]) == crate::text::ascii_lower(c[i]));
        }
    }
}

proof fn lemma_where_alike(a: Seq<TokenView>, b: Seq<TokenView>, i: nat, expect: bool, f: FilterView)
    requires
        case_alike(a, b),
    ensures
        same_outcome(spec_where(a, i, expect, f), spec_where(b, i, expect, f)),
    decreases a.len() - i,
{
    if i < a.len() {
        assert(alike_token(a[i as int], b[i as int]));
        let u = a[i as int].upper;
        if u == "WINDOW"@ || u == "EVERY"@ {
        } else if !expect {
            if u == "AND"@ {
                lemma_where_alike(a, b, i + 1, true, f);
            }
        } else if a[i as int].text == b[i as int].text {
            match spec_condition(a[i as int].text, f) {
                Err(e) => {},
                Ok(f2) => lemma_where_alike(a, b, i + 1, false, f2),
            }
        } else {
            lemma_letter_no_condition(a[i as int].text, f);
            lemma_letter_no_condition(b[i as int].text, f);
        }
    }
}

proof fn lemma_ms_alike(a: Seq<TokenView>, b: Seq<TokenView>, i: nat, every: bool)
    requires
        case_alike(a, b),
    ensures
        same_outcome(spec_ms_value(a, i, every), spec_ms_value(b, i, every)),
{
    if a.len() - i >= 2 {
        let k = (i + 1) as int;
        assert(alike_token(a[k], b[k]));
        if a[k].text != b[k].text {
            lemma_letter_no_uint(a[k].text, u32::MAX as nat);
            lemma_letter_no_uint(b[k].text, u32::MAX as nat);
        }
    }
}

proof fn lemma_clauses_alike(
    a: Seq<TokenView>,
    b: Seq<TokenView>,
    i: nat,
    every: bool,
    window: Option<u32>,
    every_ms: Option<u32>,
    f: FilterView,
)
    requires
        case_alike(a, b),
    ensures
        same_outcome(spec_clauses(a, i, every, window, every_ms, f), spec_clauses(b, i, every, window, every_ms, f)),
    decreases a.len() - i,
{
    if i < a.len() {
        assert(alike_token(a[i as int], b[i as int]));
        let u = a[i as int].upper;
        if u == "WHERE"@ {
            let k = (i + 1) as int;
            lemma_case_alike_skip(a, b, k);
            lemma_where_alike(a.skip(k), b.skip(k), 0, true, f);
            match spec_where(a.skip(k), 0, true, f) {
                Err(e) => {},
                Ok((n, f2)) => {
                    lemma_where_taken(a.skip(k), 0, true, f);
                    lemma_clauses_alike(a, b, i + 1 + n, every, window, every_ms, f2);
                },
            }
        } else if u == "WINDOW"@ {
            lemma_ms_alike(a, b, i, false);
            match spec_ms_value(a, i, false) {
                Err(e) => {},
                Ok(v) => lemma_clauses_alike(a, b, i + 2, every, Some(v), every_ms, f),
            }
        } else if every && u == "EVERY"@ {
            lemma_ms_alike(a, b, i, true);
            match spec_ms_value(a, i, true) {
                Err(e) => {},
                Ok(v) => lemma_clauses_alike(a, b, i + 2, every, window, Some(v), f),
            }
        }
    }
}

proof fn lemma_top_alike(a: Seq<TokenView>, b: Seq<TokenView>)
    requires
        case_alike(a, b),
    ensures
        same_outcome(spec_top_clause(a), spec_top_clause(b)),
{
    if a.len() > 0 {
        assert(alike_token(a[0], b[0]));
        if a[0].text != b[0].text {
            lemma_ascii_case_trans(a[0].text, b[0].text, "TOP"@);
        }
        if a.len() == 2 {
            assert(alike_token(a[1], b[1]));
            if a[1].text != b[1].text {
                lemma_letter_no_uint(a[1].text, usize::MAX as nat);
                lemma_letter_no_uint(b[1].text, usize::MAX as nat);
            }
        }
    }
}

proof fn lemma_introspect_alike(a: Seq<TokenView>, b: Seq<TokenView>)
    requires
        case_alike(a, b),
    ensures
        same_outcome(spec_introspect(a), spec_introspect(b)),
{
    if a.len() > 0 {
        assert(alike_token(a[0], b[0]));
        lemma_case_alike_skip(a, b, 1);
        let ra = a.drop_first();
        let rb = b.drop_first();
        assert(ra =~= a.skip(1));
        assert(rb =~= b.skip(1));
        lemma_top_alike(ra, rb);
        if ra.len() == 1 {
            assert(alike_token(ra[0], rb[0]));
            if ra[0].text != rb[0].text {
                lemma_letter_no_uint(ra[0].text, u64::MAX as nat);
                lemma_letter_no_uint(rb[0].text, u64::MAX as nat);
            }
        }
    }
}

/// Words that read alike give the same outcome, provided a `SELECT` or
/// `SUBSCRIBE` keeps the same pattern word.
pub proof fn lemma_parse_alike(a: Seq<TokenView>, b: Seq<TokenView>)
    requires
        case_alike(a, b),
        a.len() > 1 && (a[0].upper == "SELECT"@ || a[0].upper == "SUBSCRIBE"@) ==> a[1].text == b[1].text,
    ensures
        same_outcome(spec_parse(a), spec_parse(b)),
{
    if a.len() > 0 {
        assert(alike_token(a[0], b[0]));
        lemma_case_alike_skip(a, b, 1);
        let ra = a.drop_first();
        let rb = b.drop_first();
        assert(ra =~= a.skip(1));
        assert(rb =~= b.skip(1));
        let c = a[0].upper;
        if c == "SELECT"@ || c == "SUBSCRIBE"@ {
            if ra.len() > 0 {
                assert(ra[0].text == rb[0].text);
                lemma_case_alike_skip(ra, rb, 1);
                assert(ra.drop_first() =~= ra.skip(1));
                assert(rb.drop_first() =~= rb.skip(1));
                lemma_clauses_alike(ra.drop_first(), rb.drop_first(), 0, false, None, None, empty_filter());
                lemma_clauses_alike(ra.drop_first(), rb.drop_first(), 0, true, None, None, empty_filter());
            }
        } else if c == "UNSUBSCRIBE"@ {
            if ra.len() == 1 {
                assert(alike_token(ra[0], rb[0]));
                if ra[0].text != rb[0].text {
                    lemma_letter_no_uint(ra[0].text, u64::MAX as nat);
                    lemma_letter_no_uint(rb[0].text, u64::MAX as nat);
                }
            }
        } else if c == "INTROSPECT"@ {
            lemma_introspect_alike(ra, rb);
        }
    }
}

/// Queries whose words differ only in the ASCII case of letter words (every
/// keyword is one: `SELECT`, `SUBSCRIBE`, `UNSUBSCRIBE`, `INTROSPECT`,
/// `WHERE`, `AND`, `WINDOW`, `EVERY`, `TOP`, the introspection targets),
/// other than the pattern of a `SELECT` or `SUBSCRIBE`.
pub open spec fn differ_in_letter_case(s1: Seq<char>, s2: Seq<char>) -> bool {
    let w1 = words(s1);
    let w2 = words(s2);
    &&& w1.len() == w2.len()
    &&& forall|i: int|
        0 <= i < w1.len() ==> (#[trigger] w1[i] == w2[i] || (letter_word(w1[i]) && eq_ignore_ascii_case(
            w1[i],
            w2[i],
        )))
    &&& w1.len() > 1 && (str_upper(w1[0]) == "SELECT"@ || str_upper(w1[0]) == "SUBSCRIBE"@) ==> w1[1] == w2[1]
}

/// A letter word equal up to ASCII case to another has the same ASCII
/// uppercase form, and both are letter words of ASCII text.
proof fn lemma_letter_alike(t1: Seq<char>, t2: Seq<char>, u1: Seq<char>, u2: Seq<char>)
    requires
        letter_word(t1),
        eq_ignore_ascii_case(t1, t2),
    ensures
        letter_word(t2),
        is_ascii_text(t1),
        is_ascii_text(t2),
        ascii_upper_of(u1, t1) && ascii_upper_of(u2, t2) ==> u1 == u2,
{
    assert forall|i: int| 0 <= i < t2.len() implies is_ascii_letter(#[trigger] t2[i]) by {
        assert(is_ascii_letter(t1[i]));
        assert(crate::text::ascii_lower(t1[i]) == crate::text::ascii_lower(t2[i]));
    }
    assert forall|i: int| 0 <= i < t1.len() implies (#[trigger] t1[i]) as int <= 127 by {
        assert(is_ascii_letter(t1[i]));
    }
    assert forall|i: int| 0 <= i < t2.len() implies (#[trigger] t2[i]) as int <= 127 by {
        assert(is_ascii_letter(t2[i]));
    }
    if ascii_upper_of(u1, t1) && ascii_upper_of(u2, t2) {
        assert forall|i: int| 0 <= i < u1.len() implies u1[i] == u2[i] by {
            assert(is_ascii_letter(t1[i]) && is_ascii_letter(t2[i]));
            assert(crate::text::ascii_lower(t1[i]) == crate::text::ascii_lower(t2[i]));
            if 'a' <= t1[i] && t1[i] <= 'z' {
                assert(u1[i] as int == t1[i] as int - 32);
            } else {
                assert(u1[i] == t1[i]);
            }
            if 'a' <= t2[i] && t2[i] <= 'z' {
                assert(u2[i] as int == t2[i] as int - 32);
            } else {
                assert(u2[i] == t2[i]);
            }
            assert(u1[i] as int == u2[i] as int);
        }
        assert(u1 =~= u2);
    }
}

/// Keywords are read in any ASCII case: two queries whose words differ only
/// in the ASCII case of letter words, the pattern of a `SELECT` or
/// `SUBSCRIBE` aside, are both refused or mean the same. The premises on
/// uppercasing are what parsing each query ensures.
pub proof fn lemma_keywords_read_in_any_case(s1: Seq<char>, s2: Seq<char>)
    requires
        differ_in_letter_case(s1, s2),
        uppercased_ascii(s1),
        uppercased_ascii(s2),
    ensures
        same_outcome(spec_parse(lql_tokens(s1)), spec_parse(lql_tokens(s2))),
{
    let w1 = words(s1);
    let w2 = words(s2);
    let a = lql_tokens(s1);
    let b = lql_tokens(s2);
    assert forall|i: int| 0 <= i < a.len() implies alike_token(#[trigger] a[i], b[i]) by {
        assert(a[i].text == w1[i] && a[i].upper == str_upper(w1[i]));
        assert(b[i].text == w2[i] && b[i].upper == str_upper(w2[i]));
        if w1[i] != w2[i] {
            lemma_letter_alike(w1[i], w2[i], str_upper(w1[i]), str_upper(w2[i]));
        }
    }
    if a.len() > 1 {
        assert(a[0].upper == str_upper(w1[0]));
        assert(a[1].text == w1[1] && b[1].text == w2[1]);
    }
    lemma_parse_alike(a, b);
}

// ---------------------------------------------------------------------------
// The parser
// ---------------------------------------------------------------------------

/// Reads one `WHERE` condition into `f`.
fn parse_condition_token(text: &String, f: ViewFilter) -> (r: Result<ViewFilter, LqlError>)
    ensures
        match r {
            Ok(g) => spec_condition(text@, f@) == Ok::<FilterView, Seq<char>>(g@),
            Err(e) => spec_condition(text@, f@) == Err::<FilterView, Seq<char>>(e.spec_message()),
        },
{
    let cs = chars_of(text.as_str());
    if let Some(value) = strip_prefix(cs.as_slice(), "strength>=") {
        return match classify(value.as_slice()) {
            ThresholdClass::Malformed => Err(LqlError::new("invalid strength threshold")),
            ThresholdClass::OutOfRange => Err(LqlError::new("strength must be within 0.0..=1.0")),
            ThresholdClass::InRange => {
                let v = crate::text::string_of(value.as_slice());
                Ok(ViewFilter { min_strength: Some(v), ..f })
            },
        };
    }
    if let Some(value) = strip_prefix(cs.as_slice(), "salience>=") {
        return match classify(value.as_slice()) {
            ThresholdClass::Malformed => Err(LqlError::new("invalid salience threshold")),
            ThresholdClass::OutOfRange => Err(LqlError::new("salience must be within 0.0..=1.0")),
            ThresholdClass::InRange => {
                let v = crate::text::string_of(value.as_slice());
                Ok(ViewFilter { min_salience: Some(v), ..f })
            },
        };
    }
    if let Some(value) = strip_prefix(cs.as_slice(), "adreno=") {
        if chars_eq_ignore_ascii_case(value.as_slice(), "true") {
            return Ok(ViewFilter { adreno: Some(true), ..f });
        }
        if chars_eq_ignore_ascii_case(value.as_slice(), "false") {
            return Ok(ViewFilter { adreno: Some(false), ..f });
        }
        return Err(LqlError::new("adreno must be true or false"));
    }
    Err(LqlError::new("unsupported WHERE clause"))
}

/// Reads the `WHERE` conditions that start at word `start`; returns how
/// many words they take.
fn parse_where_conditions(toks: &Vec<LqlToken>, start: usize, f: ViewFilter) -> (r: Result<
    (usize, ViewFilter),
    LqlError,
>)
    requires
        start <= toks@.len(),
    ensures
        match r {
            Ok((n, g)) => spec_where(token_views(toks@).skip(start as int), 0, true, f@) == Ok::<
                (nat, FilterView),
                Seq<char>,
            >((n as nat, g@)),
            Err(e) => spec_where(token_views(toks@).skip(start as int), 0, true, f@) == Err::<
                (nat, FilterView),
                Seq<char>,
            >(e.spec_message()),
        },
{
    let ghost tv = token_views(toks@).skip(start as int);
    let mut consumed: usize = 0;
    let mut expect = true;
    let mut filter = f;
    while start + consumed < toks.len()
        invariant
            start <= toks@.len(),
            tv == token_views(toks@).skip(start as int),
            start + consumed <= toks@.len(),
            spec_where(tv, 0, true, f@) == spec_where(tv, consumed as nat, expect, filter@),
        ensures
            start + consumed <= toks@.len(),
            spec_where(tv, 0, true, f@) == where_end(consumed as nat, expect, filter@),
        decreases toks.len() - start - consumed,
    {
        let tok = &toks[start + consumed];
        assert(tv[consumed as int] == tok@);
        if str_eq(tok.upper.as_str(), "WINDOW") || str_eq(tok.upper.as_str(), "EVERY") {
            break;
        }
        if !expect {
            if str_eq(tok.upper.as_str(), "AND") {
                consumed += 1;
                expect = true;
                continue;
            }
            return Err(LqlError::new("expected AND between WHERE clauses"));
        }
        match parse_condition_token(&tok.text, filter) {
            Ok(g) => {
                filter = g;
            },
            Err(e) => {
                return Err(e);
            },
        }
        consumed += 1;
        expect = false;
    }
    if consumed == 0 || expect {
        return Err(LqlError::new("WHERE requires a condition"));
    }
    Ok((consumed, filter))
}

/// Reads the positive millisecond count after the `WINDOW` or `EVERY` at
/// word `i`; the clauses start at word `first`.
fn parse_ms_value(toks: &Vec<LqlToken>, first: usize, i: usize, every: bool) -> (res: Result<
    u32,
    LqlError,
>)
    requires
        first <= i < toks@.len(),
    ensures
        ({
            let s = spec_ms_value(token_views(toks@).skip(first as int), (i - first) as nat, every);
            match res {
                Ok(v) => s == Ok::<u32, Seq<char>>(v),
                Err(e) => s == Err::<u32, Seq<char>>(e.spec_message()),
            }
        }),
{
    let ghost r = token_views(toks@).skip(first as int);
    if toks.len() - i < 2 {
        if every {
            return Err(LqlError::new("EVERY requires milliseconds value"));
        } else {
            return Err(LqlError::new("WINDOW requires milliseconds value"));
        }
    }
    assert(r[(i - first) + 1] == toks@[i + 1]@);
    let cs = chars_of(toks[i + 1].text.as_str());
    match parse_u64(cs.as_slice()) {
        Some(v) if v <= 0xffff_ffff => {
            if v == 0 {
                if every {
                    Err(LqlError::new("EVERY must be greater than zero"))
                } else {
                    Err(LqlError::new("WINDOW must be greater than zero"))
                }
            } else {
                Ok(v as u32)
            }
        },
        _ => {
            if every {
                Err(LqlError::new("invalid EVERY value"))
            } else {
                Err(LqlError::new("invalid WINDOW value"))
            }
        },
    }
}

/// Reads the clauses of a `SELECT` (`every` false) or a `SUBSCRIBE`
/// (`every` true) that start at word `first`.
fn parse_clauses(toks: &Vec<LqlToken>, first: usize, every: bool) -> (res: Result<
    (Option<u32>, Option<u32>, ViewFilter),
    LqlError,
>)
    requires
        first <= toks@.len(),
    ensures
        ({
            let r = token_views(toks@).skip(first as int);
            let s = spec_clauses(r, 0, every, None, None, empty_filter());
            match res {
                Ok((w, e, f)) => s == Ok::<(Option<u32>, Option<u32>, FilterView), Seq<char>>(
                    (w, e, f@),
                ),
                Err(err) => s == Err::<(Option<u32>, Option<u32>, FilterView), Seq<char>>(
                    err.spec_message(),
                ),
            }
        }),
{
    let ghost r = token_views(toks@).skip(first as int);
    let mut window: Option<u32> = None;
    let mut every_ms: Option<u32> = None;
    let mut filter = ViewFilter::new();
    let mut i: usize = first;
    assert(filter@ == empty_filter());
    while i < toks.len()
        invariant
            first <= i,
            first <= toks@.len(),
            r == token_views(toks@).skip(first as int),
            spec_clauses(r, 0, every, None, None, empty_filter()) == spec_clauses(
                r,
                (i - first) as nat,
                every,
                window,
                every_ms,
                filter@,
            ),
        decreases toks.len() - i,
    {
        let tok = &toks[i];
        assert(r[i - first] == tok@);
        if str_eq(tok.upper.as_str(), "WHERE") {
            let ghost f0 = filter@;
            assert(r.skip(i - first + 1) =~= token_views(toks@).skip(i + 1));
            match parse_where_conditions(toks, i + 1, filter) {
                Ok((n, g)) => {
                    proof {
                        lemma_where_taken(r.skip(i - first + 1), 0, true, f0);
                    }
                    filter = g;
                    i = i + 1 + n;
                },
                Err(e) => {
                    return Err(e);
                },
            }
        } else if str_eq(tok.upper.as_str(), "WINDOW") {
            match parse_ms_value(toks, first, i, false) {
                Ok(v) => {
                    window = Some(v);
                    i = i + 2;
                },
                Err(e) => {
                    return Err(e);
                },
            }
        } else if every && str_eq(tok.upper.as_str(), "EVERY") {
            match parse_ms_value(toks, first, i, true) {
                Ok(v) => {
                    every_ms = Some(v);
                    i = i + 2;
                },
                Err(e) => {
                    return Err(e);
                },
            }
        } else if every {
            return Err(LqlError::with_detail("unexpected token in SUBSCRIBE: ", &tok.upper));
        } else {
            return Err(LqlError::with_detail("unexpected token in SELECT: ", &tok.upper));
        }
    }
    Ok((window, every_ms, filter))
}

fn parse_select(toks: &Vec<LqlToken>) -> (res: Result<LqlAst, LqlError>)
    requires
        toks@.len() >= 1,
    ensures
        result_view(res) == spec_select(token_views(toks@).drop_first()),
{
    let ghost r = token_views(toks@).drop_first();
    if toks.len() < 2 {
        return Err(LqlError::new("SELECT requires a pattern"));
    }
    assert(r[0] == toks@[1]@);
    assert(r.drop_first() =~= token_views(toks@).skip(2));
    match parse_clauses(toks, 2, false) {
        Ok((window_ms, _, filter)) => Ok(
            LqlAst::Select { pattern: toks[1].text.clone(), window_ms, filter },
        ),
        Err(e) => Err(e),
    }
}

fn parse_subscribe(toks: &Vec<LqlToken>) -> (res: Result<LqlAst, LqlError>)
    requires
        toks@.len() >= 1,
    ensures
        result_view(res) == spec_subscribe(token_views(toks@).drop_first()),
{
    let ghost r = token_views(toks@).drop_first();
    if toks.len() < 2 {
        return Err(LqlError::new("SUBSCRIBE requires a pattern"));
    }
    assert(r[0] == toks@[1]@);
    assert(r.drop_first() =~= token_views(toks@).skip(2));
    match parse_clauses(toks, 2, true) {
        Ok((window_ms, every_ms, filter)) => Ok(
            LqlAst::Subscribe { pattern: toks[1].text.clone(), window_ms, every_ms, filter },
        ),
        Err(e) => Err(e),
    }
}

fn parse_unsubscribe(toks: &Vec<LqlToken>) -> (res: Result<LqlAst, LqlError>)
    requires
        toks@.len() >= 1,
    ensures
        result_view(res) == spec_unsubscribe(token_views(toks@).drop_first()),
{
    let ghost r = token_views(toks@).drop_first();
    if toks.len() < 2 {
        return Err(LqlError::new("UNSUBSCRIBE requires an id"));
    }
    if toks.len() > 2 {
        return Err(LqlError::new("UNSUBSCRIBE takes exactly one argument"));
    }
    assert(r[0] == toks@[1]@);
    let cs = chars_of(toks[1].text.as_str());
    match parse_u64(cs.as_slice()) {
        Some(id) => Ok(LqlAst::Unsubscribe { id }),
        None => Err(LqlError::new("invalid view id")),
    }
}

/// Reads an optional `TOP n` from the words that start at `first`.
fn parse_top_clause(toks: &Vec<LqlToken>, first: usize) -> (res: Result<Option<usize>, LqlError>)
    requires
        first <= toks@.len(),
    ensures
        ({
            let s = spec_top_clause(token_views(toks@).skip(first as int));
            match res {
                Ok(t) => s == Ok::<Option<usize>, Seq<char>>(t),
                Err(e) => s == Err::<Option<usize>, Seq<char>>(e.spec_message()),
            }
        }),
{
    let ghost r = token_views(toks@).skip(first as int);
    let n = toks.len() - first;
    if n == 0 {
        return Ok(None);
    }
    assert(r[0] == toks@[first as int]@);
    let head = chars_of(toks[first].text.as_str());
    if !chars_eq_ignore_ascii_case(head.as_slice(), "TOP") {
        return Err(LqlError::with_detail("unexpected token in INTROSPECT: ", &toks[first].text));
    }
    if n < 2 {
        return Err(LqlError::new("TOP requires a numeric value"));
    }
    if n > 2 {
        return Err(LqlError::new("unexpected tokens after TOP clause"));
    }
    assert(r[1] == toks@[first + 1]@);
    let cs = chars_of(toks[first + 1].text.as_str());
    match parse_u64(cs.as_slice()) {
        Some(v) if v <= usize::MAX as u64 => {
            if v == 0 {
                Err(LqlError::new("TOP must be greater than zero"))
            } else {
                Ok(Some(v as usize))
            }
        },
        _ => Err(LqlError::new("TOP requires a positive integer")),
    }
}

fn parse_introspect(toks: &Vec<LqlToken>) -> (res: Result<LqlAst, LqlError>)
    requires
        toks@.len() >= 1,
    ensures
        result_view(res) == spec_introspect(token_views(toks@).drop_first()),
{
    let ghost r = token_views(toks@).drop_first();
    if toks.len() < 2 {
        return Err(LqlError::new("INTROSPECT requires a target"));
    }
    assert(r[0] == toks@[1]@);
    assert(r.drop_first() =~= token_views(toks@).skip(2));
    let target = &toks[1].upper;
    if str_eq(target.as_str(), "MODEL") {
        match parse_top_clause(toks, 2) {
            Ok(top_n) => Ok(LqlAst::IntrospectModel { top_n }),
            Err(e) => Err(e),
        }
    } else if str_eq(target.as_str(), "INFLUENCE") {
        match parse_top_clause(toks, 2) {
            Ok(top_n) => Ok(LqlAst::IntrospectInfluence { top_n }),
            Err(e) => Err(e),
        }
    } else if str_eq(target.as_str(), "TENSION") {
        match parse_top_clause(toks, 2) {
            Ok(top_n) => Ok(LqlAst::IntrospectTension { top_n }),
            Err(e) => Err(e),
        }
    } else if str_eq(target.as_str(), "EPOCHS") {
        match parse_top_clause(toks, 2) {
            Ok(top_n) => Ok(LqlAst::IntrospectEpochs { top_n }),
            Err(e) => Err(e),
        }
    } else if str_eq(target.as_str(), "EPOCH") {
        if toks.len() < 3 {
            return Err(LqlError::new("INTROSPECT EPOCH requires an id"));
        }
        if toks.len() > 3 {
            return Err(LqlError::new("INTROSPECT EPOCH takes a single id"));
        }
        assert(r.drop_first()[0] == toks@[2]@);
        let cs = chars_of(toks[2].text.as_str());
        match parse_u64(cs.as_slice()) {
            Some(id) => Ok(LqlAst::IntrospectEpoch { id }),
            None => Err(LqlError::new("INTROSPECT EPOCH id must be numeric")),
        }
    } else {
        Err(LqlError::with_detail("unexpected INTROSPECT target: ", target))
    }
}

/// Parses a query given as words with their uppercase forms.
pub fn parse_lql_tokens(toks: &Vec<LqlToken>) -> (res: Result<LqlAst, LqlError>)
    ensures
        result_view(res) == spec_parse(token_views(toks@)),
{
    if toks.len() == 0 {
        return Err(LqlError::new("empty LQL query"));
    }
    let command = &toks[0].upper;
    assert(token_views(toks@)[0] == toks@[0]@);
    if str_eq(command.as_str(), "SELECT") {
        parse_select(toks)
    } else if str_eq(command.as_str(), "SUBSCRIBE") {
        parse_subscribe(toks)
    } else if str_eq(command.as_str(), "UNSUBSCRIBE") {
        parse_unsubscribe(toks)
    } else if str_eq(command.as_str(), "INTROSPECT") {
        parse_introspect(toks)
    } else {
        Err(LqlError::with_detail("unknown LQL command: ", command))
    }
}

/// The words of a query with their uppercase forms.
pub fn tokenize_lql(input: &str) -> (toks: Vec<LqlToken>)
    ensures
        token_views(toks@) == lql_tokens(input@),
        uppercased_ascii(input@),
{
    let words_vec = split_whitespace(input);
    let mut toks: Vec<LqlToken> = Vec::new();
    let mut i: usize = 0;
    while i < words_vec.len()
        invariant
            i <= words_vec@.len(),
            words_vec@.len() == words(input@).len(),
            forall|k: int| 0 <= k < words_vec@.len() ==> #[trigger] words_vec@[k]@ == words(input@)[k],
            toks@.len() == i,
            forall|k: int| 0 <= k < i ==> #[trigger] toks@[k]@ == lql_tokens(input@)[k],
            forall|k: int|
                0 <= k < i && is_ascii_text(#[trigger] words(input@)[k]) ==> ascii_upper_of(
                    str_upper(words(input@)[k]),
                    words(input@)[k],
                ),
        decreases words_vec.len() - i,
    {
        let text = words_vec[i].clone();
        let upper = to_uppercase(text.as_str());
        toks.push(LqlToken { text, upper });
        i += 1;
    }
    assert(token_views(toks@) =~= lql_tokens(input@));
    toks
}

/// Parses an LQL query.
pub fn parse_lql(input: &str) -> (res: Result<LqlAst, LqlError>)
    ensures
        result_view(res) == spec_parse(lql_tokens(input@)),
        uppercased_ascii(input@),
{
    let toks = tokenize_lql(input);
    parse_lql_tokens(&toks)
}

} // verus!
