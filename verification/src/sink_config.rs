//! The routing core: a comparison-expression evaluator, the shared
//! configuration store, and the routing entry point that picks one of two
//! destination topics.

use vstd::prelude::*;

use crate::text::{
    contains_pat, find_first, first_occurrence, occurs_at, parse_i64_or_zero, parse_i64_spec,
    replace_all, replace_spec, trim_spec, trim_str,
};

verus! {

/// The comparison found in an expression, with its two parsed operands.
#[derive(Clone, Copy, Debug, PartialEq, Eq, Structural)]
pub enum CompareType {
    Greater(i64, i64),
    Smaller(i64, i64),
    GreaterEqual(i64, i64),
    SmallerEqual(i64, i64),
    NoComparison,
}

pub open spec fn pat_ge() -> Seq<char> {
    seq!['>', '=']
}

pub open spec fn pat_le() -> Seq<char> {
    seq!['<', '=']
}

pub open spec fn pat_gt() -> Seq<char> {
    seq!['>']
}

pub open spec fn pat_lt() -> Seq<char> {
    seq!['<']
}

/// The two operands of `s` split at the first occurrence of `pat`: each side
/// is trimmed and parsed leniently (a side that is not a number counts as 0).
pub open spec fn side_values(s: Seq<char>, pat: Seq<char>) -> (i64, i64) {
    match first_occurrence(s, pat) {
        Some(i) => (
            parse_i64_spec(trim_spec(s.subrange(0, i))),
            parse_i64_spec(trim_spec(s.subrange(i + pat.len(), s.len() as int))),
        ),
        None => (0, 0),
    }
}

/// How an expression is classified: the two-character operators are tried
/// first, so that `>=` is never mis-split at its `>`.
pub open spec fn classify_spec(s: Seq<char>) -> CompareType {
    if contains_pat(s, pat_ge()) {
        CompareType::GreaterEqual(side_values(s, pat_ge()).0, side_values(s, pat_ge()).1)
    } else if contains_pat(s, pat_le()) {
        CompareType::SmallerEqual(side_values(s, pat_le()).0, side_values(s, pat_le()).1)
    } else if contains_pat(s, pat_gt()) {
        CompareType::Greater(side_values(s, pat_gt()).0, side_values(s, pat_gt()).1)
    } else if contains_pat(s, pat_lt()) {
        CompareType::Smaller(side_values(s, pat_lt()).0, side_values(s, pat_lt()).1)
    } else {
        CompareType::NoComparison
    }
}

/// What an expression evaluates to: the comparison it holds, or `true` when
/// it holds none — the fail-open policy routes such input to the true branch.
pub open spec fn eval_spec(s: Seq<char>) -> bool {
    match classify_spec(s) {
        CompareType::Greater(a, b) => a > b,
        CompareType::Smaller(a, b) => a < b,
        CompareType::GreaterEqual(a, b) => a >= b,
        CompareType::SmallerEqual(a, b) => a <= b,
        CompareType::NoComparison => true,
    }
}

/// Splits `expression` at the first occurrence of `key` and parses both
/// sides as 64-bit integers, each side trimmed, a non-numeric side taken
/// as 0.
pub fn get_compare_item(expression: &str, key: &str) -> (r: (i64, i64))
    requires
        contains_pat(expression@, key@),
    ensures
        r == side_values(expression@, key@),
{
    let n = expression.unicode_len();
    let m = key.unicode_len();
    let idx = match find_first(expression, key) {
        Some(i) => i,
        None => {
            proof {
                assert(false);
            }
            0
        },
    };
    let left = expression.substring_char(0, idx);
    let right = expression.substring_char(idx + m, n);
    let item1 = parse_i64_or_zero(trim_str(left));
    let item2 = parse_i64_or_zero(trim_str(right));
    (item1, item2)
}

/// Classifies `expression`, trying `>=` and `<=` before `>` and `<`.
pub fn get_compare_type(expression: &str) -> (r: CompareType)
    ensures
        r == classify_spec(expression@),
{
    proof {
        reveal_strlit(">=");
        reveal_strlit("<=");
        reveal_strlit(">");
        reveal_strlit("<");
        assert(">="@ =~= pat_ge());
        assert("<="@ =~= pat_le());
        assert(">"@ =~= pat_gt());
        assert("<"@ =~= pat_lt());
    }
    if let Some(i) = find_first(expression, ">=") {
        proof {
            assert(contains_pat(expression@, ">="@)) by {
                assert(occurs_at(expression@, ">="@, i as int));
            }
        }
        let (item1, item2) = get_compare_item(expression, ">=");
        CompareType::GreaterEqual(item1, item2)
    } else if let Some(i) = find_first(expression, "<=") {
        proof {
            assert(contains_pat(expression@, "<="@)) by {
                assert(occurs_at(expression@, "<="@, i as int));
            }
        }
        let (item1, item2) = get_compare_item(expression, "<=");
        CompareType::SmallerEqual(item1, item2)
    } else if let Some(i) = find_first(expression, ">") {
        proof {
            assert(contains_pat(expression@, ">"@)) by {
                assert(occurs_at(expression@, ">"@, i as int));
            }
        }
        let (item1, item2) = get_compare_item(expression, ">");
        CompareType::Greater(item1, item2)
    } else if let Some(i) = find_first(expression, "<") {
        proof {
            assert(contains_pat(expression@, "<"@)) by {
                assert(occurs_at(expression@, "<"@, i as int));
            }
        }
        let (item1, item2) = get_compare_item(expression, "<");
        CompareType::Smaller(item1, item2)
    } else {
        CompareType::NoComparison
    }
}

/// Evaluates a comparison expression; an expression with no comparison
/// operator evaluates to `true` (the fail-open policy).
pub fn compute_expression(expression: &str) -> (r: bool)
    ensures
        r == eval_spec(expression@),
{
    match get_compare_type(expression) {
        CompareType::Greater(item1, item2) => item1 > item2,
        CompareType::Smaller(item1, item2) => item1 < item2,
        CompareType::GreaterEqual(item1, item2) => item1 >= item2,
        CompareType::SmallerEqual(item1, item2) => item1 <= item2,
        CompareType::NoComparison => true,
    }
}

/// One snapshot of remote routing policy: the expression template and the
/// two destination topics. The all-empty instance is the safe fallback
/// before the first successful fetch.
#[derive(Clone, Debug)]
pub struct KafkaSinkContext {
    pub application_name: String,
    pub expression: String,
    pub topic_true: String,
    pub topic_false: String,
}

/// The mathematical value of a [`KafkaSinkContext`].
pub ghost struct ContextView {
    pub application_name: Seq<char>,
    pub expression: Seq<char>,
    pub topic_true: Seq<char>,
    pub topic_false: Seq<char>,
}

impl View for KafkaSinkContext {
    type V = ContextView;

    open spec fn view(&self) -> ContextView {
        ContextView {
            application_name: self.application_name@,
            expression: self.expression@,
            topic_true: self.topic_true@,
            topic_false: self.topic_false@,
        }
    }
}

/// The all-empty fallback configuration.
pub open spec fn empty_context() -> ContextView {
    ContextView {
        application_name: Seq::empty(),
        expression: Seq::empty(),
        topic_true: Seq::empty(),
        topic_false: Seq::empty(),
    }
}

impl KafkaSinkContext {
    /// The empty default: every field the empty string.
    pub fn new() -> (r: Self)
        ensures
            r@ == empty_context(),
    {
        KafkaSinkContext {
            application_name: String::new(),
            expression: String::new(),
            topic_true: String::new(),
            topic_false: String::new(),
        }
    }
}

/// The envelope a configuration response arrives in; only its `result` is
/// kept once a response is parsed.
#[derive(Clone, Debug)]
pub struct ConfigResponse {
    pub code: i32,
    pub message: String,
    pub result: KafkaSinkContext,
}

/// Where the remote configuration is fetched from: the base URL and the
/// application name sent as its query parameter.
#[derive(Clone, Debug)]
pub struct KafkaSinkConfParam {
    pub url: String,
    pub application_name: String,
}

impl KafkaSinkConfParam {
    pub fn new(url: String, application_name: String) -> (r: Self)
        ensures
            r.url@ == url@,
            r.application_name@ == application_name@,
    {
        KafkaSinkConfParam { url, application_name }
    }
}

/// The URL a fetch requests: the base URL with the application name
/// appended as the `applicationName` query parameter.
pub fn build_config_url(param: &KafkaSinkConfParam) -> (r: String)
    ensures
        r@ == param.url@ + "?applicationName="@ + param.application_name@,
{
    let mut url = param.url.clone();
    url.append("?applicationName=");
    url.append(param.application_name.as_str());
    url
}

#[verifier::external_type_specification]
#[verifier::external_body]
#[verifier::reject_recursive_types(K)]
#[verifier::reject_recursive_types(V)]
#[verifier::reject_recursive_types(S)]
pub struct ExDashMap<K, V, S>(dashmap::DashMap<K, V, S>);

/// The concrete map type the store is built on.
pub type ConfigMap = dashmap::DashMap<String, KafkaSinkContext>;

/// What a configuration map holds: its entries, keyed by their text.
pub uninterp spec fn map_entries(m: ConfigMap) -> Map<Seq<char>, ContextView>;

/// Relies on dashmap::DashMap::new: a freshly created map holds no entry.
#[verifier::external_body]
fn dashmap_new() -> (created: ConfigMap)
    ensures
        map_entries(created) =~= Map::empty(),
{
    dashmap::DashMap::new()
}

/// Relies on dashmap::DashMap::insert: the value is stored under the key,
/// fully replacing any previous value there; every other entry is untouched.
#[verifier::external_body]
fn dashmap_insert(m: &mut ConfigMap, key: &str, value: KafkaSinkContext)
    ensures
        map_entries(*final(m)) == map_entries(*old(m)).insert(key@, value@),
{
    m.insert(key.to_string(), value);
}

/// Relies on dashmap::DashMap::get: returns a clone of the value stored
/// under the key, or `None` when the key holds no entry.
#[verifier::external_body]
fn dashmap_get(m: &ConfigMap, key: &str) -> (r: Option<KafkaSinkContext>)
    ensures
        match r {
            Some(c) => map_entries(*m).contains_key(key@) && c@ == map_entries(*m)[key@],
            None => !map_entries(*m).contains_key(key@),
        },
{
    match m.get(key) {
        Some(entry) => Some(entry.value().clone()),
        None => None,
    }
}

/// The fixed key the single configuration entry lives under.
pub const SINK_CONTEXT_KEY: &'static str = "sink_context";

/// The fixed key's text.
pub open spec fn sink_key() -> Seq<char> {
    "sink_context"@
}

/// The shared configuration store: a concurrently readable map that holds
/// the latest successfully stored configuration under one fixed key, or
/// nothing before the first store.
pub struct SinkConfigStore {
    map: ConfigMap,
}

impl SinkConfigStore {
    /// The configuration the store holds, if any. Writers fully replace it,
    /// so a reader sees either the old or the new record, never a mixture.
    pub closed spec fn stored(&self) -> Option<ContextView> {
        if map_entries(self.map).contains_key(sink_key()) {
            Some(map_entries(self.map)[sink_key()])
        } else {
            None
        }
    }

    /// An empty store: no configuration has been seen yet.
    pub fn new() -> (s: Self)
        ensures
            s.stored() is None,
    {
        SinkConfigStore { map: dashmap_new() }
    }

    /// Replaces the stored configuration with `context`.
    pub fn put(&mut self, context: KafkaSinkContext)
        ensures
            final(self).stored() == Some(context@),
    {
        dashmap_insert(&mut self.map, SINK_CONTEXT_KEY, context);
    }

    /// A snapshot of the stored configuration, or the empty default when
    /// nothing has been stored yet.
    pub fn get(&self) -> (r: KafkaSinkContext)
        ensures
            r@ == context_or_default(self.stored()),
    {
        match dashmap_get(&self.map, SINK_CONTEXT_KEY) {
            Some(context) => context,
            None => KafkaSinkContext::new(),
        }
    }
}

/// Applies the outcome of one refresh cycle to the store. A failed fetch
/// (`None`) stores the empty default, replacing any previously stored
/// configuration: one transient failure blanks the policy until the next
/// successful refresh. That is the documented fail-open degrade policy of
/// this library — default routing for one refresh interval is preferred
/// over serving a policy that the remote source no longer confirms.
pub fn apply_fetch_result(store: &mut SinkConfigStore, fetched: Option<KafkaSinkContext>)
    ensures
        final(store).stored() == Some(
            match fetched {
                Some(c) => c@,
                None => empty_context(),
            },
        ),
{
    let context = match fetched {
        Some(c) => c,
        None => KafkaSinkContext::new(),
    };
    store.put(context);
}

/// The stored configuration, with the empty default standing in while none
/// has been stored.
pub open spec fn context_or_default(stored: Option<ContextView>) -> ContextView {
    match stored {
        Some(c) => c,
        None => empty_context(),
    }
}

/// The substitution pairs of a caller's parameter list, as character
/// sequences.
pub open spec fn params_view(params: Seq<(String, String)>) -> Seq<(Seq<char>, Seq<char>)> {
    params.map(|i: int, p: (String, String)| (p.0@, p.1@))
}

/// The expression template after every substitution pair has been applied
/// in order: each occurrence of a pair's key text is replaced by its value
/// text.
pub open spec fn substituted(template: Seq<char>, params: Seq<(Seq<char>, Seq<char>)>) -> Seq<
    char,
>
    decreases params.len(),
{
    if params.len() == 0 {
        template
    } else {
        substituted(replace_spec(template, params[0].0, params[0].1), params.drop_first())
    }
}

/// The destination a request is routed to: the stored template (or the
/// empty default) with the caller's substitutions applied, evaluated, and
/// the matching destination topic chosen.
pub open spec fn route_spec(stored: Option<ContextView>, params: Seq<(Seq<char>, Seq<char>)>) -> Seq<
    char,
> {
    let c = context_or_default(stored);
    if eval_spec(substituted(c.expression, params)) {
        c.topic_true
    } else {
        c.topic_false
    }
}

/// Routes one request: reads the current configuration, substitutes the
/// caller's pairs into the expression template in the order given, and
/// returns `topic_true` when the expression evaluates to true, else
/// `topic_false`. No failure ever reaches the caller: an unloaded
/// configuration routes to the empty string.
pub fn get_sink_topic(store: &SinkConfigStore, expression_param: &Vec<(String, String)>) -> (r:
    String)
    ensures
        r@ == route_spec(store.stored(), params_view(expression_param@)),
{
    let context = store.get();
    let ghost all = params_view(expression_param@);
    let mut expression = context.expression.clone();
    proof {
        assert(all.skip(0) =~= all);
    }
    let mut i: usize = 0;
    while i < expression_param.len()
        invariant
            0 <= i <= expression_param@.len(),
            all == params_view(expression_param@),
            substituted(expression@, all.skip(i as int)) == substituted(
                context@.expression,
                all,
            ),
        decreases expression_param@.len() - i,
    {
        let ghost before = expression@;
        let pair = &expression_param[i];
        expression = replace_all(expression.as_str(), pair.0.as_str(), pair.1.as_str());
        proof {
            let rest = all.skip(i as int);
            assert(rest.drop_first() =~= all.skip(i + 1));
            assert(rest[0] == (expression_param@[i as int].0@, expression_param@[i as int].1@));
            assert(substituted(before, rest) == substituted(expression@, rest.drop_first()));
        }
        i = i + 1;
    }
    proof {
        assert(all.skip(i as int) =~= Seq::<(Seq<char>, Seq<char>)>::empty());
        assert(substituted(expression@, all.skip(i as int)) == expression@);
    }
    if compute_expression(expression.as_str()) {
        context.topic_true
    } else {
        context.topic_false
    }
}

} // verus!
