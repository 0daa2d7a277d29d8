//! The trusted surface over the `minijinja` template engine.
//!
//! The engine's environment is modelled as a map from global names to
//! document values; what rendering returns is named, as a function of the
//! globals and the template text alone. Every filter registered on the
//! environment is a verified function of this library.

use vstd::prelude::*;
use crate::value::JsonV;

verus! {

#[verifier::external_type_specification]
#[verifier::external_body]
pub struct ExEnvironment<'a>(minijinja::Environment<'a>);

/// A template environment owning its sources.
pub type TemplateEnv = minijinja::Environment<'static>;

#[verifier::external_type_specification]
#[verifier::external_body]
pub struct ExMjValue(minijinja::Value);

#[verifier::external_type_specification]
#[verifier::external_body]
pub struct ExMjError(minijinja::Error);

/// The global variables the library has bound on an environment, as a map
/// from names to document values. The engine's built-in functions are part
/// of the fixed baseline, not of this map.
pub uninterp spec fn env_globals(e: TemplateEnv) -> Map<Seq<char>, JsonV>;

/// Whether an environment is one of this library's: strict undefined
/// behavior and the library's five filters, and nothing else configured.
pub uninterp spec fn env_ready(e: TemplateEnv) -> bool;

/// The document value a `minijinja` value stands for.
pub uninterp spec fn mj_val(v: minijinja::Value) -> JsonV;

/// What rendering template text returns against given globals: `None` where
/// parsing or evaluation fails, else the output text.
pub uninterp spec fn render_of(globals: Map<Seq<char>, JsonV>, s: Seq<char>) -> Option<Seq<char>>;

/// Whether template text parses, and if so the set of free variable names it
/// reads.
pub uninterp spec fn tmpl_vars_of(s: Seq<char>) -> Option<Set<Seq<char>>>;

/// Whether text parses as a JSON number.
pub uninterp spec fn num_of(t: Seq<char>) -> bool;

/// The engine's text form of a value.
pub uninterp spec fn mj_text(v: JsonV) -> Seq<char>;

/// The empty global map.
pub open spec fn no_globals() -> Map<Seq<char>, JsonV> {
    Map::<Seq<char>, JsonV>::empty()
}

/// Relies on `Environment::new`, `set_undefined_behavior` and `add_filter`:
/// a fresh default environment with strict undefined variables, this
/// library's five filters registered, and no globals bound yet.
#[verifier::external_body]
pub(crate) fn new_env() -> (r: TemplateEnv)
    ensures
        env_ready(r),
        env_globals(r) == no_globals(),
{
    let mut e = minijinja::Environment::new();
    e.set_undefined_behavior(minijinja::UndefinedBehavior::Strict);
    e.add_filter("string", crate::filters::string);
    e.add_filter("int", crate::filters::int_filter);
    e.add_filter("nthhost", crate::filters::nthhost_filter);
    e.add_filter("ipaddr", crate::filters::ipaddr_filter);
    e.add_filter("ipsubnet", crate::filters::ipsubnet_filter);
    e
}

/// Relies on `Environment::add_global` with a string value: the globals gain
/// exactly this name; filters and configuration stay as they are.
#[verifier::external_body]
pub(crate) fn add_global_str(e: &mut TemplateEnv, name: &String, val: String)
    ensures
        env_ready(*final(e)) == env_ready(*old(e)),
        env_globals(*final(e)) == env_globals(*old(e)).insert(name@, JsonV::Str(val@)),
{
    e.add_global(name.clone(), val);
}

/// Relies on `Environment::add_global` with a sequence value collected from
/// the given items: the globals gain exactly this name; filters and
/// configuration stay as they are.
#[verifier::external_body]
pub(crate) fn add_global_list(
    e: &mut TemplateEnv,
    name: &String,
    items: Vec<minijinja::Value>,
)
    ensures
        env_ready(*final(e)) == env_ready(*old(e)),
        env_globals(*final(e)) == env_globals(*old(e)).insert(
            name@,
            JsonV::Arr(items@.map_values(|v: minijinja::Value| mj_val(v))),
        ),
{
    let seq_value: minijinja::Value = items.into_iter().collect();
    e.add_global(name.clone(), seq_value);
}

/// Relies on `Environment::render_str` with an empty context: parses and
/// renders template text against the environment's globals and filters. With
/// the library's fixed filter set, the outcome depends on the globals and
/// the source text alone; the error text is left unspecified.
#[verifier::external_body]
pub(crate) fn render_str(e: &TemplateEnv, tmpl: &str) -> (r: Result<
    String,
    String,
>)
    requires
        env_ready(*e),
    ensures
        r is Ok <==> render_of(env_globals(*e), tmpl@) is Some,
        r matches Ok(s) ==> Some(s@) == render_of(env_globals(*e), tmpl@),
{
    match e.render_str(tmpl, minijinja::Value::default()) {
        Ok(s) => Ok(s),
        Err(err) => Err(err.to_string()),
    }
}

/// Relies on `Environment::template_from_str` and
/// `Template::undeclared_variables(false)`: whether template text parses,
/// and if so the set of top-level free variable names it reads, handed back
/// in some order without duplicates.
#[verifier::external_body]
pub(crate) fn template_vars(tmpl: &str) -> (r: Option<Vec<String>>)
    ensures
        r is Some <==> tmpl_vars_of(tmpl@) is Some,
        r matches Some(vs) ==> vs@.map_values(|v: String| v@).to_set() == tmpl_vars_of(
            tmpl@,
        ).unwrap() && (forall|i: int, j: int|
            0 <= i < j < vs@.len() ==> vs@[i]@ != vs@[j]@),
{
    let env = minijinja::Environment::new();
    match env.template_from_str(tmpl) {
        Ok(t) => Some(t.undeclared_variables(false).into_iter().collect()),
        Err(_) => None,
    }
}

/// Relies on the display form of a `minijinja` value: the text depends on
/// the value alone, and a string value prints as itself.
#[verifier::external_body]
pub(crate) fn value_text(v: &minijinja::Value) -> (r: String)
    ensures
        r@ == mj_text(mj_val(*v)),
        mj_val(*v) matches JsonV::Str(s) ==> r@ == s,
{
    v.to_string()
}

/// Relies on `bool::try_from` for `minijinja::Value`, which succeeds exactly
/// on boolean values.
#[verifier::external_body]
pub(crate) fn value_as_bool(v: &minijinja::Value) -> (r: Option<bool>)
    ensures
        r is Some <==> mj_val(*v) is Bool,
        r matches Some(b) ==> mj_val(*v) == JsonV::Bool(b),
{
    bool::try_from(v.clone()).ok()
}

/// Relies on `minijinja::Error::new` with the invalid-operation kind.
#[verifier::external_body]
pub(crate) fn mk_error(msg: String) -> (r: minijinja::Error)
{
    minijinja::Error::new(minijinja::ErrorKind::InvalidOperation, msg)
}

/// Relies on `Value::as_str`, which yields the text of a string value and
/// nothing for any other value.
pub assume_specification[ minijinja::Value::as_str ](v: &minijinja::Value) -> (r: Option<&str>)
    ensures
        r is Some <==> mj_val(*v) is Str,
        r matches Some(s) ==> mj_val(*v) == JsonV::Str(s@),
;

/// Relies on `Value::from(())`: the none value.
#[verifier::external_body]
pub(crate) fn mj_null() -> (r: minijinja::Value)
    ensures
        mj_val(r) == JsonV::Null,
{
    minijinja::Value::from(())
}

/// Relies on `Value::from(bool)`.
#[verifier::external_body]
pub(crate) fn mj_bool(b: bool) -> (r: minijinja::Value)
    ensures
        mj_val(r) == JsonV::Bool(b),
{
    minijinja::Value::from(b)
}

/// Relies on `Value::from(String)`: a string value with exactly this text.
#[verifier::external_body]
pub(crate) fn mj_string(s: String) -> (r: minijinja::Value)
    ensures
        mj_val(r) == JsonV::Str(s@),
{
    minijinja::Value::from(s)
}

/// Relies on `serde_json::Number::from_str` and `Value::from_serialize`:
/// numeric text becomes a number value exactly when it parses as a JSON
/// number.
#[verifier::external_body]
pub(crate) fn mj_num(t: &String) -> (r: Option<minijinja::Value>)
    ensures
        r is Some <==> num_of(t@),
        r matches Some(v) ==> mj_val(v) == JsonV::Num(t@),
{
    match <serde_json::Number as core::str::FromStr>::from_str(t.as_str()) {
        Ok(n) => Some(minijinja::Value::from_serialize(&n)),
        Err(_) => None,
    }
}

/// Relies on `Value`'s `FromIterator`: a sequence value of exactly these
/// items.
#[verifier::external_body]
pub(crate) fn mj_list(items: Vec<minijinja::Value>) -> (r: minijinja::Value)
    ensures
        mj_val(r) == JsonV::Arr(items@.map_values(|v: minijinja::Value| mj_val(v))),
{
    items.into_iter().collect()
}

/// Relies on `Value`'s `FromIterator` over pairs: a map value of exactly
/// these entries.
#[verifier::external_body]
pub(crate) fn mj_object(entries: Vec<(String, minijinja::Value)>) -> (r: minijinja::Value)
    ensures
        mj_val(r) == JsonV::Obj(
            entries@.map_values(|p: (String, minijinja::Value)| (p.0@, mj_val(p.1))),
        ),
{
    entries.into_iter().collect()
}

} // verus!
