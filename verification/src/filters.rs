//! The filter functions registered on the template environment, in the
//! signatures the engine calls them with. Each one dispatches to verified
//! logic and only converts errors into the engine's error type.

use vstd::prelude::*;
use crate::engine::{mj_text, mj_val, mk_error, value_as_bool, value_text};
use crate::ip::{ipaddr_res, ipsubnet_res, nthhost_res, spec_action};
use crate::text::{i32_dec_spec, parse_i32};
use crate::value::JsonV;

verus! {

/// The text of a string value, where it is one.
pub open spec fn value_str(v: JsonV) -> Option<Seq<char>> {
    match v {
        JsonV::Str(s) => Some(s),
        _ => None,
    }
}

/// The `string` filter: the canonical text form of a value — `true`/`false`
/// for booleans, a string as itself, the engine's text form otherwise.
pub fn string(value: &minijinja::Value) -> (r: Result<String, minijinja::Error>)
    ensures
        r is Ok,
        r matches Ok(s) ==> (mj_val(*value) matches JsonV::Bool(b) ==> s@ == (if b {
            "true"@
        } else {
            "false"@
        })),
        r matches Ok(s) ==> (mj_val(*value) matches JsonV::Str(t) ==> s@ == t),
        r matches Ok(s) ==> (!(mj_val(*value) is Bool) ==> s@ == mj_text(mj_val(*value))),
{
    match value_as_bool(value) {
        Some(b) => {
            if b {
                Ok("true".to_owned())
            } else {
                Ok("false".to_owned())
            }
        },
        None => Ok(value_text(value)),
    }
}

/// The `int` filter: parses a signed integer, failing on non-numeric text.
pub fn int_filter(value: &str) -> (r: Result<i32, minijinja::Error>)
    ensures
        r is Ok <==> i32_dec_spec(value@) is Some,
        r matches Ok(n) ==> Some(n) == i32_dec_spec(value@),
{
    match parse_i32(value) {
        Some(n) => Ok(n),
        None => Err(mk_error("cannot convert to int".to_owned())),
    }
}

/// The `nthhost` filter.
pub fn nthhost_filter(network: String, n: usize) -> (r: Result<String, minijinja::Error>)
    ensures
        r is Ok <==> nthhost_res(network@, n as int) is Some,
        r matches Ok(s) ==> Some(s@) == nthhost_res(network@, n as int),
{
    match crate::ip::nthhost(network, n) {
        Ok(s) => Ok(s),
        Err(e) => Err(mk_error(e.message().clone())),
    }
}

/// The `ipaddr` filter.
pub fn ipaddr_filter(network: String, action: &minijinja::Value) -> (r: Result<
    String,
    minijinja::Error,
>)
    ensures
        r is Ok <==> ipaddr_res(network@, value_str(mj_val(*action))) is Some,
        r matches Ok(s) ==> Some(s@) == ipaddr_res(network@, value_str(mj_val(*action))),
{
    let a = action.as_str();
    proof {
        assert(spec_action(a) == value_str(mj_val(*action)));
    }
    match crate::ip::ipaddr(network, a) {
        Ok(s) => Ok(s),
        Err(e) => Err(mk_error(e.message().clone())),
    }
}

/// The `ipsubnet` filter.
pub fn ipsubnet_filter(ip_network: String, prefix_len: u8, incr: usize) -> (r: Result<
    String,
    minijinja::Error,
>)
    ensures
        r is Ok <==> ipsubnet_res(ip_network@, prefix_len, incr as int) is Some,
        r matches Ok(s) ==> Some(s@) == ipsubnet_res(ip_network@, prefix_len, incr as int),
{
    match crate::ip::ipsubnet(ip_network, prefix_len, incr) {
        Ok(s) => Ok(s),
        Err(e) => Err(mk_error(e.message().clone())),
    }
}

} // verus!
