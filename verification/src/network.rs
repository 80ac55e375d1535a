//! The parts of a schema request that are decided before it is sent: the
//! query text and the request headers.
use vstd::prelude::*;
use crate::search::strings_view;
use crate::text::{chars_of, find_char, split_once_spec, trim, trim_spec};

verus! {

/// The introspection query sent when no custom query is given.
pub const DEFAULT_QUERY: &'static str = "query IntrospectionQuery {
  __schema {
    queryType {
      name
    }
    mutationType {
      name
    }
    subscriptionType {
      name
    }
    types {
      ...FullType
    }
    directives {
      name
      description
      locations
      args {
        ...InputValue
      }
    }
  }
}

fragment FullType on __Type {
  kind
  name
  description
  fields(includeDeprecated: true) {
    name
    description
    args {
      ...InputValue
    }
    type {
      ...TypeRef
    }
    isDeprecated
    deprecationReason
  }
  inputFields {
    ...InputValue
  }
  interfaces {
    ...TypeRef
  }
  enumValues(includeDeprecated: true) {
    name
    description
    isDeprecated
    deprecationReason
  }
  possibleTypes {
    ...TypeRef
  }
}

fragment InputValue on __InputValue {
  name
  description
  type {
    ...TypeRef
  }
  defaultValue
}

fragment TypeRef on __Type {
  kind
  name
  ofType {
    kind
    name
    ofType {
      kind
      name
      ofType {
        kind
        name
        ofType {
          kind
          name
          ofType {
            kind
            name
            ofType {
              kind
              name
              ofType {
                kind
                name
              }
            }
          }
        }
      }
    }
  }
}
";

/// The query to send: the custom query when there is one, else
/// `DEFAULT_QUERY`.
pub fn query_or_default(query: Option<String>) -> (r: String)
    ensures
        r@ == match query {
            Some(q) => q@,
            None => DEFAULT_QUERY@,
        },
{
    match query {
        Some(q) => q,
        None => String::from_str(DEFAULT_QUERY),
    }
}

/// A character that may appear in an HTTP header name (an RFC 7230 token
/// character).
pub open spec fn is_token_char(c: char) -> bool {
    let u = c as u32;
    ||| 0x30 <= u <= 0x39
    ||| 0x41 <= u <= 0x5a
    ||| 0x61 <= u <= 0x7a
    ||| c == '!' || c == '#' || c == '$' || c == '%' || c == '&' || c == '\'' || c == '*'
    ||| c == '+' || c == '-' || c == '.' || c == '^' || c == '_' || c == '`' || c == '|' || c == '~'
}

/// The longest header name that is accepted.
pub const MAX_HEADER_NAME_LEN: usize = 65535;

/// `s` is accepted as an HTTP header name: one to `MAX_HEADER_NAME_LEN`
/// token characters.
pub open spec fn header_name_ok(s: Seq<char>) -> bool {
    &&& 1 <= s.len() <= MAX_HEADER_NAME_LEN
    &&& forall|i: int| 0 <= i < s.len() ==> is_token_char(#[trigger] s[i])
}

/// `s` is accepted as an HTTP header value: a tab or any character from the
/// space on, except DEL.
pub open spec fn header_value_ok(s: Seq<char>) -> bool {
    forall|i: int|
        0 <= i < s.len() ==> (#[trigger] s[i] == '\t' || (s[i] as u32 >= 32 && s[i] as u32 != 127))
}

/// Calls `reqwest::header::HeaderName::from_str` and reports whether it
/// accepted the name. Trusted: the `http` crate's parser accepts exactly the
/// names of one to 65535 bytes that are all token characters (upper-case
/// letters included, which it lower-cases).
#[verifier::external_body]
fn header_name_valid(s: &str) -> (r: bool)
    ensures
        r == header_name_ok(s@),
{
    s.parse::<reqwest::header::HeaderName>().is_ok()
}

/// Calls `reqwest::header::HeaderValue::from_str` and reports whether it
/// accepted the value. Trusted: the `http` crate accepts exactly the strings
/// whose bytes are all a tab or at least 32 and not 127; a character beyond
/// ASCII is encoded in bytes of at least 128.
#[verifier::external_body]
fn header_value_valid(s: &str) -> (r: bool)
    ensures
        r == header_value_ok(s@),
{
    reqwest::header::HeaderValue::from_str(s).is_ok()
}

/// What one `name: value` header gives: the trimmed name and value, or the
/// message that rejects it.
pub open spec fn header_outcome(h: Seq<char>) -> Result<(Seq<char>, Seq<char>), Seq<char>> {
    match split_once_spec(h, ':') {
        None => Err("Invalid header: '"@ + h + "'"@),
        Some((k, v)) => if !header_name_ok(trim_spec(k)) {
            Err("Invalid name: '"@ + k + "'"@)
        } else if !header_value_ok(trim_spec(v)) {
            Err("Invalid value: '"@ + v + "'"@)
        } else {
            Ok((trim_spec(k), trim_spec(v)))
        },
    }
}

/// What a list of headers gives: each header's name and value, or the message
/// that rejects the first header that is rejected.
pub open spec fn headers_outcome(hs: Seq<Seq<char>>) -> Result<Seq<(Seq<char>, Seq<char>)>, Seq<char>>
    decreases hs.len(),
{
    if hs.len() == 0 {
        Ok(Seq::empty())
    } else {
        match headers_outcome(hs.drop_last()) {
            Err(e) => Err(e),
            Ok(ps) => match header_outcome(hs.last()) {
                Err(e) => Err(e),
                Ok(p) => Ok(ps.push(p)),
            },
        }
    }
}

/// The characters of each name and value.
pub open spec fn string_pairs_view(v: Seq<(String, String)>) -> Seq<(Seq<char>, Seq<char>)> {
    v.map_values(|p: (String, String)| (p.0@, p.1@))
}

/// The characters of each name and value, or of the message.
pub open spec fn headers_result_view(r: Result<Vec<(String, String)>, String>) -> Result<
    Seq<(Seq<char>, Seq<char>)>,
    Seq<char>,
> {
    match r {
        Ok(v) => Ok(string_pairs_view(v@)),
        Err(e) => Err(e@),
    }
}

/// `prefix`, then `s`, then a closing quote.
fn quoted_message(prefix: &str, s: &str) -> (r: String)
    ensures
        r@ == prefix@ + s@ + "'"@,
{
    let mut m = String::from_str(prefix);
    m.append(s);
    m.append("'");
    m
}

/// Splits a `name: value` header at its first colon and trims both parts.
pub fn parse_header(header: &str) -> (r: Result<(String, String), String>)
    ensures
        match r {
            Ok((k, v)) => header_outcome(header@) == Ok::<(Seq<char>, Seq<char>), Seq<char>>(
                (k@, v@),
            ),
            Err(e) => header_outcome(header@) == Err::<(Seq<char>, Seq<char>), Seq<char>>(e@),
        },
{
    let cs = chars_of(header);
    let colon = match find_char(&cs, ':') {
        Some(i) => i,
        None => {
            return Err(quoted_message("Invalid header: '", header));
        },
    };
    let k = header.substring_char(0, colon);
    let v = header.substring_char(colon + 1, cs.len());
    assert(k@ =~= header@.take(colon as int));
    assert(v@ =~= header@.skip(colon + 1));
    let name = trim(k);
    if !header_name_valid(name) {
        return Err(quoted_message("Invalid name: '", k));
    }
    let value = trim(v);
    if !header_value_valid(value) {
        return Err(quoted_message("Invalid value: '", v));
    }
    Ok((String::from_str(name), String::from_str(value)))
}

/// Parses request headers written `name: value`: the trimmed names and
/// values in order, or the message for the first header that is rejected.
pub fn parse_headers(headers: &[String]) -> (r: Result<Vec<(String, String)>, String>)
    ensures
        headers_result_view(r) == headers_outcome(strings_view(headers@)),
{
    let mut out: Vec<(String, String)> = Vec::new();
    let mut i: usize = 0;
    assert(strings_view(headers@).take(0) =~= Seq::<Seq<char>>::empty());
    assert(string_pairs_view(out@) =~= Seq::empty());
    while i < headers.len()
        invariant
            i <= headers.len(),
            headers_outcome(strings_view(headers@).take(i as int)) == headers_result_view(
                Ok::<Vec<(String, String)>, String>(out),
            ),
        decreases headers.len() - i,
    {
        assert(strings_view(headers@).take(i + 1).drop_last() =~= strings_view(headers@).take(
            i as int,
        ));
        assert(strings_view(headers@).take(i + 1).last() == headers@[i as int]@);
        match parse_header(headers[i].as_str()) {
            Ok(p) => {
                let ghost before = out@;
                out.push(p);
                assert(string_pairs_view(out@) =~= string_pairs_view(before).push((p.0@, p.1@)));
            },
            Err(e) => {
                proof {
                    lemma_headers_error_stays(strings_view(headers@), (i + 1) as int);
                }
                return Err(e);
            },
        }
        i = i + 1;
    }
    assert(strings_view(headers@).take(headers.len() as int) =~= strings_view(headers@));
    Ok(out)
}

/// Once a header is rejected, the outcome of any longer list is that error.
proof fn lemma_headers_error_stays(hs: Seq<Seq<char>>, n: int)
    requires
        0 <= n <= hs.len(),
        headers_outcome(hs.take(n)) is Err,
    ensures
        headers_outcome(hs) == headers_outcome(hs.take(n)),
    decreases hs.len() - n,
{
    if n < hs.len() {
        assert(hs.take(n + 1).drop_last() =~= hs.take(n));
        lemma_headers_error_stays(hs, n + 1);
    } else {
        assert(hs.take(n) =~= hs);
    }
}

} // verus!
