//! The options of a search, as plain values.
use vstd::prelude::*;
use crate::schema::MatchConfig;

verus! {

/// The HTTP method used to fetch a schema from a URL.
#[derive(Copy, Clone, Debug, PartialEq, Eq, Structural)]
pub enum HttpMethod {
    Get,
    Post,
}

impl Default for HttpMethod {
    fn default() -> (r: Self)
        ensures
            r == HttpMethod::Post,
    {
        HttpMethod::Post
    }
}

/// What the search term is compared with.
#[derive(Copy, Clone, Debug, PartialEq, Eq, Structural)]
pub enum SearchMode {
    /// Type names.
    Type,
    /// Descriptions of types and of their fields.
    Description,
    /// Names of the fields of a type.
    Field,
}

impl Default for SearchMode {
    fn default() -> (r: Self)
        ensures
            r == SearchMode::Type,
    {
        SearchMode::Type
    }
}

/// How the search term is matched.
#[derive(Copy, Clone, Debug)]
pub struct MatchOptions {
    /// Match when the term occurs in the text rather than equals it.
    pub contains: bool,
    /// Compare lower-case forms.
    pub ignore_case: bool,
}

impl MatchOptions {
    /// The matching configuration these options describe.
    pub fn to_config(self) -> (r: MatchConfig)
        ensures
            r.contains == self.contains,
            r.ignore_case == self.ignore_case,
    {
        MatchConfig { contains: self.contains, ignore_case: self.ignore_case }
    }
}

/// Where and how the introspection result is fetched.
#[derive(Clone, Debug)]
pub struct QueryOptions {
    /// The input names a URL rather than a file.
    pub url: bool,
    /// Request headers, each written `name: value`.
    pub headers: Vec<String>,
    /// A file holding a custom introspection query.
    pub query_file: Option<String>,
    /// A custom introspection query.
    pub query: Option<String>,
    /// The HTTP method of the request.
    pub method: HttpMethod,
}

/// Where the introspection result comes from.
#[derive(Copy, Clone, Debug, PartialEq, Eq, Structural)]
pub enum ContentSource {
    /// A file on disk.
    File,
    /// The answer to a POST request.
    Post,
    /// The answer to a GET request.
    Get,
}

impl QueryOptions {
    /// Where the introspection result comes from: a file, unless the input is
    /// a URL, which is then fetched with the chosen method.
    pub fn content_source(&self) -> (r: ContentSource)
        ensures
            r == (if !self.url {
                ContentSource::File
            } else if self.method == HttpMethod::Post {
                ContentSource::Post
            } else {
                ContentSource::Get
            }),
    {
        if !self.url {
            ContentSource::File
        } else {
            match self.method {
                HttpMethod::Post => ContentSource::Post,
                HttpMethod::Get => ContentSource::Get,
            }
        }
    }
}

/// All options of one run.
#[derive(Clone, Debug)]
pub struct Arguments {
    /// The introspection result's file, or its URL.
    pub file: String,
    /// The search term.
    pub search: String,
    /// Where to write the result; the console when absent.
    pub output_file: Option<String>,
    /// Disable colored output.
    pub no_color: bool,
    /// What the term is compared with.
    pub search_mode: SearchMode,
    pub match_opt: MatchOptions,
    pub query_opt: QueryOptions,
}

} // verus!
