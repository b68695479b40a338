//! The template formatter: [`PromptTemplate`] and the [`Prompt`] capability.

use crate::args::has_key;
use crate::args::PromptArgs;
use crate::model::first_missing;
use crate::model::first_token_match;
use crate::model::lemma_first_missing;
use crate::model::lemma_first_token_match;
use crate::model::substitute;
use crate::model::token_view;
use crate::model::TemplateFormat;
use crate::text::is_prefix_at;
use crate::text::is_prefix_of;
use std::sync::Arc;
use vstd::prelude::*;

verus! {

/// The one way formatting can fail: a declared variable was not supplied.
#[derive(Debug, PartialEq, Eq)]
pub enum FormatError {
    MissingVariable(String),
}

impl FormatError {
    /// The name of the variable this error reports as missing.
    pub closed spec fn spec_variable(&self) -> Seq<char> {
        match self {
            FormatError::MissingVariable(name) => name@,
        }
    }

    /// The error text: which variable was missing from the input variables.
    pub fn message(&self) -> (r: String)
        ensures
            r@ == "Variable "@ + self.spec_variable() + " is missing from input variables"@,
    {
        match self {
            FormatError::MissingVariable(name) => {
                let mut r = String::from_str("Variable ");
                r.append(name.as_str());
                r.append(" is missing from input variables");
                r
            },
        }
    }
}

/// The capability a template type offers: expose its text and declared
/// variables, and format an argument mapping into the substituted string.
pub trait Prompt: Send + Sync {
    /// The raw template text.
    spec fn spec_template(&self) -> Seq<char>;

    /// The declared variable names, in declaration order.
    spec fn spec_variables(&self) -> Seq<Seq<char>>;

    /// The string this template substitutes a given entry sequence into.
    spec fn spec_substituted(&self, entries: Seq<(Seq<char>, Seq<char>)>) -> Seq<char>;

    /// The template text.
    fn template(&self) -> (r: String)
        ensures
            r@ == self.spec_template(),
    ;

    /// The declared variable names.
    fn variables(&self) -> (r: Vec<String>)
        ensures
            r@.map_values(|v: String| v@) == self.spec_variables(),
    ;

    /// Substitute `input_variables` into the template.
    ///
    /// Succeeds exactly when every declared variable is supplied, whatever
    /// extra names the input carries; otherwise it reports the first missing
    /// name in declaration order, and no substituted string is produced.
    fn format(&self, input_variables: PromptArgs) -> (r: Result<String, FormatError>)
        ensures
            r is Ok <==> (forall|i: int|
                0 <= i < self.spec_variables().len() ==> has_key(
                    input_variables@,
                    self.spec_variables()[i],
                )),
            match r {
                Ok(s) => s@ == self.spec_substituted(input_variables@),
                Err(e) => Some(e.spec_variable()) == first_missing(
                    self.spec_variables(),
                    input_variables@,
                ),
            },
    ;
}

/// An immutable template: its text, its declared variables, and the
/// placeholder format its text uses.
pub struct PromptTemplate {
    template: String,
    variables: Vec<String>,
    format: TemplateFormat,
}

impl PromptTemplate {
    /// The placeholder token shape this template was declared with.
    pub closed spec fn spec_format_kind(&self) -> TemplateFormat {
        self.format
    }

    /// Build a shareable template from its text, its declared variable
    /// names, and the placeholder format. Nothing is validated: any text is
    /// a template, and the declared names need not occur in it.
    pub fn new(template: String, variables: Vec<String>, format: TemplateFormat) -> (r: Arc<
        Self,
    >)
        ensures
            r.spec_template() == template@,
            r.spec_variables() == variables@.map_values(|v: String| v@),
            r.spec_format_kind() == format,
    {
        Arc::new(PromptTemplate { template, variables, format })
    }
}

impl Prompt for PromptTemplate {
    closed spec fn spec_template(&self) -> Seq<char> {
        self.template@
    }

    closed spec fn spec_variables(&self) -> Seq<Seq<char>> {
        self.variables@.map_values(|v: String| v@)
    }

    open spec fn spec_substituted(&self, entries: Seq<(Seq<char>, Seq<char>)>) -> Seq<char> {
        substitute(self.spec_template(), entries, self.spec_format_kind())
    }

    fn template(&self) -> (r: String) {
        self.template.clone()
    }

    fn variables(&self) -> (r: Vec<String>) {
        let mut r: Vec<String> = Vec::new();
        let n: usize = self.variables.len();
        let mut i: usize = 0;
        while i < n
            invariant
                i <= n,
                n == self.variables.len(),
                r@.len() == i,
                forall|k: int| 0 <= k < i ==> r@[k]@ == self.variables@[k]@,
            decreases n - i,
        {
            r.push(self.variables[i].clone());
            i = i + 1;
        }
        proof {
            assert(r@.map_values(|v: String| v@) =~= self.spec_variables());
        }
        r
    }

    fn format(&self, input_variables: PromptArgs) -> (r: Result<String, FormatError>) {
        let ghost vars: Seq<Seq<char>> = self.spec_variables();
        let ghost entries: Seq<(Seq<char>, Seq<char>)> = input_variables@;
        let ghost fmt: TemplateFormat = self.format;

        // Validation pass: every declared variable must be supplied.
        let n: usize = self.variables.len();
        let mut vi: usize = 0;
        while vi < n
            invariant
                vi <= n,
                n == self.variables.len(),
                vars == self.spec_variables(),
                entries == input_variables@,
                forall|k: int| 0 <= k < vi ==> has_key(entries, vars[k]),
            decreases n - vi,
        {
            if !input_variables.contains_key(self.variables[vi].as_str()) {
                proof {
                    lemma_first_missing(vars, entries);
                    assert(!has_key(entries, vars[vi as int]));
                    assert(first_missing(vars, entries) is Some);
                    let m = first_missing(vars, entries)->Some_0;
                    let i = choose|i: int|
                        0 <= i < vars.len() && vars[i] == m && !has_key(entries, m) && (forall|
                            k: int,
                        |
                            0 <= k < i ==> has_key(entries, vars[k]));
                    assert(i == vi);
                    assert(m == vars[vi as int]);
                }
                return Err(FormatError::MissingVariable(self.variables[vi].clone()));
            }
            vi = vi + 1;
        }

        // Build each entry's placeholder token.
        let m: usize = input_variables.len();
        let mut tokens: Vec<String> = Vec::new();
        let mut ei: usize = 0;
        while ei < m
            invariant
                ei <= m,
                m == input_variables@.len(),
                entries == input_variables@,
                fmt == self.format,
                tokens@.len() == ei,
                forall|k: int| 0 <= k < ei ==> tokens@[k]@ == token_view(fmt, entries[k].0),
            decreases m - ei,
        {
            let key: &String = &input_variables.entry(ei).0;
            let tok: String = token_of(self.format, key.as_str());
            tokens.push(tok);
            ei = ei + 1;
        }

        // Substitution pass: one scan over the original template text.
        let tpl: &str = self.template.as_str();
        let tpl_len: usize = tpl.unicode_len();
        let mut out: String = String::new();
        let mut pos: usize = 0;
        proof {
            assert(tpl@.skip(0) =~= tpl@);
            assert(out@ + substitute(tpl@, entries, fmt) =~= substitute(tpl@, entries, fmt));
        }
        while pos < tpl_len
            invariant
                pos <= tpl_len,
                tpl_len == tpl@.len(),
                tpl@ == self.spec_template(),
                entries == input_variables@,
                fmt == self.format,
                tokens@.len() == entries.len(),
                forall|k: int|
                    0 <= k < tokens@.len() ==> tokens@[k]@ == token_view(fmt, entries[k].0),
                out@ + substitute(tpl@.skip(pos as int), entries, fmt) == substitute(
                    tpl@,
                    entries,
                    fmt,
                ),
            decreases tpl_len - pos,
        {
            let found = find_first_match(tpl, pos, &tokens);
            let ghost suffix: Seq<char> = tpl@.skip(pos as int);
            let ghost toks: Seq<Seq<char>> = tokens@.map_values(|t: String| t@);
            proof {
                assert(forall|j: int| 0 <= j < toks.len() ==> toks[j] == tokens@[j]@);
                lemma_match_correspondence(
                    suffix,
                    entries,
                    fmt,
                    toks,
                    match found {
                        Some(k) => Some(k as int),
                        None => None,
                    },
                );
            }
            match found {
                Some(k) => {
                    proof {
                        assert(first_token_match(suffix, entries, fmt) == Some(k as int));
                    }
                    let tok_chars: usize = tokens[k].as_str().unicode_len();
                    out.append(input_variables.entry(k).1.as_str());
                    proof {
                        assert(suffix.skip(tok_chars as int) =~= tpl@.skip(
                            pos as int + tok_chars as int,
                        ));
                        assert(out@ + substitute(tpl@.skip(pos as int + tok_chars as int),
                            entries,
                            fmt,
                        ) =~= substitute(tpl@, entries, fmt));
                    }
                    pos = pos + tok_chars;
                },
                None => {
                    proof {
                        assert(first_token_match(suffix, entries, fmt) is None);
                    }
                    out.append(tpl.substring_char(pos, pos + 1));
                    proof {
                        assert(tpl@.subrange(pos as int, pos as int + 1) =~= seq![suffix[0]]);
                        assert(suffix.drop_first() =~= tpl@.skip(pos as int + 1));
                        assert(out@ + substitute(tpl@.skip(pos as int + 1), entries, fmt)
                            =~= substitute(tpl@, entries, fmt));
                    }
                    pos = pos + 1;
                },
            }
        }
        proof {
            assert(tpl@.skip(tpl_len as int) =~= Seq::<char>::empty());
            assert(out@ + substitute(tpl@.skip(tpl_len as int), entries, fmt) =~= out@);
        }
        Ok(out)
    }
}

/// When each of `toks` is the placeholder token of the matching entry, the
/// first of `toks` that starts `suffix` picks out `first_token_match`.
proof fn lemma_match_correspondence(
    suffix: Seq<char>,
    entries: Seq<(Seq<char>, Seq<char>)>,
    fmt: TemplateFormat,
    toks: Seq<Seq<char>>,
    r: Option<int>,
)
    requires
        toks.len() == entries.len(),
        forall|k: int| 0 <= k < toks.len() ==> toks[k] == token_view(fmt, entries[k].0),
        match r {
            Some(k) => 0 <= k < toks.len() && is_prefix_of(toks[k], suffix) && (forall|j: int|
                0 <= j < k ==> !is_prefix_of(toks[j], suffix)),
            None => forall|j: int| 0 <= j < toks.len() ==> !is_prefix_of(toks[j], suffix),
        },
    ensures
        first_token_match(suffix, entries, fmt) == r,
{
    lemma_first_token_match(suffix, entries, fmt);
    match (r, first_token_match(suffix, entries, fmt)) {
        (Some(k), Some(j)) => {
            if j < k {
                assert(toks[j] == token_view(fmt, entries[j].0));
                assert(is_prefix_of(token_view(fmt, entries[j].0), suffix));
                assert(!is_prefix_of(toks[j], suffix));
                assert(false);
            } else if k < j {
                assert(toks[k] == token_view(fmt, entries[k].0));
                assert(!is_prefix_of(token_view(fmt, entries[k].0), suffix));
                assert(is_prefix_of(toks[k], suffix));
                assert(false);
            }
        },
        (Some(k), None) => {
            assert(toks[k] == token_view(fmt, entries[k].0));
            assert(!is_prefix_of(token_view(fmt, entries[k].0), suffix));
            assert(false);
        },
        (None, Some(j)) => {
            assert(toks[j] == token_view(fmt, entries[j].0));
            assert(is_prefix_of(token_view(fmt, entries[j].0), suffix));
            assert(false);
        },
        (None, None) => {},
    }
}

/// The placeholder token string that marks `key` under `fmt`.
fn token_of(fmt: TemplateFormat, key: &str) -> (r: String)
    ensures
        r@ == token_view(fmt, key@),
{
    match fmt {
        TemplateFormat::FString => {
            let mut tok = String::from_str("{");
            tok.append(key);
            tok.append("}");
            proof {
                reveal_strlit("{");
                reveal_strlit("}");
                assert(tok@ =~= token_view(fmt, key@));
            }
            tok
        },
        TemplateFormat::Jinja2 => {
            let mut tok = String::from_str("{{");
            tok.append(key);
            tok.append("}}");
            proof {
                reveal_strlit("{{");
                reveal_strlit("}}");
                assert(tok@ =~= token_view(fmt, key@));
            }
            tok
        },
    }
}

/// Index of the first token of `tokens` that occurs in `s` at position `pos`.
fn find_first_match(s: &str, pos: usize, tokens: &Vec<String>) -> (r: Option<usize>)
    requires
        pos <= s@.len(),
    ensures
        match r {
            Some(k) => 0 <= k < tokens@.len() && is_prefix_of(tokens@[k as int]@, s@.skip(
                pos as int,
            )) && (forall|j: int|
                0 <= j < k ==> !is_prefix_of(tokens@[j]@, s@.skip(pos as int))),
            None => forall|j: int|
                0 <= j < tokens@.len() ==> !is_prefix_of(tokens@[j]@, s@.skip(pos as int)),
        },
{
    let n: usize = tokens.len();
    let mut k: usize = 0;
    while k < n
        invariant
            k <= n,
            n == tokens@.len(),
            pos <= s@.len(),
            forall|j: int| 0 <= j < k ==> !is_prefix_of(tokens@[j]@, s@.skip(pos as int)),
        decreases n - k,
    {
        if is_prefix_at(s, tokens[k].as_str(), pos) {
            return Some(k);
        }
        k = k + 1;
    }
    None
}

} // verus!
