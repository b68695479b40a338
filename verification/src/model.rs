//! The mathematical model of template formatting.
//!
//! A template is a character sequence; an argument mapping is a sequence of
//! `(name, value)` entry pairs. [`substitute`] scans the template once, left
//! to right: wherever the placeholder token of some entry starts, the entry's
//! value is emitted and the scan resumes after the token, so the emitted
//! values are never themselves rescanned. Validation ([`first_missing`])
//! checks the declared variable names against the mapping in declaration
//! order.

use crate::args::has_key;
use crate::text::is_prefix_of;
use vstd::prelude::*;

verus! {

/// Which placeholder token shape a template uses: `{name}` or `{{name}}`.
#[derive(Clone, Copy, PartialEq, Eq, Structural, Debug)]
pub enum TemplateFormat {
    FString,
    Jinja2,
}

/// The placeholder token that marks `key` in a template of format `fmt`.
pub open spec fn token_view(fmt: TemplateFormat, key: Seq<char>) -> Seq<char> {
    match fmt {
        TemplateFormat::FString => seq!['{'] + key + seq!['}'],
        TemplateFormat::Jinja2 => seq!['{', '{'] + key + seq!['}', '}'],
    }
}

/// Index of the first entry whose placeholder token starts `s`, if any.
pub open spec fn first_token_match(
    s: Seq<char>,
    entries: Seq<(Seq<char>, Seq<char>)>,
    fmt: TemplateFormat,
) -> Option<int>
    decreases entries.len(),
{
    if entries.len() == 0 {
        None
    } else if is_prefix_of(token_view(fmt, entries[0].0), s) {
        Some(0)
    } else {
        match first_token_match(s, entries.drop_first(), fmt) {
            Some(j) => Some(j + 1),
            None => None,
        }
    }
}

/// `first_token_match` picks the earliest entry whose token starts `s`,
/// and finds none exactly when no entry's token does.
pub proof fn lemma_first_token_match(
    s: Seq<char>,
    entries: Seq<(Seq<char>, Seq<char>)>,
    fmt: TemplateFormat,
)
    ensures
        match first_token_match(s, entries, fmt) {
            Some(j) => 0 <= j < entries.len() && is_prefix_of(token_view(fmt, entries[j].0), s)
                && (forall|k: int|
                0 <= k < j ==> !is_prefix_of(token_view(fmt, entries[k].0), s)),
            None => forall|k: int|
                0 <= k < entries.len() ==> !is_prefix_of(token_view(fmt, entries[k].0), s),
        },
    decreases entries.len(),
{
    if entries.len() == 0 {
    } else if is_prefix_of(token_view(fmt, entries[0].0), s) {
    } else {
        lemma_first_token_match(s, entries.drop_first(), fmt);
        assert(forall|k: int|
            1 <= k < entries.len() ==> entries[k] == entries.drop_first()[k - 1]);
    }
}

/// The template with every placeholder token of an entry replaced by that
/// entry's value, in a single left-to-right pass over the template alone.
///
/// All replacements are computed against the original template, never against
/// inserted values, so the result does not depend on any iteration order over
/// the mapping. Tokens of distinct keys can only compete for the same spot
/// when one token is a prefix of the other (a key containing brace
/// characters); the earliest entry then wins.
pub open spec fn substitute(
    s: Seq<char>,
    entries: Seq<(Seq<char>, Seq<char>)>,
    fmt: TemplateFormat,
) -> Seq<char>
    decreases s.len(),
    via substitute_decreases
{
    if s.len() == 0 {
        Seq::empty()
    } else {
        match first_token_match(s, entries, fmt) {
            Some(j) => entries[j].1 + substitute(
                s.skip(token_view(fmt, entries[j].0).len() as int),
                entries,
                fmt,
            ),
            None => seq![s[0]] + substitute(s.drop_first(), entries, fmt),
        }
    }
}

#[via_fn]
proof fn substitute_decreases(
    s: Seq<char>,
    entries: Seq<(Seq<char>, Seq<char>)>,
    fmt: TemplateFormat,
) {
    lemma_first_token_match(s, entries, fmt);
}

/// `needle` occurs somewhere in `hay` as a contiguous run of characters.
pub open spec fn occurs_in(needle: Seq<char>, hay: Seq<char>) -> bool {
    exists|p: int| 0 <= p <= hay.len() && is_prefix_of(needle, hay.skip(p))
}

/// A needle absent from `hay` is absent from every suffix of `hay`.
proof fn lemma_occurs_in_suffix(needle: Seq<char>, hay: Seq<char>, p: int)
    requires
        0 <= p <= hay.len(),
        !occurs_in(needle, hay),
    ensures
        !occurs_in(needle, hay.skip(p)),
{
    if occurs_in(needle, hay.skip(p)) {
        let q = choose|q: int|
            0 <= q <= hay.skip(p).len() && is_prefix_of(needle, hay.skip(p).skip(q));
        assert(hay.skip(p).skip(q) =~= hay.skip(p + q));
        assert(0 <= p + q <= hay.len() && is_prefix_of(needle, hay.skip(p + q)));
        assert(occurs_in(needle, hay));
    }
}

/// Dropping entry `j` renumbers the first token match but never changes
/// which entry it names, provided entry `j`'s token does not start `s`.
proof fn lemma_first_token_match_remove(
    s: Seq<char>,
    entries: Seq<(Seq<char>, Seq<char>)>,
    fmt: TemplateFormat,
    j: int,
)
    requires
        0 <= j < entries.len(),
        !is_prefix_of(token_view(fmt, entries[j].0), s),
    ensures
        first_token_match(s, entries.remove(j), fmt) == (match first_token_match(
            s,
            entries,
            fmt,
        ) {
            Some(k) => if k < j {
                Some(k)
            } else {
                Some(k - 1)
            },
            None => None::<int>,
        }),
    decreases entries.len(),
{
    lemma_first_token_match(s, entries, fmt);
    if j == 0 {
        assert(entries.remove(0) =~= entries.drop_first());
    } else {
        if is_prefix_of(token_view(fmt, entries[0].0), s) {
            assert(entries.remove(j)[0] == entries[0]);
        } else {
            assert(entries.drop_first()[j - 1] == entries[j]);
            lemma_first_token_match_remove(s, entries.drop_first(), fmt, j - 1);
            lemma_first_token_match(s, entries.drop_first(), fmt);
            assert(entries.remove(j).drop_first() =~= entries.drop_first().remove(j - 1));
            assert(entries.remove(j)[0] == entries[0]);
        }
    }
}

/// An entry whose placeholder token occurs nowhere in the template has no
/// effect on substitution: the result without it is the result with it.
pub proof fn lemma_absent_token_ignored(
    s: Seq<char>,
    entries: Seq<(Seq<char>, Seq<char>)>,
    fmt: TemplateFormat,
    j: int,
)
    requires
        0 <= j < entries.len(),
        !occurs_in(token_view(fmt, entries[j].0), s),
    ensures
        substitute(s, entries.remove(j), fmt) == substitute(s, entries, fmt),
    decreases s.len(),
{
    let tok = token_view(fmt, entries[j].0);
    assert(!is_prefix_of(tok, s)) by {
        if is_prefix_of(tok, s) {
            assert(s.skip(0) =~= s);
            assert(0 <= 0 <= s.len() && is_prefix_of(tok, s.skip(0)));
            assert(occurs_in(tok, s));
        }
    }
    lemma_first_token_match_remove(s, entries, fmt, j);
    lemma_first_token_match(s, entries, fmt);
    if s.len() == 0 {
    } else {
        match first_token_match(s, entries, fmt) {
            Some(k) => {
                let tk = token_view(fmt, entries[k].0);
                let rest = s.skip(tk.len() as int);
                lemma_occurs_in_suffix(tok, s, tk.len() as int);
                lemma_absent_token_ignored(rest, entries, fmt, j);
                let k2: int = if k < j {
                    k
                } else {
                    k - 1
                };
                assert(entries.remove(j)[k2] == entries[k]);
                assert(substitute(s, entries.remove(j), fmt) == entries[k].1 + substitute(
                    rest,
                    entries.remove(j),
                    fmt,
                ));
            },
            None => {
                assert(s.drop_first() =~= s.skip(1));
                lemma_occurs_in_suffix(tok, s, 1);
                lemma_absent_token_ignored(s.drop_first(), entries, fmt, j);
            },
        }
    }
}

/// Extra input entries are inert: adding an entry whose placeholder token
/// occurs nowhere in the template leaves the substituted string unchanged.
pub proof fn lemma_extra_entry_ignored(
    s: Seq<char>,
    entries: Seq<(Seq<char>, Seq<char>)>,
    fmt: TemplateFormat,
    extra: (Seq<char>, Seq<char>),
)
    requires
        !occurs_in(token_view(fmt, extra.0), s),
    ensures
        substitute(s, entries.push(extra), fmt) == substitute(s, entries, fmt),
{
    let ext = entries.push(extra);
    assert(ext.remove(entries.len() as int) =~= entries);
    lemma_absent_token_ignored(s, ext, fmt, entries.len() as int);
}

/// A supplied value is inserted verbatim and never rescanned: when the whole
/// template is the placeholder token matched by entry `j`, the result is
/// exactly that entry's value — even a value that itself equals another
/// key's placeholder token. Substitution is a single pass.
pub proof fn lemma_value_not_resubstituted(
    entries: Seq<(Seq<char>, Seq<char>)>,
    fmt: TemplateFormat,
    j: int,
)
    requires
        0 <= j < entries.len(),
        first_token_match(token_view(fmt, entries[j].0), entries, fmt) == Some(j),
    ensures
        substitute(token_view(fmt, entries[j].0), entries, fmt) == entries[j].1,
{
    let tok = token_view(fmt, entries[j].0);
    assert(tok.len() >= 2);
    assert(tok.skip(tok.len() as int) =~= Seq::<char>::empty());
    assert(substitute(Seq::<char>::empty(), entries, fmt) == Seq::<char>::empty());
    assert(substitute(tok, entries, fmt) =~= entries[j].1);
}

/// A key without brace characters, so its placeholder token is unambiguous.
pub open spec fn plain_key(key: Seq<char>) -> bool {
    forall|i: int| 0 <= i < key.len() ==> key[i] != '{' && key[i] != '}'
}

/// No two entries carry the same key.
pub open spec fn distinct_keys(entries: Seq<(Seq<char>, Seq<char>)>) -> bool {
    forall|a: int, b: int| 0 <= a < b < entries.len() ==> entries[a].0 != entries[b].0
}

/// Distinct plain keys never compete for the same spot in a template: the
/// token of one is never a prefix of the token of the other.
pub proof fn lemma_plain_tokens_disjoint(fmt: TemplateFormat, k1: Seq<char>, k2: Seq<char>)
    requires
        k1 != k2,
        plain_key(k1),
        plain_key(k2),
    ensures
        !is_prefix_of(token_view(fmt, k1), token_view(fmt, k2)),
{
    let t1 = token_view(fmt, k1);
    let t2 = token_view(fmt, k2);
    let d: int = match fmt {
        TemplateFormat::FString => 1,
        TemplateFormat::Jinja2 => 2,
    };
    assert(t1.len() == k1.len() + 2 * d);
    assert(t2.len() == k2.len() + 2 * d);
    if is_prefix_of(t1, t2) {
        assert(forall|i: int| 0 <= i < t1.len() ==> t1[i] == t2.take(t1.len() as int)[i]);
        assert(forall|i: int| 0 <= i < t1.len() ==> t1[i] == t2[i]);
        if k1.len() == k2.len() {
            assert(k1 =~= k2) by {
                assert(forall|i: int|
                    0 <= i < k1.len() ==> k1[i] == t1[i + d] && t2[i + d] == k2[i]);
            }
        } else {
            let i0 = d + k1.len() as int;
            assert(t1[i0] == '}');
            assert(t2[i0] == k2[k1.len() as int]);
            assert(k2[k1.len() as int] != '}');
        }
    }
}

/// In a mapping of distinct plain keys, the placeholder token of entry `j`
/// is matched by entry `j` itself.
pub proof fn lemma_plain_keys_first_match(
    entries: Seq<(Seq<char>, Seq<char>)>,
    fmt: TemplateFormat,
    j: int,
)
    requires
        0 <= j < entries.len(),
        distinct_keys(entries),
        forall|a: int| 0 <= a < entries.len() ==> plain_key(#[trigger] entries[a].0),
    ensures
        first_token_match(token_view(fmt, entries[j].0), entries, fmt) == Some(j),
{
    let tok = token_view(fmt, entries[j].0);
    assert(is_prefix_of(tok, tok)) by {
        assert(tok.take(tok.len() as int) =~= tok);
    }
    assert(forall|k: int| 0 <= k < entries.len() && k != j ==> !is_prefix_of(
        token_view(fmt, #[trigger] entries[k].0),
        tok,
    )) by {
        assert forall|k: int| 0 <= k < entries.len() && k != j implies !is_prefix_of(
            token_view(fmt, #[trigger] entries[k].0),
            tok,
        ) by {
            assert(entries[k].0 != entries[j].0);
            lemma_plain_tokens_disjoint(fmt, entries[k].0, entries[j].0);
        }
    }
    lemma_first_token_match(tok, entries, fmt);
    match first_token_match(tok, entries, fmt) {
        Some(i) => {
            if i < j {
                assert(!is_prefix_of(token_view(fmt, entries[i].0), tok));
                assert(false);
            } else if j < i {
                assert(!is_prefix_of(token_view(fmt, entries[j].0), tok));
                assert(false);
            }
        },
        None => {
            assert(!is_prefix_of(token_view(fmt, entries[j].0), tok));
            assert(false);
        },
    }
}

/// Single-pass substitution, for ordinary mappings: with distinct plain
/// keys, a template that is exactly the placeholder of entry `j` formats to
/// that entry's value verbatim — even a value that itself reads as another
/// key's placeholder token.
pub proof fn lemma_single_pass(entries: Seq<(Seq<char>, Seq<char>)>, fmt: TemplateFormat, j: int)
    requires
        0 <= j < entries.len(),
        distinct_keys(entries),
        forall|a: int| 0 <= a < entries.len() ==> plain_key(#[trigger] entries[a].0),
    ensures
        substitute(token_view(fmt, entries[j].0), entries, fmt) == entries[j].1,
{
    lemma_plain_keys_first_match(entries, fmt, j);
    lemma_value_not_resubstituted(entries, fmt, j);
}

/// The first declared name of `vars` that no entry of `entries` carries.
pub open spec fn first_missing(
    vars: Seq<Seq<char>>,
    entries: Seq<(Seq<char>, Seq<char>)>,
) -> Option<Seq<char>>
    decreases vars.len(),
{
    if vars.len() == 0 {
        None
    } else if !has_key(entries, vars[0]) {
        Some(vars[0])
    } else {
        first_missing(vars.drop_first(), entries)
    }
}

/// Validation succeeds exactly when every declared name is supplied, and
/// otherwise reports the first missing name in declaration order.
pub proof fn lemma_first_missing(vars: Seq<Seq<char>>, entries: Seq<(Seq<char>, Seq<char>)>)
    ensures
        first_missing(vars, entries) is None <==> (forall|i: int|
            0 <= i < vars.len() ==> has_key(entries, vars[i])),
        match first_missing(vars, entries) {
            Some(m) => exists|i: int|
                0 <= i < vars.len() && vars[i] == m && !has_key(entries, m) && (forall|k: int|
                    0 <= k < i ==> has_key(entries, vars[k])),
            None => true,
        },
    decreases vars.len(),
{
    if vars.len() == 0 {
    } else if !has_key(entries, vars[0]) {
        assert(vars[0] == vars[0] && !has_key(entries, vars[0]) && (forall|k: int|
            0 <= k < 0 ==> has_key(entries, vars[k])));
    } else {
        lemma_first_missing(vars.drop_first(), entries);
        assert(forall|k: int| 1 <= k < vars.len() ==> vars[k] == vars.drop_first()[k - 1]);
        match first_missing(vars.drop_first(), entries) {
            Some(m) => {
                let i = choose|i: int|
                    0 <= i < vars.drop_first().len() && vars.drop_first()[i] == m && !has_key(
                        entries,
                        m,
                    ) && (forall|k: int| 0 <= k < i ==> has_key(entries, vars.drop_first()[k]));
                assert(0 <= i + 1 < vars.len() && vars[i + 1] == m && !has_key(entries, m) && (
                forall|k: int| 0 <= k < i + 1 ==> has_key(entries, vars[k])));
            },
            None => {},
        }
    }
}

} // verus!
