//! A user's input, matched against the available templates.
//!
//! The query holds the typed tokens, an index of those tokens keyed by
//! their lower-cased form, and an index of the available templates keyed by
//! the lower-cased template name. It answers two questions: which typed
//! tokens name templates that exist (the sanitized selection), and which
//! template names should be proposed to complete the token being typed.
//!
//! Both indexes are association lists with distinct keys; in contracts they
//! are read through their `Map` views.

use crate::repository::{distinct_template_names, template_names, Template};
use crate::text::{char_views, lower_of, seq_starts_with, str_starts_with, to_lowercase};
use vstd::prelude::*;
use vstd::string::StringExecFns;

verus! {

/// Which templates a name filter keeps when collecting suggestions.
enum Keep {
    /// Every template.
    All,
    /// The templates whose key is not among the typed tokens' keys.
    NotTyped,
    /// The templates whose key the given text is a prefix of.
    Prefix(String),
}

/// The map read off an association list; a later entry wins over an
/// earlier one with the same key.
pub open spec fn assoc_map<V>(m: Seq<(String, V)>) -> Map<Seq<char>, V>
    decreases m.len(),
{
    if m.len() == 0 {
        Map::empty()
    } else {
        assoc_map(m.drop_last()).insert(m.last().0@, m.last().1)
    }
}

/// No two entries share a key.
pub open spec fn distinct_keys<V>(m: Seq<(String, V)>) -> bool {
    forall|i: int, j: int| 0 <= i < j < m.len() ==> (#[trigger] m[i]).0@ != (#[trigger] m[j]).0@
}

proof fn lemma_assoc_key<V>(m: Seq<(String, V)>, k: Seq<char>)
    ensures
        assoc_map(m).contains_key(k) <==> exists|i: int|
            0 <= i < m.len() && (#[trigger] m[i]).0@ == k,
    decreases m.len(),
{
    if m.len() > 0 {
        lemma_assoc_key(m.drop_last(), k);
        if m.last().0@ == k {
            assert(m[m.len() - 1].0@ == k);
        } else {
            if exists|i: int| 0 <= i < m.len() && (#[trigger] m[i]).0@ == k {
                let i = choose|i: int| 0 <= i < m.len() && (#[trigger] m[i]).0@ == k;
                assert(i < m.len() - 1);
                assert(m.drop_last()[i] == m[i]);
            }
            if exists|i: int| 0 <= i < m.drop_last().len() && (#[trigger] m.drop_last()[i]).0@
                == k {
                let i = choose|i: int|
                    0 <= i < m.drop_last().len() && (#[trigger] m.drop_last()[i]).0@ == k;
                assert(m[i] == m.drop_last()[i]);
            }
        }
    }
}

proof fn lemma_assoc_val<V>(m: Seq<(String, V)>, i: int)
    requires
        distinct_keys(m),
        0 <= i < m.len(),
    ensures
        assoc_map(m).contains_key(m[i].0@),
        assoc_map(m)[m[i].0@] == m[i].1,
    decreases m.len(),
{
    if i < m.len() - 1 {
        assert(distinct_keys(m.drop_last())) by {
            assert forall|p: int, q: int|
                0 <= p < q < m.drop_last().len() implies (#[trigger] m.drop_last()[p]).0@
                != (#[trigger] m.drop_last()[q]).0@ by {
                assert(m.drop_last()[p] == m[p]);
                assert(m.drop_last()[q] == m[q]);
            }
        }
        lemma_assoc_val(m.drop_last(), i);
        assert(m.drop_last()[i] == m[i]);
        assert(m.last().0@ != m[i].0@);
    }
}

proof fn lemma_assoc_update<V>(m: Seq<(String, V)>, i: int, p: (String, V))
    requires
        distinct_keys(m),
        0 <= i < m.len(),
        p.0@ == m[i].0@,
    ensures
        assoc_map(m.update(i, p)) == assoc_map(m).insert(p.0@, p.1),
    decreases m.len(),
{
    let mu = m.update(i, p);
    if i == m.len() - 1 {
        assert(mu.drop_last() =~= m.drop_last());
        assert(mu.last() == p);
        assert(assoc_map(m.drop_last()).insert(m[i].0@, m[i].1).insert(p.0@, p.1)
            =~= assoc_map(m.drop_last()).insert(p.0@, p.1));
    } else {
        assert(distinct_keys(m.drop_last())) by {
            assert forall|s: int, q: int|
                0 <= s < q < m.drop_last().len() implies (#[trigger] m.drop_last()[s]).0@
                != (#[trigger] m.drop_last()[q]).0@ by {
                assert(m.drop_last()[s] == m[s]);
                assert(m.drop_last()[q] == m[q]);
            }
        }
        assert(m.drop_last()[i] == m[i]);
        lemma_assoc_update(m.drop_last(), i, p);
        assert(mu.drop_last() =~= m.drop_last().update(i, p));
        assert(mu.last() == m.last());
        assert(m.last().0@ != m[i].0@);
        assert(assoc_map(m.drop_last()).insert(p.0@, p.1).insert(m.last().0@, m.last().1)
            =~= assoc_map(m.drop_last()).insert(m.last().0@, m.last().1).insert(p.0@, p.1));
    }
}

/// Whether the association list has an entry for key `k`.
fn contains_key_exec<V>(m: &Vec<(String, V)>, k: &String) -> (r: bool)
    ensures
        r == assoc_map(m@).contains_key(k@),
{
    let mut i: usize = 0;
    while i < m.len()
        invariant
            i <= m@.len(),
            forall|t: int| 0 <= t < i ==> (#[trigger] m@[t]).0@ != k@,
        decreases m@.len() - i,
    {
        if m[i].0 == *k {
            proof {
                lemma_assoc_key::<V>(m@, k@);
            }
            return true;
        }
        i = i + 1;
    }
    proof {
        lemma_assoc_key::<V>(m@, k@);
    }
    false
}

/// The value stored for key `k`, if any.
pub(crate) fn lookup<'a, V>(m: &'a Vec<(String, V)>, k: &String) -> (r: Option<&'a V>)
    requires
        distinct_keys(m@),
    ensures
        match r {
            Some(v) => assoc_map(m@).contains_key(k@) && *v == assoc_map(m@)[k@],
            None => !assoc_map(m@).contains_key(k@),
        },
{
    let mut i: usize = 0;
    while i < m.len()
        invariant
            i <= m@.len(),
            distinct_keys(m@),
            forall|t: int| 0 <= t < i ==> (#[trigger] m@[t]).0@ != k@,
        decreases m@.len() - i,
    {
        if m[i].0 == *k {
            proof {
                lemma_assoc_val(m@, i as int);
            }
            return Some(&m[i].1);
        }
        i = i + 1;
    }
    proof {
        lemma_assoc_key::<V>(m@, k@);
    }
    None
}

/// Stores `v` under `k`: replaces the entry holding `k`, or appends one.
fn upsert<V>(m: &mut Vec<(String, V)>, k: String, v: V)
    requires
        distinct_keys(old(m)@),
    ensures
        distinct_keys(final(m)@),
        assoc_map(final(m)@) == assoc_map(old(m)@).insert(k@, v),
        forall|i: int|
            0 <= i < final(m)@.len() ==> (((#[trigger] final(m)@[i]).0@ == k@ && final(m)@[i].1
                == v) || exists|j: int| 0 <= j < old(m)@.len() && final(m)@[i] == old(m)@[j]),
{
    let mut i: usize = 0;
    while i < m.len()
        invariant
            i <= m@.len(),
            m@ == old(m)@,
            distinct_keys(m@),
            forall|t: int| 0 <= t < i ==> (#[trigger] m@[t]).0@ != k@,
        decreases m@.len() - i,
    {
        if m[i].0 == *(&k) {
            proof {
                lemma_assoc_update(m@, i as int, (k, v));
            }
            m.set(i, (k, v));
            proof {
                assert forall|p: int, q: int|
                    0 <= p < q < m@.len() implies (#[trigger] m@[p]).0@
                    != (#[trigger] m@[q]).0@ by {
                    assert(old(m)@[p].0@ != old(m)@[q].0@);
                }
            }
            return ;
        }
        i = i + 1;
    }
    m.push((k, v));
    proof {
        assert(m@.drop_last() =~= old(m)@);
        assert forall|p: int, q: int|
            0 <= p < q < m@.len() implies (#[trigger] m@[p]).0@ != (#[trigger] m@[q]).0@ by {
            if q < m@.len() - 1 {
                assert(old(m)@[p].0@ != old(m)@[q].0@);
            } else {
                assert(m@[q].0@ == k@);
                assert(m@[p] == old(m)@[p]);
            }
        }
    }
}

/// The character views of a sequence of string slices.
pub open spec fn str_views(v: Seq<&str>) -> Seq<Seq<char>> {
    v.map_values(|s: &str| s@)
}

/// The token index built from tokens in typing order: each token is
/// stored under its lower-cased form, and a later token wins over an
/// earlier one with the same lower-cased form.
pub open spec fn token_map_of(toks: Seq<String>) -> Map<Seq<char>, String>
    decreases toks.len(),
{
    if toks.len() == 0 {
        Map::empty()
    } else {
        token_map_of(toks.drop_last()).insert(lower_of(toks.last()@), toks.last())
    }
}

/// The template index built from the catalog: each template is stored
/// under the lower-cased form of its display name.
pub open spec fn template_map_of(ts: Seq<Template>) -> Map<Seq<char>, Template>
    decreases ts.len(),
{
    if ts.len() == 0 {
        Map::empty()
    } else {
        template_map_of(ts.drop_last()).insert(lower_of(ts.last().name@), ts.last())
    }
}

/// No two entries of the token index hold the same token.
pub open spec fn distinct_tokens(m: Seq<(String, String)>) -> bool {
    forall|i: int, j: int| 0 <= i < j < m.len() ==> (#[trigger] m[i]).1@ != (#[trigger] m[j]).1@
}

/// No two entries of the template index hold templates with the same
/// display name.
pub open spec fn distinct_names(m: Seq<(String, Template)>) -> bool {
    forall|i: int, j: int|
        0 <= i < j < m.len() ==> (#[trigger] m[i]).1.name@ != (#[trigger] m[j]).1.name@
}

/// The tokens selected by a token index, read off in entry order: each
/// stored token whose key also names a template.
pub open spec fn selected_tokens_rec(
    qm: Seq<(String, String)>,
    tm: Map<Seq<char>, Template>,
) -> Seq<Seq<char>>
    decreases qm.len(),
{
    if qm.len() == 0 {
        Seq::empty()
    } else {
        let rest = selected_tokens_rec(qm.drop_last(), tm);
        if tm.contains_key(qm.last().0@) {
            rest.push(qm.last().1@)
        } else {
            rest
        }
    }
}

/// Represents a user's input.
///
/// The query provides a way to sanitize the input down to the tokens that
/// name templates of the repository, and makes suggestions for the last
/// phrase the user is entering.
pub struct Query {
    /// The tokens as typed, in order.
    pub query: Vec<String>,
    /// The typed tokens keyed by their lower-cased form; on tokens equal
    /// up to case, the one typed last wins.
    pub query_map: Vec<(String, String)>,
    /// The available templates keyed by the lower-cased template name.
    pub templates_map: Vec<(String, Template)>,
}

impl Query {
    /// The typed tokens, as character sequences.
    pub open spec fn tokens(&self) -> Seq<Seq<char>> {
        char_views(self.query@)
    }

    /// The token index as a map.
    pub open spec fn token_map(&self) -> Map<Seq<char>, String> {
        assoc_map(self.query_map@)
    }

    /// The template index as a map.
    pub open spec fn template_map(&self) -> Map<Seq<char>, Template> {
        assoc_map(self.templates_map@)
    }

    /// Both indexes have distinct keys, distinct stored tokens and
    /// distinct template names.
    pub open spec fn wf(&self) -> bool {
        &&& distinct_keys(self.query_map@)
        &&& distinct_tokens(self.query_map@)
        &&& distinct_keys(self.templates_map@)
        &&& distinct_names(self.templates_map@)
    }

    /// A typed token belongs to the sanitized selection when the token
    /// index stores it under a key that the template index also has: its
    /// lower-cased form names an available template.
    pub open spec fn selected(self, s: Seq<char>) -> bool {
        exists|k: Seq<char>|
            #![auto]
            self.token_map().contains_key(k) && self.token_map()[k]@ == s
                && self.template_map().contains_key(k)
    }

    /// A name is suggested when the query proposes it for the last typed
    /// token: every template name on no input at all; the names not yet
    /// typed once the last token exactly names a template; otherwise the
    /// names whose lower-cased form the last token is a prefix of.
    pub open spec fn suggested(self, n: Seq<char>) -> bool {
        if self.tokens().len() == 0 {
            exists|k: Seq<char>|
                #![auto]
                self.template_map().contains_key(k) && self.template_map()[k].name@ == n
        } else {
            let last = lower_of(self.tokens().last());
            if self.template_map().contains_key(last) {
                exists|k: Seq<char>|
                    #![auto]
                    self.template_map().contains_key(k) && self.template_map()[k].name@ == n
                        && !self.token_map().contains_key(k)
            } else {
                exists|k: Seq<char>|
                    #![auto]
                    self.template_map().contains_key(k) && self.template_map()[k].name@ == n
                        && seq_starts_with(k, last)
            }
        }
    }

    /// Returns a new query object.
    ///
    /// The query represents the user's input. It is analyzed after each
    /// keystroke to provide suggestions, and to filter the list of
    /// templates. Building a query always succeeds; obtaining the catalog
    /// in the first place is the caller's concern.
    pub fn new(templates: Vec<Template>, query: Option<Vec<&str>>) -> (q: Query)
        ensures
            q.wf(),
            q.tokens() == (match query {
                Some(values) => str_views(values@),
                None => Seq::<Seq<char>>::empty(),
            }),
            q.token_map() == token_map_of(q.query@),
            q.template_map() == template_map_of(templates@),
    {
        let tokens: Vec<String> = match query {
            Some(values) => {
                let mut ts: Vec<String> = Vec::new();
                let mut i: usize = 0;
                while i < values.len()
                    invariant
                        i <= values@.len(),
                        char_views(ts@) == str_views(values@.subrange(0, i as int)),
                    decreases values@.len() - i,
                {
                    let ghost prev = ts@;
                    ts.push(String::from_str(values[i]));
                    proof {
                        assert(ts@.drop_last() =~= prev);
                        assert(ts@.last()@ == values@[i as int]@);
                        assert(char_views(ts@) =~= char_views(prev).push(values@[i as int]@));
                        assert(str_views(values@.subrange(0, i + 1)) =~= str_views(
                            values@.subrange(0, i as int),
                        ).push(values@[i as int]@));
                    }
                    i = i + 1;
                }
                proof {
                    assert(values@.subrange(0, values@.len() as int) =~= values@);
                }
                ts
            },
            None => Vec::new(),
        };
        let mut query_map: Vec<(String, String)> = Vec::new();
        let mut i: usize = 0;
        while i < tokens.len()
            invariant
                i <= tokens@.len(),
                distinct_keys(query_map@),
                assoc_map(query_map@) == token_map_of(tokens@.subrange(0, i as int)),
                forall|t: int|
                    0 <= t < query_map@.len() ==> (#[trigger] query_map@[t]).0@ == lower_of(
                        query_map@[t].1@,
                    ),
            decreases tokens@.len() - i,
        {
            let low: String = to_lowercase(tokens[i].as_str());
            let orig: String = tokens[i].clone();
            upsert(&mut query_map, low, orig);
            proof {
                assert(tokens@.subrange(0, i + 1).drop_last() =~= tokens@.subrange(0, i as int));
                assert(tokens@.subrange(0, i + 1).last() == tokens@[i as int]);
            }
            i = i + 1;
        }
        proof {
            assert(tokens@.subrange(0, tokens@.len() as int) =~= tokens@);
        }
        let mut templates_map: Vec<(String, Template)> = Vec::new();
        let mut j: usize = 0;
        while j < templates.len()
            invariant
                j <= templates@.len(),
                distinct_keys(templates_map@),
                assoc_map(templates_map@) == template_map_of(templates@.subrange(0, j as int)),
                forall|t: int|
                    0 <= t < templates_map@.len() ==> (#[trigger] templates_map@[t]).0@ == lower_of(
                        templates_map@[t].1.name@,
                    ),
            decreases templates@.len() - j,
        {
            let t: Template = templates[j].clone();
            let low: String = to_lowercase(t.name.as_str());
            upsert(&mut templates_map, low, t);
            proof {
                assert(templates@.subrange(0, j + 1).drop_last() =~= templates@.subrange(
                    0,
                    j as int,
                ));
                assert(templates@.subrange(0, j + 1).last() == templates@[j as int]);
            }
            j = j + 1;
        }
        proof {
            assert(templates@.subrange(0, templates@.len() as int) =~= templates@);
        }
        let q = Query { query: tokens, query_map, templates_map };
        proof {
            assert(distinct_tokens(q.query_map@)) by {
                assert forall|p: int, t: int|
                    0 <= p < t < q.query_map@.len() implies (#[trigger] q.query_map@[p]).1@
                    != (#[trigger] q.query_map@[t]).1@ by {
                    assert(q.query_map@[p].0@ == lower_of(q.query_map@[p].1@));
                    assert(q.query_map@[t].0@ == lower_of(q.query_map@[t].1@));
                }
            }
            assert(distinct_names(q.templates_map@)) by {
                assert forall|p: int, t: int|
                    0 <= p < t < q.templates_map@.len() implies (#[trigger] q.templates_map@[p]).1.name@
                    != (#[trigger] q.templates_map@[t]).1.name@ by {
                    assert(q.templates_map@[p].0@ == lower_of(q.templates_map@[p].1.name@));
                    assert(q.templates_map@[t].0@ == lower_of(q.templates_map@[t].1.name@));
                }
            }
        }
        q
    }

    /// Returns a list of valid template names.
    ///
    /// Since users can provide arbitrary strings as a query, this method
    /// filters their input down to the typed tokens whose lower-cased
    /// form names a template of the repository, each kept in the case the
    /// user typed. Tokens with no match are silently dropped.
    pub fn sanitized_query(&self) -> (r: Vec<String>)
        requires
            self.wf(),
        ensures
            char_views(r@) == selected_tokens_rec(self.query_map@, self.template_map()),
            forall|i: int, j: int| 0 <= i < j < r@.len() ==> r@[i]@ != r@[j]@,
            forall|s: Seq<char>| #[trigger] char_views(r@).contains(s) <==> self.selected(s),
    {
        let mut out: Vec<String> = Vec::new();
        let mut i: usize = 0;
        proof {
            assert(self.query_map@.subrange(0, 0) =~= Seq::<(String, String)>::empty());
            assert(char_views(out@) =~= Seq::<Seq<char>>::empty());
        }
        while i < self.query_map.len()
            invariant
                i <= self.query_map@.len(),
                self.wf(),
                char_views(out@) == selected_tokens_rec(
                    self.query_map@.subrange(0, i as int),
                    assoc_map(self.templates_map@),
                ),
                forall|p: int, q: int| 0 <= p < q < out@.len() ==> out@[p]@ != out@[q]@,
                forall|s: Seq<char>| #[trigger]
                    char_views(out@).contains(s) <==> exists|t: int|
                        #![auto]
                        0 <= t < i && self.query_map@[t].1@ == s && assoc_map(
                            self.templates_map@,
                        ).contains_key(self.query_map@[t].0@),
            decreases self.query_map@.len() - i,
        {
            let ghost prev = out@;
            let ghost pre = self.query_map@.subrange(0, i as int);
            let ghost pre1 = self.query_map@.subrange(0, i + 1);
            proof {
                assert(pre1.drop_last() =~= pre);
                assert(pre1.last() == self.query_map@[i as int]);
            }
            proof {
                assert(forall|s: Seq<char>| #[trigger]
                    char_views(prev).contains(s) <==> exists|t: int|
                        #![auto]
                        0 <= t < i && self.query_map@[t].1@ == s && assoc_map(
                            self.templates_map@,
                        ).contains_key(self.query_map@[t].0@));
            }
            if contains_key_exec(&self.templates_map, &self.query_map[i].0) {
                out.push(self.query_map[i].1.clone());
                proof {
                    assert(out@.drop_last() =~= prev);
                    assert(char_views(out@).drop_last() =~= char_views(prev));
                    assert(char_views(out@).last() == self.query_map@[i as int].1@);
                    assert(char_views(out@) =~= char_views(prev).push(
                        self.query_map@[i as int].1@,
                    ));
                    assert(char_views(out@) == selected_tokens_rec(
                        pre1,
                        assoc_map(self.templates_map@),
                    ));
                    assert forall|p: int, q: int| 0 <= p < q < out@.len() implies out@[p]@
                        != out@[q]@ by {
                        if q == out@.len() - 1 {
                            if out@[p]@ == out@[q]@ {
                                assert(char_views(prev)[p] == out@[p]@);
                                assert(char_views(prev).contains(out@[p]@));
                                let t = choose|t: int|
                                    #![auto]
                                    0 <= t < i && self.query_map@[t].1@ == out@[p]@ && assoc_map(
                                        self.templates_map@,
                                    ).contains_key(self.query_map@[t].0@);
                                assert(self.query_map@[t].1@ != self.query_map@[i as int].1@);
                                assert(false);
                            }
                        } else {
                            assert(out@[p] == prev[p]);
                            assert(out@[q] == prev[q]);
                        }
                    }
                    assert forall|s: Seq<char>| #[trigger]
                        char_views(out@).contains(s) implies exists|t: int|
                        #![auto]
                        0 <= t < i + 1 && self.query_map@[t].1@ == s && assoc_map(
                            self.templates_map@,
                        ).contains_key(self.query_map@[t].0@) by {
                        let w = choose|w: int|
                            0 <= w < char_views(out@).len() && char_views(out@)[w] == s;
                        if w < char_views(out@).len() - 1 {
                            assert(char_views(prev)[w] == char_views(out@)[w]);
                            assert(char_views(prev).contains(s));
                            let t3 = choose|t3: int|
                                #![auto]
                                0 <= t3 < i && self.query_map@[t3].1@ == s && assoc_map(
                                    self.templates_map@,
                                ).contains_key(self.query_map@[t3].0@);
                            assert(0 <= t3 < i + 1 && self.query_map@[t3].1@ == s && assoc_map(
                                self.templates_map@,
                            ).contains_key(self.query_map@[t3].0@));
                        } else {
                            assert(self.query_map@[i as int].1@ == s);
                        }
                    }
                    assert forall|s: Seq<char>|
                        exists|t: int|
                            #![auto]
                            0 <= t < i + 1 && self.query_map@[t].1@ == s && assoc_map(
                                self.templates_map@,
                            ).contains_key(
                                self.query_map@[t].0@,
                            ) implies #[trigger] char_views(out@).contains(s) by {
                        let t = choose|t: int|
                            #![auto]
                            0 <= t < i + 1 && self.query_map@[t].1@ == s && assoc_map(
                                self.templates_map@,
                            ).contains_key(self.query_map@[t].0@);
                        if t < i {
                            assert(0 <= t < i && self.query_map@[t].1@ == s && assoc_map(
                                self.templates_map@,
                            ).contains_key(self.query_map@[t].0@));
                            assert(exists|t2: int|
                                #![auto]
                                0 <= t2 < i && self.query_map@[t2].1@ == s && assoc_map(
                                    self.templates_map@,
                                ).contains_key(self.query_map@[t2].0@));
                            assert(char_views(prev).contains(s));
                            let w = choose|w: int|
                                0 <= w < char_views(prev).len() && char_views(prev)[w] == s;
                            assert(char_views(out@)[w] == s);
                        } else {
                            assert(char_views(out@)[char_views(out@).len() - 1] == s);
                        }
                    }
                }
            } else {
                proof {
                    assert(char_views(out@) == selected_tokens_rec(
                        pre1,
                        assoc_map(self.templates_map@),
                    ));
                    assert forall|s: Seq<char>| #[trigger]
                        char_views(out@).contains(s) <==> exists|t: int|
                            #![auto]
                            0 <= t < i + 1 && self.query_map@[t].1@ == s && assoc_map(
                                self.templates_map@,
                            ).contains_key(self.query_map@[t].0@) by {
                        if exists|t: int|
                            #![auto]
                            0 <= t < i + 1 && self.query_map@[t].1@ == s && assoc_map(
                                self.templates_map@,
                            ).contains_key(self.query_map@[t].0@) {
                            let t = choose|t: int|
                                #![auto]
                                0 <= t < i + 1 && self.query_map@[t].1@ == s && assoc_map(
                                    self.templates_map@,
                                ).contains_key(self.query_map@[t].0@);
                            assert(t < i);
                        }
                    }
                }
            }
            i = i + 1;
        }
        proof {
            assert(self.query_map@.subrange(0, self.query_map@.len() as int) =~= self.query_map@);
            assert forall|s: Seq<char>| #[trigger]
                char_views(out@).contains(s) <==> self.selected(s) by {
                if char_views(out@).contains(s) {
                    let t = choose|t: int|
                        #![auto]
                        0 <= t < self.query_map@.len() && self.query_map@[t].1@ == s && assoc_map(
                            self.templates_map@,
                        ).contains_key(self.query_map@[t].0@);
                    lemma_assoc_val(self.query_map@, t);
                    assert(self.token_map().contains_key(self.query_map@[t].0@));
                    assert(self.token_map()[self.query_map@[t].0@]@ == s);
                }
                if self.selected(s) {
                    let k = choose|k: Seq<char>|
                        #![auto]
                        self.token_map().contains_key(k) && self.token_map()[k]@ == s
                            && self.template_map().contains_key(k);
                    lemma_assoc_key::<String>(self.query_map@, k);
                    let t = choose|t: int|
                        0 <= t < self.query_map@.len() && (#[trigger] self.query_map@[t]).0@ == k;
                    lemma_assoc_val(self.query_map@, t);
                    assert(self.query_map@[t].1@ == s);
                }
            }
        }
        out
    }

    /// Whether the filter keeps the template index entry at `t`.
    spec fn keep_matches(&self, rule: &Keep, t: int) -> bool {
        match rule {
            Keep::All => true,
            Keep::NotTyped => !assoc_map(self.query_map@).contains_key(
                self.templates_map@[t].0@,
            ),
            Keep::Prefix(p) => seq_starts_with(self.templates_map@[t].0@, p@),
        }
    }

    /// The names of the templates that the filter keeps, in index order.
    fn collect_names(&self, rule: &Keep) -> (r: Vec<String>)
        requires
            self.wf(),
        ensures
            forall|i: int, j: int| 0 <= i < j < r@.len() ==> r@[i]@ != r@[j]@,
            forall|n: Seq<char>| #[trigger]
                char_views(r@).contains(n) <==> exists|t: int|
                    #![auto]
                    0 <= t < self.templates_map@.len() && self.templates_map@[t].1.name@ == n
                        && self.keep_matches(rule, t),
    {
        let mut out: Vec<String> = Vec::new();
        let mut i: usize = 0;
        while i < self.templates_map.len()
            invariant
                i <= self.templates_map@.len(),
                self.wf(),
                forall|p: int, q: int| 0 <= p < q < out@.len() ==> out@[p]@ != out@[q]@,
                forall|n: Seq<char>| #[trigger]
                    char_views(out@).contains(n) <==> exists|t: int|
                        #![auto]
                        0 <= t < i && self.templates_map@[t].1.name@ == n && self.keep_matches(
                            rule,
                            t,
                        ),
            decreases self.templates_map@.len() - i,
        {
            let ghost prev = out@;
            proof {
                assert(forall|n: Seq<char>| #[trigger]
                    char_views(prev).contains(n) <==> exists|t: int|
                        #![auto]
                        0 <= t < i && self.templates_map@[t].1.name@ == n && self.keep_matches(
                            rule,
                            t,
                        ));
            }
            let keep: bool = match rule {
                Keep::All => true,
                Keep::NotTyped => !contains_key_exec(&self.query_map, &self.templates_map[i].0),
                Keep::Prefix(p) => str_starts_with(
                    self.templates_map[i].0.as_str(),
                    p.as_str(),
                ),
            };
            proof {
                assert(keep == self.keep_matches(rule, i as int));
            }
            if keep {
                out.push(self.templates_map[i].1.name.clone());
                proof {
                    assert(out@.drop_last() =~= prev);
                    assert(char_views(out@).drop_last() =~= char_views(prev));
                    assert(char_views(out@).last() == self.templates_map@[i as int].1.name@);
                    assert forall|p: int, q: int| 0 <= p < q < out@.len() implies out@[p]@
                        != out@[q]@ by {
                        if q == out@.len() - 1 {
                            if out@[p]@ == out@[q]@ {
                                assert(char_views(prev)[p] == out@[p]@);
                                assert(char_views(prev).contains(out@[p]@));
                                let t = choose|t: int|
                                    #![auto]
                                    0 <= t < i && self.templates_map@[t].1.name@ == out@[p]@
                                        && self.keep_matches(rule, t);
                                assert(self.templates_map@[t].1.name@ != self.templates_map@[i as int].1.name@);
                                assert(false);
                            }
                        } else {
                            assert(out@[p] == prev[p]);
                            assert(out@[q] == prev[q]);
                        }
                    }
                    assert forall|n: Seq<char>| #[trigger]
                        char_views(out@).contains(n) implies exists|t: int|
                        #![auto]
                        0 <= t < i + 1 && self.templates_map@[t].1.name@ == n
                            && self.keep_matches(rule, t) by {
                        let w = choose|w: int|
                            0 <= w < char_views(out@).len() && char_views(out@)[w] == n;
                        if w < char_views(out@).len() - 1 {
                            assert(char_views(prev)[w] == char_views(out@)[w]);
                            assert(char_views(prev).contains(n));
                            let t3 = choose|t3: int|
                                #![auto]
                                0 <= t3 < i && self.templates_map@[t3].1.name@ == n
                                    && self.keep_matches(rule, t3);
                            assert(0 <= t3 < i + 1 && self.templates_map@[t3].1.name@ == n
                                && self.keep_matches(rule, t3));
                        } else {
                            assert(self.templates_map@[i as int].1.name@ == n);
                        }
                    }
                    assert forall|n: Seq<char>|
                        exists|t: int|
                            #![auto]
                            0 <= t < i + 1 && self.templates_map@[t].1.name@ == n
                                && self.keep_matches(
                                rule,
                                t,
                            ) implies #[trigger] char_views(out@).contains(n) by {
                        let t = choose|t: int|
                            #![auto]
                            0 <= t < i + 1 && self.templates_map@[t].1.name@ == n
                                && self.keep_matches(rule, t);
                        if t < i {
                            assert(exists|t2: int|
                                #![auto]
                                0 <= t2 < i && self.templates_map@[t2].1.name@ == n
                                    && self.keep_matches(rule, t2));
                            assert(char_views(prev).contains(n));
                            let w = choose|w: int|
                                0 <= w < char_views(prev).len() && char_views(prev)[w] == n;
                            assert(char_views(out@)[w] == n);
                        } else {
                            assert(char_views(out@)[char_views(out@).len() - 1] == n);
                        }
                    }
                }
            } else {
                proof {
                    assert forall|n: Seq<char>| #[trigger]
                        char_views(out@).contains(n) <==> exists|t: int|
                            #![auto]
                            0 <= t < i + 1 && self.templates_map@[t].1.name@ == n
                                && self.keep_matches(rule, t) by {
                        if exists|t: int|
                            #![auto]
                            0 <= t < i + 1 && self.templates_map@[t].1.name@ == n
                                && self.keep_matches(rule, t) {
                            let t = choose|t: int|
                                #![auto]
                                0 <= t < i + 1 && self.templates_map@[t].1.name@ == n
                                    && self.keep_matches(rule, t);
                            assert(t < i);
                        }
                    }
                }
            }
            i = i + 1;
        }
        out
    }

    /// Returns suggestions for the last element in the query.
    ///
    /// With no input at all, every template name is proposed. When the
    /// last typed token exactly names a template, the names of all
    /// templates not yet among the typed tokens are proposed — including
    /// dropping the matched one itself. Otherwise the token is treated as
    /// partial input, and the names of the templates whose lower-cased
    /// name it prefixes are proposed.
    pub fn suggestions(&self) -> (r: Vec<String>)
        requires
            self.wf(),
        ensures
            forall|i: int, j: int| 0 <= i < j < r@.len() ==> r@[i]@ != r@[j]@,
            forall|n: Seq<char>| #[trigger] char_views(r@).contains(n) <==> self.suggested(n),
    {
        if self.query.len() == 0 {
            let r = self.collect_names(&Keep::All);
            proof {
                self.lemma_names_bridge(&Keep::All, r@);
            }
            r
        } else {
            let last_low: String = to_lowercase(self.query[self.query.len() - 1].as_str());
            proof {
                assert(self.tokens().last() == self.query@[self.query@.len() - 1]@);
            }
            if contains_key_exec(&self.templates_map, &last_low) {
                let r = self.collect_names(&Keep::NotTyped);
                proof {
                    self.lemma_names_bridge(&Keep::NotTyped, r@);
                }
                r
            } else {
                let rule = Keep::Prefix(last_low);
                let r = self.collect_names(&rule);
                proof {
                    self.lemma_names_bridge(&rule, r@);
                }
                r
            }
        }
    }

    /// Carries the entry-level description of collected names over to the
    /// map-level one that `suggested` states.
    proof fn lemma_names_bridge(&self, rule: &Keep, r: Seq<String>)
        requires
            self.wf(),
            forall|n: Seq<char>| #[trigger]
                char_views(r).contains(n) <==> exists|t: int|
                    #![auto]
                    0 <= t < self.templates_map@.len() && self.templates_map@[t].1.name@ == n
                        && self.keep_matches(rule, t),
            match rule {
                Keep::All => self.tokens().len() == 0,
                Keep::NotTyped => self.tokens().len() > 0 && self.template_map().contains_key(
                    lower_of(self.tokens().last()),
                ),
                Keep::Prefix(p) => self.tokens().len() > 0 && p@ == lower_of(self.tokens().last())
                    && !self.template_map().contains_key(lower_of(self.tokens().last())),
            },
        ensures
            forall|n: Seq<char>| #[trigger] char_views(r).contains(n) <==> self.suggested(n),
    {
        assert forall|n: Seq<char>| #[trigger]
            char_views(r).contains(n) <==> self.suggested(n) by {
            if char_views(r).contains(n) {
                let t = choose|t: int|
                    #![auto]
                    0 <= t < self.templates_map@.len() && self.templates_map@[t].1.name@ == n
                        && self.keep_matches(rule, t);
                lemma_assoc_val(self.templates_map@, t);
                assert(self.template_map().contains_key(self.templates_map@[t].0@));
                assert(self.template_map()[self.templates_map@[t].0@].name@ == n);
            }
            if self.suggested(n) {
                let k: Seq<char> = match rule {
                    Keep::All => choose|k: Seq<char>|
                        #![auto]
                        self.template_map().contains_key(k) && self.template_map()[k].name@ == n,
                    Keep::NotTyped => choose|k: Seq<char>|
                        #![auto]
                        self.template_map().contains_key(k) && self.template_map()[k].name@ == n
                            && !self.token_map().contains_key(k),
                    Keep::Prefix(p) => choose|k: Seq<char>|
                        #![auto]
                        self.template_map().contains_key(k) && self.template_map()[k].name@ == n
                            && seq_starts_with(k, lower_of(self.tokens().last())),
                };
                lemma_assoc_key::<Template>(self.templates_map@, k);
                let t = choose|t: int|
                    0 <= t < self.templates_map@.len() && (#[trigger] self.templates_map@[t]).0@
                        == k;
                lemma_assoc_val(self.templates_map@, t);
                assert(self.templates_map@[t].1.name@ == n);
                assert(self.keep_matches(rule, t));
            }
        }
    }
}

/// The templates selected by a token index, read off in entry order: for
/// each token entry whose key names a template, that template.
pub open spec fn selected_templates_rec(
    qm: Seq<(String, String)>,
    tm: Map<Seq<char>, Template>,
) -> Seq<Template>
    decreases qm.len(),
{
    if qm.len() == 0 {
        Seq::empty()
    } else {
        let rest = selected_templates_rec(qm.drop_last(), tm);
        if tm.contains_key(qm.last().0@) {
            rest.push(tm[qm.last().0@])
        } else {
            rest
        }
    }
}

/// The given names concatenated, each preceded by one space.
pub open spec fn space_join(names: Seq<Seq<char>>) -> Seq<char>
    decreases names.len(),
{
    if names.len() == 0 {
        Seq::empty()
    } else {
        space_join(names.drop_last()) + " "@ + names.last()
    }
}

/// Whether `x` is the template stored for one of the token index's keys.
spec fn drawn_from(qm: Seq<(String, String)>, tm: Map<Seq<char>, Template>, x: Template) -> bool {
    exists|t: int|
        #![auto]
        0 <= t < qm.len() && tm.contains_key(qm[t].0@) && x == tm[qm[t].0@]
}

proof fn lemma_selected_rec_distinct_names(qm: Seq<(String, String)>, tm: Map<Seq<char>, Template>)
    requires
        distinct_keys(qm),
        forall|k1: Seq<char>, k2: Seq<char>|
            #![trigger tm.contains_key(k1), tm.contains_key(k2)]
            tm.contains_key(k1) && tm.contains_key(k2) && k1 != k2 ==> tm[k1].name@
                != tm[k2].name@,
    ensures
        distinct_template_names(selected_templates_rec(qm, tm)),
        forall|w: int|
            0 <= w < selected_templates_rec(qm, tm).len() ==> #[trigger] drawn_from(
                qm,
                tm,
                selected_templates_rec(qm, tm)[w],
            ),
    decreases qm.len(),
{
    if qm.len() > 0 {
        assert(distinct_keys(qm.drop_last())) by {
            assert forall|p: int, q: int|
                0 <= p < q < qm.drop_last().len() implies (#[trigger] qm.drop_last()[p]).0@
                != (#[trigger] qm.drop_last()[q]).0@ by {
                assert(qm.drop_last()[p] == qm[p]);
                assert(qm.drop_last()[q] == qm[q]);
            }
        }
        lemma_selected_rec_distinct_names(qm.drop_last(), tm);
        assert forall|w: int|
            0 <= w < selected_templates_rec(qm, tm).len() implies #[trigger] drawn_from(
            qm,
            tm,
            selected_templates_rec(qm, tm)[w],
        ) by {
            if w < selected_templates_rec(qm.drop_last(), tm).len() {
                assert(selected_templates_rec(qm, tm)[w] == selected_templates_rec(
                    qm.drop_last(),
                    tm,
                )[w]);
                assert(drawn_from(
                    qm.drop_last(),
                    tm,
                    selected_templates_rec(qm.drop_last(), tm)[w],
                ));
                let t = choose|t: int|
                    #![auto]
                    0 <= t < qm.drop_last().len() && tm.contains_key(qm.drop_last()[t].0@)
                        && selected_templates_rec(qm.drop_last(), tm)[w] == tm[qm.drop_last()[t].0@];
                assert(qm.drop_last()[t] == qm[t]);
                assert(0 <= t < qm.len() && tm.contains_key(qm[t].0@) && selected_templates_rec(
                    qm,
                    tm,
                )[w] == tm[qm[t].0@]);
            } else {
                // only a matching last entry makes the selection longer
                assert(tm.contains_key(qm.last().0@));
                assert(selected_templates_rec(qm, tm)[w] == tm[qm[qm.len() - 1].0@]);
                assert(0 <= qm.len() - 1 < qm.len() && tm.contains_key(qm[qm.len() - 1].0@)
                    && selected_templates_rec(qm, tm)[w] == tm[qm[qm.len() - 1].0@]);
            }
        }
        assert forall|w1: int, w2: int|
            0 <= w1 < w2 < selected_templates_rec(qm, tm).len() implies (
            #[trigger] selected_templates_rec(qm, tm)[w1]).name@ != (
            #[trigger] selected_templates_rec(qm, tm)[w2]).name@ by {
            if w2 < selected_templates_rec(qm.drop_last(), tm).len() {
                assert(selected_templates_rec(qm, tm)[w1] == selected_templates_rec(
                    qm.drop_last(),
                    tm,
                )[w1]);
                assert(selected_templates_rec(qm, tm)[w2] == selected_templates_rec(
                    qm.drop_last(),
                    tm,
                )[w2]);
                assert(selected_templates_rec(qm.drop_last(), tm)[w1].name@
                    != selected_templates_rec(qm.drop_last(), tm)[w2].name@);
            } else {
                // the later template is the newly selected one; the
                // earlier one was selected by a different key
                assert(tm.contains_key(qm.last().0@));
                assert(selected_templates_rec(qm, tm)[w2] == tm[qm[qm.len() - 1].0@]);
                assert(selected_templates_rec(qm, tm)[w1] == selected_templates_rec(
                    qm.drop_last(),
                    tm,
                )[w1]);
                assert(drawn_from(
                    qm.drop_last(),
                    tm,
                    selected_templates_rec(qm.drop_last(), tm)[w1],
                ));
                let t = choose|t: int|
                    #![auto]
                    0 <= t < qm.drop_last().len() && tm.contains_key(qm.drop_last()[t].0@)
                        && selected_templates_rec(qm.drop_last(), tm)[w1] == tm[qm.drop_last()[t].0@];
                assert(qm.drop_last()[t] == qm[t]);
                assert(qm[t].0@ != qm[qm.len() - 1].0@);
                assert(tm[qm[t].0@].name@ != tm[qm[qm.len() - 1].0@].name@);
            }
        }
    }
}

impl Query {
    /// The templates the typed tokens select, in entry order of the token
    /// index.
    pub open spec fn selected_templates(self) -> Seq<Template> {
        selected_templates_rec(self.query_map@, self.template_map())
    }

    /// No two of the templates a query selects share a display name: each
    /// comes from a distinct key of the template index.
    pub proof fn lemma_selected_templates_distinct_names(&self)
        requires
            self.wf(),
        ensures
            distinct_template_names(self.selected_templates()),
    {
        assert forall|k1: Seq<char>, k2: Seq<char>|
            #![trigger self.template_map().contains_key(k1), self.template_map().contains_key(k2)]
            self.template_map().contains_key(k1) && self.template_map().contains_key(k2) && k1
                != k2 implies self.template_map()[k1].name@ != self.template_map()[k2].name@ by {
            lemma_assoc_key::<Template>(self.templates_map@, k1);
            let t1 = choose|t: int|
                0 <= t < self.templates_map@.len() && (#[trigger] self.templates_map@[t]).0@ == k1;
            lemma_assoc_val(self.templates_map@, t1);
            lemma_assoc_key::<Template>(self.templates_map@, k2);
            let t2 = choose|t: int|
                0 <= t < self.templates_map@.len() && (#[trigger] self.templates_map@[t]).0@ == k2;
            lemma_assoc_val(self.templates_map@, t2);
            assert(t1 != t2);
            if t1 < t2 {
                assert(self.templates_map@[t1].1.name@ != self.templates_map@[t2].1.name@);
            } else {
                assert(self.templates_map@[t2].1.name@ != self.templates_map@[t1].1.name@);
            }
        }
        lemma_selected_rec_distinct_names(self.query_map@, self.template_map());
    }

    /// The string the launcher can use to reissue the selection so far:
    /// the selected templates' display names, each preceded by one space;
    /// empty when nothing is selected.
    pub fn construct_query_string(&self) -> (r: String)
        requires
            self.wf(),
        ensures
            r@ == space_join(template_names(self.selected_templates())),
    {
        let mut out: String = String::new();
        let mut i: usize = 0;
        proof {
            assert(self.query_map@.subrange(0, 0) =~= Seq::<(String, String)>::empty());
        }
        while i < self.query_map.len()
            invariant
                i <= self.query_map@.len(),
                self.wf(),
                out@ == space_join(
                    template_names(
                        selected_templates_rec(
                            self.query_map@.subrange(0, i as int),
                            assoc_map(self.templates_map@),
                        ),
                    ),
                ),
            decreases self.query_map@.len() - i,
        {
            let ghost pre = self.query_map@.subrange(0, i as int);
            let ghost pre1 = self.query_map@.subrange(0, i + 1);
            proof {
                assert(pre1.drop_last() =~= pre);
                assert(pre1.last() == self.query_map@[i as int]);
            }
            match lookup(&self.templates_map, &self.query_map[i].0) {
                Some(t) => {
                    out.append(" ");
                    out.append(t.name.as_str());
                    proof {
                        let sel = selected_templates_rec(pre, assoc_map(self.templates_map@));
                        let sel1 = selected_templates_rec(pre1, assoc_map(self.templates_map@));
                        assert(sel1 == sel.push(*t));
                        assert(template_names(sel1).drop_last() =~= template_names(sel));
                        assert(template_names(sel1).last() == t.name@);
                        assert(out@ == space_join(template_names(sel)) + " "@ + t.name@);
                    }
                },
                None => {
                    proof {
                        assert(selected_templates_rec(pre1, assoc_map(self.templates_map@))
                            == selected_templates_rec(pre, assoc_map(self.templates_map@)));
                    }
                },
            }
            i = i + 1;
        }
        proof {
            assert(self.query_map@.subrange(0, self.query_map@.len() as int) =~= self.query_map@);
        }
        out
    }
}

} // verus!
