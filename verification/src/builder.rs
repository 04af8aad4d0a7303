//! Constructs a single `.gitignore` text from a query's selection.
//!
//! The builder takes the templates a query selects and holds them in a
//! canonical order, sorted by display name, so that both the combined
//! output and its file name depend only on which templates were selected
//! — not on the order or the case in which the user typed them. The file
//! name embeds a fingerprint of the sorted names; equal selections
//! therefore cache under one name with byte-identical content. The
//! builder works on plain values; reading the backing files and writing
//! the combined file to disk is the surrounding binary's concern.

use crate::hash::{siphash13, siphash13_bytes};
use crate::query::{selected_templates_rec, Query};
use crate::repository::{
    distinct_template_names, lemma_canonical_order_unique, lemma_distinct_names_multiset,
    sort_templates, template_names, Template,
};
use crate::text::{
    char_views, dec_of, lemma_lex_total_ordering, lex_leq_f, push_dec, sort_strings,
};
use vstd::prelude::*;
use vstd::relations::sorted_by;
use vstd::seq_lib::lemma_sorted_unique;
use vstd::string::StrSliceExecFns;
use vstd::string::StringExecFns;
use vstd::utf8::encode_utf8;

verus! {

/// The concatenation of the given character sequences, in order.
pub open spec fn concat_all(names: Seq<Seq<char>>) -> Seq<char>
    decreases names.len(),
{
    if names.len() == 0 {
        Seq::empty()
    } else {
        concat_all(names.drop_last()) + names.last()
    }
}

/// The fingerprint of a selection of display names: the names are sorted,
/// concatenated, encoded as UTF-8, closed with one terminator byte, and
/// hashed. Sorting first makes the fingerprint a function of the multiset
/// of names alone.
pub open spec fn cache_hash(names: Seq<Seq<char>>) -> u64 {
    siphash13(encode_utf8(concat_all(names.sort_by(lex_leq_f()))) + seq![0xffu8])
}

/// The file name under which a selection's combined output is cached: a
/// fixed prefix, the fingerprint in decimal, and the template suffix.
pub open spec fn file_name_of(names: Seq<Seq<char>>) -> Seq<char> {
    "alfred-gitignore-"@ + dec_of(cache_hash(names) as nat) + ".gitignore"@
}

/// One entry of the combined output: a header line naming the backing
/// file, then that file's content.
pub open spec fn entry_text(t: Template, c: Seq<char>) -> Seq<char> {
    "### "@ + t.file_name@ + "\n"@ + c
}

/// The character views of the given contents; a missing content reads as
/// empty.
pub open spec fn content_views(cs: Seq<Option<String>>) -> Seq<Seq<char>> {
    cs.map_values(
        (|c: Option<String>| match c {
            Some(s) => s@,
            None => Seq::empty(),
        }),
    )
}

/// The combined output for templates and their contents, one entry per
/// template in the given order, a blank line between entries and none
/// after the last.
pub open spec fn combined(ts: Seq<Template>, cs: Seq<Seq<char>>) -> Seq<char>
    recommends
        ts.len() == cs.len(),
    decreases ts.len(),
{
    if ts.len() == 0 {
        Seq::empty()
    } else if ts.len() == 1 {
        entry_text(ts[0], cs[0])
    } else {
        combined(ts.drop_last(), cs.drop_last()) + "\n"@ + entry_text(ts.last(), cs.last())
    }
}

/// For any two selections holding the same multiset of display names — in
/// particular the same set of names, in any two input orders — the
/// derived cache file name is the same string.
pub proof fn lemma_file_name_order_independent(a: Seq<Seq<char>>, b: Seq<Seq<char>>)
    requires
        a.to_multiset() == b.to_multiset(),
    ensures
        file_name_of(a) == file_name_of(b),
{
    lemma_lex_total_ordering();
    a.lemma_sort_by_ensures(lex_leq_f());
    b.lemma_sort_by_ensures(lex_leq_f());
    lemma_sorted_unique(a.sort_by(lex_leq_f()), b.sort_by(lex_leq_f()), lex_leq_f());
    assert(a.sort_by(lex_leq_f()) == b.sort_by(lex_leq_f()));
}

/// The determinism of the build: two builders that hold the same
/// templates — as an order-insensitive collection, none of them sharing a
/// display name — hold them in the same canonical order, so they cache
/// under the same file name and the same backing contents yield
/// byte-identical combined text.
pub proof fn lemma_build_deterministic(a: &Builder, b: &Builder, cs: Seq<Seq<char>>)
    requires
        sorted_by(template_names(a.templates@), lex_leq_f()),
        sorted_by(template_names(b.templates@), lex_leq_f()),
        distinct_template_names(a.templates@),
        a.templates@.to_multiset() == b.templates@.to_multiset(),
    ensures
        a.templates@ == b.templates@,
        file_name_of(template_names(a.templates@)) == file_name_of(template_names(b.templates@)),
        combined(a.templates@, cs) == combined(b.templates@, cs),
{
    lemma_canonical_order_unique(a.templates@, b.templates@);
}

/// Constructs a `.gitignore` text from a query.
///
/// The builder combines the templates selected in a query into a single
/// output, and names the output after the selection's fingerprint.
pub struct Builder {
    /// The selected templates, in canonical order: sorted by display
    /// name.
    pub templates: Vec<Template>,
}

impl Builder {
    /// Returns a new builder holding the templates the query selects,
    /// sorted by display name. The canonical order makes the combined
    /// output a function of the selection as a set, whatever order the
    /// tokens were typed in.
    pub fn new(query: &Query) -> (b: Builder)
        requires
            query.wf(),
        ensures
            b.templates@.to_multiset() == query.selected_templates().to_multiset(),
            sorted_by(template_names(b.templates@), lex_leq_f()),
            distinct_template_names(b.templates@),
    {
        let mut templates: Vec<Template> = Vec::new();
        let mut i: usize = 0;
        proof {
            assert(query.query_map@.subrange(0, 0) =~= Seq::<(String, String)>::empty());
        }
        while i < query.query_map.len()
            invariant
                i <= query.query_map@.len(),
                query.wf(),
                templates@ == selected_templates_rec(
                    query.query_map@.subrange(0, i as int),
                    crate::query::assoc_map(query.templates_map@),
                ),
            decreases query.query_map@.len() - i,
        {
            let ghost pre = query.query_map@.subrange(0, i as int);
            let ghost pre1 = query.query_map@.subrange(0, i + 1);
            proof {
                assert(pre1.drop_last() =~= pre);
                assert(pre1.last() == query.query_map@[i as int]);
            }
            match crate::query::lookup(&query.templates_map, &query.query_map[i].0) {
                Some(t) => {
                    templates.push(t.clone());
                },
                None => {
                },
            }
            i = i + 1;
        }
        proof {
            assert(query.query_map@.subrange(0, query.query_map@.len() as int)
                =~= query.query_map@);
            assert(templates@ == query.selected_templates());
            query.lemma_selected_templates_distinct_names();
        }
        let sorted: Vec<Template> = sort_templates(templates);
        proof {
            lemma_distinct_names_multiset(query.selected_templates(), sorted@);
        }
        Builder { templates: sorted }
    }

    /// Returns the file name for the builder's selection.
    ///
    /// The display names of the selected templates are sorted,
    /// concatenated and hashed, so that the results of equal selections
    /// can be cached under one name.
    pub fn file_name(&self) -> (r: String)
        ensures
            r@ == file_name_of(template_names(self.templates@)),
    {
        let mut names: Vec<String> = Vec::new();
        let mut i: usize = 0;
        proof {
            assert(char_views(names@) =~= template_names(self.templates@.subrange(0, 0)));
        }
        while i < self.templates.len()
            invariant
                i <= self.templates@.len(),
                char_views(names@) == template_names(self.templates@.subrange(0, i as int)),
            decreases self.templates@.len() - i,
        {
            let ghost prev = names@;
            names.push(self.templates[i].name.clone());
            proof {
                assert(names@.drop_last() =~= prev);
                assert(char_views(names@) =~= char_views(prev).push(
                    self.templates@[i as int].name@,
                ));
                assert(template_names(self.templates@.subrange(0, i + 1)) =~= template_names(
                    self.templates@.subrange(0, i as int),
                ).push(self.templates@[i as int].name@));
            }
            i = i + 1;
        }
        proof {
            assert(self.templates@.subrange(0, self.templates@.len() as int) =~= self.templates@);
        }
        let sorted: Vec<String> = sort_strings(&names);
        let mut joined: String = String::new();
        let mut j: usize = 0;
        proof {
            assert(char_views(sorted@).subrange(0, 0) =~= Seq::<Seq<char>>::empty());
        }
        while j < sorted.len()
            invariant
                j <= sorted@.len(),
                joined@ == concat_all(char_views(sorted@).subrange(0, j as int)),
            decreases sorted@.len() - j,
        {
            joined.append(sorted[j].as_str());
            proof {
                assert(char_views(sorted@).subrange(0, j + 1).drop_last() =~= char_views(
                    sorted@,
                ).subrange(0, j as int));
                assert(char_views(sorted@).subrange(0, j + 1).last() == sorted@[j as int]@);
            }
            j = j + 1;
        }
        proof {
            assert(char_views(sorted@).subrange(0, sorted@.len() as int) =~= char_views(sorted@));
        }
        let mut bytes: Vec<u8> = joined.as_str().as_bytes_vec();
        bytes.push(0xffu8);
        proof {
            assert(bytes@ =~= encode_utf8(joined@) + seq![0xffu8]);
        }
        let h: u64 = siphash13_bytes(&bytes);
        let mut r: String = String::from_str("alfred-gitignore-");
        push_dec(h, &mut r);
        r.append(".gitignore");
        proof {
            assert(h == cache_hash(template_names(self.templates@)));
            assert(r@ == "alfred-gitignore-"@ + dec_of(h as nat) + ".gitignore"@);
        }
        r
    }

    /// Builds the combined `.gitignore` text from the given backing
    /// contents, one per selected template in order.
    ///
    /// When every content is present the combined text is returned; a
    /// single missing content aborts the whole build with no output, so a
    /// caller never sees a partial combination.
    pub fn build(&self, contents: &Vec<Option<String>>) -> (r: Option<String>)
        requires
            contents@.len() == self.templates@.len(),
        ensures
            r is Some <==> (forall|i: int| 0 <= i < contents@.len() ==> contents@[i] is Some),
            (match r {
                Some(out) => out@ == combined(self.templates@, content_views(contents@)),
                None => true,
            }),
    {
        let mut out: String = String::new();
        let mut i: usize = 0;
        proof {
            assert(self.templates@.subrange(0, 0) =~= Seq::<Template>::empty());
            assert(content_views(contents@).subrange(0, 0) =~= Seq::<Seq<char>>::empty());
        }
        while i < self.templates.len()
            invariant
                i <= self.templates@.len(),
                contents@.len() == self.templates@.len(),
                forall|t: int| 0 <= t < i ==> contents@[t] is Some,
                out@ == combined(
                    self.templates@.subrange(0, i as int),
                    content_views(contents@).subrange(0, i as int),
                ),
            decreases self.templates@.len() - i,
        {
            match &contents[i] {
                Some(c) => {
                    if i > 0 {
                        out.append("\n");
                    }
                    out.append("### ");
                    out.append(self.templates[i].file_name.as_str());
                    out.append("\n");
                    out.append(c.as_str());
                    proof {
                        let ts1 = self.templates@.subrange(0, i + 1);
                        let cs1 = content_views(contents@).subrange(0, i + 1);
                        assert(ts1.drop_last() =~= self.templates@.subrange(0, i as int));
                        assert(cs1.drop_last() =~= content_views(contents@).subrange(0, i as int));
                        assert(ts1.last() == self.templates@[i as int]);
                        assert(cs1.last() == content_views(contents@)[i as int]);
                        assert(content_views(contents@)[i as int] == c@);
                        assert(entry_text(self.templates@[i as int], c@) =~= "### "@
                            + self.templates@[i as int].file_name@ + "\n"@ + c@);
                        if i == 0 {
                            assert(out@ =~= combined(ts1, cs1));
                        } else {
                            assert(out@ =~= combined(
                                self.templates@.subrange(0, i as int),
                                content_views(contents@).subrange(0, i as int),
                            ) + "\n"@ + entry_text(self.templates@[i as int], c@));
                            assert(out@ =~= combined(ts1, cs1));
                        }
                    }
                },
                None => {
                    return None;
                },
            }
            i = i + 1;
        }
        proof {
            assert(self.templates@.subrange(0, self.templates@.len() as int) =~= self.templates@);
            assert(content_views(contents@).subrange(0, contents@.len() as int) =~= content_views(
                contents@,
            ));
        }
        Some(out)
    }
}

} // verus!
