//! Templates and the catalog built from a directory listing.
//!
//! A template stands for one `*.gitignore` snippet file. The catalog is the
//! sorted list of templates made from the file names found in the
//! repository directory; reading that directory, and fetching new template
//! files, is the surrounding binary's concern — this module only turns
//! plain file names into templates.

use crate::text::{
    char_views, lemma_lex_total_ordering, lex_leq, lex_leq_f, lower_of, seq_ends_with,
    str_ends_with, to_lowercase,
};
use vstd::prelude::*;
use vstd::relations::{sorted_by, total_ordering};
use vstd::string::StrSliceExecFns;
use vstd::string::StringExecFns;

verus! {

/// The file-name suffix that marks a template file.
pub open spec fn template_suffix() -> Seq<char> {
    ".gitignore"@
}

/// The display name derived from a backing file name: the template suffix
/// is removed when present.
pub open spec fn template_name_of(file: Seq<char>) -> Seq<char> {
    if seq_ends_with(file, template_suffix()) {
        file.subrange(0, file.len() - template_suffix().len())
    } else {
        file
    }
}

/// One available `*.gitignore` snippet.
///
/// Two templates are the same entity when their comparators are equal:
/// names are unique case-insensitively.
pub struct Template {
    /// The display name: the backing file name with its suffix removed,
    /// case preserved.
    pub name: String,
    /// The name of the backing file.
    pub file_name: String,
    /// The lower-cased form of the name, used only for matching.
    pub comparator: String,
}

impl Template {
    /// The comparator is exactly the lower-cased display name.
    pub open spec fn wf(&self) -> bool {
        self.comparator@ == lower_of(self.name@)
    }

    /// Returns a new instance of a template for the given file name.
    pub fn new(file_name: &str) -> (t: Template)
        ensures
            t.file_name@ == file_name@,
            t.name@ == template_name_of(file_name@),
            t.comparator@ == lower_of(template_name_of(file_name@)),
            t.wf(),
    {
        let name: String = if str_ends_with(file_name, ".gitignore") {
            proof {
                reveal_strlit(".gitignore");
            }
            let len: usize = file_name.unicode_len();
            file_name.substring_char(0, len - 10).to_owned()
        } else {
            file_name.to_owned()
        };
        let comparator: String = to_lowercase(name.as_str());
        Template { comparator, file_name: file_name.to_owned(), name }
    }

    /// Returns the name of the template.
    pub fn name(&self) -> (r: &String)
        ensures
            r@ == self.name@,
    {
        &self.name
    }

    /// Returns the file name of the template.
    pub fn file_name(&self) -> (r: &String)
        ensures
            r@ == self.file_name@,
    {
        &self.file_name
    }

    /// Returns the sanitized version of the template's name used for
    /// comparisons.
    pub fn comparator(&self) -> (r: &String)
        ensures
            r@ == self.comparator@,
    {
        &self.comparator
    }
}

impl Clone for Template {
    /// A clone is equal to the original, fields included.
    fn clone(&self) -> (r: Self)
        ensures
            r == *self,
    {
        Template {
            name: self.name.clone(),
            file_name: self.file_name.clone(),
            comparator: self.comparator.clone(),
        }
    }
}

/// The display names of a sequence of templates.
pub open spec fn template_names(ts: Seq<Template>) -> Seq<Seq<char>> {
    ts.map_values(|t: Template| t.name@)
}

/// The backing file names of a sequence of templates.
pub open spec fn template_file_names(ts: Seq<Template>) -> Seq<Seq<char>> {
    ts.map_values(|t: Template| t.file_name@)
}

/// The place in `out`, sorted by display name, at which `x` belongs.
fn template_position(x: &Template, out: &Vec<Template>) -> (j: usize)
    ensures
        j <= out@.len(),
        forall|k: int| 0 <= k < j ==> !lex_leq(x.name@, #[trigger] template_names(out@)[k]),
        j < out@.len() ==> lex_leq(x.name@, template_names(out@)[j as int]),
{
    let mut j: usize = 0;
    while j < out.len()
        invariant
            j <= out@.len(),
            forall|k: int| 0 <= k < j ==> !lex_leq(x.name@, #[trigger] template_names(out@)[k]),
        decreases out@.len() - j,
    {
        let below = crate::text::lex_leq_exec(x.name.as_str(), out[j].name.as_str());
        proof {
            assert(template_names(out@)[j as int] == out@[j as int].name@);
        }
        if below {
            return j;
        }
        j = j + 1;
    }
    j
}

/// The templates for all the file names that carry the template suffix,
/// sorted by display name.
///
/// File names without the suffix are silently dropped, as a directory
/// listing holds other entries too. Every kept entry becomes the template
/// of its file name; the result is ordered by the templates' display names.
pub fn templates_from_file_names(file_names: &Vec<String>) -> (r: Vec<Template>)
    ensures
        sorted_by(template_names(r@), lex_leq_f()),
        template_file_names(r@).to_multiset() == char_views(file_names@).filter(
            |f: Seq<char>| seq_ends_with(f, template_suffix()),
        ).to_multiset(),
        forall|k: int|
            0 <= k < r@.len() ==> (#[trigger] r@[k]).name@ == template_name_of(r@[k].file_name@)
                && r@[k].comparator@ == lower_of(r@[k].name@) && seq_ends_with(
                r@[k].file_name@,
                template_suffix(),
            ),
{
    let ghost kept = char_views(file_names@).filter(
        |f: Seq<char>| seq_ends_with(f, template_suffix()),
    );
    let mut out: Vec<Template> = Vec::new();
    let mut i: usize = 0;
    proof {
        lemma_lex_total_ordering();
        assert(char_views(file_names@).subrange(0, 0) =~= Seq::<Seq<char>>::empty());
        assert(char_views(file_names@).subrange(0, 0).filter(
            |f: Seq<char>| seq_ends_with(f, template_suffix()),
        ) =~= Seq::<Seq<char>>::empty()) by {
            reveal(Seq::filter);
        }
        assert(template_file_names(out@) =~= Seq::<Seq<char>>::empty());
    }
    while i < file_names.len()
        invariant
            i <= file_names@.len(),
            total_ordering(lex_leq_f()),
            sorted_by(template_names(out@), lex_leq_f()),
            template_file_names(out@).to_multiset() == char_views(file_names@).subrange(
                0,
                i as int,
            ).filter(|f: Seq<char>| seq_ends_with(f, template_suffix())).to_multiset(),
            forall|k: int|
                0 <= k < out@.len() ==> (#[trigger] out@[k]).name@ == template_name_of(
                    out@[k].file_name@,
                ) && out@[k].comparator@ == lower_of(out@[k].name@) && seq_ends_with(
                    out@[k].file_name@,
                    template_suffix(),
                ),
        decreases file_names@.len() - i,
    {
        broadcast use vstd::seq_lib::group_to_multiset_ensures;

        let ghost pred = |f: Seq<char>| seq_ends_with(f, template_suffix());
        let ghost prefix = char_views(file_names@).subrange(0, i as int);
        let ghost prefix1 = char_views(file_names@).subrange(0, i + 1);
        proof {
            assert(prefix1.drop_last() =~= prefix);
            assert(prefix1.last() == file_names@[i as int]@);
            reveal(Seq::filter);
        }
        let has_suffix = str_ends_with(file_names[i].as_str(), ".gitignore");
        proof {
            reveal_strlit(".gitignore");
        }
        if has_suffix {
            let t = Template::new(file_names[i].as_str());
            let ghost old_names = template_names(out@);
            let ghost old_files = template_file_names(out@);
            let j: usize = template_position(&t, &out);
            out.insert(j, t);
            proof {
                assert(template_names(out@) =~= old_names.insert(j as int, t.name@));
                assert(template_file_names(out@) =~= old_files.insert(j as int, t.file_name@));
                crate::text::lemma_sorted_insert(old_names, t.name@, j as int);
                assert(prefix1.filter(pred) =~= prefix.filter(pred).push(file_names@[i as int]@));
            }
        } else {
            proof {
                assert(prefix1.filter(pred) =~= prefix.filter(pred));
            }
        }
        i = i + 1;
    }
    proof {
        assert(char_views(file_names@).subrange(0, file_names@.len() as int) =~= char_views(
            file_names@,
        ));
    }
    out
}

/// No two of the templates share a display name.
pub open spec fn distinct_template_names(ts: Seq<Template>) -> bool {
    forall|i: int, j: int|
        0 <= i < j < ts.len() ==> (#[trigger] ts[i]).name@ != (#[trigger] ts[j]).name@
}

/// Sorts the given templates into lexicographic order of their display
/// names.
pub fn sort_templates(v: Vec<Template>) -> (r: Vec<Template>)
    ensures
        sorted_by(template_names(r@), lex_leq_f()),
        r@.to_multiset() == v@.to_multiset(),
{
    let mut out: Vec<Template> = Vec::new();
    let mut i: usize = 0;
    proof {
        lemma_lex_total_ordering();
        assert(out@ =~= v@.subrange(0, 0));
    }
    while i < v.len()
        invariant
            i <= v@.len(),
            total_ordering(lex_leq_f()),
            sorted_by(template_names(out@), lex_leq_f()),
            out@.to_multiset() == v@.subrange(0, i as int).to_multiset(),
        decreases v@.len() - i,
    {
        broadcast use vstd::seq_lib::group_to_multiset_ensures;

        let x: Template = v[i].clone();
        let j: usize = template_position(&x, &out);
        let ghost old_names = template_names(out@);
        out.insert(j, x);
        proof {
            assert(template_names(out@) =~= old_names.insert(j as int, x.name@));
            crate::text::lemma_sorted_insert(old_names, x.name@, j as int);
            assert(v@.subrange(0, i + 1) =~= v@.subrange(0, i as int).push(v@[i as int]));
        }
        i = i + 1;
    }
    proof {
        assert(v@.subrange(0, v@.len() as int) =~= v@);
    }
    out
}

/// A sequence holding the same templates as one without repeated display
/// names has no repeated display names either.
pub proof fn lemma_distinct_names_multiset(a: Seq<Template>, b: Seq<Template>)
    requires
        distinct_template_names(a),
        a.to_multiset() == b.to_multiset(),
    ensures
        distinct_template_names(b),
{
    broadcast use vstd::seq_lib::group_to_multiset_ensures;

    assert(a.no_duplicates()) by {
        assert forall|i: int, j: int|
            0 <= i < a.len() && 0 <= j < a.len() && i != j implies a[i] != a[j] by {
            if i < j {
                assert(a[i].name@ != a[j].name@);
            } else {
                assert(a[j].name@ != a[i].name@);
            }
        }
    }
    a.lemma_multiset_has_no_duplicates();
    b.lemma_multiset_has_no_duplicates_conv();
    assert forall|i: int, j: int| 0 <= i < j < b.len() implies (#[trigger] b[i]).name@
        != (#[trigger] b[j]).name@ by {
        if b[i].name@ == b[j].name@ {
            assert(b[i] != b[j]);
            assert(b.contains(b[i]));
            assert(b.contains(b[j]));
            assert(a.to_multiset().count(b[i]) > 0);
            assert(a.to_multiset().count(b[j]) > 0);
            assert(a.contains(b[i]));
            assert(a.contains(b[j]));
            let t1 = choose|t: int| 0 <= t < a.len() && a[t] == b[i];
            let t2 = choose|t: int| 0 <= t < a.len() && a[t] == b[j];
            assert(t1 != t2);
            if t1 < t2 {
                assert(a[t1].name@ != a[t2].name@);
            } else {
                assert(a[t2].name@ != a[t1].name@);
            }
            assert(false);
        }
    }
}

/// Sorting by display name is a canonical order: two selections sorted by
/// display name that hold the same templates, no two of them sharing a
/// name, are the same sequence.
pub proof fn lemma_canonical_order_unique(a: Seq<Template>, b: Seq<Template>)
    requires
        sorted_by(template_names(a), lex_leq_f()),
        sorted_by(template_names(b), lex_leq_f()),
        distinct_template_names(a),
        a.to_multiset() == b.to_multiset(),
    ensures
        a == b,
    decreases a.len(),
{
    broadcast use vstd::seq_lib::group_to_multiset_ensures;

    lemma_lex_total_ordering();
    lemma_distinct_names_multiset(a, b);
    vstd::seq_lib::to_multiset_len(a);
    vstd::seq_lib::to_multiset_len(b);
    assert(a.len() == b.len());
    if a.len() == 0 {
        assert(a =~= b);
    } else {
        // each head is held by the other sequence
        assert(a.contains(a[0]));
        assert(a.to_multiset().count(a[0]) > 0);
        assert(b.contains(a[0]));
        let jb = choose|t: int| 0 <= t < b.len() && b[t] == a[0];
        assert(b.contains(b[0]));
        assert(a.to_multiset().count(b[0]) > 0);
        assert(a.contains(b[0]));
        let ja = choose|t: int| 0 <= t < a.len() && a[t] == b[0];
        // the head names bound each other, so they are equal
        let f = lex_leq_f();
        assert(template_names(b)[jb] == b[jb].name@);
        assert(template_names(a)[ja] == a[ja].name@);
        assert(template_names(b)[0] == b[0].name@);
        assert(template_names(a)[0] == a[0].name@);
        if jb > 0 {
            assert(f(template_names(b)[0], template_names(b)[jb]));
        } else {
            assert(f(b[0].name@, b[0].name@));
        }
        assert(lex_leq(b[0].name@, a[0].name@));
        if ja > 0 {
            assert(f(template_names(a)[0], template_names(a)[ja]));
        } else {
            assert(f(a[0].name@, a[0].name@));
        }
        assert(lex_leq(a[0].name@, b[0].name@));
        assert(a[0].name@ == b[0].name@);
        // a name appears once in b, so the heads coincide
        assert(b[jb].name@ == b[0].name@);
        assert(jb == 0);
        assert(a[0] == b[0]);
        // the tails hold the same templates, sorted and without repeats
        assert(a.drop_first() =~= a.remove(0));
        assert(b.drop_first() =~= b.remove(0));
        assert(a.drop_first().to_multiset() == a.to_multiset().remove(a[0]));
        assert(b.drop_first().to_multiset() == b.to_multiset().remove(b[0]));
        assert(template_names(a.drop_first()) =~= template_names(a).drop_first());
        assert(template_names(b.drop_first()) =~= template_names(b).drop_first());
        assert(sorted_by(template_names(a.drop_first()), f)) by {
            assert forall|p: int, q: int|
                0 <= p < q < template_names(a.drop_first()).len() implies #[trigger] f(
                template_names(a.drop_first())[p],
                template_names(a.drop_first())[q],
            ) by {
                assert(template_names(a.drop_first())[p] == template_names(a)[p + 1]);
                assert(template_names(a.drop_first())[q] == template_names(a)[q + 1]);
                assert(f(template_names(a)[p + 1], template_names(a)[q + 1]));
            }
        }
        assert(sorted_by(template_names(b.drop_first()), f)) by {
            assert forall|p: int, q: int|
                0 <= p < q < template_names(b.drop_first()).len() implies #[trigger] f(
                template_names(b.drop_first())[p],
                template_names(b.drop_first())[q],
            ) by {
                assert(template_names(b.drop_first())[p] == template_names(b)[p + 1]);
                assert(template_names(b.drop_first())[q] == template_names(b)[q + 1]);
                assert(f(template_names(b)[p + 1], template_names(b)[q + 1]));
            }
        }
        assert(distinct_template_names(a.drop_first())) by {
            assert forall|p: int, q: int|
                0 <= p < q < a.drop_first().len() implies (#[trigger] a.drop_first()[p]).name@
                != (#[trigger] a.drop_first()[q]).name@ by {
                assert(a.drop_first()[p] == a[p + 1]);
                assert(a.drop_first()[q] == a[q + 1]);
            }
        }
        lemma_canonical_order_unique(a.drop_first(), b.drop_first());
        assert forall|w: int| 0 <= w < a.len() implies a[w] == b[w] by {
            if w > 0 {
                assert(a.drop_first()[w - 1] == a[w]);
                assert(b.drop_first()[w - 1] == b[w]);
            }
        }
        assert(a =~= b);
    }
}

/// The part of a path after its last separator.
pub open spec fn base_name_of(p: Seq<char>) -> Seq<char>
    decreases p.len(),
{
    if p.len() == 0 {
        p
    } else if p.last() == '/' {
        Seq::empty()
    } else {
        base_name_of(p.drop_last()).push(p.last())
    }
}

proof fn lemma_base_name(p: Seq<char>, cut: int)
    requires
        0 <= cut <= p.len(),
        forall|k: int| cut <= k < p.len() ==> p[k] != '/',
        cut > 0 ==> p[cut - 1] == '/',
    ensures
        base_name_of(p) == p.subrange(cut, p.len() as int),
    decreases p.len(),
{
    if p.len() == 0 {
        assert(base_name_of(p) =~= p.subrange(cut, p.len() as int));
    } else if cut == p.len() {
        assert(p.last() == '/');
        assert(base_name_of(p) =~= p.subrange(cut, p.len() as int));
    } else {
        assert(p.last() != '/');
        lemma_base_name(p.drop_last(), cut);
        assert(base_name_of(p.drop_last()) == p.drop_last().subrange(cut, p.len() - 1));
        assert(p.drop_last().subrange(cut, p.len() - 1) =~= p.subrange(cut, p.len() - 1));
        assert(base_name_of(p) =~= p.subrange(cut, p.len() as int));
    }
}

/// The file name under which an archive entry is written into the
/// repository, if it is a template at all.
///
/// The entry's path is flattened to the part after its last `/`, and only
/// base names ending in `gitignore` are kept; everything else is skipped.
pub fn extraction_file_name(entry_name: &str) -> (r: Option<String>)
    ensures
        match r {
            Some(s) => seq_ends_with(base_name_of(entry_name@), "gitignore"@) && s@
                == base_name_of(entry_name@),
            None => !seq_ends_with(base_name_of(entry_name@), "gitignore"@),
        },
{
    let len: usize = entry_name.unicode_len();
    let mut cut: usize = len;
    while cut > 0 && entry_name.get_char(cut - 1) != '/'
        invariant
            cut <= len,
            len == entry_name@.len(),
            forall|k: int| cut <= k < len ==> entry_name@[k] != '/',
        decreases cut,
    {
        cut = cut - 1;
    }
    proof {
        lemma_base_name(entry_name@, cut as int);
    }
    let base: &str = entry_name.substring_char(cut, len);
    if str_ends_with(base, "gitignore") {
        Some(base.to_owned())
    } else {
        None
    }
}

} // verus!
